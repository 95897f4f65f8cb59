//! Storage encoding of the records: compact JSON objects with the fields in
//! declaration order, as the wire form writes them. Worker keys are
//! underscored (`last_online`), status keys hyphenated (`last-update`).
//! Timestamps are RFC 3339 text in UTC (`Z`), with as many fraction digits
//! as the nanoseconds need. Strings escape `"`, `\` and control bytes the
//! way compact JSON writers do (`\n`, `\t`, ..., else `\u00XX`).
//!
//! The decoder reads that form: the same keys in the same order, no spaces,
//! and in a string the escapes above (a `\u00XX` below 0x80 is accepted).
use vstd::prelude::*;
use vstd::slice::slice_subrange;
use vstd::utf8::{decode_utf8, encode_utf8, encode_utf8_decode_utf8, encode_utf8_valid_utf8, valid_utf8};

use crate::msg::{MirrorStatus, MirrorStatusView, SyncStatus, Timestamp, WorkerStatus, WorkerStatusView};

verus! {

// ---------------------------------------------------------------------------
// Strings
// ---------------------------------------------------------------------------

pub open spec fn hex_digit(d: u8) -> u8 {
    if d < 10 {
        (0x30 + d) as u8
    } else {
        (0x57 + d) as u8
    }
}

pub open spec fn hex_val(c: u8) -> Option<u8> {
    if 0x30 <= c <= 0x39 {
        Some((c - 0x30) as u8)
    } else if 0x61 <= c <= 0x66 {
        Some((c - 0x57) as u8)
    } else {
        None
    }
}

/// The escaped form of one byte inside a JSON string.
pub open spec fn esc_byte(c: u8) -> Seq<u8> {
    if c == 0x22 {
        seq![0x5cu8, 0x22u8]
    } else if c == 0x5c {
        seq![0x5cu8, 0x5cu8]
    } else if c == 0x08 {
        seq![0x5cu8, 0x62u8]
    } else if c == 0x09 {
        seq![0x5cu8, 0x74u8]
    } else if c == 0x0a {
        seq![0x5cu8, 0x6eu8]
    } else if c == 0x0c {
        seq![0x5cu8, 0x66u8]
    } else if c == 0x0d {
        seq![0x5cu8, 0x72u8]
    } else if c < 0x20 {
        seq![0x5cu8, 0x75u8, 0x30u8, 0x30u8, hex_digit(c / 16), hex_digit(c % 16)]
    } else {
        seq![c]
    }
}

pub open spec fn esc(b: Seq<u8>) -> Seq<u8>
    decreases b.len(),
{
    if b.len() == 0 {
        seq![]
    } else {
        esc_byte(b[0]) + esc(b.drop_first())
    }
}

/// The byte that a one-letter escape stands for.
pub open spec fn simple_unesc(c: u8) -> Option<u8> {
    if c == 0x22 {
        Some(0x22u8)
    } else if c == 0x5c {
        Some(0x5cu8)
    } else if c == 0x62 {
        Some(0x08u8)
    } else if c == 0x74 {
        Some(0x09u8)
    } else if c == 0x6e {
        Some(0x0au8)
    } else if c == 0x66 {
        Some(0x0cu8)
    } else if c == 0x72 {
        Some(0x0du8)
    } else {
        None
    }
}

pub open spec fn prepend(p: Seq<u8>, r: Option<(Seq<u8>, int)>) -> Option<(Seq<u8>, int)> {
    match r {
        Some((s, e)) => Some((p + s, e)),
        None => None,
    }
}

/// The bytes of the JSON string whose body starts at `pos` (after its
/// opening quote), and the position after its closing quote.
pub open spec fn unesc_from(b: Seq<u8>, pos: int) -> Option<(Seq<u8>, int)>
    decreases b.len() - pos,
{
    if pos < 0 || pos >= b.len() {
        None
    } else if b[pos] == 0x22 {
        Some((seq![], pos + 1))
    } else if b[pos] == 0x5c {
        if pos + 1 < b.len() && simple_unesc(b[pos + 1]) is Some {
            prepend(seq![simple_unesc(b[pos + 1])->0], unesc_from(b, pos + 2))
        } else if b.len() - pos > 5 && b[pos + 1] == 0x75 && b[pos + 2] == 0x30 && b[pos + 3]
            == 0x30 && hex_val(b[pos + 4]) is Some && hex_val(b[pos + 4])->0 < 8 && hex_val(
            b[pos + 5],
        ) is Some {
            prepend(
                seq![(16 * hex_val(b[pos + 4])->0 + hex_val(b[pos + 5])->0) as u8],
                unesc_from(b, pos + 6),
            )
        } else {
            None
        }
    } else if b[pos] < 0x20 {
        None
    } else {
        prepend(seq![b[pos]], unesc_from(b, pos + 1))
    }
}

// ---------------------------------------------------------------------------
// Fields and records
// ---------------------------------------------------------------------------

pub const K_ID: &'static str = "{\"id\":";
pub const K_URL: &'static str = ",\"url\":";
pub const K_TOKEN: &'static str = ",\"token\":";
pub const K_LAST_ONLINE: &'static str = ",\"last_online\":";
pub const K_LAST_REGISTER: &'static str = ",\"last_register\":";
pub const K_NAME: &'static str = "{\"name\":";
pub const K_WORKER: &'static str = ",\"worker\":";
pub const K_UPSTREAM: &'static str = ",\"upstream\":";
pub const K_SIZE: &'static str = ",\"size\":";
pub const K_ERROR_MSG: &'static str = ",\"error-msg\":";
pub const K_LAST_UPDATE: &'static str = ",\"last-update\":";
pub const K_LAST_STARTED: &'static str = ",\"last-started\":";
pub const K_LAST_ENDED: &'static str = ",\"last-ended\":";
pub const K_NEXT_SCHEDULED: &'static str = ",\"next-scheduled\":";
pub const K_STATUS: &'static str = ",\"status\":";
pub const K_IS_MASTER: &'static str = ",\"is-master\":";
pub const END: &'static str = "}";
pub const TRUE: &'static str = "true";
pub const FALSE: &'static str = "false";

/// The UTF-8 bytes of a literal.
pub open spec fn lit(s: &str) -> Seq<u8> {
    encode_utf8(s@)
}

/// A key literal followed by a JSON string holding the bytes `c`.
pub open spec fn field_bytes(key: Seq<u8>, c: Seq<u8>) -> Seq<u8> {
    key + seq![0x22u8] + esc(c) + seq![0x22u8]
}

/// The bytes of the string that follows `key` at `pos`, and the position after it.
pub open spec fn field_at(b: Seq<u8>, pos: int, key: Seq<u8>) -> Option<(Seq<u8>, int)> {
    if 0 <= pos && pos + key.len() < b.len() && b.subrange(pos, pos + key.len()) == key && b[pos
        + key.len()] == 0x22 {
        unesc_from(b, pos + key.len() + 1)
    } else {
        None
    }
}

/// `b` holds `l` at `pos`.
pub open spec fn lit_at(b: Seq<u8>, pos: int, l: Seq<u8>) -> bool {
    0 <= pos && pos + l.len() <= b.len() && b.subrange(pos, pos + l.len()) == l
}

/// The flag written as `true` or `false` after `key` at `pos`, and the position after it.
pub open spec fn flag_at(b: Seq<u8>, pos: int, key: Seq<u8>) -> Option<(bool, int)> {
    if lit_at(b, pos, key) && lit_at(b, pos + key.len(), lit(TRUE)) {
        Some((true, pos + key.len() + lit(TRUE).len()))
    } else if lit_at(b, pos, key) && lit_at(b, pos + key.len(), lit(FALSE)) {
        Some((false, pos + key.len() + lit(FALSE).len()))
    } else {
        None
    }
}

pub open spec fn flag_lit(f: bool) -> Seq<u8> {
    if f {
        lit(TRUE)
    } else {
        lit(FALSE)
    }
}

/// What `chrono` writes for an instant in RFC 3339 (UTC, `Z`, as many
/// fraction digits as needed); `None` when it is no valid instant.
pub uninterp spec fn rfc3339_of(secs: i64, nanos: u32) -> Option<Seq<char>>;

/// The instant that `chrono` reads from RFC 3339 text, as seconds and nanoseconds.
pub uninterp spec fn instant_of(text: Seq<char>) -> Option<(i64, u32)>;

/// Seconds from the start of year 0 to the end of year 9999, the years that
/// RFC 3339 writes with four digits.
pub open spec fn in_rfc_years(secs: i64) -> bool {
    -62_167_219_200 <= secs <= 253_402_300_799
}

/// The timestamp has an RFC 3339 text with a four-digit year.
pub open spec fn time_fits(t: Timestamp) -> bool {
    in_rfc_years(t.secs) && rfc3339_of(t.secs, t.nanos) is Some
}

pub open spec fn time_text(t: Timestamp) -> Seq<u8> {
    encode_utf8(rfc3339_of(t.secs, t.nanos)->0)
}

pub open spec fn time_of(raw: Seq<u8>) -> Option<Timestamp> {
    if valid_utf8(raw) {
        match instant_of(decode_utf8(raw)) {
            Some((secs, nanos)) => Some(Timestamp { secs, nanos }),
            None => None,
        }
    } else {
        None
    }
}

pub open spec fn text_of(raw: Seq<u8>) -> Option<Seq<char>> {
    if valid_utf8(raw) {
        Some(decode_utf8(raw))
    } else {
        None
    }
}

pub open spec fn status_name(s: SyncStatus) -> Seq<char> {
    match s {
        SyncStatus::Failed => "failed"@,
        SyncStatus::Success => "success"@,
        SyncStatus::Syncing => "syncing"@,
        SyncStatus::PreSyncing => "pre-syncing"@,
        SyncStatus::Paused => "paused"@,
        SyncStatus::Disabled => "disabled"@,
    }
}

pub open spec fn status_of_raw(raw: Seq<u8>) -> Option<SyncStatus> {
    if raw == encode_utf8("failed"@) {
        Some(SyncStatus::Failed)
    } else if raw == encode_utf8("success"@) {
        Some(SyncStatus::Success)
    } else if raw == encode_utf8("syncing"@) {
        Some(SyncStatus::Syncing)
    } else if raw == encode_utf8("pre-syncing"@) {
        Some(SyncStatus::PreSyncing)
    } else if raw == encode_utf8("paused"@) {
        Some(SyncStatus::Paused)
    } else if raw == encode_utf8("disabled"@) {
        Some(SyncStatus::Disabled)
    } else {
        None
    }
}

/// The record can be written: each timestamp has its RFC 3339 text.
pub open spec fn worker_fits(w: WorkerStatusView) -> bool {
    time_fits(w.last_online) && time_fits(w.last_register)
}

pub open spec fn worker_pieces(w: WorkerStatusView) -> Seq<Seq<u8>> {
    seq![
        field_bytes(lit(K_ID), encode_utf8(w.id)),
        field_bytes(lit(K_URL), encode_utf8(w.url)),
        field_bytes(lit(K_TOKEN), encode_utf8(w.token)),
        field_bytes(lit(K_LAST_ONLINE), time_text(w.last_online)),
        field_bytes(lit(K_LAST_REGISTER), time_text(w.last_register)),
        lit(END),
    ]
}

pub open spec fn cat(ps: Seq<Seq<u8>>) -> Seq<u8>
    decreases ps.len(),
{
    if ps.len() == 0 {
        seq![]
    } else {
        cat(ps.drop_last()) + ps.last()
    }
}

pub open spec fn worker_bytes(w: WorkerStatusView) -> Seq<u8> {
    cat(worker_pieces(w))
}

/// The record can be written: each timestamp has its RFC 3339 text.
pub open spec fn mirror_fits(m: MirrorStatusView) -> bool {
    time_fits(m.last_update) && time_fits(m.last_started) && time_fits(m.last_ended) && time_fits(
        m.next_scheduled,
    )
}

pub open spec fn mirror_pieces(m: MirrorStatusView) -> Seq<Seq<u8>> {
    seq![
        field_bytes(lit(K_NAME), encode_utf8(m.name)),
        field_bytes(lit(K_WORKER), encode_utf8(m.worker)),
        field_bytes(lit(K_UPSTREAM), encode_utf8(m.upstream)),
        field_bytes(lit(K_SIZE), encode_utf8(m.size)),
        field_bytes(lit(K_ERROR_MSG), encode_utf8(m.error_msg)),
        field_bytes(lit(K_LAST_UPDATE), time_text(m.last_update)),
        field_bytes(lit(K_LAST_STARTED), time_text(m.last_started)),
        field_bytes(lit(K_LAST_ENDED), time_text(m.last_ended)),
        field_bytes(lit(K_NEXT_SCHEDULED), time_text(m.next_scheduled)),
        field_bytes(lit(K_STATUS), encode_utf8(status_name(m.status))),
        lit(K_IS_MASTER) + flag_lit(m.is_master),
        lit(END),
    ]
}

pub open spec fn mirror_bytes(m: MirrorStatusView) -> Seq<u8> {
    cat(mirror_pieces(m))
}

/// The string fields of a record: raw bytes of each, and the position after the last.
pub open spec fn fields_at(b: Seq<u8>, pos: int, keys: Seq<Seq<u8>>) -> Option<(Seq<Seq<u8>>, int)>
    decreases keys.len(),
{
    if keys.len() == 0 {
        Some((seq![], pos))
    } else {
        match fields_at(b, pos, keys.drop_last()) {
            Some((vs, p)) => match field_at(b, p, keys.last()) {
                Some((v, q)) => Some((vs.push(v), q)),
                None => None,
            },
            None => None,
        }
    }
}

pub open spec fn worker_keys() -> Seq<Seq<u8>> {
    seq![lit(K_ID), lit(K_URL), lit(K_TOKEN), lit(K_LAST_ONLINE), lit(K_LAST_REGISTER)]
}

pub open spec fn mirror_keys() -> Seq<Seq<u8>> {
    seq![
        lit(K_NAME),
        lit(K_WORKER),
        lit(K_UPSTREAM),
        lit(K_SIZE),
        lit(K_ERROR_MSG),
        lit(K_LAST_UPDATE),
        lit(K_LAST_STARTED),
        lit(K_LAST_ENDED),
        lit(K_NEXT_SCHEDULED),
        lit(K_STATUS),
    ]
}

/// The worker record that `b` encodes, if it encodes one.
pub open spec fn parse_worker(b: Seq<u8>) -> Option<WorkerStatusView> {
    match fields_at(b, 0, worker_keys()) {
        Some((vs, p)) => if lit_at(b, p, lit(END)) && p + lit(END).len() == b.len() && text_of(vs[0])
            is Some && text_of(vs[1]) is Some && text_of(vs[2]) is Some && time_of(vs[3]) is Some
            && time_of(vs[4]) is Some {
            Some(
                WorkerStatusView {
                    id: text_of(vs[0])->0,
                    url: text_of(vs[1])->0,
                    token: text_of(vs[2])->0,
                    last_online: time_of(vs[3])->0,
                    last_register: time_of(vs[4])->0,
                },
            )
        } else {
            None
        },
        None => None,
    }
}

/// The mirror status record that `b` encodes, if it encodes one.
pub open spec fn parse_mirror(b: Seq<u8>) -> Option<MirrorStatusView> {
    match fields_at(b, 0, mirror_keys()) {
        Some((vs, p)) => match flag_at(b, p, lit(K_IS_MASTER)) {
            Some((is_master, q)) => if lit_at(b, q, lit(END)) && q + lit(END).len() == b.len()
                && text_of(vs[0]) is Some && text_of(vs[1]) is Some && text_of(vs[2]) is Some
                && text_of(vs[3]) is Some && text_of(vs[4]) is Some && time_of(vs[5]) is Some
                && time_of(vs[6]) is Some && time_of(vs[7]) is Some && time_of(vs[8]) is Some
                && status_of_raw(vs[9]) is Some {
                Some(
                    MirrorStatusView {
                        name: text_of(vs[0])->0,
                        worker: text_of(vs[1])->0,
                        upstream: text_of(vs[2])->0,
                        size: text_of(vs[3])->0,
                        error_msg: text_of(vs[4])->0,
                        last_update: time_of(vs[5])->0,
                        last_started: time_of(vs[6])->0,
                        last_ended: time_of(vs[7])->0,
                        next_scheduled: time_of(vs[8])->0,
                        status: status_of_raw(vs[9])->0,
                        is_master,
                    },
                )
            } else {
                None
            },
            None => None,
        },
        None => None,
    }
}

// ---------------------------------------------------------------------------
// Timestamps through chrono
// ---------------------------------------------------------------------------

/// Relies on chrono's `DateTime::<Utc>::from_timestamp` (`None` for no valid
/// instant) and `to_rfc3339_opts(SecondsFormat::AutoSi, true)`, the form that
/// chrono's serde support writes; the text depends on the instant alone.
#[verifier::external_body]
fn rfc3339_text(t: Timestamp) -> (r: Option<String>)
    ensures
        match r {
            Some(s) => rfc3339_of(t.secs, t.nanos) == Some(s@),
            None => rfc3339_of(t.secs, t.nanos) is None,
        },
{
    match chrono::DateTime::from_timestamp(t.secs, t.nanos) {
        Some(d) => Some(d.to_rfc3339_opts(chrono::SecondsFormat::AutoSi, true)),
        None => None,
    }
}

/// Relies on chrono's `DateTime::parse_from_rfc3339` with `timestamp` and
/// `timestamp_subsec_nanos`: the instant that RFC 3339 text names. Text that
/// chrono wrote for an instant with a four-digit year reads back as it.
#[verifier::external_body]
fn instant_of_text(s: &str) -> (r: Option<Timestamp>)
    ensures
        match r {
            Some(t) => instant_of(s@) == Some((t.secs, t.nanos)),
            None => instant_of(s@) is None,
        },
        forall|secs: i64, nanos: u32|
            in_rfc_years(secs) && #[trigger] rfc3339_of(secs, nanos) == Some(s@) ==> r == Some(
                (Timestamp { secs, nanos }),
            ),
{
    match chrono::DateTime::parse_from_rfc3339(s) {
        Ok(d) => Some(Timestamp { secs: d.timestamp(), nanos: d.timestamp_subsec_nanos() }),
        Err(_) => None,
    }
}

/// Relies on `String::from_utf8`: it succeeds exactly on valid UTF-8, and the
/// string then holds the characters that the bytes encode.
#[verifier::external_body]
fn utf8_string(b: &[u8]) -> (r: Option<String>)
    ensures
        r is Some <==> valid_utf8(b@),
        r matches Some(s) ==> s@ == decode_utf8(b@),
{
    String::from_utf8(b.to_vec()).ok()
}

// ---------------------------------------------------------------------------
// Lemmas
// ---------------------------------------------------------------------------

proof fn lemma_esc_append(a: Seq<u8>, b: Seq<u8>)
    ensures
        esc(a + b) == esc(a) + esc(b),
    decreases a.len(),
{
    if a.len() == 0 {
        assert(a + b =~= b);
        assert(esc(a) + esc(b) =~= esc(b));
    } else {
        assert((a + b).drop_first() =~= a.drop_first() + b);
        lemma_esc_append(a.drop_first(), b);
        assert(esc(a) + esc(b) =~= esc_byte(a[0]) + (esc(a.drop_first()) + esc(b)));
    }
}

proof fn lemma_unesc_byte(b: Seq<u8>, pos: int, c: u8)
    requires
        0 <= pos,
        pos + esc_byte(c).len() <= b.len(),
        b.subrange(pos, pos + esc_byte(c).len()) == esc_byte(c),
    ensures
        unesc_from(b, pos) == prepend(seq![c], unesc_from(b, pos + esc_byte(c).len())),
{
    let e = esc_byte(c);
    assert forall|j: int| 0 <= j < e.len() implies b[pos + j] == e[j] by {
        assert(b.subrange(pos, pos + e.len())[j] == b[pos + j]);
    }
    if c == 0x22 || c == 0x5c || c == 0x08 || c == 0x09 || c == 0x0a || c == 0x0c || c == 0x0d {
        assert(b[pos] == 0x5c);
        assert(simple_unesc(b[pos + 1]) == Some(c));
    } else if c < 0x20 {
        let hi = c / 16;
        let lo = c % 16;
        assert(b[pos + 4] == hex_digit(hi));
        assert(b[pos + 5] == hex_digit(lo));
        assert(hex_val(hex_digit(hi)) == Some(hi));
        assert(hex_val(hex_digit(lo)) == Some(lo));
        assert((16 * hi + lo) as u8 == c);
    } else {
        assert(e[0] == c);
        assert(b[pos + 0] == e[0]);
    }
}

proof fn lemma_unesc(c: Seq<u8>, b: Seq<u8>, pos: int)
    requires
        0 <= pos,
        pos + esc(c).len() < b.len(),
        b.subrange(pos, pos + esc(c).len()) == esc(c),
        b[pos + esc(c).len()] == 0x22,
    ensures
        unesc_from(b, pos) == Some((c, pos + esc(c).len() + 1)),
    decreases c.len(),
{
    if c.len() == 0 {
        assert(c =~= seq![]);
    } else {
        let e0 = esc_byte(c[0]);
        let t = c.drop_first();
        let k = e0.len() as int;
        assert(esc(c) == e0 + esc(t));
        assert(b.subrange(pos, pos + k) =~= e0) by {
            assert(b.subrange(pos, pos + k) =~= b.subrange(pos, pos + esc(c).len()).subrange(0, k));
        }
        assert(b.subrange(pos + k, pos + k + esc(t).len()) =~= esc(t)) by {
            assert(b.subrange(pos + k, pos + k + esc(t).len()) =~= b.subrange(
                pos,
                pos + esc(c).len(),
            ).subrange(k, esc(c).len() as int));
        }
        lemma_unesc_byte(b, pos, c[0]);
        lemma_unesc(t, b, pos + k);
        assert(seq![c[0]] + t =~= c);
    }
}

proof fn lemma_field_at(pre: Seq<u8>, key: Seq<u8>, c: Seq<u8>, rest: Seq<u8>)
    ensures
        field_at(pre + field_bytes(key, c) + rest, pre.len() as int, key) == Some(
            (c, pre.len() + field_bytes(key, c).len() as int),
        ),
{
    let b = pre + field_bytes(key, c) + rest;
    let p = pre.len() as int;
    let q = p + key.len() + 1;
    assert(b.subrange(p, p + key.len()) =~= key);
    assert(b[p + key.len()] == 0x22);
    assert(b.subrange(q, q + esc(c).len()) =~= esc(c));
    assert(b[q + esc(c).len()] == 0x22);
    lemma_unesc(c, b, q);
}

proof fn lemma_cat_split(ps: Seq<Seq<u8>>, i: int)
    requires
        0 <= i <= ps.len(),
    ensures
        cat(ps) == cat(ps.take(i)) + cat(ps.skip(i)),
    decreases ps.len(),
{
    if i == ps.len() {
        assert(ps.take(i) =~= ps);
        assert(ps.skip(i) =~= Seq::<Seq<u8>>::empty());
        assert(cat(ps) + seq![] =~= cat(ps));
    } else {
        let dl = ps.drop_last();
        lemma_cat_split(dl, i);
        assert(dl.take(i) =~= ps.take(i));
        assert(ps.skip(i).drop_last() =~= dl.skip(i));
        assert(ps.skip(i).last() == ps.last());
        assert(cat(ps.take(i)) + cat(ps.skip(i)) =~= cat(dl.take(i)) + cat(dl.skip(i)) + ps.last());
    }
}

proof fn lemma_cat_one(ps: Seq<Seq<u8>>, i: int)
    requires
        0 <= i < ps.len(),
    ensures
        cat(ps.skip(i)) == ps[i] + cat(ps.skip(i + 1)),
        cat(ps.take(i + 1)) == cat(ps.take(i)) + ps[i],
{
    let s = ps.skip(i);
    lemma_cat_split(s, 1);
    assert(s.take(1).drop_last() =~= Seq::<Seq<u8>>::empty());
    assert(s.take(1).last() == ps[i]);
    assert(cat(s.take(1).drop_last()) == Seq::<u8>::empty());
    assert(cat(s.take(1)) =~= ps[i]);
    assert(s.skip(1) =~= ps.skip(i + 1));
    assert(ps.take(i + 1).drop_last() =~= ps.take(i));
}

proof fn lemma_fields_round(
    b: Seq<u8>,
    keys: Seq<Seq<u8>>,
    cs: Seq<Seq<u8>>,
    ps: Seq<Seq<u8>>,
    i: int,
)
    requires
        b == cat(ps),
        keys.len() <= ps.len(),
        cs.len() == keys.len(),
        forall|j: int| 0 <= j < keys.len() ==> ps[j] == field_bytes(keys[j], cs[j]),
        0 <= i <= keys.len(),
    ensures
        fields_at(b, 0, keys.take(i)) == Some((cs.take(i), cat(ps.take(i)).len() as int)),
    decreases i,
{
    if i == 0 {
        assert(keys.take(0) =~= Seq::<Seq<u8>>::empty());
        assert(cs.take(0) =~= Seq::<Seq<u8>>::empty());
        assert(ps.take(0) =~= Seq::<Seq<u8>>::empty());
    } else {
        let j = i - 1;
        lemma_fields_round(b, keys, cs, ps, j);
        assert(keys.take(i).drop_last() =~= keys.take(j));
        assert(keys.take(i).last() == keys[j]);
        lemma_cat_split(ps, j);
        lemma_cat_one(ps, j);
        let pre = cat(ps.take(j));
        assert(b == pre + field_bytes(keys[j], cs[j]) + cat(ps.skip(i))) by {
            assert(pre + cat(ps.skip(j)) =~= pre + ps[j] + cat(ps.skip(i)));
        }
        lemma_field_at(pre, keys[j], cs[j], cat(ps.skip(i)));
        assert(cs.take(j).push(cs[j]) =~= cs.take(i));
    }
}

proof fn lemma_lit_bytes()
    ensures
        lit(TRUE).len() == 4,
        lit(TRUE)[0] == 0x74,
        lit(FALSE).len() == 5,
        lit(FALSE)[0] == 0x66,
{
    reveal_strlit("true");
    reveal_strlit("false");
    vstd::utf8::is_ascii_chars_encode_utf8("true"@);
    vstd::utf8::is_ascii_chars_encode_utf8("false"@);
}

proof fn lemma_enc_ne(a: Seq<char>, b: Seq<char>)
    requires
        a != b,
    ensures
        encode_utf8(a) != encode_utf8(b),
{
    encode_utf8_decode_utf8(a);
    encode_utf8_decode_utf8(b);
}

proof fn lemma_status_round(s: SyncStatus)
    ensures
        status_of_raw(encode_utf8(status_name(s))) == Some(s),
{
    reveal_strlit("failed");
    reveal_strlit("success");
    reveal_strlit("syncing");
    reveal_strlit("pre-syncing");
    reveal_strlit("paused");
    reveal_strlit("disabled");
    let n0 = "failed"@;
    let n1 = "success"@;
    let n2 = "syncing"@;
    let n3 = "pre-syncing"@;
    let n4 = "paused"@;
    let n5 = "disabled"@;
    assert(n1.len() != n0.len());
    assert(n2.len() != n0.len());
    assert(n2[1] != n1[1]);
    assert(n3.len() != n0.len() && n3.len() != n1.len() && n3.len() != n2.len());
    assert(n4[0] != n0[0]);
    assert(n4.len() != n1.len() && n4.len() != n2.len() && n4.len() != n3.len());
    assert(n5.len() != n0.len() && n5.len() != n1.len() && n5.len() != n2.len() && n5.len()
        != n3.len() && n5.len() != n4.len());
    lemma_enc_ne(n1, n0);
    lemma_enc_ne(n2, n0);
    lemma_enc_ne(n2, n1);
    lemma_enc_ne(n3, n0);
    lemma_enc_ne(n3, n1);
    lemma_enc_ne(n3, n2);
    lemma_enc_ne(n4, n0);
    lemma_enc_ne(n4, n1);
    lemma_enc_ne(n4, n2);
    lemma_enc_ne(n4, n3);
    lemma_enc_ne(n5, n0);
    lemma_enc_ne(n5, n1);
    lemma_enc_ne(n5, n2);
    lemma_enc_ne(n5, n3);
    lemma_enc_ne(n5, n4);
}

// ---------------------------------------------------------------------------
// Round trip of whole records
// ---------------------------------------------------------------------------

pub open spec fn worker_contents(w: WorkerStatusView) -> Seq<Seq<u8>> {
    seq![
        encode_utf8(w.id),
        encode_utf8(w.url),
        encode_utf8(w.token),
        time_text(w.last_online),
        time_text(w.last_register),
    ]
}

pub open spec fn mirror_contents(m: MirrorStatusView) -> Seq<Seq<u8>> {
    seq![
        encode_utf8(m.name),
        encode_utf8(m.worker),
        encode_utf8(m.upstream),
        encode_utf8(m.size),
        encode_utf8(m.error_msg),
        time_text(m.last_update),
        time_text(m.last_started),
        time_text(m.last_ended),
        time_text(m.next_scheduled),
        encode_utf8(status_name(m.status)),
    ]
}

proof fn lemma_text_round(s: Seq<char>)
    ensures
        text_of(encode_utf8(s)) == Some(s),
{
    encode_utf8_valid_utf8(s);
    encode_utf8_decode_utf8(s);
}

/// The fields of an encoded worker read back as its contents, followed by
/// the closing brace and nothing else.
proof fn lemma_worker_fields(w: WorkerStatusView)
    ensures
        fields_at(worker_bytes(w), 0, worker_keys()) == Some(
            (worker_contents(w), worker_bytes(w).len() - lit(END).len()),
        ),
        lit_at(worker_bytes(w), worker_bytes(w).len() - lit(END).len(), lit(END)),
        text_of(worker_contents(w)[0]) == Some(w.id),
        text_of(worker_contents(w)[1]) == Some(w.url),
        text_of(worker_contents(w)[2]) == Some(w.token),
        worker_fits(w) ==> text_of(worker_contents(w)[3]) == rfc3339_of(
            w.last_online.secs,
            w.last_online.nanos,
        ) && text_of(worker_contents(w)[4]) == rfc3339_of(
            w.last_register.secs,
            w.last_register.nanos,
        ),
{
    let ps = worker_pieces(w);
    let b = cat(ps);
    let keys = worker_keys();
    let cs = worker_contents(w);
    lemma_fields_round(b, keys, cs, ps, 5);
    assert(keys.take(5) =~= keys);
    assert(cs.take(5) =~= cs);
    lemma_cat_one(ps, 5);
    assert(ps.take(6) =~= ps);
    let p = cat(ps.take(5)).len() as int;
    assert(b.subrange(p, b.len() as int) =~= lit(END));
    lemma_text_round(w.id);
    lemma_text_round(w.url);
    lemma_text_round(w.token);
    if worker_fits(w) {
        lemma_text_round(rfc3339_of(w.last_online.secs, w.last_online.nanos)->0);
        lemma_text_round(rfc3339_of(w.last_register.secs, w.last_register.nanos)->0);
    }
}

#[verifier::rlimit(100)]
proof fn lemma_mirror_fields(m: MirrorStatusView)
    ensures
        ({
            let b = mirror_bytes(m);
            let p = b.len() - lit(END).len() - lit(K_IS_MASTER).len() - flag_lit(m.is_master).len();
            &&& fields_at(b, 0, mirror_keys()) == Some((mirror_contents(m), p))
            &&& flag_at(b, p, lit(K_IS_MASTER)) == Some(
                (m.is_master, b.len() - lit(END).len()),
            )
            &&& lit_at(b, b.len() - lit(END).len(), lit(END))
        }),
        text_of(mirror_contents(m)[0]) == Some(m.name),
        text_of(mirror_contents(m)[1]) == Some(m.worker),
        text_of(mirror_contents(m)[2]) == Some(m.upstream),
        text_of(mirror_contents(m)[3]) == Some(m.size),
        text_of(mirror_contents(m)[4]) == Some(m.error_msg),
        status_of_raw(mirror_contents(m)[9]) == Some(m.status),
        mirror_fits(m) ==> text_of(mirror_contents(m)[5]) == rfc3339_of(
            m.last_update.secs,
            m.last_update.nanos,
        ) && text_of(mirror_contents(m)[6]) == rfc3339_of(
            m.last_started.secs,
            m.last_started.nanos,
        ) && text_of(mirror_contents(m)[7]) == rfc3339_of(m.last_ended.secs, m.last_ended.nanos)
            && text_of(mirror_contents(m)[8]) == rfc3339_of(
            m.next_scheduled.secs,
            m.next_scheduled.nanos,
        ),
{
    let ps = mirror_pieces(m);
    let b = cat(ps);
    let keys = mirror_keys();
    let cs = mirror_contents(m);
    lemma_fields_round(b, keys, cs, ps, 10);
    assert(keys.take(10) =~= keys);
    assert(cs.take(10) =~= cs);
    lemma_cat_one(ps, 10);
    lemma_cat_one(ps, 11);
    assert(ps.take(12) =~= ps);
    let p = cat(ps.take(10)).len() as int;
    let key = lit(K_IS_MASTER);
    let fl = flag_lit(m.is_master);
    let q = p + key.len() + fl.len();
    assert(b.subrange(p, p + key.len()) =~= key);
    assert(b.subrange(p + key.len(), q) =~= fl);
    assert(b.subrange(q, b.len() as int) =~= lit(END));
    lemma_lit_bytes();
    if !m.is_master {
        assert(b[p + key.len()] == 0x66);
        assert(b.subrange(p + key.len(), p + key.len() + 4)[0] == 0x66);
    }
    lemma_text_round(m.name);
    lemma_text_round(m.worker);
    lemma_text_round(m.upstream);
    lemma_text_round(m.size);
    lemma_text_round(m.error_msg);
    lemma_status_round(m.status);
    if mirror_fits(m) {
        lemma_text_round(rfc3339_of(m.last_update.secs, m.last_update.nanos)->0);
        lemma_text_round(rfc3339_of(m.last_started.secs, m.last_started.nanos)->0);
        lemma_text_round(rfc3339_of(m.last_ended.secs, m.last_ended.nanos)->0);
        lemma_text_round(rfc3339_of(m.next_scheduled.secs, m.next_scheduled.nanos)->0);
    }
}

/// A decoded worker's last timestamp text is kept in the record's pieces.
proof fn lemma_fields_none(b: Seq<u8>, pos: int, keys: Seq<Seq<u8>>, i: int)
    requires
        0 <= i <= keys.len(),
        fields_at(b, pos, keys.take(i)) is None,
    ensures
        fields_at(b, pos, keys) is None,
    decreases keys.len() - i,
{
    if i == keys.len() {
        assert(keys.take(i) =~= keys);
    } else {
        assert(keys.take(i + 1).drop_last() =~= keys.take(i));
        lemma_fields_none(b, pos, keys, i + 1);
    }
}

// ---------------------------------------------------------------------------
// Executable encoding and decoding
// ---------------------------------------------------------------------------

/// Whether two byte strings are equal.
pub fn bytes_equal(a: &[u8], b: &[u8]) -> (r: bool)
    ensures
        r == (a@ == b@),
{
    if a.len() != b.len() {
        return false;
    }
    let mut i: usize = 0;
    while i < a.len()
        invariant
            i <= a@.len(),
            a@.len() == b@.len(),
            forall|j: int| 0 <= j < i ==> a@[j] == b@[j],
        decreases a@.len() - i,
    {
        if a[i] != b[i] {
            return false;
        }
        i = i + 1;
    }
    assert(a@ =~= b@);
    true
}

fn lit_at_exec(b: &[u8], pos: usize, l: &str) -> (r: bool)
    requires
        pos <= b@.len(),
    ensures
        r == lit_at(b@, pos as int, lit(l)),
{
    let lb = l.as_bytes();
    if b.len() - pos < lb.len() {
        return false;
    }
    bytes_equal(slice_subrange(b, pos, pos + lb.len()), lb)
}

fn hex_digit_exec(d: u8) -> (r: u8)
    requires
        d < 16,
    ensures
        r == hex_digit(d),
{
    if d < 10 {
        0x30 + d
    } else {
        0x57 + d
    }
}

fn push_escaped(out: &mut Vec<u8>, c: &[u8])
    ensures
        final(out)@ == old(out)@ + esc(c@),
{
    let ghost start = out@;
    let mut i: usize = 0;
    while i < c.len()
        invariant
            i <= c@.len(),
            out@ == start + esc(c@.take(i as int)),
        decreases c@.len() - i,
    {
        let x = c[i];
        proof {
            assert(c@.take(i + 1) =~= c@.take(i as int) + seq![x]);
            lemma_esc_append(c@.take(i as int), seq![x]);
            assert(seq![x].drop_first() =~= Seq::<u8>::empty());
        }
        if x == 0x22 || x == 0x5c {
            out.push(0x5c);
            out.push(x);
        } else if x == 0x08 {
            out.push(0x5c);
            out.push(0x62);
        } else if x == 0x09 {
            out.push(0x5c);
            out.push(0x74);
        } else if x == 0x0a {
            out.push(0x5c);
            out.push(0x6e);
        } else if x == 0x0c {
            out.push(0x5c);
            out.push(0x66);
        } else if x == 0x0d {
            out.push(0x5c);
            out.push(0x72);
        } else if x < 0x20 {
            out.push(0x5c);
            out.push(0x75);
            out.push(0x30);
            out.push(0x30);
            out.push(hex_digit_exec(x / 16));
            out.push(hex_digit_exec(x % 16));
        } else {
            out.push(x);
        }
        proof {
            assert(seq![x][0] == x);
            assert(esc(seq![x].drop_first()) == Seq::<u8>::empty());
            assert(esc(seq![x]) =~= esc_byte(x));
            assert(out@ =~= start + esc(c@.take(i + 1)));
        }
        i = i + 1;
    }
    assert(c@.take(c@.len() as int) =~= c@);
}

fn push_lit(out: &mut Vec<u8>, l: &str)
    ensures
        final(out)@ == old(out)@ + lit(l),
{
    let lb = l.as_bytes();
    let mut i: usize = 0;
    let ghost start = out@;
    while i < lb.len()
        invariant
            i <= lb@.len(),
            lb@ == lit(l),
            out@ == start + lb@.take(i as int),
        decreases lb@.len() - i,
    {
        out.push(lb[i]);
        assert(lb@.take(i + 1) =~= lb@.take(i as int).push(lb@[i as int]));
        i = i + 1;
    }
    assert(lb@.take(lb@.len() as int) =~= lb@);
}

fn push_field(out: &mut Vec<u8>, key: &str, c: &[u8])
    ensures
        final(out)@ == old(out)@ + field_bytes(lit(key), c@),
{
    let ghost start = out@;
    push_lit(out, key);
    out.push(0x22);
    push_escaped(out, c);
    out.push(0x22);
    assert(out@ =~= start + field_bytes(lit(key), c@));
}

fn time_text_exec(t: Timestamp) -> (r: Option<String>)
    ensures
        match r {
            Some(s) => time_fits(t) && encode_utf8(s@) == time_text(t),
            None => !time_fits(t),
        },
{
    if t.secs < -62_167_219_200 || t.secs > 253_402_300_799 {
        return None;
    }
    rfc3339_text(t)
}

fn status_str(s: SyncStatus) -> (r: &'static str)
    ensures
        r@ == status_name(s),
{
    match s {
        SyncStatus::Failed => "failed",
        SyncStatus::Success => "success",
        SyncStatus::Syncing => "syncing",
        SyncStatus::PreSyncing => "pre-syncing",
        SyncStatus::Paused => "paused",
        SyncStatus::Disabled => "disabled",
    }
}

/// Encodes a worker record; `None` when a timestamp has no RFC 3339 text
/// with a four-digit year.
pub fn encode_worker(w: &WorkerStatus) -> (r: Option<Vec<u8>>)
    ensures
        match r {
            Some(b) => worker_fits(w@) && b@ == worker_bytes(w@),
            None => !worker_fits(w@),
        },
{
    let lo = match time_text_exec(w.last_online) {
        Some(s) => s,
        None => return None,
    };
    let lr = match time_text_exec(w.last_register) {
        Some(s) => s,
        None => return None,
    };
    let ghost ps = worker_pieces(w@);
    let mut out: Vec<u8> = Vec::new();
    proof {
        assert(ps.take(0) =~= Seq::<Seq<u8>>::empty());
        assert(out@ =~= cat(ps.take(0)));
    }
    push_field(&mut out, K_ID, w.id.as_str().as_bytes());
    proof { lemma_cat_one(ps, 0); }
    push_field(&mut out, K_URL, w.url.as_str().as_bytes());
    proof { lemma_cat_one(ps, 1); }
    push_field(&mut out, K_TOKEN, w.token.as_str().as_bytes());
    proof { lemma_cat_one(ps, 2); }
    push_field(&mut out, K_LAST_ONLINE, lo.as_str().as_bytes());
    proof { lemma_cat_one(ps, 3); }
    push_field(&mut out, K_LAST_REGISTER, lr.as_str().as_bytes());
    proof { lemma_cat_one(ps, 4); }
    push_lit(&mut out, END);
    proof {
        lemma_cat_one(ps, 5);
        assert(ps.take(6) =~= ps);
    }
    Some(out)
}

/// Encodes a mirror status record; `None` when a timestamp has no RFC 3339
/// text with a four-digit year.
#[verifier::rlimit(100)]
pub fn encode_mirror(m: &MirrorStatus) -> (r: Option<Vec<u8>>)
    ensures
        match r {
            Some(b) => mirror_fits(m@) && b@ == mirror_bytes(m@),
            None => !mirror_fits(m@),
        },
{
    let t1 = match time_text_exec(m.last_update) {
        Some(s) => s,
        None => return None,
    };
    let t2 = match time_text_exec(m.last_started) {
        Some(s) => s,
        None => return None,
    };
    let t3 = match time_text_exec(m.last_ended) {
        Some(s) => s,
        None => return None,
    };
    let t4 = match time_text_exec(m.next_scheduled) {
        Some(s) => s,
        None => return None,
    };
    let ghost ps = mirror_pieces(m@);
    let mut out: Vec<u8> = Vec::new();
    proof {
        assert(ps.take(0) =~= Seq::<Seq<u8>>::empty());
        assert(out@ =~= cat(ps.take(0)));
    }
    push_field(&mut out, K_NAME, m.name.as_str().as_bytes());
    proof { lemma_cat_one(ps, 0); }
    push_field(&mut out, K_WORKER, m.worker.as_str().as_bytes());
    proof { lemma_cat_one(ps, 1); }
    push_field(&mut out, K_UPSTREAM, m.upstream.as_str().as_bytes());
    proof { lemma_cat_one(ps, 2); }
    push_field(&mut out, K_SIZE, m.size.as_str().as_bytes());
    proof { lemma_cat_one(ps, 3); }
    push_field(&mut out, K_ERROR_MSG, m.error_msg.as_str().as_bytes());
    proof { lemma_cat_one(ps, 4); }
    push_field(&mut out, K_LAST_UPDATE, t1.as_str().as_bytes());
    proof { lemma_cat_one(ps, 5); }
    push_field(&mut out, K_LAST_STARTED, t2.as_str().as_bytes());
    proof { lemma_cat_one(ps, 6); }
    push_field(&mut out, K_LAST_ENDED, t3.as_str().as_bytes());
    proof { lemma_cat_one(ps, 7); }
    push_field(&mut out, K_NEXT_SCHEDULED, t4.as_str().as_bytes());
    proof { lemma_cat_one(ps, 8); }
    push_field(&mut out, K_STATUS, status_str(m.status).as_bytes());
    proof { lemma_cat_one(ps, 9); }
    let ghost before = out@;
    push_lit(&mut out, K_IS_MASTER);
    if m.is_master {
        push_lit(&mut out, TRUE);
    } else {
        push_lit(&mut out, FALSE);
    }
    proof {
        assert(out@ =~= before + ps[10]);
        lemma_cat_one(ps, 10);
    }
    push_lit(&mut out, END);
    proof {
        lemma_cat_one(ps, 11);
        assert(ps.take(12) =~= ps);
    }
    Some(out)
}

fn simple_unesc_exec(c: u8) -> (r: Option<u8>)
    ensures
        r == simple_unesc(c),
{
    if c == 0x22 {
        Some(0x22)
    } else if c == 0x5c {
        Some(0x5c)
    } else if c == 0x62 {
        Some(0x08)
    } else if c == 0x74 {
        Some(0x09)
    } else if c == 0x6e {
        Some(0x0a)
    } else if c == 0x66 {
        Some(0x0c)
    } else if c == 0x72 {
        Some(0x0d)
    } else {
        None
    }
}

fn hex_val_exec(c: u8) -> (r: Option<u8>)
    ensures
        r == hex_val(c),
{
    if 0x30 <= c && c <= 0x39 {
        Some(c - 0x30)
    } else if 0x61 <= c && c <= 0x66 {
        Some(c - 0x57)
    } else {
        None
    }
}

proof fn lemma_prepend_push(out: Seq<u8>, x: u8, r: Option<(Seq<u8>, int)>)
    ensures
        prepend(out, prepend(seq![x], r)) == prepend(out.push(x), r),
{
    if let Some((s, e)) = r {
        assert(out + (seq![x] + s) =~= out.push(x) + s);
    }
}

/// Reads the JSON string whose body starts at `start`.
fn read_string(b: &[u8], start: usize) -> (r: Option<(Vec<u8>, usize)>)
    requires
        start <= b@.len(),
    ensures
        match r {
            Some((v, e)) => unesc_from(b@, start as int) == Some((v@, e as int)) && e <= b@.len(),
            None => unesc_from(b@, start as int) is None,
        },
{
    let mut out: Vec<u8> = Vec::new();
    let mut pos = start;
    assert(out@ + Seq::<u8>::empty() =~= out@);
    while pos < b.len()
        invariant
            start <= pos <= b@.len(),
            unesc_from(b@, start as int) == prepend(out@, unesc_from(b@, pos as int)),
        decreases b@.len() - pos,
    {
        let c = b[pos];
        if c == 0x22 {
            assert(out@ + Seq::<u8>::empty() =~= out@);
            return Some((out, pos + 1));
        } else if c == 0x5c {
            if pos + 1 < b.len() {
                match simple_unesc_exec(b[pos + 1]) {
                    Some(x) => {
                        proof { lemma_prepend_push(out@, x, unesc_from(b@, pos + 2)); }
                        out.push(x);
                        pos = pos + 2;
                        continue;
                    },
                    None => {},
                }
            }
            if b.len() - pos > 5 && b[pos + 1] == 0x75 && b[pos + 2] == 0x30 && b[pos + 3] == 0x30 {
                match (hex_val_exec(b[pos + 4]), hex_val_exec(b[pos + 5])) {
                    (Some(h), Some(l)) => {
                        if h < 8 {
                            let x = 16 * h + l;
                            proof { lemma_prepend_push(out@, x, unesc_from(b@, pos + 6)); }
                            out.push(x);
                            pos = pos + 6;
                            continue;
                        }
                    },
                    _ => {},
                }
            }
            return None;
        } else if c < 0x20 {
            return None;
        } else {
            proof { lemma_prepend_push(out@, c, unesc_from(b@, pos + 1)); }
            out.push(c);
            pos = pos + 1;
        }
    }
    None
}

fn read_field(b: &[u8], pos: usize, key: &str) -> (r: Option<(Vec<u8>, usize)>)
    requires
        pos <= b@.len(),
    ensures
        match r {
            Some((v, e)) => field_at(b@, pos as int, lit(key)) == Some((v@, e as int)) && e <= b@.len(),
            None => field_at(b@, pos as int, lit(key)) is None,
        },
{
    let kb = key.as_bytes();
    if b.len() - pos <= kb.len() {
        return None;
    }
    if !bytes_equal(slice_subrange(b, pos, pos + kb.len()), kb) || b[pos + kb.len()] != 0x22 {
        return None;
    }
    read_string(b, pos + kb.len() + 1)
}

pub open spec fn lits(keys: Seq<&str>) -> Seq<Seq<u8>> {
    keys.map_values(|k: &str| lit(k))
}

pub open spec fn views(vs: Seq<Vec<u8>>) -> Seq<Seq<u8>> {
    vs.map_values(|v: Vec<u8>| v@)
}

fn read_fields(b: &[u8], keys: &Vec<&str>) -> (r: Option<(Vec<Vec<u8>>, usize)>)
    ensures
        match r {
            Some((vs, p)) => fields_at(b@, 0, lits(keys@)) == Some((views(vs@), p as int)) && p
                <= b@.len(),
            None => fields_at(b@, 0, lits(keys@)) is None,
        },
{
    let ghost ks = lits(keys@);
    let mut vs: Vec<Vec<u8>> = Vec::new();
    let mut pos: usize = 0;
    let mut i: usize = 0;
    proof {
        assert(ks.take(0) =~= Seq::<Seq<u8>>::empty());
        assert(views(vs@) =~= Seq::<Seq<u8>>::empty());
    }
    while i < keys.len()
        invariant
            i <= keys@.len(),
            ks == lits(keys@),
            pos <= b@.len(),
            fields_at(b@, 0, ks.take(i as int)) == Some((views(vs@), pos as int)),
        decreases keys@.len() - i,
    {
        proof {
            assert(ks.take(i + 1).drop_last() =~= ks.take(i as int));
            assert(ks.take(i + 1).last() == lit(keys@[i as int]));
        }
        match read_field(b, pos, keys[i]) {
            Some((v, e)) => {
                vs.push(v);
                pos = e;
                proof {
                    assert(views(vs@) =~= views(vs@.drop_last()).push(vs@.last()@)) by {
                        assert(views(vs@) =~= views(vs@.drop_last()).push(vs@.last()@));
                    }
                }
            },
            None => {
                proof { lemma_fields_none(b@, 0, ks, i + 1); }
                assert(ks.take(ks.len() as int) =~= ks);
                return None;
            },
        }
        i = i + 1;
    }
    proof {
        assert(ks.take(i as int) =~= ks);
    }
    Some((vs, pos))
}

fn text_exec(raw: &Vec<u8>) -> (r: Option<String>)
    ensures
        match r {
            Some(s) => text_of(raw@) == Some(s@),
            None => text_of(raw@) is None,
        },
{
    utf8_string(raw.as_slice())
}

fn time_exec(raw: &Vec<u8>) -> (r: Option<Timestamp>)
    ensures
        r == time_of(raw@),
        forall|t: Timestamp|
            in_rfc_years(t.secs) && text_of(raw@) is Some && #[trigger] rfc3339_of(t.secs, t.nanos)
                == text_of(raw@) ==> r == Some(t),
{
    match utf8_string(raw.as_slice()) {
        Some(s) => {
            let r = instant_of_text(s.as_str());
            assert forall|t: Timestamp|
                in_rfc_years(t.secs) && text_of(raw@) is Some && #[trigger] rfc3339_of(
                    t.secs,
                    t.nanos,
                ) == text_of(raw@) implies r == Some(t) by {
                assert(rfc3339_of(t.secs, t.nanos) == Some(s@));
            }
            r
        },
        None => None,
    }
}

fn status_exec(raw: &Vec<u8>) -> (r: Option<SyncStatus>)
    ensures
        r == status_of_raw(raw@),
{
    let b = raw.as_slice();
    if bytes_equal(b, "failed".as_bytes()) {
        Some(SyncStatus::Failed)
    } else if bytes_equal(b, "success".as_bytes()) {
        Some(SyncStatus::Success)
    } else if bytes_equal(b, "syncing".as_bytes()) {
        Some(SyncStatus::Syncing)
    } else if bytes_equal(b, "pre-syncing".as_bytes()) {
        Some(SyncStatus::PreSyncing)
    } else if bytes_equal(b, "paused".as_bytes()) {
        Some(SyncStatus::Paused)
    } else if bytes_equal(b, "disabled".as_bytes()) {
        Some(SyncStatus::Disabled)
    } else {
        None
    }
}

/// Decodes a worker record; `None` when `b` is not the encoding of one. The
/// encoding of a record that fits decodes back to it.
pub fn decode_worker(b: &[u8]) -> (r: Option<WorkerStatus>)
    ensures
        match r {
            Some(w) => parse_worker(b@) == Some(w@),
            None => parse_worker(b@) is None,
        },
        forall|v: WorkerStatusView|
            worker_fits(v) && b@ == #[trigger] worker_bytes(v) ==> (r matches Some(w) && w@ == v),
{
    let keys = vec![K_ID, K_URL, K_TOKEN, K_LAST_ONLINE, K_LAST_REGISTER];
    proof {
        assert(lits(keys@) =~= worker_keys());
    }
    let r = decode_worker_fields(b, &keys);
    proof {
        assert forall|v: WorkerStatusView| worker_fits(v) && b@ == #[trigger] worker_bytes(v) implies (
        r matches Some(w) && w@ == v) by {
            lemma_worker_fields(v);
        }
    }
    r
}

fn decode_worker_fields(b: &[u8], keys: &Vec<&str>) -> (r: Option<WorkerStatus>)
    requires
        lits(keys@) == worker_keys(),
    ensures
        match r {
            Some(w) => parse_worker(b@) == Some(w@),
            None => parse_worker(b@) is None,
        },
        forall|v: WorkerStatusView|
            (worker_fits(v) && fields_at(b@, 0, worker_keys()) == Some(
                (worker_contents(v), b@.len() - lit(END).len()),
            ) && lit_at(b@, b@.len() - lit(END).len(), lit(END)) && text_of(worker_contents(v)[0])
                == Some(v.id) && text_of(worker_contents(v)[1]) == Some(v.url) && text_of(
                worker_contents(v)[2],
            ) == Some(v.token) && text_of(worker_contents(v)[3]) == rfc3339_of(
                v.last_online.secs,
                v.last_online.nanos,
            ) && text_of(worker_contents(v)[4]) == rfc3339_of(
                v.last_register.secs,
                v.last_register.nanos,
            )) ==> (r matches Some(w) && w@ == v),
{
    let (vs, p) = match read_fields(b, keys) {
        Some(x) => x,
        None => return None,
    };
    assert(views(vs@).len() == 5) by {
        assert(worker_keys().len() == 5);
        lemma_fields_len(b@, 0, worker_keys());
    }
    let ghost cv = views(vs@);
    assert(cv[0] == vs@[0]@ && cv[1] == vs@[1]@ && cv[2] == vs@[2]@ && cv[3] == vs@[3]@ && cv[4]
        == vs@[4]@);
    if !(lit_at_exec(b, p, END) && b.len() - p == END.as_bytes().len()) {
        return None;
    }
    let id = match text_exec(&vs[0]) {
        Some(x) => x,
        None => return None,
    };
    let url = match text_exec(&vs[1]) {
        Some(x) => x,
        None => return None,
    };
    let token = match text_exec(&vs[2]) {
        Some(x) => x,
        None => return None,
    };
    let last_online = match time_exec(&vs[3]) {
        Some(x) => x,
        None => return None,
    };
    let last_register = match time_exec(&vs[4]) {
        Some(x) => x,
        None => return None,
    };
    Some(WorkerStatus { id, url, token, last_online, last_register })
}

proof fn lemma_fields_len(b: Seq<u8>, pos: int, keys: Seq<Seq<u8>>)
    ensures
        fields_at(b, pos, keys) matches Some((vs, _)) ==> vs.len() == keys.len(),
    decreases keys.len(),
{
    if keys.len() > 0 {
        lemma_fields_len(b, pos, keys.drop_last());
    }
}

fn read_flag(b: &[u8], pos: usize, key: &str) -> (r: Option<(bool, usize)>)
    requires
        pos <= b@.len(),
    ensures
        match r {
            Some((f, q)) => flag_at(b@, pos as int, lit(key)) == Some((f, q as int)) && q <= b@.len(),
            None => flag_at(b@, pos as int, lit(key)) is None,
        },
{
    let kb = key.as_bytes();
    assert(kb@ == lit(key));
    if !lit_at_exec(b, pos, key) {
        return None;
    }
    if b.len() - pos < kb.len() {
        return None;
    }
    let q = pos + kb.len();
    let tb = TRUE.as_bytes();
    let fb = FALSE.as_bytes();
    assert(tb@ == lit(TRUE) && fb@ == lit(FALSE));
    if lit_at_exec(b, q, TRUE) && b.len() - q >= tb.len() {
        Some((true, q + tb.len()))
    } else if lit_at_exec(b, q, FALSE) && b.len() - q >= fb.len() {
        Some((false, q + fb.len()))
    } else {
        None
    }
}

/// Decodes a mirror status record; `None` when `b` is not the encoding of
/// one. The encoding of a record that fits decodes back to it.
pub fn decode_mirror(b: &[u8]) -> (r: Option<MirrorStatus>)
    ensures
        match r {
            Some(m) => parse_mirror(b@) == Some(m@),
            None => parse_mirror(b@) is None,
        },
        forall|v: MirrorStatusView|
            mirror_fits(v) && b@ == #[trigger] mirror_bytes(v) ==> (r matches Some(m) && m@ == v),
{
    let keys = vec![
        K_NAME,
        K_WORKER,
        K_UPSTREAM,
        K_SIZE,
        K_ERROR_MSG,
        K_LAST_UPDATE,
        K_LAST_STARTED,
        K_LAST_ENDED,
        K_NEXT_SCHEDULED,
        K_STATUS,
    ];
    proof {
        assert(lits(keys@) =~= mirror_keys());
    }
    let r = decode_mirror_fields(b, &keys);
    proof {
        assert forall|v: MirrorStatusView| mirror_fits(v) && b@ == #[trigger] mirror_bytes(v) implies (
        r matches Some(m) && m@ == v) by {
            lemma_mirror_fields(v);
        }
    }
    r
}

#[verifier::rlimit(100)]
fn decode_mirror_fields(b: &[u8], keys: &Vec<&str>) -> (r: Option<MirrorStatus>)
    requires
        lits(keys@) == mirror_keys(),
    ensures
        match r {
            Some(m) => parse_mirror(b@) == Some(m@),
            None => parse_mirror(b@) is None,
        },
        forall|v: MirrorStatusView|
            ({
                let p = b@.len() - lit(END).len() - lit(K_IS_MASTER).len() - flag_lit(
                    v.is_master,
                ).len();
                &&& mirror_fits(v)
                &&& fields_at(b@, 0, mirror_keys()) == Some((#[trigger] mirror_contents(v), p))
                &&& flag_at(b@, p, lit(K_IS_MASTER)) == Some((v.is_master, b@.len() - lit(END).len()))
                &&& lit_at(b@, b@.len() - lit(END).len(), lit(END))
                &&& text_of(mirror_contents(v)[0]) == Some(v.name)
                &&& text_of(mirror_contents(v)[1]) == Some(v.worker)
                &&& text_of(mirror_contents(v)[2]) == Some(v.upstream)
                &&& text_of(mirror_contents(v)[3]) == Some(v.size)
                &&& text_of(mirror_contents(v)[4]) == Some(v.error_msg)
                &&& status_of_raw(mirror_contents(v)[9]) == Some(v.status)
                &&& text_of(mirror_contents(v)[5]) == rfc3339_of(
                    v.last_update.secs,
                    v.last_update.nanos,
                )
                &&& text_of(mirror_contents(v)[6]) == rfc3339_of(
                    v.last_started.secs,
                    v.last_started.nanos,
                )
                &&& text_of(mirror_contents(v)[7]) == rfc3339_of(
                    v.last_ended.secs,
                    v.last_ended.nanos,
                )
                &&& text_of(mirror_contents(v)[8]) == rfc3339_of(
                    v.next_scheduled.secs,
                    v.next_scheduled.nanos,
                )
            }) ==> (r matches Some(m) && m@ == v),
{
    let (vs, p) = match read_fields(b, keys) {
        Some(x) => x,
        None => return None,
    };
    assert(views(vs@).len() == 10) by {
        lemma_fields_len(b@, 0, mirror_keys());
    }
    let ghost cv = views(vs@);
    assert(forall|i: int| 0 <= i < 10 ==> cv[i] == #[trigger] vs@[i]@);
    let (is_master, q) = match read_flag(b, p, K_IS_MASTER) {
        Some(x) => x,
        None => return None,
    };
    if !(lit_at_exec(b, q, END) && b.len() - q == END.as_bytes().len()) {
        return None;
    }
    let name = match text_exec(&vs[0]) {
        Some(x) => x,
        None => return None,
    };
    let worker = match text_exec(&vs[1]) {
        Some(x) => x,
        None => return None,
    };
    let upstream = match text_exec(&vs[2]) {
        Some(x) => x,
        None => return None,
    };
    let size = match text_exec(&vs[3]) {
        Some(x) => x,
        None => return None,
    };
    let error_msg = match text_exec(&vs[4]) {
        Some(x) => x,
        None => return None,
    };
    let last_update = match time_exec(&vs[5]) {
        Some(x) => x,
        None => return None,
    };
    let last_started = match time_exec(&vs[6]) {
        Some(x) => x,
        None => return None,
    };
    let last_ended = match time_exec(&vs[7]) {
        Some(x) => x,
        None => return None,
    };
    let next_scheduled = match time_exec(&vs[8]) {
        Some(x) => x,
        None => return None,
    };
    let status = match status_exec(&vs[9]) {
        Some(x) => x,
        None => return None,
    };
    Some(
        MirrorStatus {
            name,
            worker,
            upstream,
            size,
            error_msg,
            last_update,
            last_started,
            last_ended,
            next_scheduled,
            status,
            is_master,
        },
    )
}

} // verus!
