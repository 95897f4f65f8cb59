//! Laws that relate the store's operations to one another.
use vstd::prelude::*;
use vstd::utf8::{
    char_is_scalar,
    encode_scalar,
    encode_utf8,
    encode_utf8_decode_utf8,
    has_width_1_encoding,
    has_width_2_encoding,
    has_width_3_encoding,
};

use crate::adapter::{key_worker, mirror_key, mirror_list_of, served_by, slash_from};
use crate::kv::lists_bucket;
use crate::codec::{mirror_bytes, parse_mirror, worker_bytes};
use crate::kv::BucketView;
use crate::msg::{MirrorStatusView, WorkerStatusView};

verus! {

/// Creating a worker and then getting it by its id gives back the same
/// record: `create_worker` leaves the bytes below under the id, and
/// `get_worker` on a bucket holding a fitting record's bytes returns that
/// record (with an engine that does not fail).
pub proof fn create_then_get(store: BucketView, w: WorkerStatusView)
    ensures
        store.insert(w.id, worker_bytes(w)).contains_key(w.id),
        store.insert(w.id, worker_bytes(w))[w.id] == worker_bytes(w),
{
}

/// After a worker is created and then deleted, its id is absent, so getting
/// or deleting it again fails with `NotFound`.
pub proof fn create_then_delete(store: BucketView, w: WorkerStatusView)
    ensures
        !store.insert(w.id, worker_bytes(w)).remove(w.id).contains_key(w.id),
{
}

/// A later update of the same mirror and worker replaces the earlier record
/// whole: the bucket holds the later record's bytes, which `get_mirror_status`
/// returns as that record.
pub proof fn update_twice_then_get_status(
    store: BucketView,
    worker: Seq<char>,
    name: Seq<char>,
    first: MirrorStatusView,
    second: MirrorStatusView,
)
    ensures
        store.insert(mirror_key(name, worker), mirror_bytes(first)).insert(
            mirror_key(name, worker),
            mirror_bytes(second),
        )[mirror_key(name, worker)] == mirror_bytes(second),
{
}

proof fn lemma_encode_concat(a: Seq<char>, b: Seq<char>)
    ensures
        encode_utf8(a + b) == encode_utf8(a) + encode_utf8(b),
    decreases a.len(),
{
    if a.len() == 0 {
        assert(a + b =~= b);
        assert(encode_utf8(a) + encode_utf8(b) =~= encode_utf8(b));
    } else {
        assert((a + b).drop_first() =~= a.drop_first() + b);
        lemma_encode_concat(a.drop_first(), b);
        assert(encode_utf8(a) + encode_utf8(b) =~= encode_scalar(a[0] as u32) + (encode_utf8(
            a.drop_first(),
        ) + encode_utf8(b)));
    }
}

proof fn lemma_scalar_no_slash(c: char)
    requires
        c != '/',
    ensures
        !encode_scalar(c as u32).contains(0x2f),
{
    let v = c as u32;
    char_is_scalar(c);
    if has_width_1_encoding(v) {
        assert((v & 0x7f) as u8 != 0x2f) by (bit_vector)
            requires
                v <= 0x7f,
                v != 0x2f,
        ;
    } else if has_width_2_encoding(v) {
        assert((0xC0 | ((v >> 6) & 0x1F) as u8) as u8 != 0x2f) by (bit_vector);
        assert((0x80 | (v & 0x3F) as u8) as u8 != 0x2f) by (bit_vector);
    } else if has_width_3_encoding(v) {
        assert((0xE0 | ((v >> 12) & 0x0F) as u8) as u8 != 0x2f) by (bit_vector);
        assert((0x80 | ((v >> 6) & 0x3F) as u8) as u8 != 0x2f) by (bit_vector);
        assert((0x80 | (v & 0x3F) as u8) as u8 != 0x2f) by (bit_vector);
    } else {
        assert((0xF0 | ((v >> 18) & 0x7) as u8) as u8 != 0x2f) by (bit_vector);
        assert((0x80 | ((v >> 12) & 0x3F) as u8) as u8 != 0x2f) by (bit_vector);
        assert((0x80 | ((v >> 6) & 0x3F) as u8) as u8 != 0x2f) by (bit_vector);
        assert((0x80 | (v & 0x3F) as u8) as u8 != 0x2f) by (bit_vector);
    }
}

proof fn lemma_encode_no_slash(s: Seq<char>)
    requires
        !s.contains('/'),
    ensures
        !encode_utf8(s).contains(0x2f),
    decreases s.len(),
{
    if s.len() > 0 {
        assert(s[0] != '/');
        lemma_scalar_no_slash(s[0]);
        assert(!s.drop_first().contains('/')) by {
            if s.drop_first().contains('/') {
                let i = choose|i: int| 0 <= i < s.drop_first().len() && s.drop_first()[i] == '/';
                assert(s[i + 1] == '/');
            }
        }
        lemma_encode_no_slash(s.drop_first());
        let e = encode_utf8(s);
        let h = encode_scalar(s[0] as u32);
        let t = encode_utf8(s.drop_first());
        assert(e == h + t);
        if e.contains(0x2f) {
            let i = choose|i: int| 0 <= i < e.len() && e[i] == 0x2f;
            if i < h.len() {
                assert(h[i] == 0x2f);
            } else {
                assert(t[i - h.len()] == 0x2f);
            }
        }
    }
}

proof fn lemma_slash_skip(b: Seq<u8>, i: int, j: int)
    requires
        0 <= i <= j <= b.len(),
        forall|k: int| i <= k < j ==> b[k] != 0x2f,
    ensures
        slash_from(b, i) == slash_from(b, j),
    decreases j - i,
{
    if i < j {
        lemma_slash_skip(b, i + 1, j);
    }
}

/// The second segment of the key `"{name}/{worker}"` is `worker`, when
/// neither id holds `/`.
pub proof fn lemma_key_worker(name: Seq<char>, worker: Seq<char>)
    requires
        !name.contains('/'),
        !worker.contains('/'),
    ensures
        key_worker(mirror_key(name, worker)) == Some(encode_utf8(worker)),
{
    let a = encode_utf8(name);
    let c = encode_utf8(worker);
    lemma_encode_concat(name + seq!['/'], worker);
    lemma_encode_concat(name, seq!['/']);
    reveal_with_fuel(encode_utf8, 2);
    let v = '/' as u32;
    assert(v == 0x2f);
    assert((v & 0x7f) as u8 == 0x2f) by (bit_vector)
        requires
            v == 0x2f,
    ;
    assert(encode_scalar(v) =~= seq![0x2fu8]);
    assert(encode_utf8(seq!['/']) =~= seq![0x2fu8]);
    let b = encode_utf8(mirror_key(name, worker));
    assert(b =~= a + seq![0x2fu8] + c);
    lemma_encode_no_slash(name);
    lemma_encode_no_slash(worker);
    assert forall|k: int| 0 <= k < a.len() implies b[k] != 0x2f by {
        assert(b[k] == a[k]);
    }
    lemma_slash_skip(b, 0, a.len() as int);
    assert forall|k: int| a.len() + 1 <= k < b.len() implies b[k] != 0x2f by {
        assert(b[k] == c[k - a.len() - 1]);
    }
    lemma_slash_skip(b, a.len() + 1int, b.len() as int);
    assert(b.subrange(a.len() + 1int, b.len() as int) =~= c);
}

/// When mirror and worker ids hold no `/`, the status stored for mirror
/// `name` on worker `worker` is listed for worker `w` exactly when
/// `worker` is `w`.
pub proof fn listed_for_worker_iff(name: Seq<char>, worker: Seq<char>, w: Seq<char>)
    requires
        !name.contains('/'),
        !worker.contains('/'),
    ensures
        served_by(mirror_key(name, worker), w) <==> worker == w,
{
    lemma_key_worker(name, worker);
    encode_utf8_decode_utf8(worker);
    encode_utf8_decode_utf8(w);
}

/// A stored value that decodes to a status kept under the key made of its
/// own mirror and worker ids, neither of which holds `/`.
pub open spec fn keyed_by_own_ids(k: Seq<char>, b: Seq<u8>) -> bool {
    match parse_mirror(b) {
        Some(v) => k == mirror_key(v.name, v.worker) && !v.name.contains('/') && !v.worker.contains(
            '/',
        ),
        None => false,
    }
}

/// When every status is stored under the key made of its own mirror and
/// worker ids and no id holds `/`, listing for worker `w` gives exactly the
/// stored statuses whose worker is `w`.
pub proof fn listed_statuses_are_workers_own(ms: Seq<MirrorStatusView>, m: BucketView, w: Seq<char>)
    requires
        mirror_list_of(ms, m, w),
        forall|k: Seq<char>| #[trigger] m.contains_key(k) ==> keyed_by_own_ids(k, m[k]),
    ensures
        forall|v: MirrorStatusView|
            ms.contains(v) <==> exists|k: Seq<char>|
                #![trigger m[k]]
                m.contains_key(k) && parse_mirror(m[k]) == Some(v) && v.worker == w,
{
    let es = choose|es: Seq<(Seq<char>, Seq<u8>)>|
        #[trigger] lists_bucket(es, m) && ms.len() == es.filter(
            |e: (Seq<char>, Seq<u8>)| served_by(e.0, w),
        ).len() && forall|i: int|
            0 <= i < ms.len() ==> parse_mirror(
                es.filter(|e: (Seq<char>, Seq<u8>)| served_by(e.0, w))[i].1,
            ) == Some(ms[i]);
    let pred = |e: (Seq<char>, Seq<u8>)| served_by(e.0, w);
    let f = es.filter(pred);
    assert forall|v: MirrorStatusView| ms.contains(v) implies exists|k: Seq<char>|
        #![trigger m[k]]
        m.contains_key(k) && parse_mirror(m[k]) == Some(v) && v.worker == w by {
        let i = choose|i: int| 0 <= i < ms.len() && ms[i] == v;
        es.lemma_filter_pred(pred, i);
        assert(f.contains(f[i]));
        es.lemma_filter_contains_rev(pred, f[i]);
        let j = choose|j: int| 0 <= j < es.len() && es[j] == f[i];
        let k = es[j].0;
        assert(m.contains_key(k) && m[k] == es[j].1);
        assert(keyed_by_own_ids(k, m[k]));
        listed_for_worker_iff(v.name, v.worker, w);
    }
    assert forall|v: MirrorStatusView|
        (exists|k: Seq<char>|
            #![trigger m[k]]
            m.contains_key(k) && parse_mirror(m[k]) == Some(v) && v.worker == w) implies ms.contains(
        v,
    ) by {
        let k = choose|k: Seq<char>|
            #![trigger m[k]]
            m.contains_key(k) && parse_mirror(m[k]) == Some(v) && v.worker == w;
        let j = choose|j: int| 0 <= j < es.len() && #[trigger] es[j].0 == k;
        assert(keyed_by_own_ids(k, m[k]));
        listed_for_worker_iff(v.name, v.worker, w);
        assert(pred(es[j]));
        es.lemma_filter_contains(pred, j);
        let i = choose|i: int| 0 <= i < f.len() && f[i] == es[j];
        assert(ms[i] == v);
    }
}

} // verus!
