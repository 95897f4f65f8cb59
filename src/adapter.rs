//! The record store: workers and mirror statuses kept in two buckets of a
//! key-value engine.
//!
//! Operations made of several engine calls are not atomic as a unit: a
//! concurrent writer may interleave between the read and the write of
//! `refresh_worker_at`, the check and the delete of `delete_worker`, and the
//! scan and the deletes of `flush_disabled_jobs`. Each single call is atomic.
use vstd::prelude::*;
use vstd::slice::slice_subrange;
use vstd::string::StringExecFns;
use vstd::utf8::encode_utf8;

use crate::codec::{
    bytes_equal,
    decode_mirror,
    decode_worker,
    encode_mirror,
    encode_worker,
    mirror_bytes,
    mirror_fits,
    parse_mirror,
    parse_worker,
    worker_bytes,
    worker_fits,
};
use crate::error::AdapterError;
use crate::kv::{lists_bucket, entry_view, BucketView, KvAdapter};
use crate::msg::{is_stale, MirrorStatus, SyncStatus, MirrorStatusView, Timestamp, WorkerStatus, WorkerStatusView};

verus! {

/// Bucket of worker records, keyed by worker id.
pub const WORKER_BUCKETKEY: &'static str = "workers";

/// Bucket of mirror statuses, keyed by `"{mirror}/{worker}"`.
pub const STATUS_BUCKETKEY: &'static str = "mirror_status";

pub open spec fn workers_bucket() -> Seq<char> {
    WORKER_BUCKETKEY@
}

pub open spec fn statuses_bucket() -> Seq<char> {
    STATUS_BUCKETKEY@
}

/// `m` with the bucket `name` added, empty, unless it is there already.
pub open spec fn with_bucket(m: Map<Seq<char>, BucketView>, name: Seq<char>) -> Map<Seq<char>, BucketView> {
    if m.contains_key(name) {
        m
    } else {
        m.insert(name, Map::empty())
    }
}

/// The record with `last_online` set to `t`.
pub open spec fn with_last_online(w: Option<WorkerStatusView>, t: Timestamp) -> Option<
    WorkerStatusView,
> {
    match w {
        Some(v) => Some(WorkerStatusView { last_online: t, ..v }),
        None => None,
    }
}

/// Composite key of a mirror status: `"{mirror}/{worker}"`.
pub open spec fn mirror_key(mirror: Seq<char>, worker: Seq<char>) -> Seq<char> {
    mirror + seq!['/'] + worker
}

/// Position of the first `/` byte of `b` at or after `i`, or the length of `b`.
pub open spec fn slash_from(b: Seq<u8>, i: int) -> int
    decreases b.len() - i,
{
    if i < 0 || i >= b.len() {
        b.len() as int
    } else if b[i] == 0x2f {
        i
    } else {
        slash_from(b, i + 1)
    }
}

/// The second `/`-separated segment of a key, as UTF-8; `None` when the key
/// has no `/`.
pub open spec fn key_worker(k: Seq<char>) -> Option<Seq<u8>> {
    let b = encode_utf8(k);
    let i = slash_from(b, 0);
    if i < b.len() {
        Some(b.subrange(i + 1, slash_from(b, i + 1)))
    } else {
        None
    }
}

/// The key's second segment is the worker id.
pub open spec fn served_by(k: Seq<char>, worker: Seq<char>) -> bool {
    key_worker(k) == Some(encode_utf8(worker))
}

/// `ws` holds the decoded value of each record of `m`, each once.
pub open spec fn worker_list(ws: Seq<WorkerStatusView>, m: BucketView) -> bool {
    exists|es: Seq<(Seq<char>, Seq<u8>)>|
        #[trigger] lists_bucket(es, m) && ws.len() == es.len() && forall|i: int|
            0 <= i < es.len() ==> parse_worker(es[i].1) == Some(ws[i])
}

/// `ms` holds the decoded value of each record of `m`, each once.
pub open spec fn mirror_list(ms: Seq<MirrorStatusView>, m: BucketView) -> bool {
    exists|es: Seq<(Seq<char>, Seq<u8>)>|
        #[trigger] lists_bucket(es, m) && ms.len() == es.len() && forall|i: int|
            0 <= i < es.len() ==> parse_mirror(es[i].1) == Some(ms[i])
}

/// `ms` holds the decoded value of each record of `m` whose key names
/// `worker` as its second segment, each once.
pub open spec fn mirror_list_of(ms: Seq<MirrorStatusView>, m: BucketView, worker: Seq<char>) -> bool {
    exists|es: Seq<(Seq<char>, Seq<u8>)>|
        #[trigger] lists_bucket(es, m) && ms.len() == es.filter(
            |e: (Seq<char>, Seq<u8>)| served_by(e.0, worker),
        ).len() && forall|i: int|
            0 <= i < ms.len() ==> parse_mirror(
                es.filter(|e: (Seq<char>, Seq<u8>)| served_by(e.0, worker))[i].1,
            ) == Some(ms[i])
}

/// A stored value that the flush sweep removes: a status that decodes and is
/// disabled or has no name.
pub open spec fn stale_value(b: Seq<u8>) -> bool {
    match parse_mirror(b) {
        Some(v) => is_stale(v),
        None => false,
    }
}

/// Every stored value decodes as a status.
pub open spec fn all_mirrors_decode(m: BucketView) -> bool {
    forall|k: Seq<char>| m.contains_key(k) ==> #[trigger] parse_mirror(m[k]) is Some
}

/// The bucket after the flush sweep: the records that are not stale.
pub open spec fn flushed(m: BucketView) -> BucketView {
    Map::new(|k: Seq<char>| m.contains_key(k) && !stale_value(m[k]), |k: Seq<char>| m[k])
}

/// Filtering one more element of `s` adds it exactly when it passes.
pub proof fn lemma_filter_take_step<A>(s: Seq<A>, pred: spec_fn(A) -> bool, i: int)
    requires
        0 <= i < s.len(),
    ensures
        s.take(i + 1).filter(pred) == (if pred(s[i]) {
            s.take(i).filter(pred).push(s[i])
        } else {
            s.take(i).filter(pred)
        }),
{
    assert(s.take(i + 1).drop_last() =~= s.take(i));
    assert(s.take(i + 1).last() == s[i]);
    reveal(Seq::filter);
}

/// Record operations over a bucketed key-value engine.
pub struct KvDBAdapter<K: KvAdapter> {
    pub inner: K,
}

impl<K: KvAdapter> KvDBAdapter<K> {
    /// The buckets of the engine.
    pub open spec fn buckets(&self) -> Map<Seq<char>, BucketView> {
        self.inner.buckets()
    }

    /// Stored worker records by id.
    pub open spec fn workers(&self) -> BucketView {
        self.inner.buckets()[workers_bucket()]
    }

    /// Stored mirror statuses by composite key.
    pub open spec fn statuses(&self) -> BucketView {
        self.inner.buckets()[statuses_bucket()]
    }

    pub open spec fn infallible(&self) -> bool {
        self.inner.infallible()
    }

    /// The engine is open and well formed, and both buckets exist.
    pub open spec fn ready(&self) -> bool {
        &&& self.inner.well_formed()
        &&& self.inner.is_open()
        &&& self.inner.buckets().contains_key(workers_bucket())
        &&& self.inner.buckets().contains_key(statuses_bucket())
    }

    /// Wraps an engine.
    pub fn new(inner: K) -> (r: Self)
        ensures
            r.inner == inner,
    {
        KvDBAdapter { inner }
    }

    /// Makes sure that both buckets exist; existing contents are kept.
    pub fn init(&mut self) -> (r: Result<(), AdapterError>)
        requires
            old(self).inner.well_formed(),
            old(self).inner.is_open(),
        ensures
            final(self).inner.well_formed(),
            final(self).inner.is_open(),
            final(self).infallible() == old(self).infallible(),
            old(self).infallible() ==> r is Ok,
            r is Ok ==> final(self).ready() && final(self).buckets() == with_bucket(
                with_bucket(old(self).buckets(), workers_bucket()),
                statuses_bucket(),
            ),
    {
        self.inner.init_bucket(WORKER_BUCKETKEY)?;
        self.inner.init_bucket(STATUS_BUCKETKEY)?;
        Ok(())
    }

    /// The worker stored under `worker_id`.
    pub fn get_worker(&self, worker_id: &str) -> (r: Result<WorkerStatus, AdapterError>)
        requires
            self.ready(),
        ensures
            forall|v: WorkerStatusView|
                self.infallible() && self.workers().contains_key(worker_id@) && worker_fits(v)
                    && self.workers()[worker_id@] == #[trigger] worker_bytes(v) ==> (r matches Ok(
                    w,
                ) && w@ == v),
            match r {
                Ok(w) => self.workers().contains_key(worker_id@) && parse_worker(
                    self.workers()[worker_id@],
                ) == Some(w@),
                Err(AdapterError::NotFound(k)) => k@ == worker_id@ && !self.workers().contains_key(
                    worker_id@,
                ),
                Err(AdapterError::DecodeError(k)) => k@ == worker_id@ && self.workers().contains_key(
                    worker_id@,
                )
                    && parse_worker(self.workers()[worker_id@]) is None,
                Err(AdapterError::EngineError(_)) => !self.infallible(),
                Err(_) => false,
            },
    {
        let v = self.inner.get(WORKER_BUCKETKEY, worker_id);
        match v {
            Ok(Some(bytes)) => match decode_worker(bytes.as_slice()) {
                Some(w) => Ok(w),
                None => Err(AdapterError::DecodeError(worker_id.to_owned())),
            },
            Ok(None) => Err(AdapterError::NotFound(worker_id.to_owned())),
            Err(e) => Err(AdapterError::EngineError(engine_message(e))),
        }
    }
    /// Stores `w` under its id, replacing any record there, and hands it back.
    pub fn create_worker(&mut self, w: WorkerStatus) -> (r: Result<WorkerStatus, AdapterError>)
        requires
            old(self).ready(),
        ensures
            final(self).ready(),
            final(self).infallible() == old(self).infallible(),
            match r {
                Ok(x) => x@ == w@ && worker_fits(w@) && final(self).buckets() == old(self).buckets().insert(
                    workers_bucket(),
                    old(self).workers().insert(w.id@, worker_bytes(w@)),
                ),
                Err(AdapterError::EncodeError(k)) => k@ == w.id@ && !worker_fits(w@) && final(self).buckets()
                    == old(self).buckets(),
                Err(AdapterError::EngineError(_)) => !old(self).infallible() && final(self).buckets()
                    == old(self).buckets(),
                Err(_) => false,
            },
    {
        proof {
            lemma_buckets_differ();
        }
        let v = match encode_worker(&w) {
            Some(v) => v,
            None => return Err(AdapterError::EncodeError(w.id.clone())),
        };
        match self.inner.put(WORKER_BUCKETKEY, w.id.as_str(), v.as_slice()) {
            Ok(()) => Ok(w),
            Err(e) => Err(AdapterError::EngineError(engine_message(e))),
        }
    }

    /// Removes the worker stored under `worker_id`; fails with `NotFound`
    /// when there is none.
    pub fn delete_worker(&mut self, worker_id: &str) -> (r: Result<(), AdapterError>)
        requires
            old(self).ready(),
        ensures
            final(self).ready(),
            final(self).infallible() == old(self).infallible(),
            match r {
                Ok(()) => old(self).workers().contains_key(worker_id@) && final(self).buckets()
                    == old(self).buckets().insert(
                    workers_bucket(),
                    old(self).workers().remove(worker_id@),
                ),
                Err(AdapterError::NotFound(k)) => k@ == worker_id@ && !old(self).workers().contains_key(
                    worker_id@,
                ) && final(self).buckets() == old(self).buckets(),
                Err(AdapterError::EngineError(_)) => !old(self).infallible() && final(self).buckets()
                    == old(self).buckets(),
                Err(_) => false,
            },
    {
        proof {
            lemma_buckets_differ();
        }
        match self.inner.get(WORKER_BUCKETKEY, worker_id) {
            Ok(Some(_)) => {},
            Ok(None) => return Err(AdapterError::NotFound(worker_id.to_owned())),
            Err(e) => return Err(AdapterError::EngineError(engine_message(e))),
        }
        match self.inner.delete(WORKER_BUCKETKEY, worker_id) {
            Ok(()) => Ok(()),
            Err(e) => Err(AdapterError::EngineError(engine_message(e))),
        }
    }

    /// Sets the stored worker's `last_online` to `now` and stores it again
    /// under its id; every other field is kept. The caller reads the clock.
    pub fn refresh_worker_at(&mut self, worker_id: &str, now: Timestamp) -> (r: Result<
        WorkerStatus,
        AdapterError,
    >)
        requires
            old(self).ready(),
        ensures
            final(self).ready(),
            final(self).infallible() == old(self).infallible(),
            old(self).infallible() && old(self).workers().contains_key(worker_id@) && (with_last_online(
                parse_worker(old(self).workers()[worker_id@]),
                now,
            ) matches Some(x) && worker_fits(x)) ==> r is Ok,
            match r {
                Ok(x) => old(self).workers().contains_key(worker_id@) && with_last_online(
                    parse_worker(old(self).workers()[worker_id@]),
                    x.last_online,
                ) == Some(x@) && x.last_online == now && final(self).buckets() == old(self).buckets().insert(
                    workers_bucket(),
                    old(self).workers().insert(x.id@, worker_bytes(x@)),
                ),
                Err(AdapterError::NotFound(k)) => k@ == worker_id@ && !old(self).workers().contains_key(
                    worker_id@,
                ) && final(self).buckets() == old(self).buckets(),
                Err(AdapterError::DecodeError(k)) => k@ == worker_id@ && old(self).workers().contains_key(worker_id@) && parse_worker(
                    old(self).workers()[worker_id@],
                ) is None && final(self).buckets() == old(self).buckets(),
                Err(AdapterError::EncodeError(_)) => old(self).workers().contains_key(worker_id@)
                    && (with_last_online(parse_worker(old(self).workers()[worker_id@]), now) matches Some(
                    x,
                ) && !worker_fits(x)) && final(self).buckets() == old(self).buckets(),
                Err(AdapterError::EngineError(_)) => !old(self).infallible() && final(self).buckets()
                    == old(self).buckets(),
                Err(_) => false,
            },
    {
        let mut w = match self.get_worker(worker_id) {
            Ok(w) => w,
            Err(e) => return Err(e),
        };
        w.last_online = now;
        self.create_worker(w)
    }

    /// Every stored worker, in no particular order; one record that does
    /// not decode fails the whole call.
    pub fn list_workers(&self) -> (r: Result<Vec<WorkerStatus>, AdapterError>)
        requires
            self.ready(),
        ensures
            match r {
                Ok(ws) => worker_list(ws@.map_values(|w: WorkerStatus| w@), self.workers()),
                Err(AdapterError::DecodeError(k)) => self.workers().contains_key(k@)
                    && parse_worker(self.workers()[k@]) is None,
                Err(AdapterError::EngineError(_)) => !self.infallible(),
                Err(_) => false,
            },
    {
        let es = match self.inner.get_all(WORKER_BUCKETKEY) {
            Ok(es) => es,
            Err(e) => return Err(AdapterError::EngineError(engine_message(e))),
        };
        let ghost ev = es@.map_values(|e| entry_view(e));
        let mut out: Vec<WorkerStatus> = Vec::new();
        let mut i: usize = 0;
        while i < es.len()
            invariant
                i <= es@.len(),
                ev == es@.map_values(|e| entry_view(e)),
                lists_bucket(ev, self.workers()),
                out@.len() == i,
                forall|j: int| 0 <= j < i ==> parse_worker(ev[j].1) == Some(#[trigger] out@[j]@),
            decreases es@.len() - i,
        {
            assert(ev[i as int] == entry_view(es@[i as int]));
            assert(self.workers().contains_key(ev[i as int].0));
            match decode_worker(es[i].1.as_slice()) {
                Some(w) => out.push(w),
                None => return Err(AdapterError::DecodeError(es[i].0.clone())),
            }
            i = i + 1;
        }
        proof {
            let ws = out@.map_values(|w: WorkerStatus| w@);
            assert(forall|j: int| 0 <= j < ev.len() ==> parse_worker(ev[j].1) == Some(ws[j]));
            assert(lists_bucket(ev, self.workers()));
        }
        Ok(out)
    }

    /// Stores `status` under `"{mirror_id}/{worker_id}"`, replacing any
    /// record there, and hands it back.
    pub fn update_mirror_status(
        &mut self,
        worker_id: &str,
        mirror_id: &str,
        status: MirrorStatus,
    ) -> (r: Result<MirrorStatus, AdapterError>)
        requires
            old(self).ready(),
        ensures
            final(self).ready(),
            final(self).infallible() == old(self).infallible(),
            match r {
                Ok(x) => x@ == status@ && mirror_fits(status@) && final(self).buckets() == old(self).buckets().insert(
                    statuses_bucket(),
                    old(self).statuses().insert(
                        mirror_key(mirror_id@, worker_id@),
                        mirror_bytes(status@),
                    ),
                ),
                Err(AdapterError::EncodeError(k)) => k@ == mirror_key(mirror_id@, worker_id@)
                    && !mirror_fits(status@) && final(self).buckets()
                    == old(self).buckets(),
                Err(AdapterError::EngineError(_)) => !old(self).infallible() && final(self).buckets()
                    == old(self).buckets(),
                Err(_) => false,
            },
    {
        proof {
            lemma_buckets_differ();
        }
        let id = mirror_key_of(worker_id, mirror_id);
        let v = match encode_mirror(&status) {
            Some(v) => v,
            None => return Err(AdapterError::EncodeError(id)),
        };
        match self.inner.put(STATUS_BUCKETKEY, id.as_str(), v.as_slice()) {
            Ok(()) => Ok(status),
            Err(e) => Err(AdapterError::EngineError(engine_message(e))),
        }
    }

    /// The status stored under `"{mirror_id}/{worker_id}"`.
    pub fn get_mirror_status(&self, worker_id: &str, mirror_id: &str) -> (r: Result<
        MirrorStatus,
        AdapterError,
    >)
        requires
            self.ready(),
        ensures
            forall|v: MirrorStatusView|
                self.infallible() && self.statuses().contains_key(mirror_key(mirror_id@, worker_id@))
                    && mirror_fits(v) && self.statuses()[mirror_key(mirror_id@, worker_id@)]
                    == #[trigger] mirror_bytes(v) ==> (r matches Ok(m) && m@ == v),
            match r {
                Ok(m) => self.statuses().contains_key(mirror_key(mirror_id@, worker_id@))
                    && parse_mirror(self.statuses()[mirror_key(mirror_id@, worker_id@)]) == Some(
                    m@,
                ),
                Err(AdapterError::NotFound(k)) => k@ == mirror_key(mirror_id@, worker_id@)
                    && !self.statuses().contains_key(
                    mirror_key(mirror_id@, worker_id@),
                ),
                Err(AdapterError::DecodeError(k)) => k@ == mirror_key(mirror_id@, worker_id@)
                    && self.statuses().contains_key(
                    mirror_key(mirror_id@, worker_id@),
                ) && parse_mirror(self.statuses()[mirror_key(mirror_id@, worker_id@)]) is None,
                Err(AdapterError::EngineError(_)) => !self.infallible(),
                Err(_) => false,
            },
    {
        let id = mirror_key_of(worker_id, mirror_id);
        match self.inner.get(STATUS_BUCKETKEY, id.as_str()) {
            Ok(Some(bytes)) => match decode_mirror(bytes.as_slice()) {
                Some(m) => Ok(m),
                None => Err(AdapterError::DecodeError(id)),
            },
            Ok(None) => Err(AdapterError::NotFound(id)),
            Err(e) => Err(AdapterError::EngineError(engine_message(e))),
        }
    }

    /// Every stored status, in no particular order; one record that does not
    /// decode fails the whole call.
    pub fn list_all_mirror_status(&self) -> (r: Result<Vec<MirrorStatus>, AdapterError>)
        requires
            self.ready(),
        ensures
            match r {
                Ok(ms) => mirror_list(ms@.map_values(|m: MirrorStatus| m@), self.statuses()),
                Err(AdapterError::DecodeError(k)) => self.statuses().contains_key(k@)
                    && parse_mirror(self.statuses()[k@]) is None,
                Err(AdapterError::EngineError(_)) => !self.infallible(),
                Err(_) => false,
            },
    {
        let es = match self.inner.get_all(STATUS_BUCKETKEY) {
            Ok(es) => es,
            Err(e) => return Err(AdapterError::EngineError(engine_message(e))),
        };
        let ghost ev = es@.map_values(|e| entry_view(e));
        let mut out: Vec<MirrorStatus> = Vec::new();
        let mut i: usize = 0;
        while i < es.len()
            invariant
                i <= es@.len(),
                ev == es@.map_values(|e| entry_view(e)),
                lists_bucket(ev, self.statuses()),
                out@.len() == i,
                forall|j: int| 0 <= j < i ==> parse_mirror(ev[j].1) == Some(#[trigger] out@[j]@),
            decreases es@.len() - i,
        {
            assert(ev[i as int] == entry_view(es@[i as int]));
            assert(self.statuses().contains_key(ev[i as int].0));
            match decode_mirror(es[i].1.as_slice()) {
                Some(m) => out.push(m),
                None => return Err(AdapterError::DecodeError(es[i].0.clone())),
            }
            i = i + 1;
        }
        proof {
            let ms = out@.map_values(|m: MirrorStatus| m@);
            assert(forall|j: int| 0 <= j < ev.len() ==> parse_mirror(ev[j].1) == Some(ms[j]));
            assert(lists_bucket(ev, self.statuses()));
        }
        Ok(out)
    }

    /// The stored statuses whose key names `worker_id` as its second
    /// `/`-separated segment; keys without `/` are skipped.
    pub fn list_mirror_status(&self, worker_id: &str) -> (r: Result<
        Vec<MirrorStatus>,
        AdapterError,
    >)
        requires
            self.ready(),
        ensures
            match r {
                Ok(ms) => mirror_list_of(
                    ms@.map_values(|m: MirrorStatus| m@),
                    self.statuses(),
                    worker_id@,
                ),
                Err(AdapterError::DecodeError(k)) => self.statuses().contains_key(k@) && served_by(
                    k@,
                    worker_id@,
                ) && parse_mirror(self.statuses()[k@]) is None,
                Err(AdapterError::EngineError(_)) => !self.infallible(),
                Err(_) => false,
            },
    {
        let es = match self.inner.get_all(STATUS_BUCKETKEY) {
            Ok(es) => es,
            Err(e) => return Err(AdapterError::EngineError(engine_message(e))),
        };
        let ghost ev = es@.map_values(|e| entry_view(e));
        let ghost pred = |e: (Seq<char>, Seq<u8>)| served_by(e.0, worker_id@);
        let mut out: Vec<MirrorStatus> = Vec::new();
        let mut i: usize = 0;
        while i < es.len()
            invariant
                i <= es@.len(),
                ev == es@.map_values(|e| entry_view(e)),
                pred == (|e: (Seq<char>, Seq<u8>)| served_by(e.0, worker_id@)),
                lists_bucket(ev, self.statuses()),
                out@.len() == ev.take(i as int).filter(pred).len(),
                forall|j: int|
                    0 <= j < out@.len() ==> parse_mirror(ev.take(i as int).filter(pred)[j].1)
                        == Some(#[trigger] out@[j]@),
            decreases es@.len() - i,
        {
            assert(ev[i as int] == entry_view(es@[i as int]));
            assert(self.statuses().contains_key(ev[i as int].0));
            proof {
                lemma_filter_take_step(ev, pred, i as int);
            }
            if key_served_by(es[i].0.as_str(), worker_id) {
                match decode_mirror(es[i].1.as_slice()) {
                    Some(m) => out.push(m),
                    None => return Err(AdapterError::DecodeError(es[i].0.clone())),
                }
            }
            i = i + 1;
        }
        proof {
            assert(ev.take(ev.len() as int) =~= ev);
            let ms = out@.map_values(|m: MirrorStatus| m@);
            assert(forall|j: int|
                0 <= j < ms.len() ==> parse_mirror(ev.filter(pred)[j].1) == Some(ms[j]));
            assert(lists_bucket(ev, self.statuses()));
        }
        Ok(out)
    }


    /// Deletes every stored status that is disabled or has an empty name.
    /// A record that does not decode stops the sweep with `DecodeError`;
    /// what was deleted before stays deleted.
    pub fn flush_disabled_jobs(&mut self) -> (r: Result<(), AdapterError>)
        requires
            old(self).ready(),
        ensures
            final(self).ready(),
            final(self).infallible() == old(self).infallible(),
            final(self).buckets() == old(self).buckets().insert(
                statuses_bucket(),
                final(self).statuses(),
            ),
            forall|k: Seq<char>| #[trigger]
                final(self).statuses().contains_key(k) ==> old(self).statuses().contains_key(k)
                    && final(self).statuses()[k] == old(self).statuses()[k],
            forall|k: Seq<char>|
                old(self).statuses().contains_key(k) && !final(self).statuses().contains_key(k)
                    ==> #[trigger] stale_value(old(self).statuses()[k]),
            match r {
                Ok(()) => all_mirrors_decode(old(self).statuses()) && final(self).statuses()
                    == flushed(old(self).statuses()),
                Err(AdapterError::DecodeError(k)) => old(self).statuses().contains_key(k@)
                    && parse_mirror(old(self).statuses()[k@]) is None,
                Err(AdapterError::EngineError(_)) => !old(self).infallible(),
                Err(_) => false,
            },
    {
        proof {
            lemma_buckets_differ();
        }
        let ghost ob = self.buckets();
        let ghost om = self.statuses();
        let es = match self.inner.get_all(STATUS_BUCKETKEY) {
            Ok(es) => es,
            Err(e) => return Err(AdapterError::EngineError(engine_message(e))),
        };
        let ghost ev = es@.map_values(|e| entry_view(e));
        assert(ob =~= ob.insert(statuses_bucket(), om));
        let mut i: usize = 0;
        while i < es.len()
            invariant
                i <= es@.len(),
                ev == es@.map_values(|e| entry_view(e)),
                lists_bucket(ev, om),
                self.ready(),
                self.infallible() == old(self).infallible(),
                ob == old(self).buckets(),
                om == old(self).statuses(),
                self.buckets() == ob.insert(statuses_bucket(), self.statuses()),
                forall|k: Seq<char>| #[trigger]
                    self.statuses().contains_key(k) ==> om.contains_key(k) && self.statuses()[k]
                        == om[k],
                forall|j: int|
                    0 <= j < i ==> parse_mirror(#[trigger] ev[j].1) is Some && (
                    self.statuses().contains_key(ev[j].0) <==> !stale_value(ev[j].1)),
                forall|j: int| i <= j < ev.len() ==> self.statuses().contains_key(#[trigger] ev[j].0),
            decreases es@.len() - i,
        {
            assert(ev[i as int] == entry_view(es@[i as int]));
            assert(om.contains_key(ev[i as int].0));
            let m = match decode_mirror(es[i].1.as_slice()) {
                Some(m) => m,
                None => return Err(AdapterError::DecodeError(es[i].0.clone())),
            };
            if m.status == SyncStatus::Disabled || m.name.as_str().is_empty() {
                let ghost before = self.statuses();
                match self.inner.delete(STATUS_BUCKETKEY, es[i].0.as_str()) {
                    Ok(()) => {},
                    Err(e) => return Err(AdapterError::EngineError(engine_message(e))),
                }
                proof {
                    assert(self.statuses() == before.remove(ev[i as int].0));
                    assert(self.buckets() =~= ob.insert(statuses_bucket(), self.statuses()));
                    assert forall|j: int| i < j < ev.len() implies self.statuses().contains_key(
                        #[trigger] ev[j].0,
                    ) by {
                        assert(ev[i as int].0 != ev[j].0);
                    }
                    assert forall|j: int| 0 <= j < i implies parse_mirror(#[trigger] ev[j].1) is Some
                        && (self.statuses().contains_key(ev[j].0) <==> !stale_value(ev[j].1)) by {
                        assert(ev[j].0 != ev[i as int].0);
                    }
                }
            }
            i = i + 1;
        }
        proof {
            let fm = self.statuses();
            assert forall|k: Seq<char>| om.contains_key(k) implies #[trigger] parse_mirror(om[k]) is Some
                && (fm.contains_key(k) <==> !stale_value(om[k])) by {
                let j = choose|j: int| 0 <= j < ev.len() && #[trigger] ev[j].0 == k;
                assert(parse_mirror(ev[j].1) is Some);
            }
            assert(fm =~= flushed(om));
        }
        Ok(())
    }

    /// Closes the engine. After a successful close the adapter is no longer
    /// ready, so no operation can follow it.
    pub fn close(&mut self) -> (r: Result<(), AdapterError>)
        requires
            old(self).inner.well_formed(),
        ensures
            final(self).inner.well_formed(),
            old(self).infallible() ==> r is Ok,
            r is Ok ==> !final(self).inner.is_open() && !final(self).ready(),
    {
        self.inner.close()
    }
}

fn mirror_key_of(worker_id: &str, mirror_id: &str) -> (r: String)
    ensures
        r@ == mirror_key(mirror_id@, worker_id@),
{
    let mut k = mirror_id.to_owned();
    k.append("/");
    k.append(worker_id);
    proof {
        reveal_strlit("/");
    }
    k
}

fn find_slash(b: &[u8], from: usize) -> (r: usize)
    requires
        from <= b@.len(),
    ensures
        r == slash_from(b@, from as int),
        from <= r <= b@.len(),
{
    let mut i = from;
    while i < b.len()
        invariant
            from <= i <= b@.len(),
            slash_from(b@, from as int) == slash_from(b@, i as int),
        decreases b@.len() - i,
    {
        if b[i] == 0x2f {
            return i;
        }
        i = i + 1;
    }
    i
}

/// Whether the key's second `/`-separated segment is `worker_id`.
pub fn key_served_by(key: &str, worker_id: &str) -> (r: bool)
    ensures
        r == served_by(key@, worker_id@),
{
    let b = key.as_bytes();
    let i = find_slash(b, 0);
    if i >= b.len() {
        return false;
    }
    let j = find_slash(b, i + 1);
    bytes_equal(slice_subrange(b, i + 1, j), worker_id.as_bytes())
}

/// The two buckets are distinct.
pub proof fn lemma_buckets_differ()
    ensures
        workers_bucket() != statuses_bucket(),
{
    reveal_strlit("workers");
    reveal_strlit("mirror_status");
    assert(workers_bucket().len() != statuses_bucket().len());
}

/// The text that an error carries; for a bucket failure, the engine's part.
pub open spec fn error_text(e: AdapterError) -> Seq<char> {
    match e {
        AdapterError::UnsupportedDbType(s) => s@,
        AdapterError::InitError(s) => s@,
        AdapterError::CreateBucketError(_, s) => s@,
        AdapterError::EncodeError(s) => s@,
        AdapterError::DecodeError(s) => s@,
        AdapterError::NotFound(s) => s@,
        AdapterError::EngineError(s) => s@,
    }
}

/// The text of an engine failure, as reported to callers.
pub fn engine_message(e: AdapterError) -> (r: String)
    ensures
        r@ == error_text(e),
{
    match e {
        AdapterError::UnsupportedDbType(s) => s,
        AdapterError::InitError(s) => s,
        AdapterError::CreateBucketError(_, s) => s,
        AdapterError::EncodeError(s) => s,
        AdapterError::DecodeError(s) => s,
        AdapterError::NotFound(s) => s,
        AdapterError::EngineError(s) => s,
    }
}

} // verus!
