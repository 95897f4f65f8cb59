//! The bucketed key-value contract that a physical engine provides, and an
//! engine that keeps its buckets in memory.
use vstd::prelude::*;
use vstd::slice::slice_to_vec;

use crate::error::AdapterError;

verus! {

/// The contents of a bucket: key to stored bytes.
pub type BucketView = Map<Seq<char>, Seq<u8>>;

/// `es` lists the bucket `m`: each key once, each with its stored value.
pub open spec fn lists_bucket(es: Seq<(Seq<char>, Seq<u8>)>, m: BucketView) -> bool {
    &&& forall|i: int, j: int|
        0 <= i < j < es.len() ==> #[trigger] es[i].0 != #[trigger] es[j].0
    &&& forall|i: int|
        0 <= i < es.len() ==> m.contains_key(#[trigger] es[i].0) && m[es[i].0] == es[i].1
    &&& forall|k: Seq<char>|
        m.contains_key(k) ==> exists|i: int| 0 <= i < es.len() && #[trigger] es[i].0 == k
}

pub open spec fn entry_view(e: (String, Vec<u8>)) -> (Seq<char>, Seq<u8>) {
    (e.0@, e.1@)
}

/// A storage engine: named buckets of keys and opaque byte values, with
/// single-key get, put and delete and whole-bucket enumeration.
pub trait KvAdapter {
    /// The buckets that exist, each with its contents.
    closed spec fn buckets(&self) -> Map<Seq<char>, BucketView> {
        Map::empty()
    }

    /// The engine reports no failures of its own.
    closed spec fn infallible(&self) -> bool {
        false
    }

    /// The engine has not been closed. An engine that does not state this is
    /// taken as closed.
    closed spec fn is_open(&self) -> bool {
        false
    }

    /// The engine's internal invariant. An engine that does not state one
    /// cannot be used from verified code.
    closed spec fn well_formed(&self) -> bool {
        false
    }

    /// Makes sure that the bucket exists; an existing bucket keeps its contents.
    fn init_bucket(&mut self, bucket: &str) -> (r: Result<(), AdapterError>)
        requires
            old(self).well_formed(),
        ensures
            final(self).well_formed(),
            final(self).is_open() == old(self).is_open(),
            final(self).infallible() == old(self).infallible(),
            old(self).infallible() ==> r is Ok,
            r is Ok ==> final(self).buckets() == (if old(self).buckets().contains_key(bucket@) {
                old(self).buckets()
            } else {
                old(self).buckets().insert(bucket@, Map::empty())
            }),
            r is Err ==> final(self).buckets() == old(self).buckets(),
    ;

    /// The value stored under `key`, if any.
    fn get(&self, bucket: &str, key: &str) -> (r: Result<Option<Vec<u8>>, AdapterError>)
        requires
            self.well_formed(),
            self.buckets().contains_key(bucket@),
        ensures
            self.infallible() ==> r is Ok,
            r matches Ok(v) ==> match v {
                Some(b) => self.buckets()[bucket@].contains_key(key@)
                    && self.buckets()[bucket@][key@] == b@,
                None => !self.buckets()[bucket@].contains_key(key@),
            },
    ;

    /// Every key of the bucket with its value, in no particular order.
    fn get_all(&self, bucket: &str) -> (r: Result<Vec<(String, Vec<u8>)>, AdapterError>)
        requires
            self.well_formed(),
            self.buckets().contains_key(bucket@),
        ensures
            self.infallible() ==> r is Ok,
            r matches Ok(es) ==> lists_bucket(es@.map_values(|e| entry_view(e)), self.buckets()[bucket@]),
    ;

    /// Stores `value` under `key`, replacing what was there.
    fn put(&mut self, bucket: &str, key: &str, value: &[u8]) -> (r: Result<(), AdapterError>)
        requires
            old(self).well_formed(),
            old(self).buckets().contains_key(bucket@),
        ensures
            final(self).well_formed(),
            final(self).is_open() == old(self).is_open(),
            final(self).infallible() == old(self).infallible(),
            old(self).infallible() ==> r is Ok,
            r is Ok ==> final(self).buckets() == old(self).buckets().insert(
                bucket@,
                old(self).buckets()[bucket@].insert(key@, value@),
            ),
            r is Err ==> final(self).buckets() == old(self).buckets(),
    ;

    /// Removes `key`; succeeds also when it was absent.
    fn delete(&mut self, bucket: &str, key: &str) -> (r: Result<(), AdapterError>)
        requires
            old(self).well_formed(),
            old(self).buckets().contains_key(bucket@),
        ensures
            final(self).well_formed(),
            final(self).is_open() == old(self).is_open(),
            final(self).infallible() == old(self).infallible(),
            old(self).infallible() ==> r is Ok,
            r is Ok ==> final(self).buckets() == old(self).buckets().insert(
                bucket@,
                old(self).buckets()[bucket@].remove(key@),
            ),
            r is Err ==> final(self).buckets() == old(self).buckets(),
    ;

    /// Releases the engine's resources.
    fn close(&mut self) -> (r: Result<(), AdapterError>)
        requires
            old(self).well_formed(),
        ensures
            final(self).well_formed(),
            final(self).infallible() == old(self).infallible(),
            old(self).infallible() ==> r is Ok,
            r is Ok ==> !final(self).is_open(),
    ;
}

type Table = (String, Vec<(String, Vec<u8>)>);

/// The tables hold each bucket of `m` once, each listing its contents.
spec fn tables_wf(t: Seq<Table>, m: Map<Seq<char>, BucketView>) -> bool {
    &&& forall|i: int, j: int|
        0 <= i < j < t.len() ==> #[trigger] t[i].0@ != #[trigger] t[j].0@
    &&& forall|i: int|
        0 <= i < t.len() ==> m.contains_key(#[trigger] t[i].0@) && lists_bucket(
            t[i].1@.map_values(|e| entry_view(e)),
            m[t[i].0@],
        )
    &&& forall|k: Seq<char>|
        m.contains_key(k) ==> exists|i: int| 0 <= i < t.len() && #[trigger] t[i].0@ == k
}

proof fn lemma_tables_update(
    ot: Seq<Table>,
    nt: Seq<Table>,
    ti: int,
    om: Map<Seq<char>, BucketView>,
    bm: BucketView,
)
    requires
        tables_wf(ot, om),
        0 <= ti < ot.len(),
        nt.len() == ot.len(),
        forall|j: int| 0 <= j < ot.len() && j != ti ==> nt[j] == ot[j],
        nt[ti].0@ == ot[ti].0@,
        lists_bucket(nt[ti].1@.map_values(|e| entry_view(e)), bm),
    ensures
        tables_wf(nt, om.insert(ot[ti].0@, bm)),
{
    let nm = om.insert(ot[ti].0@, bm);
    assert forall|i: int, j: int| 0 <= i < j < nt.len() implies #[trigger] nt[i].0@
        != #[trigger] nt[j].0@ by {
        assert(nt[i].0@ == ot[i].0@);
        assert(nt[j].0@ == ot[j].0@);
    }
    assert forall|i: int| 0 <= i < nt.len() implies nm.contains_key(#[trigger] nt[i].0@)
        && lists_bucket(nt[i].1@.map_values(|e| entry_view(e)), nm[nt[i].0@]) by {
        if i != ti {
            assert(nt[i] == ot[i]);
            assert(ot[i].0@ != ot[ti].0@) by {
                if i < ti {
                    assert(ot[i].0@ != ot[ti].0@);
                } else {
                    assert(ot[ti].0@ != ot[i].0@);
                }
            }
        }
    }
    assert forall|k: Seq<char>| nm.contains_key(k) implies exists|i: int|
        0 <= i < nt.len() && #[trigger] nt[i].0@ == k by {
        if k == ot[ti].0@ {
            assert(nt[ti].0@ == k);
        } else {
            let i = choose|i: int| 0 <= i < ot.len() && #[trigger] ot[i].0@ == k;
            assert(nt[i] == ot[i]);
        }
    }
}

proof fn lemma_lists_update(es: Seq<(Seq<char>, Seq<u8>)>, m: BucketView, i: int, v: Seq<u8>)
    requires
        lists_bucket(es, m),
        0 <= i < es.len(),
    ensures
        lists_bucket(es.update(i, (es[i].0, v)), m.insert(es[i].0, v)),
{
    let k = es[i].0;
    let ns = es.update(i, (k, v));
    let nm = m.insert(k, v);
    assert forall|a: int, b: int| 0 <= a < b < ns.len() implies #[trigger] ns[a].0
        != #[trigger] ns[b].0 by {
        assert(ns[a].0 == es[a].0);
        assert(ns[b].0 == es[b].0);
    }
    assert forall|a: int| 0 <= a < ns.len() implies nm.contains_key(#[trigger] ns[a].0)
        && nm[ns[a].0] == ns[a].1 by {
        if a != i {
            assert(es[a].0 != k) by {
                if a < i {
                    assert(es[a].0 != es[i].0);
                } else {
                    assert(es[i].0 != es[a].0);
                }
            }
        }
    }
    assert forall|key: Seq<char>| nm.contains_key(key) implies exists|a: int|
        0 <= a < ns.len() && #[trigger] ns[a].0 == key by {
        if key == k {
            assert(ns[i].0 == key);
        } else {
            let a = choose|a: int| 0 <= a < es.len() && #[trigger] es[a].0 == key;
            assert(ns[a].0 == key);
        }
    }
}

proof fn lemma_lists_push(es: Seq<(Seq<char>, Seq<u8>)>, m: BucketView, k: Seq<char>, v: Seq<u8>)
    requires
        lists_bucket(es, m),
        forall|j: int| 0 <= j < es.len() ==> es[j].0 != k,
    ensures
        lists_bucket(es.push((k, v)), m.insert(k, v)),
{
    let ns = es.push((k, v));
    let nm = m.insert(k, v);
    assert forall|a: int, b: int| 0 <= a < b < ns.len() implies #[trigger] ns[a].0
        != #[trigger] ns[b].0 by {
        if b == es.len() {
            assert(ns[a].0 == es[a].0);
        } else {
            assert(ns[a].0 == es[a].0);
            assert(ns[b].0 == es[b].0);
        }
    }
    assert forall|a: int| 0 <= a < ns.len() implies nm.contains_key(#[trigger] ns[a].0)
        && nm[ns[a].0] == ns[a].1 by {
        if a < es.len() {
            assert(ns[a] == es[a]);
            assert(es[a].0 != k);
        }
    }
    assert forall|key: Seq<char>| nm.contains_key(key) implies exists|a: int|
        0 <= a < ns.len() && #[trigger] ns[a].0 == key by {
        if key == k {
            assert(ns[es.len() as int].0 == key);
        } else {
            let a = choose|a: int| 0 <= a < es.len() && #[trigger] es[a].0 == key;
            assert(ns[a].0 == key);
        }
    }
}

proof fn lemma_lists_remove(es: Seq<(Seq<char>, Seq<u8>)>, m: BucketView, i: int)
    requires
        lists_bucket(es, m),
        0 <= i < es.len(),
    ensures
        lists_bucket(es.remove(i), m.remove(es[i].0)),
{
    let k = es[i].0;
    let ns = es.remove(i);
    let nm = m.remove(k);
    assert forall|a: int, b: int| 0 <= a < b < ns.len() implies #[trigger] ns[a].0
        != #[trigger] ns[b].0 by {
        let oa = if a < i { a } else { a + 1 };
        let ob = if b < i { b } else { b + 1 };
        assert(ns[a] == es[oa]);
        assert(ns[b] == es[ob]);
    }
    assert forall|a: int| 0 <= a < ns.len() implies nm.contains_key(#[trigger] ns[a].0)
        && nm[ns[a].0] == ns[a].1 by {
        let oa = if a < i { a } else { a + 1 };
        assert(ns[a] == es[oa]);
        assert(es[oa].0 != k) by {
            if oa < i {
                assert(es[oa].0 != es[i].0);
            } else {
                assert(es[i].0 != es[oa].0);
            }
        }
    }
    assert forall|key: Seq<char>| nm.contains_key(key) implies exists|a: int|
        0 <= a < ns.len() && #[trigger] ns[a].0 == key by {
        let oa = choose|a: int| 0 <= a < es.len() && #[trigger] es[a].0 == key;
        assert(oa != i);
        let a = if oa < i { oa } else { oa - 1 };
        assert(ns[a] == es[oa]);
    }
}

proof fn lemma_lists_absent(es: Seq<(Seq<char>, Seq<u8>)>, m: BucketView, k: Seq<char>)
    requires
        lists_bucket(es, m),
        forall|j: int| 0 <= j < es.len() ==> es[j].0 != k,
    ensures
        !m.contains_key(k),
{
    if m.contains_key(k) {
        let a = choose|a: int| 0 <= a < es.len() && #[trigger] es[a].0 == k;
        assert(es[a].0 != k);
    }
}

/// An engine that keeps every bucket in memory; it never fails.
pub struct MemKv {
    tables: Vec<Table>,
    model: Ghost<Map<Seq<char>, BucketView>>,
    open: bool,
}

impl MemKv {
    /// An engine with no buckets.
    pub fn new() -> (r: MemKv)
        ensures
            r.well_formed(),
            r.infallible(),
            r.is_open(),
            r.buckets() == Map::<Seq<char>, BucketView>::empty(),
    {
        MemKv { tables: Vec::new(), model: Ghost(Map::empty()), open: true }
    }

    fn find_table(&self, name: &str) -> (r: Option<usize>)
        requires
            self.well_formed(),
        ensures
            match r {
                Some(i) => i < self.tables@.len() && self.tables@[i as int].0@ == name@,
                None => !self.model@.contains_key(name@),
            },
    {
        let target = name.to_owned();
        let mut i: usize = 0;
        while i < self.tables.len()
            invariant
                i <= self.tables@.len(),
                target@ == name@,
                forall|j: int| 0 <= j < i ==> self.tables@[j].0@ != name@,
            decreases self.tables@.len() - i,
        {
            if self.tables[i].0 == target {
                return Some(i);
            }
            i = i + 1;
        }
        None
    }
}

fn find_key(entries: &Vec<(String, Vec<u8>)>, key: &str) -> (r: Option<usize>)
    ensures
        match r {
            Some(i) => i < entries@.len() && entries@[i as int].0@ == key@,
            None => forall|j: int| 0 <= j < entries@.len() ==> entries@[j].0@ != key@,
        },
{
    let target = key.to_owned();
    let mut i: usize = 0;
    while i < entries.len()
        invariant
            i <= entries@.len(),
            target@ == key@,
            forall|j: int| 0 <= j < i ==> entries@[j].0@ != key@,
        decreases entries@.len() - i,
    {
        if entries[i].0 == target {
            return Some(i);
        }
        i = i + 1;
    }
    None
}

impl KvAdapter for MemKv {
    closed spec fn buckets(&self) -> Map<Seq<char>, BucketView> {
        self.model@
    }

    open spec fn infallible(&self) -> bool {
        true
    }

    closed spec fn is_open(&self) -> bool {
        self.open
    }

    closed spec fn well_formed(&self) -> bool {
        tables_wf(self.tables@, self.model@)
    }

    fn init_bucket(&mut self, bucket: &str) -> (r: Result<(), AdapterError>) {
        match self.find_table(bucket) {
            Some(_) => Ok(()),
            None => {
                let ghost old_tables = self.tables@;
                self.tables.push((bucket.to_owned(), Vec::new()));
                self.model = Ghost(self.model@.insert(bucket@, Map::empty()));
                proof {
                    let n = old_tables.len() as int;
                    assert(self.tables@[n].1@.map_values(|e| entry_view(e)) =~= Seq::empty());
                    assert forall|k: Seq<char>| self.model@.contains_key(k) implies exists|i: int|
                        0 <= i < self.tables@.len() && #[trigger] self.tables@[i].0@ == k by {
                        if k != bucket@ {
                            let i = choose|i: int| 0 <= i < old_tables.len() && #[trigger] old_tables[i].0@ == k;
                            assert(self.tables@[i] == old_tables[i]);
                        } else {
                            assert(self.tables@[n].0@ == k);
                        }
                    }
                }
                Ok(())
            },
        }
    }

    fn get(&self, bucket: &str, key: &str) -> (r: Result<Option<Vec<u8>>, AdapterError>) {
        let ti = match self.find_table(bucket) {
            Some(i) => i,
            None => return Ok(None),
        };
        let entries = &self.tables[ti].1;
        proof {
            let es = entries@.map_values(|e| entry_view(e));
            assert(lists_bucket(es, self.model@[bucket@]));
        }
        match find_key(entries, key) {
            Some(ki) => {
                proof {
                    let es = entries@.map_values(|e| entry_view(e));
                    assert(es[ki as int] == entry_view(entries@[ki as int]));
                    assert(es[ki as int].0 == key@);
                    assert(self.model@[bucket@].contains_key(es[ki as int].0));
                }
                Ok(Some(slice_to_vec(entries[ki].1.as_slice())))
            },
            None => {
                proof {
                    let es = entries@.map_values(|e| entry_view(e));
                    if self.model@[bucket@].contains_key(key@) {
                        let i = choose|i: int| 0 <= i < es.len() && #[trigger] es[i].0 == key@;
                        assert(es[i] == entry_view(entries@[i]));
                    }
                }
                Ok(None)
            },
        }
    }

    fn get_all(&self, bucket: &str) -> (r: Result<Vec<(String, Vec<u8>)>, AdapterError>) {
        let ti = match self.find_table(bucket) {
            Some(i) => i,
            None => return Ok(Vec::new()),
        };
        let entries = &self.tables[ti].1;
        let mut out: Vec<(String, Vec<u8>)> = Vec::new();
        let mut i: usize = 0;
        while i < entries.len()
            invariant
                i <= entries@.len(),
                out@.len() == i,
                forall|j: int| 0 <= j < i ==> #[trigger] entry_view(out@[j]) == entry_view(entries@[j]),
            decreases entries@.len() - i,
        {
            let key = entries[i].0.clone();
            let value = slice_to_vec(entries[i].1.as_slice());
            out.push((key, value));
            i = i + 1;
        }
        proof {
            let es = entries@.map_values(|e| entry_view(e));
            assert(out@.map_values(|e| entry_view(e)) =~= es);
        }
        Ok(out)
    }

    fn put(&mut self, bucket: &str, key: &str, value: &[u8]) -> (r: Result<(), AdapterError>) {
        let ti = match self.find_table(bucket) {
            Some(i) => i,
            None => return Ok(()),
        };
        let ghost old_tables = self.tables@;
        let ghost old_model = self.model@;
        let (name, mut entries) = self.tables.remove(ti);
        let ghost old_entries = entries@;
        let ghost oes = old_entries.map_values(|e| entry_view(e));
        match find_key(&entries, key) {
            Some(ki) => {
                entries.set(ki, (key.to_owned(), slice_to_vec(value)));
                proof {
                    assert(oes[ki as int].0 == key@);
                    lemma_lists_update(oes, old_model[bucket@], ki as int, value@);
                    assert(entries@.map_values(|e| entry_view(e)) =~= oes.update(
                        ki as int,
                        (key@, value@),
                    ));
                }
            },
            None => {
                entries.push((key.to_owned(), slice_to_vec(value)));
                proof {
                    assert forall|j: int| 0 <= j < oes.len() implies oes[j].0 != key@ by {
                        assert(oes[j] == entry_view(old_entries[j]));
                    }
                    lemma_lists_push(oes, old_model[bucket@], key@, value@);
                    assert(entries@.map_values(|e| entry_view(e)) =~= oes.push((key@, value@)));
                }
            },
        }
        self.tables.insert(ti, (name, entries));
        self.model = Ghost(old_model.insert(bucket@, old_model[bucket@].insert(key@, value@)));
        proof {
            lemma_tables_update(
                old_tables,
                self.tables@,
                ti as int,
                old_model,
                old_model[bucket@].insert(key@, value@),
            );
        }
        Ok(())
    }

    fn delete(&mut self, bucket: &str, key: &str) -> (r: Result<(), AdapterError>) {
        let ti = match self.find_table(bucket) {
            Some(i) => i,
            None => return Ok(()),
        };
        let ghost old_tables = self.tables@;
        let ghost old_model = self.model@;
        let (name, mut entries) = self.tables.remove(ti);
        let ghost old_entries = entries@;
        let ghost oes = old_entries.map_values(|e| entry_view(e));
        match find_key(&entries, key) {
            Some(ki) => {
                entries.remove(ki);
                proof {
                    assert(oes[ki as int].0 == key@);
                    lemma_lists_remove(oes, old_model[bucket@], ki as int);
                    assert(entries@.map_values(|e| entry_view(e)) =~= oes.remove(ki as int));
                }
            },
            None => {
                proof {
                    assert forall|j: int| 0 <= j < oes.len() implies oes[j].0 != key@ by {
                        assert(oes[j] == entry_view(old_entries[j]));
                    }
                    lemma_lists_absent(oes, old_model[bucket@], key@);
                    assert(old_model[bucket@].remove(key@) =~= old_model[bucket@]);
                    assert(entries@.map_values(|e| entry_view(e)) =~= oes);
                }
            },
        }
        self.tables.insert(ti, (name, entries));
        self.model = Ghost(old_model.insert(bucket@, old_model[bucket@].remove(key@)));
        proof {
            lemma_tables_update(
                old_tables,
                self.tables@,
                ti as int,
                old_model,
                old_model[bucket@].remove(key@),
            );
        }
        Ok(())
    }

    fn close(&mut self) -> (r: Result<(), AdapterError>) {
        self.open = false;
        Ok(())
    }
}

} // verus!
