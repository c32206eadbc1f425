//! The result store: loaded sample records keyed by sample identifier,
//! and its reader/writer-locked shared form.

use vstd::prelude::*;
use vstd::rwlock::RwLock;

use crate::parse::str_views;
use crate::record::SampleRecord;

verus! {

/// One store entry, in specification form: the sample identifier and its
/// record.
pub type StoreEntryView = (Seq<char>, SampleRecord);

/// The identifiers of the entries, in insertion order.
pub open spec fn store_ids(m: Seq<StoreEntryView>) -> Seq<Seq<char>> {
    m.map_values(|e: StoreEntryView| e.0)
}

/// Does the store hold an entry for `id`?
pub open spec fn store_contains(m: Seq<StoreEntryView>, id: Seq<char>) -> bool {
    exists|i: int| 0 <= i < m.len() && m[i].0 == id
}

/// The record stored for `id`, taking the first matching entry.
pub open spec fn store_lookup(m: Seq<StoreEntryView>, id: Seq<char>) -> Option<SampleRecord>
    decreases m.len(),
{
    if m.len() == 0 {
        None
    } else if m[0].0 == id {
        Some(m[0].1)
    } else {
        store_lookup(m.drop_first(), id)
    }
}

/// Well-formed: identifiers are pairwise distinct and every record is
/// well-formed.
pub open spec fn store_wf(m: Seq<StoreEntryView>) -> bool {
    &&& forall|i: int, j: int| 0 <= i < j < m.len() ==> m[i].0 != m[j].0
    &&& forall|i: int| 0 <= i < m.len() ==> (#[trigger] m[i].1).wf()
}

/// A lookup succeeds exactly when the identifier is present, and in a
/// well-formed store it yields a well-formed record.
pub proof fn lemma_store_lookup(m: Seq<StoreEntryView>, id: Seq<char>)
    ensures
        (store_lookup(m, id) is Some) <==> store_contains(m, id),
        store_wf(m) && store_contains(m, id) ==> store_lookup(m, id).unwrap().wf(),
    decreases m.len(),
{
    if m.len() > 0 && m[0].0 != id {
        let rest = m.drop_first();
        assert forall|i: int| 0 <= i < rest.len() implies rest[i] == m[i + 1] by {}
        if store_wf(m) {
            assert(store_wf(rest));
        }
        lemma_store_lookup(rest, id);
        if store_contains(rest, id) {
            let i = choose|i: int| 0 <= i < rest.len() && rest[i].0 == id;
            assert(m[i + 1].0 == id);
        }
        if store_contains(m, id) {
            let i = choose|i: int| 0 <= i < m.len() && m[i].0 == id;
            assert(rest[i - 1].0 == id);
        }
    }
}

/// The mapping from sample identifier to loaded record.
pub struct ResultStore {
    entries: Vec<(String, SampleRecord)>,
}

impl View for ResultStore {
    type V = Seq<StoreEntryView>;

    closed spec fn view(&self) -> Seq<StoreEntryView> {
        self.entries@.map_values(|e: (String, SampleRecord)| (e.0@, e.1))
    }
}

impl ResultStore {
    /// Well-formed: distinct identifiers, well-formed records.
    pub open spec fn wf(&self) -> bool {
        store_wf(self@)
    }

    pub fn new() -> (r: ResultStore)
        ensures
            r@ == Seq::<StoreEntryView>::empty(),
            r.wf(),
    {
        let r = ResultStore { entries: Vec::new() };
        proof {
            assert(r@ =~= Seq::<StoreEntryView>::empty());
        }
        r
    }

    pub fn len(&self) -> (r: usize)
        ensures
            r == self@.len(),
    {
        self.entries.len()
    }

    /// Does the store hold an entry for `id`?
    pub fn contains_id(&self, id: &String) -> (r: bool)
        ensures
            r == store_contains(self@, id@),
    {
        let n = self.entries.len();
        let mut i: usize = 0;
        while i < n
            invariant
                n == self@.len(),
                0 <= i <= n,
                forall|j: int| 0 <= j < i ==> self@[j].0 != id@,
            decreases n - i,
        {
            proof {
                assert(self@[i as int] == (self.entries@[i as int].0@, self.entries@[i as int].1));
            }
            if self.entries[i].0 == *id {
                return true;
            }
            i = i + 1;
        }
        proof {
            if store_contains(self@, id@) {
                let j = choose|j: int| 0 <= j < self@.len() && self@[j].0 == id@;
                assert(false);
            }
        }
        false
    }

    /// The record stored for `id`, if any.
    pub fn get(&self, id: &String) -> (r: Option<&SampleRecord>)
        ensures
            match r {
                Some(rec) => store_lookup(self@, id@) == Some(*rec),
                None => store_lookup(self@, id@) is None,
            },
    {
        let n = self.entries.len();
        let mut i: usize = 0;
        proof {
            assert(self@.skip(0) =~= self@);
        }
        while i < n
            invariant
                n == self@.len(),
                0 <= i <= n,
                store_lookup(self@, id@) == store_lookup(self@.skip(i as int), id@),
            decreases n - i,
        {
            proof {
                assert(self@.skip(i as int)[0] == self@[i as int]);
                assert(self@.skip(i as int).drop_first() =~= self@.skip(i + 1));
                assert(self@[i as int] == (self.entries@[i as int].0@, self.entries@[i as int].1));
            }
            if self.entries[i].0 == *id {
                return Some(&self.entries[i].1);
            }
            i = i + 1;
        }
        proof {
            assert(self@.skip(n as int) =~= Seq::<StoreEntryView>::empty());
        }
        None
    }

    /// Add a record under an identifier not yet present.
    pub fn insert(&mut self, id: String, rec: SampleRecord)
        requires
            old(self).wf(),
            rec.wf(),
            !store_contains(old(self)@, id@),
        ensures
            final(self)@ == old(self)@.push((id@, rec)),
            final(self).wf(),
    {
        let ghost prev = self@;
        let ghost idv = id@;
        let ghost recg = rec;
        self.entries.push((id, rec));
        proof {
            assert(self@ =~= prev.push((idv, recg)));
            assert forall|a: int, b: int| 0 <= a < b < self@.len() implies self@[a].0
                != self@[b].0 by {
                if b == prev.len() {
                    assert(!store_contains(prev, idv));
                    assert(self@[a] == prev[a]);
                }
            }
        }
    }

    /// The identifiers in the store, in insertion order.
    pub fn sample_ids(&self) -> (r: Vec<String>)
        ensures
            str_views(r@) == store_ids(self@),
            self.wf() ==> str_views(r@).no_duplicates(),
    {
        let n = self.entries.len();
        let mut out: Vec<String> = Vec::new();
        let mut i: usize = 0;
        while i < n
            invariant
                n == self@.len(),
                0 <= i <= n,
                out@.len() == i,
                forall|j: int| 0 <= j < i ==> str_views(out@)[j] == store_ids(self@)[j],
            decreases n - i,
        {
            let ghost prev = out@;
            proof {
                assert(self@[i as int] == (self.entries@[i as int].0@, self.entries@[i as int].1));
            }
            out.push(self.entries[i].0.clone());
            proof {
                assert(str_views(out@)[i as int] == self.entries@[i as int].0@);
                assert forall|j: int| 0 <= j < i implies str_views(out@)[j] == str_views(prev)[j] by {
                    assert(out@[j] == prev[j]);
                }
            }
            i = i + 1;
        }
        proof {
            assert(str_views(out@) =~~= store_ids(self@));
            if self.wf() {
                assert forall|a: int, b: int|
                    0 <= a < b < str_views(out@).len() implies str_views(out@)[a] != str_views(
                    out@,
                )[b] by {
                    assert(store_ids(self@)[a] == self@[a].0);
                    assert(store_ids(self@)[b] == self@[b].0);
                }
            }
        }
        out
    }
}

/// Gate correctness: a well-formed store holding exactly the identifiers
/// of the deduplicated task list — each inserted once — has exactly one
/// entry per task, so comparing its length against the task count detects
/// full population.
pub proof fn lemma_gate_full_store(m: Seq<StoreEntryView>, ids: Seq<Seq<char>>)
    requires
        store_wf(m),
        ids.no_duplicates(),
        store_ids(m).to_set() == ids.to_set(),
    ensures
        m.len() == ids.len(),
{
    let sids = store_ids(m);
    assert forall|a: int, b: int| 0 <= a < b < sids.len() implies sids[a] != sids[b] by {
        assert(sids[a] == m[a].0);
        assert(sids[b] == m[b].0);
    }
    sids.unique_seq_to_set();
    ids.unique_seq_to_set();
}

/// The record store behind a single reader/writer lock, whose invariant is
/// the store's well-formedness: no reader can ever observe a store with a
/// duplicated identifier or a half-written record.
pub struct SharedStore {
    lock: RwLock<ResultStore, spec_fn(ResultStore) -> bool>,
}

impl SharedStore {
    /// The lock's invariant is exactly store well-formedness.
    pub closed spec fn wf(&self) -> bool {
        forall|s: ResultStore| #[trigger] self.lock.inv(s) <==> s.wf()
    }

    pub fn new() -> (r: SharedStore)
        ensures
            r.wf(),
    {
        let store = ResultStore::new();
        let lock = RwLock::<ResultStore, spec_fn(ResultStore) -> bool>::new(
            store,
            Ghost(|s: ResultStore| s.wf()),
        );
        SharedStore { lock }
    }

    /// Insert a record under exclusive access; an identifier already
    /// present is left as it was, and `false` returned.
    pub fn insert(&self, sample_id: String, rec: SampleRecord) -> (r: bool)
        requires
            self.wf(),
            rec.wf(),
    {
        let (mut store, handle) = self.lock.acquire_write();
        let fresh = !store.contains_id(&sample_id);
        if fresh {
            store.insert(sample_id, rec);
        }
        handle.release_write(store);
        fresh
    }

    /// The number of loaded records, a transient snapshot for progress
    /// reporting and completion gating.
    pub fn len(&self) -> (r: usize)
        requires
            self.wf(),
    {
        let handle = self.lock.acquire_read();
        let n = handle.borrow().len();
        handle.release_read();
        n
    }

    /// Copy out the record stored for `id`: always a well-formed record,
    /// whatever interleaving of insertions came before.
    pub fn get_record(&self, id: &String) -> (r: Option<SampleRecord>)
        requires
            self.wf(),
        ensures
            r is Some ==> r.unwrap().wf(),
    {
        let handle = self.lock.acquire_read();
        let found = match handle.borrow().get(id) {
            Some(rec) => {
                proof {
                    lemma_store_lookup(handle.view()@, id@);
                }
                Some(rec.duplicate())
            },
            None => None,
        };
        handle.release_read();
        found
    }

    /// Copy out the records of both sides of a pair under one read
    /// acquisition; both are well-formed when present.
    pub fn fetch_pair(&self, id_a: &String, id_b: &String) -> (r: Option<
        (SampleRecord, SampleRecord),
    >)
        requires
            self.wf(),
        ensures
            r is Some ==> r.unwrap().0.wf() && r.unwrap().1.wf(),
    {
        let handle = self.lock.acquire_read();
        let store = handle.borrow();
        let found = match (store.get(id_a), store.get(id_b)) {
            (Some(ra), Some(rb)) => {
                proof {
                    lemma_store_lookup(handle.view()@, id_a@);
                    lemma_store_lookup(handle.view()@, id_b@);
                }
                Some((ra.duplicate(), rb.duplicate()))
            },
            _ => None,
        };
        handle.release_read();
        found
    }

    /// A snapshot of the loaded identifiers; in every observable store
    /// state they are pairwise distinct.
    pub fn sample_ids(&self) -> (r: Vec<String>)
        requires
            self.wf(),
        ensures
            str_views(r@).no_duplicates(),
    {
        let handle = self.lock.acquire_read();
        let ids = handle.borrow().sample_ids();
        handle.release_read();
        ids
    }
}

} // verus!
