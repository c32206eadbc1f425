//! Data model: weighted-key tables and per-sample records.

use vstd::prelude::*;

verus! {

/// One ingestion task: a sample identifier and the path of its count table.
#[derive(Debug)]
pub struct SampleTask {
    pub sample_id: String,
    pub source_path: String,
}

impl View for SampleTask {
    type V = (Seq<char>, Seq<char>);

    open spec fn view(&self) -> (Seq<char>, Seq<char>) {
        (self.sample_id@, self.source_path@)
    }
}

impl SampleTask {
    pub fn new(sample_id: String, source_path: String) -> (r: SampleTask)
        ensures
            r@ == (sample_id@, source_path@),
    {
        SampleTask { sample_id, source_path }
    }

    /// Field-by-field copy.
    pub fn duplicate(&self) -> (r: SampleTask)
        ensures
            r@ == self@,
    {
        SampleTask { sample_id: self.sample_id.clone(), source_path: self.source_path.clone() }
    }

    /// Identity of a task is the full (sample id, source path) pair.
    pub fn same_as(&self, other: &SampleTask) -> (r: bool)
        ensures
            r == (self@ == other@),
    {
        let r = self.sample_id == other.sample_id && self.source_path == other.source_path;
        r
    }
}

/// The key of one table entry, in specification form.
pub type KeyView = Seq<char>;

/// One table entry, in specification form: key and weight.
pub type EntryView = (Seq<char>, usize);

/// Does `m` hold an entry whose key is `k`?
pub open spec fn contains_key_spec(m: Seq<EntryView>, k: KeyView) -> bool {
    exists|i: int| 0 <= i < m.len() && m[i].0 == k
}

/// The weight stored for `k` in `m`, taking the first matching entry.
pub open spec fn lookup_spec(m: Seq<EntryView>, k: KeyView) -> Option<usize>
    decreases m.len(),
{
    if m.len() == 0 {
        None
    } else if m[0].0 == k {
        Some(m[0].1)
    } else {
        lookup_spec(m.drop_first(), k)
    }
}

/// The weight stored for `k`, or zero when `k` is absent.
pub open spec fn lookup_weight_spec(m: Seq<EntryView>, k: KeyView) -> int {
    match lookup_spec(m, k) {
        Some(w) => w as int,
        None => 0,
    }
}

/// No two entries of `m` share a key.
pub open spec fn unique_keys(m: Seq<EntryView>) -> bool {
    forall|i: int, j: int| 0 <= i < j < m.len() ==> m[i].0 != m[j].0
}

/// The sum of all weights in `m`.
pub open spec fn sum_weights_spec(m: Seq<EntryView>) -> int
    decreases m.len(),
{
    if m.len() == 0 {
        0
    } else {
        m[0].1 + sum_weights_spec(m.drop_first())
    }
}

/// The set of keys of `m`.
pub open spec fn key_set_spec(m: Seq<EntryView>) -> Set<KeyView>
    decreases m.len(),
{
    if m.len() == 0 {
        Set::empty()
    } else {
        key_set_spec(m.drop_first()).insert(m[0].0)
    }
}

/// `key_set_spec` holds exactly the keys that occur in `m`.
pub proof fn lemma_key_set_contains(m: Seq<EntryView>, k: KeyView)
    ensures
        key_set_spec(m).contains(k) <==> contains_key_spec(m, k),
    decreases m.len(),
{
    if m.len() > 0 {
        lemma_key_set_contains(m.drop_first(), k);
        if m[0].0 == k {
            assert(contains_key_spec(m, k));
        } else {
            if contains_key_spec(m.drop_first(), k) {
                let i = choose|i: int|
                    0 <= i < m.drop_first().len() && m.drop_first()[i].0 == k;
                assert(m[i + 1].0 == k);
            }
            if contains_key_spec(m, k) {
                let i = choose|i: int| 0 <= i < m.len() && m[i].0 == k;
                assert(m.drop_first()[i - 1].0 == k);
            }
        }
    }
}

/// `m` with its first entry for `k` removed.
pub open spec fn remove_key_spec(m: Seq<EntryView>, k: KeyView) -> Seq<EntryView>
    decreases m.len(),
{
    if m.len() == 0 {
        m
    } else if m[0].0 == k {
        m.drop_first()
    } else {
        seq![m[0]] + remove_key_spec(m.drop_first(), k)
    }
}

/// Every weight is non-negative, so the sum is, and no single stored
/// weight exceeds it.
pub proof fn lemma_sum_bounds(m: Seq<EntryView>, k: KeyView)
    ensures
        0 <= sum_weights_spec(m),
        lookup_weight_spec(m, k) <= sum_weights_spec(m),
    decreases m.len(),
{
    if m.len() > 0 {
        lemma_sum_bounds(m.drop_first(), k);
    }
}

/// Removing the first entry for `k` at its index `i`.
pub proof fn lemma_remove_key_at(m: Seq<EntryView>, k: KeyView, i: int)
    requires
        0 <= i < m.len(),
        m[i].0 == k,
        forall|j: int| 0 <= j < i ==> m[j].0 != k,
    ensures
        remove_key_spec(m, k) == m.remove(i),
    decreases i,
{
    if i == 0 {
        assert(m.remove(0) =~~= m.drop_first());
    } else {
        let rest = m.drop_first();
        assert(rest[i - 1] == m[i]);
        assert forall|j: int| 0 <= j < i - 1 implies rest[j].0 != k by {
            assert(rest[j] == m[j + 1]);
        }
        lemma_remove_key_at(rest, k, i - 1);
        assert(rest.remove(i - 1) =~~= m.remove(i).drop_first());
        assert(m.remove(i)[0] == m[0]);
        assert(seq![m[0]] + m.remove(i).drop_first() =~~= m.remove(i));
    }
}

/// In a table with unique keys, removing the entry for a present key
/// leaves the other entries: one entry fewer, `k` gone, keys still
/// unique, every remaining key an old key, and the sum reduced by
/// exactly `k`'s weight.
pub proof fn lemma_remove_key(m: Seq<EntryView>, k: KeyView)
    requires
        unique_keys(m),
        contains_key_spec(m, k),
    ensures
        remove_key_spec(m, k).len() == m.len() - 1,
        unique_keys(remove_key_spec(m, k)),
        !contains_key_spec(remove_key_spec(m, k), k),
        forall|x: KeyView| #[trigger]
            contains_key_spec(remove_key_spec(m, k), x) ==> contains_key_spec(m, x),
        sum_weights_spec(remove_key_spec(m, k)) == sum_weights_spec(m) - lookup_weight_spec(m, k),
    decreases m.len(),
{
    let rest = m.drop_first();
    let r = remove_key_spec(m, k);
    assert forall|i: int, j: int| 0 <= i < j < rest.len() implies rest[i].0 != rest[j].0 by {
        assert(rest[i] == m[i + 1]);
        assert(rest[j] == m[j + 1]);
    }
    if m[0].0 == k {
        assert(r == rest);
        assert forall|i: int| 0 <= i < rest.len() implies rest[i].0 != k by {
            assert(rest[i] == m[i + 1]);
        }
        assert forall|x: KeyView| #[trigger] contains_key_spec(r, x) implies contains_key_spec(
            m,
            x,
        ) by {
            if contains_key_spec(r, x) {
                let i = choose|i: int| 0 <= i < rest.len() && rest[i].0 == x;
                assert(m[i + 1].0 == x);
            }
        }
    } else {
        if contains_key_spec(m, k) {
            let i = choose|i: int| 0 <= i < m.len() && m[i].0 == k;
            assert(rest[i - 1].0 == k);
        }
        lemma_remove_key(rest, k);
        let rr = remove_key_spec(rest, k);
        assert(r == seq![m[0]] + rr);
        assert(r[0] == m[0]);
        assert(r.drop_first() =~~= rr);
        assert forall|x: KeyView| #[trigger] contains_key_spec(r, x) implies contains_key_spec(
            m,
            x,
        ) by {
            if contains_key_spec(r, x) {
                let i = choose|i: int| 0 <= i < r.len() && r[i].0 == x;
                if i == 0 {
                    assert(m[0].0 == x);
                } else {
                    assert(rr[i - 1].0 == x);
                    assert(contains_key_spec(rr, x));
                    assert(contains_key_spec(rest, x));
                    let j = choose|j: int| 0 <= j < rest.len() && rest[j].0 == x;
                    assert(m[j + 1].0 == x);
                }
            }
        }
        assert forall|i: int, j: int| 0 <= i < j < r.len() implies r[i].0 != r[j].0 by {
            if i == 0 {
                assert(r[j] == rr[j - 1]);
                assert(contains_key_spec(rr, rr[j - 1].0));
                assert(contains_key_spec(rest, rr[j - 1].0));
                let t = choose|t: int| 0 <= t < rest.len() && rest[t].0 == rr[j - 1].0;
                assert(m[t + 1].0 == rr[j - 1].0);
                assert(m[0].0 != m[t + 1].0);
            } else {
                assert(r[i] == rr[i - 1]);
                assert(r[j] == rr[j - 1]);
            }
        }
        if contains_key_spec(r, k) {
            let i = choose|i: int| 0 <= i < r.len() && r[i].0 == k;
            assert(i > 0);
            assert(rr[i - 1].0 == k);
            assert(contains_key_spec(rr, k));
            assert(false);
        }
        assert(sum_weights_spec(r) == m[0].1 + sum_weights_spec(rr));
    }
}

/// A lookup succeeds exactly when the key occurs in the table.
pub proof fn lemma_lookup_some(m: Seq<EntryView>, k: KeyView)
    ensures
        (lookup_spec(m, k) is Some) <==> contains_key_spec(m, k),
    decreases m.len(),
{
    if m.len() > 0 && m[0].0 != k {
        lemma_lookup_some(m.drop_first(), k);
        if contains_key_spec(m.drop_first(), k) {
            let i = choose|i: int| 0 <= i < m.drop_first().len() && m.drop_first()[i].0 == k;
            assert(m[i + 1].0 == k);
        }
        if contains_key_spec(m, k) {
            let i = choose|i: int| 0 <= i < m.len() && m[i].0 == k;
            assert(m.drop_first()[i - 1].0 == k);
        }
    }
}

/// A table of `key -> weight` entries with pairwise distinct keys.
#[derive(Debug)]
pub struct WeightTable {
    entries: Vec<(String, usize)>,
}

impl View for WeightTable {
    type V = Seq<EntryView>;

    closed spec fn view(&self) -> Seq<EntryView> {
        self.entries@.map_values(|e: (String, usize)| (e.0@, e.1))
    }
}

impl WeightTable {
    /// Well-formed: no key occurs twice.
    pub open spec fn wf(&self) -> bool {
        unique_keys(self@)
    }

    pub fn new() -> (r: WeightTable)
        ensures
            r@ == Seq::<EntryView>::empty(),
            r.wf(),
    {
        let r = WeightTable { entries: Vec::new() };
        proof {
            assert(r@ =~= Seq::<EntryView>::empty());
        }
        r
    }

    pub fn len(&self) -> (r: usize)
        ensures
            r == self@.len(),
    {
        self.entries.len()
    }

    /// The key of the entry at position `i`.
    pub fn key_at(&self, i: usize) -> (r: &String)
        requires
            i < self@.len(),
        ensures
            r@ == self@[i as int].0,
    {
        &self.entries[i].0
    }

    /// The weight recorded for `key`, if any.
    pub fn get(&self, key: &String) -> (r: Option<usize>)
        ensures
            r == lookup_spec(self@, key@),
    {
        let n = self.entries.len();
        let mut i: usize = 0;
        proof {
            assert(self@.skip(0) =~= self@);
        }
        while i < n
            invariant
                n == self@.len(),
                0 <= i <= n,
                lookup_spec(self@, key@) == lookup_spec(self@.skip(i as int), key@),
            decreases n - i,
        {
            let e = &self.entries[i];
            if e.0 == *key {
                proof {
                    assert(self@.skip(i as int)[0] == self@[i as int]);
                }
                return Some(e.1);
            }
            proof {
                assert(self@.skip(i as int)[0] == self@[i as int]);
                assert(self@.skip(i as int).drop_first() =~= self@.skip(i + 1));
            }
            i = i + 1;
        }
        proof {
            assert(self@.skip(n as int) =~= Seq::<EntryView>::empty());
        }
        None
    }

    /// Does the table hold an entry for `key`?
    pub fn contains_key(&self, key: &String) -> (r: bool)
        ensures
            r == contains_key_spec(self@, key@),
    {
        proof {
            lemma_lookup_some(self@, key@);
        }
        match self.get(key) {
            Some(_) => true,
            None => false,
        }
    }

    /// Add an entry for a key not yet present.
    pub fn insert(&mut self, key: String, weight: usize)
        requires
            !contains_key_spec(old(self)@, key@),
        ensures
            final(self)@ == old(self)@.push((key@, weight)),
    {
        let ghost prev = self@;
        self.entries.push((key, weight));
        proof {
            assert(self@ =~= prev.push((key@, weight)));
        }
    }

    /// Remove the entry for `key`, which must be present.
    pub fn remove_key(&mut self, key: &String)
        requires
            contains_key_spec(old(self)@, key@),
        ensures
            final(self)@ == remove_key_spec(old(self)@, key@),
    {
        let n = self.entries.len();
        let mut i: usize = 0;
        while i < n
            invariant
                n == self@.len(),
                0 <= i <= n,
                self@ == old(self)@,
                contains_key_spec(self@, key@),
                forall|j: int| 0 <= j < i ==> self@[j].0 != key@,
            decreases n - i,
        {
            proof {
                assert(self@[i as int] == (self.entries@[i as int].0@, self.entries@[i as int].1));
            }
            if self.entries[i].0 == *key {
                let ghost prev = self@;
                self.entries.remove(i);
                proof {
                    assert(self@ =~~= prev.remove(i as int));
                    lemma_remove_key_at(prev, key@, i as int);
                }
                return ;
            }
            i = i + 1;
        }
        proof {
            let j = choose|j: int| 0 <= j < self@.len() && self@[j].0 == key@;
            assert(false);
        }
    }

    /// Field-by-field copy.
    pub fn duplicate(&self) -> (r: WeightTable)
        ensures
            r@ == self@,
    {
        let n = self.entries.len();
        let mut out: Vec<(String, usize)> = Vec::new();
        let mut i: usize = 0;
        while i < n
            invariant
                n == self.entries@.len(),
                0 <= i <= n,
                out@.len() == i,
                forall|j: int|
                    0 <= j < i ==> (out@[j].0@, out@[j].1)
                        == (self.entries@[j].0@, self.entries@[j].1),
            decreases n - i,
        {
            let e = &self.entries[i];
            out.push((e.0.clone(), e.1));
            i = i + 1;
        }
        let r = WeightTable { entries: out };
        proof {
            assert(r@ =~= self@);
        }
        r
    }
}

/// One loaded sample: where it came from, its total weight, and its table.
#[derive(Debug)]
pub struct SampleRecord {
    pub source_path: String,
    pub total_weight: usize,
    pub weights: WeightTable,
}

impl SampleRecord {
    /// Well-formed: keys are unique and the stored total is the sum of the
    /// table's weights.
    pub open spec fn wf(&self) -> bool {
        &&& self.weights.wf()
        &&& self.total_weight == sum_weights_spec(self.weights@)
    }

    pub fn new(source_path: String, total_weight: usize, weights: WeightTable) -> (r: SampleRecord)
        ensures
            r.source_path@ == source_path@,
            r.total_weight == total_weight,
            r.weights@ == weights@,
    {
        SampleRecord { source_path, total_weight, weights }
    }

    /// Field-by-field copy.
    pub fn duplicate(&self) -> (r: SampleRecord)
        ensures
            r.source_path@ == self.source_path@,
            r.total_weight == self.total_weight,
            r.weights@ == self.weights@,
            r.wf() == self.wf(),
    {
        SampleRecord {
            source_path: self.source_path.clone(),
            total_weight: self.total_weight,
            weights: self.weights.duplicate(),
        }
    }
}

} // verus!
