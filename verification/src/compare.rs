//! The pairwise similarity metric: directional shared-weight sums.

use vstd::prelude::*;

use crate::record::{
    contains_key_spec, key_set_spec, lemma_key_set_contains, lemma_lookup_some, lookup_spec,
    lookup_weight_spec, sum_weights_spec, unique_keys, EntryView, KeyView, SampleRecord,
    WeightTable,
};

verus! {

/// One comparison task: the identifiers of an unordered sample pair.
#[derive(Debug)]
pub struct PairTask {
    pub sample_id_a: String,
    pub sample_id_b: String,
}

impl View for PairTask {
    type V = (Seq<char>, Seq<char>);

    open spec fn view(&self) -> (Seq<char>, Seq<char>) {
        (self.sample_id_a@, self.sample_id_b@)
    }
}

impl PairTask {
    pub fn new(sample_id_a: String, sample_id_b: String) -> (r: PairTask)
        ensures
            r@ == (sample_id_a@, sample_id_b@),
    {
        PairTask { sample_id_a, sample_id_b }
    }

    /// Field-by-field copy.
    pub fn duplicate(&self) -> (r: PairTask)
        ensures
            r@ == self@,
    {
        PairTask { sample_id_a: self.sample_id_a.clone(), sample_id_b: self.sample_id_b.clone() }
    }
}

/// One emitted row: the pair's identifiers, each side's total weight, and
/// the two directional shared-weight sums.
#[derive(Debug)]
pub struct SimilarityResult {
    pub sample_id_a: String,
    pub sample_id_b: String,
    pub total_weight_a: usize,
    pub shared_weight_from_a: usize,
    pub total_weight_b: usize,
    pub shared_weight_from_b: usize,
}

impl View for SimilarityResult {
    type V = (Seq<char>, Seq<char>, usize, usize, usize, usize);

    open spec fn view(&self) -> (Seq<char>, Seq<char>, usize, usize, usize, usize) {
        (
            self.sample_id_a@,
            self.sample_id_b@,
            self.total_weight_a,
            self.shared_weight_from_a,
            self.total_weight_b,
            self.shared_weight_from_b,
        )
    }
}

/// The sum, over the entries of `src` whose key also occurs in `other`, of
/// `other`'s weight for that key.
pub open spec fn shared_weight_spec(src: Seq<EntryView>, other: Seq<EntryView>) -> int
    decreases src.len(),
{
    if src.len() == 0 {
        0
    } else {
        lookup_weight_spec(other, src[0].0) + shared_weight_spec(src.drop_first(), other)
    }
}

/// The sum of the weights of the entries of `m` whose key lies in `ks`.
pub open spec fn restricted_sum_spec(m: Seq<EntryView>, ks: Set<KeyView>) -> int
    decreases m.len(),
{
    if m.len() == 0 {
        0
    } else {
        (if ks.contains(m[0].0) {
            m[0].1 as int
        } else {
            0
        }) + restricted_sum_spec(m.drop_first(), ks)
    }
}

/// Restricting to the empty key set sums nothing.
pub proof fn lemma_restricted_empty(m: Seq<EntryView>)
    ensures
        restricted_sum_spec(m, Set::empty()) == 0,
    decreases m.len(),
{
    if m.len() > 0 {
        lemma_restricted_empty(m.drop_first());
    }
}

/// Adding a key that `m` does not hold leaves the restricted sum unchanged.
pub proof fn lemma_restricted_absent(m: Seq<EntryView>, ks: Set<KeyView>, k: KeyView)
    requires
        !contains_key_spec(m, k),
    ensures
        restricted_sum_spec(m, ks.insert(k)) == restricted_sum_spec(m, ks),
    decreases m.len(),
{
    if m.len() > 0 {
        assert(m[0].0 != k);
        assert forall|i: int| 0 <= i < m.drop_first().len() implies m.drop_first()[i].0 != k by {
            assert(m.drop_first()[i] == m[i + 1]);
        }
        lemma_restricted_absent(m.drop_first(), ks, k);
    }
}

/// Adding one fresh key `k` to the restriction set adds exactly `m`'s weight
/// for `k` (zero when absent), provided `m`'s keys are unique.
pub proof fn lemma_restricted_insert(m: Seq<EntryView>, ks: Set<KeyView>, k: KeyView)
    requires
        unique_keys(m),
        !ks.contains(k),
    ensures
        restricted_sum_spec(m, ks.insert(k)) == restricted_sum_spec(m, ks)
            + lookup_weight_spec(m, k),
    decreases m.len(),
{
    if m.len() > 0 {
        let rest = m.drop_first();
        assert forall|i: int, j: int| 0 <= i < j < rest.len() implies rest[i].0 != rest[j].0 by {
            assert(rest[i] == m[i + 1]);
            assert(rest[j] == m[j + 1]);
        }
        if m[0].0 == k {
            assert forall|i: int| 0 <= i < rest.len() implies rest[i].0 != k by {
                assert(rest[i] == m[i + 1]);
            }
            assert(!contains_key_spec(rest, k));
            lemma_restricted_absent(rest, ks, k);
        } else {
            lemma_restricted_insert(rest, ks, k);
        }
    }
}

/// The directional shared-weight sum equals the sum of `other`'s weights
/// restricted to the keys of `src`: a sum over the key intersection, since
/// entries of `other` outside `src`'s key set contribute nothing.  In
/// particular the metric computed from `src`'s side over `other`'s weights
/// and the one computed from `other`'s side over `other`'s weights agree.
pub proof fn lemma_shared_weight_intersection(src: Seq<EntryView>, other: Seq<EntryView>)
    requires
        unique_keys(src),
        unique_keys(other),
    ensures
        shared_weight_spec(src, other) == restricted_sum_spec(other, key_set_spec(src)),
    decreases src.len(),
{
    if src.len() == 0 {
        lemma_restricted_empty(other);
    } else {
        let rest = src.drop_first();
        assert forall|i: int, j: int| 0 <= i < j < rest.len() implies rest[i].0 != rest[j].0 by {
            assert(rest[i] == src[i + 1]);
            assert(rest[j] == src[j + 1]);
        }
        lemma_shared_weight_intersection(rest, other);
        assert forall|i: int| 0 <= i < rest.len() implies rest[i].0 != src[0].0 by {
            assert(rest[i] == src[i + 1]);
        }
        assert(!contains_key_spec(rest, src[0].0));
        lemma_key_set_contains(rest, src[0].0);
        lemma_restricted_insert(other, key_set_spec(rest), src[0].0);
    }
}

/// A restricted sum is bounded by the full sum, and is non-negative.
pub proof fn lemma_restricted_le_sum(m: Seq<EntryView>, ks: Set<KeyView>)
    ensures
        0 <= restricted_sum_spec(m, ks) <= sum_weights_spec(m),
    decreases m.len(),
{
    if m.len() > 0 {
        lemma_restricted_le_sum(m.drop_first(), ks);
    }
}

/// The shared-weight sum never exceeds the total weight of the side whose
/// weights are summed.
pub proof fn lemma_shared_weight_bound(src: Seq<EntryView>, other: Seq<EntryView>)
    requires
        unique_keys(src),
        unique_keys(other),
    ensures
        0 <= shared_weight_spec(src, other) <= sum_weights_spec(other),
{
    lemma_shared_weight_intersection(src, other);
    lemma_restricted_le_sum(other, key_set_spec(src));
}

/// The shared weight of `src` against `other`: for every key of `src` that
/// `other` also holds, add `other`'s weight for it.
pub fn shared_weight(src: &WeightTable, other: &WeightTable) -> (r: usize)
    requires
        src.wf(),
        other.wf(),
        sum_weights_spec(other@) <= usize::MAX,
    ensures
        r == shared_weight_spec(src@, other@),
{
    let n = src.len();
    let mut acc: usize = 0;
    let mut i: usize = 0;
    proof {
        assert(src@.skip(0) =~= src@);
        lemma_shared_weight_bound(src@, other@);
    }
    while i < n
        invariant
            src.wf(),
            other.wf(),
            sum_weights_spec(other@) <= usize::MAX,
            n == src@.len(),
            0 <= i <= n,
            shared_weight_spec(src@, other@) == acc + shared_weight_spec(
                src@.skip(i as int),
                other@,
            ),
            acc + shared_weight_spec(src@.skip(i as int), other@) <= sum_weights_spec(other@),
            0 <= shared_weight_spec(src@.skip(i as int), other@),
        decreases n - i,
    {
        proof {
            let tail = src@.skip(i as int);
            assert(tail[0] == src@[i as int]);
            assert(tail.drop_first() =~= src@.skip(i + 1));
            assert forall|a: int, b: int| 0 <= a < b < tail.len() implies tail[a].0
                != tail[b].0 by {
                assert(tail[a] == src@[i + a]);
                assert(tail[b] == src@[i + b]);
            }
            assert forall|a: int, b: int|
                0 <= a < b < tail.drop_first().len() implies tail.drop_first()[a].0
                != tail.drop_first()[b].0 by {
                assert(tail.drop_first()[a] == tail[a + 1]);
                assert(tail.drop_first()[b] == tail[b + 1]);
            }
            lemma_shared_weight_bound(tail.drop_first(), other@);
        }
        // The key string of entry i of src, looked up in other.
        let key_ref = src.key_at(i);
        let w = match other.get(key_ref) {
            Some(w) => w,
            None => 0,
        };
        proof {
            lemma_lookup_some(other@, key_ref@);
        }
        acc = acc + w;
        i = i + 1;
    }
    proof {
        assert(src@.skip(n as int) =~= Seq::<EntryView>::empty());
    }
    acc
}

/// Compare two loaded samples and build the result row for the pair
/// `(id_a, id_b)`.  `shared_weight_from_a` sums, over the keys the two
/// tables share, the weight on `b`'s side; `shared_weight_from_b` the weight
/// on `a`'s side.
pub fn compare_pair(
    id_a: &String,
    rec_a: &SampleRecord,
    id_b: &String,
    rec_b: &SampleRecord,
) -> (r: SimilarityResult)
    requires
        rec_a.wf(),
        rec_b.wf(),
    ensures
        r.sample_id_a@ == id_a@,
        r.sample_id_b@ == id_b@,
        r.total_weight_a == rec_a.total_weight,
        r.total_weight_b == rec_b.total_weight,
        r.shared_weight_from_a == shared_weight_spec(rec_a.weights@, rec_b.weights@),
        r.shared_weight_from_b == shared_weight_spec(rec_b.weights@, rec_a.weights@),
    {
    let sim_a = shared_weight(&rec_a.weights, &rec_b.weights);
    let sim_b = shared_weight(&rec_b.weights, &rec_a.weights);
    SimilarityResult {
        sample_id_a: id_a.clone(),
        sample_id_b: id_b.clone(),
        total_weight_a: rec_a.total_weight,
        shared_weight_from_a: sim_a,
        total_weight_b: rec_b.total_weight,
        shared_weight_from_b: sim_b,
    }
}

/// A sample with an empty table has total weight zero and shares no
/// weight in either direction against any other sample.
pub proof fn lemma_empty_sample_shares_nothing(empty: Seq<EntryView>, other: Seq<EntryView>)
    requires
        empty.len() == 0,
    ensures
        sum_weights_spec(empty) == 0,
        shared_weight_spec(empty, other) == 0,
        shared_weight_spec(other, empty) == 0,
    decreases other.len(),
{
    if other.len() > 0 {
        lemma_empty_sample_shares_nothing(empty, other.drop_first());
    }
}

/// Two samples whose key sets are disjoint share no weight in either
/// direction.
pub proof fn lemma_disjoint_samples_share_nothing(a: Seq<EntryView>, b: Seq<EntryView>)
    requires
        forall|k: KeyView| !(contains_key_spec(a, k) && contains_key_spec(b, k)),
    ensures
        shared_weight_spec(a, b) == 0,
        shared_weight_spec(b, a) == 0,
{
    lemma_disjoint_one_side(a, b);
    lemma_disjoint_one_side(b, a);
}

proof fn lemma_disjoint_one_side(src: Seq<EntryView>, other: Seq<EntryView>)
    requires
        forall|k: KeyView| !(contains_key_spec(src, k) && contains_key_spec(other, k)),
    ensures
        shared_weight_spec(src, other) == 0,
    decreases src.len(),
{
    if src.len() > 0 {
        assert(contains_key_spec(src, src[0].0));
        assert(!contains_key_spec(other, src[0].0));
        lemma_lookup_some(other, src[0].0);
        let rest = src.drop_first();
        assert forall|k: KeyView| !(contains_key_spec(rest, k) && contains_key_spec(
            other,
            k,
        )) by {
            if contains_key_spec(rest, k) {
                let i = choose|i: int| 0 <= i < rest.len() && rest[i].0 == k;
                assert(src[i + 1].0 == k);
                assert(contains_key_spec(src, k));
            }
        }
        lemma_disjoint_one_side(rest, other);
    }
}

} // verus!
