//! The comparison phase as a whole: one result row per pair task, and its
//! independence from the order in which workers take the tasks.

use vstd::prelude::*;
use vstd::multiset::Multiset;

use crate::compare::{compare_pair, shared_weight_spec, PairTask, SimilarityResult};
use crate::error::PublicError;
use crate::pipeline::{lemma_pairs_exactly_once, lemma_pairs_only_index_pairs, pair_views,
    pairs_spec, TaskView};
use crate::store::{lemma_store_lookup, store_contains, store_ids, store_lookup, ResultStore,
    StoreEntryView};

verus! {

/// The mathematical content of one result row.
pub type RowView = (Seq<char>, Seq<char>, int, int, int, int);

/// The views of a sequence of result rows.
pub open spec fn result_views(v: Seq<SimilarityResult>) -> Seq<RowView> {
    v.map_values(
        |r: SimilarityResult|
            (
                r.sample_id_a@,
                r.sample_id_b@,
                r.total_weight_a as int,
                r.shared_weight_from_a as int,
                r.total_weight_b as int,
                r.shared_weight_from_b as int,
            ),
    )
}

/// Both sides of the pair are loaded.
pub open spec fn pair_ready(m: Seq<StoreEntryView>, p: TaskView) -> bool {
    store_contains(m, p.0) && store_contains(m, p.1)
}

/// The row a ready pair denotes: identifiers, totals, and the two
/// directional shared-weight sums.
pub open spec fn row_spec(m: Seq<StoreEntryView>, p: TaskView) -> RowView {
    let ra = store_lookup(m, p.0).unwrap();
    let rb = store_lookup(m, p.1).unwrap();
    (
        p.0,
        p.1,
        ra.total_weight as int,
        shared_weight_spec(ra.weights@, rb.weights@),
        rb.total_weight as int,
        shared_weight_spec(rb.weights@, ra.weights@),
    )
}

/// Compare one pair against the store.  `None` exactly when a side is
/// missing — which the gating protocol makes impossible, so callers treat
/// it as a fatal invariant violation.
pub fn process_pair(store: &ResultStore, task: &PairTask) -> (r: Option<SimilarityResult>)
    requires
        store.wf(),
    ensures
        (r is Some) <==> pair_ready(store@, task@),
        r is Some ==> result_views(seq![r.unwrap()])[0] == row_spec(store@, task@),
{
    proof {
        lemma_store_lookup(store@, task.sample_id_a@);
        lemma_store_lookup(store@, task.sample_id_b@);
    }
    let ra = match store.get(&task.sample_id_a) {
        Some(ra) => ra,
        None => {
            return None;
        },
    };
    let rb = match store.get(&task.sample_id_b) {
        Some(rb) => rb,
        None => {
            return None;
        },
    };
    let row = compare_pair(&task.sample_id_a, ra, &task.sample_id_b, rb);
    Some(row)
}

/// Compute the result rows of all pair tasks in the given order.  Succeeds
/// exactly when every pair has both sides loaded, and then row `k` is the
/// row of pair `k`.  A missing side is reported as an `ApplicationError`,
/// as it breaks the phase-ordering invariant rather than any input rule.
pub fn compute_results(store: &ResultStore, pairs: &Vec<PairTask>) -> (r: Result<
    Vec<SimilarityResult>,
    PublicError,
>)
    requires
        store.wf(),
    ensures
        match r {
            Ok(rows) => {
                &&& rows@.len() == pairs@.len()
                &&& forall|k: int|
                    0 <= k < pairs@.len() ==> pair_ready(store@, pair_views(pairs@)[k])
                &&& forall|k: int|
                    0 <= k < pairs@.len() ==> result_views(rows@)[k] == row_spec(
                        store@,
                        pair_views(pairs@)[k],
                    )
            },
            Err(e) => {
                &&& exists|k: int|
                    0 <= k < pairs@.len() && !pair_ready(store@, pair_views(pairs@)[k])
                &&& e is ApplicationError
            },
        },
{
    let n = pairs.len();
    let mut out: Vec<SimilarityResult> = Vec::new();
    let mut i: usize = 0;
    let ghost wanted = pair_views(pairs@).map_values(|p: TaskView| row_spec(store@, p));
    proof {
        assert(result_views(out@) =~~= wanted.take(0));
    }
    while i < n
        invariant
            n == pairs@.len(),
            0 <= i <= n,
            store.wf(),
            out@.len() == i,
            wanted == pair_views(pairs@).map_values(|p: TaskView| row_spec(store@, p)),
            forall|k: int| 0 <= k < i ==> pair_ready(store@, pair_views(pairs@)[k]),
            result_views(out@) == wanted.take(i as int),
        decreases n - i,
    {
        let task = &pairs[i];
        proof {
            assert(pair_views(pairs@)[i as int] == task@);
        }
        let ghost prev = out@;
        match process_pair(store, task) {
            Some(row) => {
                proof {
                    assert(result_views(seq![row])[0] == row_spec(store@, task@));
                }
                out.push(row);
                proof {
                    assert(result_views(out@) =~~= result_views(prev).push(
                        result_views(seq![row])[0],
                    ));
                    assert(wanted[i as int] == row_spec(store@, pair_views(pairs@)[i as int]));
                    assert(wanted.take(i + 1) =~~= wanted.take(i as int).push(wanted[i as int]));
                }
            },
            None => {
                return Err(
                    PublicError::ApplicationError(
                        String::from_str("pair references a sample that is not loaded"),
                    ),
                );
            },
        }
        i = i + 1;
    }
    proof {
        assert(wanted.take(n as int) =~~= wanted);
        assert forall|k: int| 0 <= k < pairs@.len() implies result_views(out@)[k] == row_spec(
            store@,
            pair_views(pairs@)[k],
        ) by {
            assert(result_views(out@)[k] == wanted[k]);
        }
    }
    Ok(out)
}

/// Mapping a function over two sequences that hold the same elements in
/// any order yields the same elements in any order.
proof fn lemma_map_values_multiset<A, B>(s1: Seq<A>, s2: Seq<A>, f: spec_fn(A) -> B)
    requires
        s1.to_multiset() == s2.to_multiset(),
    ensures
        s1.map_values(f).to_multiset() == s2.map_values(f).to_multiset(),
    decreases s1.len(),
{
    broadcast use vstd::seq_lib::group_to_multiset_ensures;
    broadcast use vstd::multiset::group_multiset_axioms;

    assert(s1.to_multiset().len() == s1.len());
    assert(s2.to_multiset().len() == s2.len());
    if s1.len() == 0 {
        assert(s2.len() == 0);
        assert(s1.map_values(f) =~= Seq::<B>::empty());
        assert(s2.map_values(f) =~= Seq::<B>::empty());
    } else {
        let x = s1[0];
        assert(s1.contains(x));
        assert(s1.to_multiset().contains(x));
        assert(s2.to_multiset().contains(x));
        assert(s2.contains(x));
        let k = choose|k: int| 0 <= k < s2.len() && s2[k] == x;
        let r1 = s1.remove(0);
        let r2 = s2.remove(k);
        assert(r1.to_multiset() == s1.to_multiset().remove(x));
        assert(r2.to_multiset() == s2.to_multiset().remove(x));
        lemma_map_values_multiset(r1, r2, f);
        let m1 = s1.map_values(f);
        let m2 = s2.map_values(f);
        assert(m1.remove(0) =~= r1.map_values(f));
        assert(m2.remove(k) =~= r2.map_values(f));
        assert(m1[0] == f(x));
        assert(m2[k] == f(x));
        assert(m1.remove(0).to_multiset() == m1.to_multiset().remove(f(x)));
        assert(m2.remove(k).to_multiset() == m2.to_multiset().remove(f(x)));
        assert(m1.contains(f(x)));
        assert(m1.to_multiset().contains(f(x)));
        assert(m2.contains(f(x)));
        assert(m2.to_multiset().contains(f(x)));
        assert forall|y: B| m1.to_multiset().count(y) == m2.to_multiset().count(y) by {
            if y == f(x) {
                assert(m1.to_multiset().remove(f(x)).count(y) == m2.to_multiset().remove(
                    f(x),
                ).count(y));
            } else {
                assert(m1.to_multiset().remove(f(x)).count(y) == m1.to_multiset().count(y));
                assert(m2.to_multiset().remove(f(x)).count(y) == m2.to_multiset().count(y));
            }
        }
        assert(m1.to_multiset() =~= m2.to_multiset());
    }
}

/// Order independence of the comparison phase: over one loaded store, two
/// runs that take the same pair tasks in any two orders — any assignment
/// of tasks to workers — emit the same collection of result rows.
pub proof fn lemma_results_order_independent(
    m: Seq<StoreEntryView>,
    pairs1: Seq<TaskView>,
    pairs2: Seq<TaskView>,
)
    requires
        pairs1.to_multiset() == pairs2.to_multiset(),
    ensures
        pairs1.map_values(|p: TaskView| row_spec(m, p)).to_multiset() == pairs2.map_values(
            |p: TaskView| row_spec(m, p),
        ).to_multiset(),
{
    lemma_map_values_multiset(pairs1, pairs2, |p: TaskView| row_spec(m, p));
}



/// Gate correctness carried to the comparison phase: once the store holds
/// exactly the identifiers the pair generator enumerates, every generated
/// pair task finds both of its sides — no comparison lookup can miss.
pub proof fn lemma_gate_opens_pairs(m: Seq<StoreEntryView>, ids: Seq<Seq<char>>)
    requires
        store_ids(m).to_set() == ids.to_set(),
    ensures
        forall|k: int|
            0 <= k < pairs_spec(ids).len() ==> pair_ready(m, #[trigger] pairs_spec(ids)[k]),
{
    broadcast use vstd::set::group_set_axioms;

    assert forall|k: int| 0 <= k < pairs_spec(ids).len() implies pair_ready(
        m,
        pairs_spec(ids)[k],
    ) by {
        lemma_pairs_only_index_pairs(ids, k);
        let (i, j) = choose|i: int, j: int|
            0 <= i < j < ids.len() && pairs_spec(ids)[k] == (ids[i], ids[j]);
        assert(ids.contains(ids[i]));
        assert(ids.contains(ids[j]));
        assert(ids.to_set().contains(ids[i]));
        assert(ids.to_set().contains(ids[j]));
        assert(store_ids(m).to_set().contains(ids[i]));
        assert(store_ids(m).to_set().contains(ids[j]));
        assert(store_ids(m).contains(ids[i]));
        assert(store_ids(m).contains(ids[j]));
        let a = choose|a: int| 0 <= a < store_ids(m).len() && store_ids(m)[a] == ids[i];
        let b = choose|b: int| 0 <= b < store_ids(m).len() && store_ids(m)[b] == ids[j];
        assert(m[a].0 == ids[i]);
        assert(m[b].0 == ids[j]);
    }
}

/// A pair handed over in the opposite orientation yields the same data
/// with the two sides exchanged: identifiers, totals and the two
/// directional sums swap places.  Which orientation a run emits follows
/// the store snapshot's identifier order, which the pipeline leaves
/// unspecified, so rows of two runs correspond up to this swap.
pub proof fn lemma_row_orientation_swap(m: Seq<StoreEntryView>, a: Seq<char>, b: Seq<char>)
    ensures
        row_spec(m, (b, a)).0 == row_spec(m, (a, b)).1,
        row_spec(m, (b, a)).1 == row_spec(m, (a, b)).0,
        row_spec(m, (b, a)).2 == row_spec(m, (a, b)).4,
        row_spec(m, (b, a)).3 == row_spec(m, (a, b)).5,
        row_spec(m, (b, a)).4 == row_spec(m, (a, b)).2,
        row_spec(m, (b, a)).5 == row_spec(m, (a, b)).3,
{
}


/// Two-element sequences in either order hold the same elements.
proof fn lemma_two_swap<A>(x: A, y: A)
    ensures
        seq![x, y].to_multiset() == seq![y, x].to_multiset(),
{
    broadcast use vstd::seq_lib::group_to_multiset_ensures;
    broadcast use vstd::multiset::group_multiset_axioms;

    assert(seq![x, y] =~= Seq::<A>::empty().push(x).push(y));
    assert(seq![y, x] =~= Seq::<A>::empty().push(y).push(x));
    assert forall|z: A| Seq::<A>::empty().to_multiset().count(z) == 0 by {
        assert(!Seq::<A>::empty().contains(z));
        assert(!Seq::<A>::empty().to_multiset().contains(z));
    }
    assert(seq![x, y].to_multiset() =~= seq![y, x].to_multiset());
}

/// The identity of a pair without its orientation: its two identifiers,
/// unordered.
pub open spec fn unordered_pair(p: TaskView) -> Multiset<Seq<char>> {
    seq![p.0, p.1].to_multiset()
}

/// The unordered identities of a snapshot's generated pairs.
pub open spec fn unordered_pairs(ids: Seq<Seq<char>>) -> Seq<Multiset<Seq<char>>> {
    pairs_spec(ids).map_values(|p: TaskView| unordered_pair(p))
}

/// Two pairs with the same unordered identity are equal or swapped.
proof fn lemma_unordered_pair_determines(p1: TaskView, p2: TaskView)
    requires
        unordered_pair(p1) == unordered_pair(p2),
    ensures
        p1 == p2 || (p1.0 == p2.1 && p1.1 == p2.0),
{
    broadcast use vstd::seq_lib::group_to_multiset_ensures;
    broadcast use vstd::multiset::group_multiset_axioms;

    assert(seq![p1.0, p1.1] =~= Seq::<Seq<char>>::empty().push(p1.0).push(p1.1));
    assert(seq![p2.0, p2.1] =~= Seq::<Seq<char>>::empty().push(p2.0).push(p2.1));
    assert forall|z: Seq<char>| Seq::<Seq<char>>::empty().to_multiset().count(z) == 0 by {
        assert(!Seq::<Seq<char>>::empty().contains(z));
        assert(!Seq::<Seq<char>>::empty().to_multiset().contains(z));
    }
    assert forall|z: Seq<char>| unordered_pair(p1).count(z) == (if z == p1.0 {
        1nat
    } else {
        0nat
    }) + (if z == p1.1 {
        1nat
    } else {
        0nat
    }) by {
        assert(Seq::<Seq<char>>::empty().to_multiset().count(z) == 0);
    }
    assert forall|z: Seq<char>| unordered_pair(p2).count(z) == (if z == p2.0 {
        1nat
    } else {
        0nat
    }) + (if z == p2.1 {
        1nat
    } else {
        0nat
    }) by {
        assert(Seq::<Seq<char>>::empty().to_multiset().count(z) == 0);
    }
    assert(unordered_pair(p1).count(p1.0) == unordered_pair(p2).count(p1.0));
    assert(unordered_pair(p1).count(p1.1) == unordered_pair(p2).count(p1.1));
    assert(unordered_pair(p1).count(p2.0) == unordered_pair(p2).count(p2.0));
    assert(unordered_pair(p1).count(p2.1) == unordered_pair(p2).count(p2.1));
    if p1.0 == p1.1 {
        assert(unordered_pair(p1).count(p1.0) == 2);
        assert(p1.0 == p2.0 && p1.0 == p2.1);
    } else if p1.0 == p2.0 {
        assert(unordered_pair(p1).count(p1.1) == 1);
        assert(p1.1 == p2.1);
    } else {
        assert(unordered_pair(p1).count(p1.0) == 1);
        assert(p1.0 == p2.1);
        assert(unordered_pair(p2).count(p2.0) >= 1);
        assert(p2.0 == p1.0 || p2.0 == p1.1);
        assert(p1.1 == p2.0);
    }
}

/// The two sides of a pair's result row, each as (identifier, its total,
/// the shared weight summed from its side), unordered: what a row says
/// once its arbitrary orientation is set aside.
pub open spec fn row_sides(m: Seq<StoreEntryView>, p: TaskView) -> Multiset<(Seq<char>, int, int)> {
    seq![
        (p.0, row_spec(m, p).2, row_spec(m, p).3),
        (p.1, row_spec(m, p).4, row_spec(m, p).5),
    ].to_multiset()
}

/// A pair's unordered row data depends only on its unordered identity.
proof fn lemma_row_sides_factor(m: Seq<StoreEntryView>, p1: TaskView, p2: TaskView)
    requires
        unordered_pair(p1) == unordered_pair(p2),
    ensures
        row_sides(m, p1) == row_sides(m, p2),
{
    lemma_unordered_pair_determines(p1, p2);
    if p1 != p2 {
        lemma_row_orientation_swap(m, p2.0, p2.1);
        lemma_two_swap(
            (p2.0, row_spec(m, p2).2, row_spec(m, p2).3),
            (p2.1, row_spec(m, p2).4, row_spec(m, p2).5),
        );
        assert(seq![
            (p1.0, row_spec(m, p1).2, row_spec(m, p1).3),
            (p1.1, row_spec(m, p1).4, row_spec(m, p1).5),
        ] =~~= seq![
            (p2.1, row_spec(m, p2).4, row_spec(m, p2).5),
            (p2.0, row_spec(m, p2).2, row_spec(m, p2).3),
        ]);
    }
}

/// As `lemma_map_values_multiset`, with the function known only up to a
/// coarser key `u`: if the `u`-images agree as multisets and `f` depends
/// only on `u`, the `f`-images agree as multisets.
proof fn lemma_map_values_multiset_via<A, B, C>(
    s1: Seq<A>,
    s2: Seq<A>,
    u: spec_fn(A) -> B,
    f: spec_fn(A) -> C,
)
    requires
        s1.map_values(u).to_multiset() == s2.map_values(u).to_multiset(),
        forall|a: A, b: A| #![trigger u(a), u(b)] u(a) == u(b) ==> f(a) == f(b),
    ensures
        s1.map_values(f).to_multiset() == s2.map_values(f).to_multiset(),
    decreases s1.len(),
{
    broadcast use vstd::seq_lib::group_to_multiset_ensures;
    broadcast use vstd::multiset::group_multiset_axioms;

    assert(s1.map_values(u).to_multiset().len() == s1.len());
    assert(s2.map_values(u).to_multiset().len() == s2.len());
    if s1.len() == 0 {
        assert(s2.len() == 0);
        assert(s1.map_values(f) =~= Seq::<C>::empty());
        assert(s2.map_values(f) =~= Seq::<C>::empty());
    } else {
        let x = s1[0];
        let mu1 = s1.map_values(u);
        let mu2 = s2.map_values(u);
        assert(mu1[0] == u(x));
        assert(mu1.contains(u(x)));
        assert(mu1.to_multiset().contains(u(x)));
        assert(mu2.to_multiset().contains(u(x)));
        assert(mu2.contains(u(x)));
        let k = choose|k: int| 0 <= k < mu2.len() && mu2[k] == u(x);
        assert(u(s2[k]) == u(x));
        assert(f(s2[k]) == f(x));
        let r1 = s1.remove(0);
        let r2 = s2.remove(k);
        assert(r1.map_values(u) =~= mu1.remove(0));
        assert(r2.map_values(u) =~= mu2.remove(k));
        assert(mu1.remove(0).to_multiset() == mu1.to_multiset().remove(u(x)));
        assert(mu2.remove(k).to_multiset() == mu2.to_multiset().remove(u(x)));
        lemma_map_values_multiset_via(r1, r2, u, f);
        let m1 = s1.map_values(f);
        let m2 = s2.map_values(f);
        assert(m1.remove(0) =~= r1.map_values(f));
        assert(m2.remove(k) =~= r2.map_values(f));
        assert(m1[0] == f(x));
        assert(m2[k] == f(x));
        assert(m1.remove(0).to_multiset() == m1.to_multiset().remove(f(x)));
        assert(m2.remove(k).to_multiset() == m2.to_multiset().remove(f(x)));
        assert(m1.contains(f(x)));
        assert(m1.to_multiset().contains(f(x)));
        assert(m2.contains(f(x)));
        assert(m2.to_multiset().contains(f(x)));
        assert forall|y: C| m1.to_multiset().count(y) == m2.to_multiset().count(y) by {
            if y == f(x) {
                assert(m1.to_multiset().remove(f(x)).count(y) == m2.to_multiset().remove(
                    f(x),
                ).count(y));
            } else {
                assert(m1.to_multiset().remove(f(x)).count(y) == m1.to_multiset().count(y));
                assert(m2.to_multiset().remove(f(x)).count(y) == m2.to_multiset().count(y));
            }
        }
        assert(m1.to_multiset() =~= m2.to_multiset());
    }
}

/// Two snapshots of the same loaded identifiers — whatever order each run
/// materialized them in — enumerate the same unordered pairs.
proof fn lemma_unordered_pairs_of_id_set(ids1: Seq<Seq<char>>, ids2: Seq<Seq<char>>)
    requires
        ids1.no_duplicates(),
        ids2.no_duplicates(),
        ids1.to_set() == ids2.to_set(),
    ensures
        unordered_pairs(ids1).to_multiset() == unordered_pairs(ids2).to_multiset(),
{
    broadcast use vstd::seq_lib::group_to_multiset_ensures;
    broadcast use vstd::multiset::group_multiset_axioms;
    broadcast use vstd::set::group_set_axioms;

    lemma_one_side_unordered(ids1, ids2);
    lemma_one_side_unordered(ids2, ids1);
    let u1 = unordered_pairs(ids1);
    let u2 = unordered_pairs(ids2);
    lemma_unordered_no_duplicates(ids1);
    lemma_unordered_no_duplicates(ids2);
    u1.lemma_multiset_has_no_duplicates();
    u2.lemma_multiset_has_no_duplicates();
    assert forall|v: Multiset<Seq<char>>| u1.to_multiset().count(v) == u2.to_multiset().count(
        v,
    ) by {
        if u1.contains(v) {
            assert(u2.contains(v));
            assert(u1.to_multiset().contains(v));
            assert(u2.to_multiset().contains(v));
        } else if u2.contains(v) {
            assert(u1.contains(v));
        } else {
            assert(!u1.to_multiset().contains(v));
            assert(!u2.to_multiset().contains(v));
            assert(u1.to_multiset().count(v) == 0);
            assert(u2.to_multiset().count(v) == 0);
        }
    }
    assert(u1.to_multiset() =~= u2.to_multiset());
}

/// Every unordered pair of the first snapshot occurs in the second.
proof fn lemma_one_side_unordered(ids1: Seq<Seq<char>>, ids2: Seq<Seq<char>>)
    requires
        ids1.no_duplicates(),
        ids2.no_duplicates(),
        ids1.to_set() == ids2.to_set(),
    ensures
        forall|v: Multiset<Seq<char>>| #[trigger] unordered_pairs(ids1).contains(v)
            ==> unordered_pairs(ids2).contains(v),
{
    broadcast use vstd::set::group_set_axioms;

    let u1 = unordered_pairs(ids1);
    let u2 = unordered_pairs(ids2);
    lemma_pairs_exactly_once(ids1);
    lemma_pairs_exactly_once(ids2);
    assert forall|v: Multiset<Seq<char>>| #[trigger] u1.contains(v) implies u2.contains(v) by {
        let t = choose|t: int| 0 <= t < u1.len() && u1[t] == v;
        lemma_pairs_only_index_pairs(ids1, t);
        let (i, j) = choose|i: int, j: int|
            0 <= i < j < ids1.len() && pairs_spec(ids1)[t] == (ids1[i], ids1[j]);
        let e1 = ids1[i];
        let e2 = ids1[j];
        assert(v == unordered_pair((e1, e2)));
        assert(ids1.contains(e1) && ids1.contains(e2));
        assert(ids1.to_set().contains(e1) && ids1.to_set().contains(e2));
        assert(ids2.to_set().contains(e1) && ids2.to_set().contains(e2));
        assert(ids2.contains(e1) && ids2.contains(e2));
        let a = choose|a: int| 0 <= a < ids2.len() && ids2[a] == e1;
        let b = choose|b: int| 0 <= b < ids2.len() && ids2[b] == e2;
        assert(e1 != e2);
        assert(a != b);
        if a < b {
            assert(pairs_spec(ids2).contains((ids2[a], ids2[b])));
            let w = choose|w: int|
                0 <= w < pairs_spec(ids2).len() && pairs_spec(ids2)[w] == (ids2[a], ids2[b]);
            assert(u2[w] == unordered_pair((e1, e2)));
            assert(u2.contains(v));
        } else {
            assert(pairs_spec(ids2).contains((ids2[b], ids2[a])));
            let w = choose|w: int|
                0 <= w < pairs_spec(ids2).len() && pairs_spec(ids2)[w] == (ids2[b], ids2[a]);
            lemma_two_swap(e1, e2);
            assert(u2[w] == unordered_pair((e2, e1)));
            assert(unordered_pair((e2, e1)) == v);
            assert(u2.contains(v));
        }
    }
}

/// In one snapshot's pair list, no two pairs share an unordered identity.
proof fn lemma_unordered_no_duplicates(ids: Seq<Seq<char>>)
    requires
        ids.no_duplicates(),
    ensures
        unordered_pairs(ids).no_duplicates(),
{
    let u = unordered_pairs(ids);
    lemma_pairs_exactly_once(ids);
    assert forall|x: int, y: int| 0 <= x < y < u.len() implies u[x] != u[y] by {
        if u[x] == u[y] {
            lemma_pairs_only_index_pairs(ids, x);
            lemma_pairs_only_index_pairs(ids, y);
            let (i, j) = choose|i: int, j: int|
                0 <= i < j < ids.len() && pairs_spec(ids)[x] == (ids[i], ids[j]);
            let (a, b) = choose|a: int, b: int|
                0 <= a < b < ids.len() && pairs_spec(ids)[y] == (ids[a], ids[b]);
            lemma_unordered_pair_determines((ids[i], ids[j]), (ids[a], ids[b]));
            if (ids[i], ids[j]) == (ids[a], ids[b]) {
                assert(pairs_spec(ids)[x] == pairs_spec(ids)[y]);
                assert(false);
            } else {
                assert(ids[i] == ids[b] && ids[j] == ids[a]);
                assert(i == b && j == a);
                assert(false);
            }
        }
    }
}

/// Cross-run order independence: two complete runs over the same loaded
/// records, each materializing its own identifier snapshot in whatever
/// order scheduling produced, emit the same collection of rows once each
/// row's arbitrary orientation is set aside.
pub proof fn lemma_results_snapshot_independent(
    m: Seq<StoreEntryView>,
    ids1: Seq<Seq<char>>,
    ids2: Seq<Seq<char>>,
)
    requires
        ids1.no_duplicates(),
        ids2.no_duplicates(),
        ids1.to_set() == ids2.to_set(),
    ensures
        pairs_spec(ids1).map_values(|p: TaskView| row_sides(m, p)).to_multiset() == pairs_spec(
            ids2,
        ).map_values(|p: TaskView| row_sides(m, p)).to_multiset(),
{
    let uf = |p: TaskView| unordered_pair(p);
    let ff = |p: TaskView| row_sides(m, p);
    lemma_unordered_pairs_of_id_set(ids1, ids2);
    assert(pairs_spec(ids1).map_values(uf) =~~= unordered_pairs(ids1));
    assert(pairs_spec(ids2).map_values(uf) =~~= unordered_pairs(ids2));
    assert forall|a: TaskView, b: TaskView| #![trigger unordered_pair(a), unordered_pair(b)]
        unordered_pair(a) == unordered_pair(b) implies row_sides(m, a) == row_sides(m, b) by {
        lemma_row_sides_factor(m, a, b);
    }
    lemma_map_values_multiset_via(pairs_spec(ids1), pairs_spec(ids2), uf, ff);
    assert(pairs_spec(ids1).map_values(ff) =~~= pairs_spec(ids1).map_values(
        |p: TaskView| row_sides(m, p),
    ));
    assert(pairs_spec(ids2).map_values(ff) =~~= pairs_spec(ids2).map_values(
        |p: TaskView| row_sides(m, p),
    ));
}

} // verus!
