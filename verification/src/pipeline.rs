//! From manifest rows to the task list, and from loaded sample identifiers
//! to the pair-task list.

use vstd::prelude::*;

use crate::compare::PairTask;
use crate::error::PublicError;
use crate::parse::{rows_views, str_views};
use crate::record::SampleTask;

verus! {

/// The identity view of one task: the (sample id, source path) pair.
pub type TaskView = (Seq<char>, Seq<char>);

/// The views of a sequence of ingestion tasks.
pub open spec fn task_views(v: Seq<SampleTask>) -> Seq<TaskView> {
    v.map_values(|t: SampleTask| t@)
}

/// The views of a sequence of pair tasks.
pub open spec fn pair_views(v: Seq<PairTask>) -> Seq<TaskView> {
    v.map_values(|t: PairTask| t@)
}

/// The task a manifest row denotes: its first two fields.
pub open spec fn tasks_of_rows(rows: Seq<Seq<Seq<char>>>) -> Seq<TaskView> {
    rows.map_values(|row: Seq<Seq<char>>| (row[0], row[1]))
}

/// Turn manifest rows into ingestion tasks: the first two fields of each
/// row, further fields ignored.  A row with fewer than two fields is a
/// `DataError`; success exactly when every row has at least two fields.
pub fn tasks_from_rows(rows: &Vec<Vec<String>>) -> (r: Result<Vec<SampleTask>, PublicError>)
    ensures
        match r {
            Ok(ts) => {
                &&& forall|i: int| 0 <= i < rows@.len() ==> rows_views(rows@)[i].len() >= 2
                &&& task_views(ts@) == tasks_of_rows(rows_views(rows@))
            },
            Err(e) => {
                &&& exists|i: int| 0 <= i < rows@.len() && rows_views(rows@)[i].len() < 2
                &&& e is DataError
            },
        },
{
    let n = rows.len();
    let mut out: Vec<SampleTask> = Vec::new();
    let mut i: usize = 0;
    let ghost wanted = tasks_of_rows(rows_views(rows@));
    proof {
        assert(task_views(out@) =~~= wanted.take(0));
    }
    while i < n
        invariant
            n == rows@.len(),
            0 <= i <= n,
            out@.len() == i,
            wanted == tasks_of_rows(rows_views(rows@)),
            forall|j: int| 0 <= j < i ==> rows_views(rows@)[j].len() >= 2,
            task_views(out@) == wanted.take(i as int),
        decreases n - i,
    {
        let row = &rows[i];
        if row.len() < 2 {
            proof {
                assert(rows_views(rows@)[i as int].len() < 2);
            }
            return Err(PublicError::DataError(String::from_str("manifest row has fewer than two fields")));
        }
        let t = SampleTask::new(row[0].clone(), row[1].clone());
        let ghost tview = t@;
        let ghost prev = out@;
        proof {
            assert(rows_views(rows@)[i as int] == str_views(row@));
            assert(str_views(row@)[0] == row@[0]@);
            assert(str_views(row@)[1] == row@[1]@);
        }
        out.push(t);
        proof {
            assert(wanted[i as int] == (
                rows_views(rows@)[i as int][0],
                rows_views(rows@)[i as int][1],
            ));
            assert(tview == wanted[i as int]);
            assert(task_views(out@) =~~= task_views(prev).push(tview));
            assert(wanted.take(i + 1) =~~= wanted.take(i as int).push(wanted[i as int]));
        }
        i = i + 1;
    }
    proof {
        assert(wanted.take(n as int) =~~= wanted);
    }
    Ok(out)
}

/// Deduplication keeping the first occurrence of each task, in order.
pub open spec fn dedup_spec(s: Seq<TaskView>) -> Seq<TaskView>
    decreases s.len(),
{
    if s.len() == 0 {
        Seq::empty()
    } else {
        let d = dedup_spec(s.drop_last());
        if d.contains(s.last()) {
            d
        } else {
            d.push(s.last())
        }
    }
}

/// Is the given task already in the list, by (sample id, source path)
/// identity?
fn contains_task(v: &Vec<SampleTask>, t: &SampleTask) -> (r: bool)
    ensures
        r == task_views(v@).contains(t@),
{
    let m = v.len();
    let mut j: usize = 0;
    while j < m
        invariant
            m == v@.len(),
            0 <= j <= m,
            forall|k: int| 0 <= k < j ==> task_views(v@)[k] != t@,
        decreases m - j,
    {
        proof {
            assert(task_views(v@)[j as int] == v@[j as int]@);
        }
        if v[j].same_as(t) {
            proof {
                assert(task_views(v@).contains(t@));
            }
            return true;
        }
        j = j + 1;
    }
    proof {
        if task_views(v@).contains(t@) {
            let k = choose|k: int| 0 <= k < task_views(v@).len() && task_views(v@)[k] == t@;
            assert(false);
        }
    }
    false
}

/// Drop every repeated (sample id, source path) pair, keeping the first
/// occurrence of each and the order of first occurrences.
pub fn dedup_tasks(tasks: &Vec<SampleTask>) -> (r: Vec<SampleTask>)
    ensures
        task_views(r@) == dedup_spec(task_views(tasks@)),
{
    let n = tasks.len();
    let mut out: Vec<SampleTask> = Vec::new();
    let mut i: usize = 0;
    let ghost tv = task_views(tasks@);
    proof {
        assert(task_views(out@) =~~= dedup_spec(tv.take(0)));
    }
    while i < n
        invariant
            n == tasks@.len(),
            0 <= i <= n,
            tv == task_views(tasks@),
            task_views(out@) == dedup_spec(tv.take(i as int)),
        decreases n - i,
    {
        let t = &tasks[i];
        let seen = contains_task(&out, t);
        proof {
            let cur = tv.take(i + 1);
            assert(cur.drop_last() =~~= tv.take(i as int));
            assert(cur.last() == tv[i as int]);
            assert(tv[i as int] == tasks@[i as int]@);
        }
        if !seen {
            let copy = t.duplicate();
            proof {
                assert(task_views(out@.push(copy)) =~~= task_views(out@).push(copy@));
            }
            out.push(copy);
        }
        i = i + 1;
    }
    proof {
        assert(tv.take(n as int) =~~= tv);
    }
    out
}

/// The deduplicated list holds no repeats, holds exactly the tasks of the
/// input, and its length is the number of distinct tasks.
pub proof fn lemma_dedup_distinct(s: Seq<TaskView>)
    ensures
        dedup_spec(s).no_duplicates(),
        dedup_spec(s).to_set() == s.to_set(),
        dedup_spec(s).len() == s.to_set().len(),
    decreases s.len(),
{
    broadcast use vstd::set::group_set_axioms;

    if s.len() == 0 {
        assert(dedup_spec(s).to_set() =~= s.to_set());
        dedup_spec(s).unique_seq_to_set();
    } else {
        lemma_dedup_distinct(s.drop_last());
        let d = dedup_spec(s.drop_last());
        let e = s.last();
        assert(s =~= s.drop_last().push(e));
        s.drop_last().lemma_push_to_set_commute(e);
        d.lemma_push_to_set_commute(e);
        if d.contains(e) {
            assert(s.drop_last().to_set().contains(e));
            assert(dedup_spec(s).to_set() =~= s.to_set());
        } else {
            assert(dedup_spec(s) == d.push(e));
            assert forall|k: int| 0 <= k < d.len() implies d.push(e)[k] == d[k] by {}
            assert(d.push(e).no_duplicates());
            assert(dedup_spec(s).to_set() =~= s.to_set());
        }
        dedup_spec(s).unique_seq_to_set();
    }
}

/// All unordered index pairs `i < j`, in outer-then-inner order.
pub open spec fn pair_with_each(x: Seq<char>, rest: Seq<Seq<char>>) -> Seq<TaskView> {
    rest.map_values(|y: Seq<char>| (x, y))
}

/// Every unordered pair of the given identifiers, each exactly once: the
/// first identifier paired with all later ones, then the pairs of the rest.
pub open spec fn pairs_spec(ids: Seq<Seq<char>>) -> Seq<TaskView>
    decreases ids.len(),
{
    if ids.len() == 0 {
        Seq::empty()
    } else {
        pair_with_each(ids[0], ids.drop_first()) + pairs_spec(ids.drop_first())
    }
}

/// Enumerate every unordered pair of identifiers: for indices `i < j`, the
/// pair `(ids[i], ids[j])`.
pub fn make_pairs(ids: &Vec<String>) -> (r: Vec<PairTask>)
    ensures
        pair_views(r@) == pairs_spec(str_views(ids@)),
{
    let n = ids.len();
    let mut out: Vec<PairTask> = Vec::new();
    let ghost iv = str_views(ids@);
    let mut i: usize = 0;
    proof {
        assert(iv.skip(0) =~~= iv);
        assert(pair_views(out@) =~~= Seq::<TaskView>::empty());
    }
    while i < n
        invariant
            n == ids@.len(),
            0 <= i <= n,
            iv == str_views(ids@),
            pairs_spec(iv) == pair_views(out@) + pairs_spec(iv.skip(i as int)),
        decreases n - i,
    {
        proof {
            let tail = iv.skip(i as int);
            assert(tail[0] == iv[i as int]);
            assert(tail.drop_first() =~~= iv.skip(i + 1));
            assert(pair_with_each(tail[0], tail.drop_first()) =~~= pair_with_each(
                iv[i as int],
                iv.skip(i + 1),
            ));
        }
        let mut j: usize = i + 1;
        while j < n
            invariant
                n == ids@.len(),
                0 <= i < j <= n,
                iv == str_views(ids@),
                pairs_spec(iv) == pair_views(out@) + pair_with_each(iv[i as int], iv.skip(j as int))
                    + pairs_spec(iv.skip(i + 1)),
            decreases n - j,
        {
            let p = PairTask::new(ids[i].clone(), ids[j].clone());
            proof {
                let rest = iv.skip(j as int);
                assert(rest[0] == iv[j as int]);
                assert(rest.drop_first() =~~= iv.skip(j + 1));
                assert(pair_with_each(iv[i as int], rest) =~~= seq![(iv[i as int], iv[j as int])]
                    + pair_with_each(iv[i as int], iv.skip(j + 1)));
                assert(pair_views(out@.push(p)) =~~= pair_views(out@).push(p@));
                assert(pair_views(out@).push(p@) + pair_with_each(iv[i as int], iv.skip(j + 1))
                    =~~= pair_views(out@) + (seq![(iv[i as int], iv[j as int])] + pair_with_each(
                    iv[i as int],
                    iv.skip(j + 1),
                )));
            }
            out.push(p);
            j = j + 1;
        }
        proof {
            assert(pair_with_each(iv[i as int], iv.skip(n as int)) =~~= Seq::<TaskView>::empty());
            assert(pair_views(out@) + Seq::<TaskView>::empty() =~~= pair_views(out@));
        }
        i = i + 1;
    }
    proof {
        assert(pairs_spec(iv.skip(n as int)) =~~= Seq::<TaskView>::empty());
        assert(pair_views(out@) + Seq::<TaskView>::empty() =~~= pair_views(out@));
    }
    out
}

/// Twice the pair count is `n * (n - 1)`.
proof fn lemma_pairs_count_double(ids: Seq<Seq<char>>)
    ensures
        2 * pairs_spec(ids).len() == ids.len() * (ids.len() - 1),
    decreases ids.len(),
{
    if ids.len() == 0 {
    } else {
        let rest = ids.drop_first();
        lemma_pairs_count_double(rest);
        assert(pairs_spec(ids).len() == rest.len() + pairs_spec(rest).len());
        assert(2 * (rest.len() + pairs_spec(rest).len()) == ids.len() * (ids.len() - 1))
            by (nonlinear_arith)
            requires
                2 * pairs_spec(rest).len() == rest.len() * (rest.len() - 1),
                rest.len() == ids.len() - 1,
                ids.len() >= 1,
        ;
    }
}

/// For `n` identifiers the generator yields exactly `n * (n - 1) / 2`
/// pairs.
pub proof fn lemma_pairs_count(ids: Seq<Seq<char>>)
    ensures
        pairs_spec(ids).len() == ids.len() * (ids.len() - 1) / 2,
{
    lemma_pairs_count_double(ids);
}

/// Every position of the pair list is some `(ids[i], ids[j])` with
/// `i < j`.
pub proof fn lemma_pairs_only_index_pairs(ids: Seq<Seq<char>>, k: int)
    requires
        0 <= k < pairs_spec(ids).len(),
    ensures
        exists|i: int, j: int|
            0 <= i < j < ids.len() && pairs_spec(ids)[k] == (ids[i], ids[j]),
    decreases ids.len(),
{
    let rest = ids.drop_first();
    let head = pair_with_each(ids[0], rest);
    if k < head.len() {
        assert(pairs_spec(ids)[k] == head[k]);
        assert(head[k] == (ids[0], rest[k]));
        assert(rest[k] == ids[k + 1]);
        assert(0 <= 0 < k + 1 < ids.len() && pairs_spec(ids)[k] == (ids[0], ids[k + 1]));
    } else {
        lemma_pairs_only_index_pairs(rest, k - head.len());
        let (i, j) = choose|i: int, j: int|
            0 <= i < j < rest.len() && pairs_spec(rest)[k - head.len()] == (rest[i], rest[j]);
        assert(pairs_spec(ids)[k] == pairs_spec(rest)[k - head.len()]);
        assert(rest[i] == ids[i + 1] && rest[j] == ids[j + 1]);
        assert(0 <= i + 1 < j + 1 < ids.len() && pairs_spec(ids)[k] == (ids[i + 1], ids[j + 1]));
    }
}

/// For distinct identifiers: every index pair `i < j` occurs, no pair is a
/// self-pair, and no pair occurs twice, so each unordered pair occurs
/// exactly once.
pub proof fn lemma_pairs_exactly_once(ids: Seq<Seq<char>>)
    requires
        ids.no_duplicates(),
    ensures
        forall|i: int, j: int|
            0 <= i < j < ids.len() ==> pairs_spec(ids).contains((ids[i], ids[j])),
        forall|k: int|
            0 <= k < pairs_spec(ids).len() ==> #[trigger] pairs_spec(ids)[k].0
                != pairs_spec(ids)[k].1,
        pairs_spec(ids).no_duplicates(),
    decreases ids.len(),
{
    let ps = pairs_spec(ids);
    if ids.len() > 0 {
        let rest = ids.drop_first();
        let head = pair_with_each(ids[0], rest);
        assert forall|a: int, b: int| 0 <= a < b < rest.len() implies rest[a] != rest[b] by {
            assert(rest[a] == ids[a + 1]);
            assert(rest[b] == ids[b + 1]);
        }
        lemma_pairs_exactly_once(rest);
        // Every index pair occurs.
        assert forall|i: int, j: int| 0 <= i < j < ids.len() implies ps.contains((
            ids[i],
            ids[j],
        )) by {
            if i == 0 {
                assert(ps[j - 1] == head[j - 1]);
                assert(head[j - 1] == (ids[0], rest[j - 1]));
                assert(rest[j - 1] == ids[j]);
            } else {
                assert(pairs_spec(rest).contains((rest[i - 1], rest[j - 1])));
                let k = choose|k: int|
                    0 <= k < pairs_spec(rest).len() && pairs_spec(rest)[k] == (
                        rest[i - 1],
                        rest[j - 1],
                    );
                assert(ps[head.len() + k] == pairs_spec(rest)[k]);
                assert(rest[i - 1] == ids[i] && rest[j - 1] == ids[j]);
            }
        }
        // No self-pairs.
        assert forall|k: int| 0 <= k < ps.len() implies #[trigger] ps[k].0 != ps[k].1 by {
            if k < head.len() {
                assert(ps[k] == head[k]);
                assert(head[k] == (ids[0], rest[k]));
                assert(rest[k] == ids[k + 1]);
            } else {
                assert(ps[k] == pairs_spec(rest)[k - head.len()]);
            }
        }
        // No pair occurs twice.
        assert forall|k1: int, k2: int| 0 <= k1 < k2 < ps.len() implies ps[k1] != ps[k2] by {
            if k1 < head.len() && k2 < head.len() {
                assert(ps[k1] == (ids[0], rest[k1]));
                assert(ps[k2] == (ids[0], rest[k2]));
            } else if k1 < head.len() && k2 >= head.len() {
                assert(ps[k1] == (ids[0], rest[k1]));
                assert(ps[k2] == pairs_spec(rest)[k2 - head.len()]);
                lemma_pairs_only_index_pairs(rest, k2 - head.len());
                let (a, b) = choose|a: int, b: int|
                    0 <= a < b < rest.len() && pairs_spec(rest)[k2 - head.len()] == (
                        rest[a],
                        rest[b],
                    );
                assert(rest[a] == ids[a + 1]);
                assert(ps[k2].0 == ids[a + 1]);
                assert(ids[0] != ids[a + 1]);
            } else {
                assert(ps[k1] == pairs_spec(rest)[k1 - head.len()]);
                assert(ps[k2] == pairs_spec(rest)[k2 - head.len()]);
            }
        }
    }
}

} // verus!
