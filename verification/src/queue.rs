//! The bounded task queues of the two phases, backed by an outside
//! concurrent queue.  Each queue is built privately, sized exactly to its
//! task count and filled before it is shared, so no push is ever refused.

use vstd::prelude::*;
use vstd::multiset::Multiset;

use crate::compare::PairTask;
use crate::pipeline::{pair_views, task_views, TaskView};
use crate::record::SampleTask;

verus! {

#[verifier::external_type_specification]
#[verifier::external_body]
#[verifier::reject_recursive_types(T)]
pub struct ExQueue<T>(deadqueue::limited::Queue<T>);

/// What the ingestion-task queue holds, as a multiset of task identities:
/// the queue promises no order to its concurrent consumers.
pub uninterp spec fn read_queue_contents(q: deadqueue::limited::Queue<SampleTask>) -> Multiset<
    TaskView,
>;

/// The fixed capacity the ingestion-task queue was created with.
pub uninterp spec fn read_queue_capacity(q: deadqueue::limited::Queue<SampleTask>) -> nat;

/// What the pair-task queue holds, as a multiset of pair identities.
pub uninterp spec fn pair_queue_contents(q: deadqueue::limited::Queue<PairTask>) -> Multiset<
    TaskView,
>;

/// The fixed capacity the pair-task queue was created with.
pub uninterp spec fn pair_queue_capacity(q: deadqueue::limited::Queue<PairTask>) -> nat;

/// Relies on deadqueue::limited::Queue::new: an empty queue of the given
/// capacity.  The backing array refuses a zero capacity, so that case is
/// excluded here.
#[verifier::external_body]
fn read_queue_new(capacity: usize) -> (q: deadqueue::limited::Queue<SampleTask>)
    requires
        capacity >= 1,
    ensures
        read_queue_contents(q) == Multiset::<TaskView>::empty(),
        read_queue_capacity(q) == capacity,
{
    deadqueue::limited::Queue::new(capacity)
}

/// Relies on deadqueue::limited::Queue::try_push: on an exclusively held
/// queue it adds the item, or hands it back in `Err` exactly when the
/// queue is full.
#[verifier::external_body]
fn read_queue_try_push(q: &mut deadqueue::limited::Queue<SampleTask>, item: SampleTask) -> (r:
    Result<(), SampleTask>)
    ensures
        read_queue_capacity(*final(q)) == read_queue_capacity(*old(q)),
        match r {
            Ok(()) => read_queue_contents(*final(q)) == read_queue_contents(*old(q)).insert(
                item@,
            ),
            Err(back) => back == item && read_queue_contents(*final(q)) == read_queue_contents(
                *old(q),
            ),
        },
        read_queue_contents(*old(q)).len() < read_queue_capacity(*old(q)) ==> r is Ok,
{
    q.try_push(item)
}

/// Relies on deadqueue::limited::Queue::new, as for the ingestion queue.
#[verifier::external_body]
fn pair_queue_new(capacity: usize) -> (q: deadqueue::limited::Queue<PairTask>)
    requires
        capacity >= 1,
    ensures
        pair_queue_contents(q) == Multiset::<TaskView>::empty(),
        pair_queue_capacity(q) == capacity,
{
    deadqueue::limited::Queue::new(capacity)
}

/// Relies on deadqueue::limited::Queue::try_push, as for the ingestion
/// queue.
#[verifier::external_body]
fn pair_queue_try_push(q: &mut deadqueue::limited::Queue<PairTask>, item: PairTask) -> (r: Result<
    (),
    PairTask,
>)
    ensures
        pair_queue_capacity(*final(q)) == pair_queue_capacity(*old(q)),
        match r {
            Ok(()) => pair_queue_contents(*final(q)) == pair_queue_contents(*old(q)).insert(
                item@,
            ),
            Err(back) => back == item && pair_queue_contents(*final(q)) == pair_queue_contents(
                *old(q),
            ),
        },
        pair_queue_contents(*old(q)).len() < pair_queue_capacity(*old(q)) ==> r is Ok,
{
    q.try_push(item)
}

/// Build the ingestion-task queue: sized exactly to the task count and
/// holding exactly one copy of every task.  Because the capacity equals
/// the count, no push can be refused.
pub fn build_read_queue(tasks: &Vec<SampleTask>) -> (q: deadqueue::limited::Queue<SampleTask>)
    requires
        tasks@.len() >= 1,
    ensures
        read_queue_contents(q) == task_views(tasks@).to_multiset(),
        read_queue_capacity(q) == tasks@.len(),
{
    broadcast use vstd::seq_lib::group_to_multiset_ensures;

    let n = tasks.len();
    let mut q = read_queue_new(n);
    let mut i: usize = 0;
    proof {
        assert(read_queue_contents(q) =~= task_views(tasks@).take(0).to_multiset());
    }
    while i < n
        invariant
            n == tasks@.len(),
            0 <= i <= n,
            read_queue_capacity(q) == n,
            read_queue_contents(q) == task_views(tasks@).take(i as int).to_multiset(),
        decreases n - i,
    {
        broadcast use vstd::seq_lib::group_to_multiset_ensures;

        let copy = tasks[i].duplicate();
        proof {
            assert(read_queue_contents(q).len() == i);
            assert(copy@ == task_views(tasks@)[i as int]);
        }
        let pushed = read_queue_try_push(&mut q, copy);
        proof {
            assert(pushed is Ok);
            assert(task_views(tasks@).take(i + 1) =~~= task_views(tasks@).take(i as int).push(
                task_views(tasks@)[i as int],
            ));
        }
        i = i + 1;
    }
    proof {
        assert(task_views(tasks@).take(n as int) =~~= task_views(tasks@));
    }
    q
}

/// Build the pair-task queue: sized exactly to the pair count and holding
/// exactly one copy of every pair task, with no push refused.
pub fn build_pair_queue(tasks: &Vec<PairTask>) -> (q: deadqueue::limited::Queue<PairTask>)
    requires
        tasks@.len() >= 1,
    ensures
        pair_queue_contents(q) == pair_views(tasks@).to_multiset(),
        pair_queue_capacity(q) == tasks@.len(),
{
    broadcast use vstd::seq_lib::group_to_multiset_ensures;

    let n = tasks.len();
    let mut q = pair_queue_new(n);
    let mut i: usize = 0;
    proof {
        assert(pair_queue_contents(q) =~= pair_views(tasks@).take(0).to_multiset());
    }
    while i < n
        invariant
            n == tasks@.len(),
            0 <= i <= n,
            pair_queue_capacity(q) == n,
            pair_queue_contents(q) == pair_views(tasks@).take(i as int).to_multiset(),
        decreases n - i,
    {
        broadcast use vstd::seq_lib::group_to_multiset_ensures;

        let copy = tasks[i].duplicate();
        proof {
            assert(pair_queue_contents(q).len() == i);
            assert(copy@ == pair_views(tasks@)[i as int]);
        }
        let pushed = pair_queue_try_push(&mut q, copy);
        proof {
            assert(pushed is Ok);
            assert(pair_views(tasks@).take(i + 1) =~~= pair_views(tasks@).take(i as int).push(
                pair_views(tasks@)[i as int],
            ));
        }
        i = i + 1;
    }
    proof {
        assert(pair_views(tasks@).take(n as int) =~~= pair_views(tasks@));
    }
    q
}

} // verus!
