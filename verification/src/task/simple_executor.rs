//! An executor that polls its tasks in turn, whether or not anything
//! woke them.

use vstd::prelude::*;
use core::task::Waker;
use std::collections::VecDeque;
use crate::task::Poll;
use crate::task::Task;
use crate::task::TaskId;

verus! {

/// `core::task::Waker::noop`: a waker that does nothing when it is invoked.
#[verifier::external_body]
fn dummy_waker() -> Waker {
    Waker::noop().clone()
}

/// One poll takes the first task off the queue where it finds the task
/// ready, and puts it to the back where it finds the task pending: a
/// task that is pending stays queued, behind all others, to be polled
/// again.
pub proof fn lemma_after_one_poll(ids: Seq<TaskId>)
    requires
        ids.len() > 0,
    ensures
        SimpleExecutor::after_polls(ids, seq![true]) == ids.drop_first(),
        SimpleExecutor::after_polls(ids, seq![false]) == ids.drop_first().push(ids[0]),
        SimpleExecutor::after_polls(ids, seq![false]).last() == ids[0],
{
    assert(seq![true].drop_last() =~= Seq::<bool>::empty());
    assert(seq![false].drop_last() =~= Seq::<bool>::empty());
    assert(SimpleExecutor::after_polls(ids, Seq::<bool>::empty()) == ids);
}

/// Polls that all find their task ready take the tasks off the queue from
/// the front, one each, until none is left; an empty queue stays empty.
pub proof fn lemma_after_ready_polls(ids: Seq<TaskId>, outcomes: Seq<bool>)
    requires
        forall|i: int| 0 <= i < outcomes.len() ==> outcomes[i],
    ensures
        SimpleExecutor::after_polls(ids, outcomes) == ids.skip(
            if outcomes.len() <= ids.len() {
                outcomes.len() as int
            } else {
                ids.len() as int
            },
        ),
    decreases outcomes.len(),
{
    if outcomes.len() == 0 {
        assert(ids.skip(0) =~= ids);
    } else {
        let init = outcomes.drop_last();
        lemma_after_ready_polls(ids, init);
        let before = SimpleExecutor::after_polls(ids, init);
        let k = if init.len() <= ids.len() {
            init.len() as int
        } else {
            ids.len() as int
        };
        assert(before == ids.skip(k));
        assert(outcomes.last());
        if before.len() > 0 {
            assert(before.drop_first() =~= ids.skip(k + 1));
        }
    }
}

/// A queue of tasks that are polled first in, first out.
pub struct SimpleExecutor {
    task_queue: VecDeque<Task>,
}

impl SimpleExecutor {
    /// Identities of the queued tasks, the next to be polled first.
    pub closed spec fn ids(&self) -> Seq<TaskId> {
        self.task_queue@.map_values(|task: Task| task.id())
    }

    /// For each queued task, in the order of the queue, the number of times
    /// that it was resumed.
    pub closed spec fn polls(&self) -> Seq<nat> {
        self.task_queue@.map_values(|task: Task| task.polls())
    }

    /// An executor without tasks.
    pub fn new() -> (r: SimpleExecutor)
        ensures
            r.ids() == Seq::<TaskId>::empty(),
            r.polls() == Seq::<nat>::empty(),
    {
        let r = SimpleExecutor { task_queue: VecDeque::new() };
        proof {
            assert(r.ids() =~= Seq::<TaskId>::empty());
            assert(r.polls() =~= Seq::<nat>::empty());
        }
        r
    }

    /// Queues `task` behind the tasks that are queued already.
    pub fn spawn(&mut self, task: Task)
        ensures
            final(self).ids() == old(self).ids().push(task.id()),
            final(self).polls() == old(self).polls().push(task.polls()),
    {
        self.task_queue.push_back(task);
        proof {
            assert(self.ids() =~= old(self).ids().push(task.id()));
            assert(self.polls() =~= old(self).polls().push(task.polls()));
        }
    }

    /// Number of queued tasks.
    pub fn len(&self) -> (r: usize)
        ensures
            r == self.ids().len(),
            r == self.polls().len(),
    {
        self.task_queue.len()
    }

    /// Puts away a task that was just polled: one that is still pending
    /// goes to the back of the queue, one that is ready is dropped.
    pub fn settle(&mut self, task: Task, outcome: Poll<()>)
        ensures
            final(self).ids() == match outcome {
                Poll::Ready(_) => old(self).ids(),
                Poll::Pending => old(self).ids().push(task.id()),
            },
            final(self).polls() == match outcome {
                Poll::Ready(_) => old(self).polls(),
                Poll::Pending => old(self).polls().push(task.polls()),
            },
    {
        match outcome {
            Poll::Ready(_) => {},
            Poll::Pending => {
                self.spawn(task);
            },
        }
    }

    /// Takes the first task off the queue, polls it once and settles it.
    /// Returns what the poll found, or `None` where the queue is empty. A
    /// task that stays in the queue was resumed once more.
    pub fn poll_next(&mut self) -> (r: Option<Poll<()>>)
        ensures
            r is None == (old(self).ids().len() == 0),
            final(self).ids() == match r {
                None => old(self).ids(),
                Some(Poll::Ready(_)) => old(self).ids().drop_first(),
                Some(Poll::Pending) => old(self).ids().drop_first().push(old(self).ids()[0]),
            },
            final(self).polls() == match r {
                None => old(self).polls(),
                Some(Poll::Ready(_)) => old(self).polls().drop_first(),
                Some(Poll::Pending) => old(self).polls().drop_first().push(old(self).polls()[0] + 1),
            },
    {
        let mut task: Task = match self.task_queue.pop_front() {
            Some(task) => task,
            None => {
                return None;
            },
        };
        proof {
            assert(self.ids() =~= old(self).ids().drop_first());
            assert(task.id() == old(self).ids()[0]);
            assert(self.polls() =~= old(self).polls().drop_first());
            assert(task.polls() == old(self).polls()[0]);
        }
        let waker: Waker = dummy_waker();
        let outcome: Poll<()> = task.poll(&waker);
        match outcome {
            Poll::Ready(_) => {
                self.settle(task, Poll::Ready(()));
                Some(Poll::Ready(()))
            },
            Poll::Pending => {
                self.settle(task, Poll::Pending);
                Some(Poll::Pending)
            },
        }
    }

    /// The queue after a run of polls with the given outcomes, `true` for
    /// ready: each poll takes the first task off the queue, and puts it to
    /// the back where it is still pending. A poll on an empty queue does
    /// nothing.
    pub open spec fn after_polls(ids: Seq<TaskId>, outcomes: Seq<bool>) -> Seq<TaskId>
        decreases outcomes.len(),
    {
        if outcomes.len() == 0 {
            ids
        } else {
            let before = Self::after_polls(ids, outcomes.drop_last());
            if before.len() == 0 {
                before
            } else if outcomes.last() {
                before.drop_first()
            } else {
                before.drop_first().push(before[0])
            }
        }
    }

    /// The counts of polls after a run of polls with the given outcomes: the
    /// counts move as the tasks do, and the count of a task that is still
    /// pending has gone up by one.
    pub open spec fn polls_after(counts: Seq<nat>, outcomes: Seq<bool>) -> Seq<nat>
        decreases outcomes.len(),
    {
        if outcomes.len() == 0 {
            counts
        } else {
            let before = Self::polls_after(counts, outcomes.drop_last());
            if before.len() == 0 {
                before
            } else if outcomes.last() {
                before.drop_first()
            } else {
                before.drop_first().push(before[0] + 1)
            }
        }
    }

    /// Polls the queued tasks in turn until none is left or `max_polls`
    /// polls were made, and tells whether none is left. Each poll is of the
    /// first task of the queue; the task leaves the queue where the poll
    /// found it ready, and goes to the back where it is pending. What the
    /// polls find is up to the tasks.
    pub fn run(&mut self, max_polls: u64) -> (r: bool)
        ensures
            r == (final(self).ids().len() == 0),
            exists|outcomes: Seq<bool>|
                outcomes.len() <= max_polls && (outcomes.len() == max_polls || final(self).ids().len() == 0)
                    && final(self).ids() == #[trigger] Self::after_polls(old(self).ids(), outcomes)
                    && final(self).polls() == Self::polls_after(old(self).polls(), outcomes),
            final(self).ids().to_multiset().subset_of(old(self).ids().to_multiset()),
    {
        let mut polls: u64 = 0;
        let ghost mut outcomes: Seq<bool> = Seq::empty();
        while polls < max_polls
            invariant
                polls <= max_polls,
                outcomes.len() == polls,
                self.ids() == Self::after_polls(old(self).ids(), outcomes),
                self.polls() == Self::polls_after(old(self).polls(), outcomes),
                self.polls().len() == self.ids().len(),
                self.ids().to_multiset().subset_of(old(self).ids().to_multiset()),
            decreases max_polls - polls,
        {
            let ghost before = self.ids();
            match self.poll_next() {
                None => {
                    return true;
                },
                Some(outcome) => {
                    proof {
                        broadcast use vstd::seq_lib::group_to_multiset_ensures;

                        assert(before.drop_first() =~= before.remove(0));
                        assert(before.remove(0).to_multiset() =~= before.to_multiset().remove(before[0]));
                        assert(before.drop_first().push(before[0]).to_multiset() =~= before.to_multiset());
                        let ready = outcome is Ready;
                        assert(outcomes.push(ready).drop_last() =~= outcomes);
                        outcomes = outcomes.push(ready);
                    }
                },
            }
            polls = polls + 1;
        }
        self.task_queue.len() == 0
    }
}

} // verus!
