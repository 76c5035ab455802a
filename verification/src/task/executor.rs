//! The executor: it keeps the tasks that have not ended, and polls a task
//! only after the task was marked ready.

use vstd::prelude::*;
use core::task::Waker;
use std::collections::VecDeque;
use crate::task::keyboard::AddScancode;
use crate::task::keyboard::BridgeState;
use crate::task::Poll;
use crate::task::Task;
use crate::task::TaskId;

verus! {

/// What the executor holds: the tasks that have not ended, and those of
/// them that are to be polled, the next one first.
pub struct ExecutorState {
    pub pending: Set<TaskId>,
    pub ready: Seq<TaskId>,
}

impl ExecutorState {
    /// Every ready task is pending, and none is queued twice.
    pub open spec fn wf(self) -> bool {
        &&& self.ready.no_duplicates()
        &&& forall|i: int| 0 <= i < self.ready.len() ==> self.pending.contains(#[trigger] self.ready[i])
    }

    /// A task with identity `id` joins, ready to be polled.
    pub open spec fn spawn(self, id: TaskId) -> ExecutorState {
        ExecutorState { pending: self.pending.insert(id), ready: self.ready.push(id) }
    }

    /// The task `id` is woken: it becomes ready, unless it has ended or is
    /// ready already.
    pub open spec fn wake(self, id: TaskId) -> ExecutorState {
        if self.pending.contains(id) && !self.ready.contains(id) {
            ExecutorState { pending: self.pending, ready: self.ready.push(id) }
        } else {
            self
        }
    }

    /// The next ready task is taken to be polled.
    pub open spec fn pop(self) -> (ExecutorState, Option<TaskId>) {
        if self.ready.len() > 0 {
            (ExecutorState { pending: self.pending, ready: self.ready.drop_first() }, Some(self.ready[0]))
        } else {
            (self, None)
        }
    }

    /// The ready tasks without `id`.
    pub open spec fn ready_without(self, id: TaskId) -> Seq<TaskId> {
        if self.ready.contains(id) {
            self.ready.remove(self.ready.index_of(id))
        } else {
            self.ready
        }
    }

    /// The poll of task `id` has returned `outcome`: a task that is ready
    /// has ended and leaves the executor for good, a task that is pending
    /// stays and waits to be woken.
    pub open spec fn settle(self, id: TaskId, outcome: Poll<()>) -> ExecutorState {
        match outcome {
            Poll::Ready(_) => ExecutorState { pending: self.pending.remove(id), ready: self.ready_without(id) },
            Poll::Pending => self,
        }
    }
}

/// Every step of the executor keeps its state well-formed.
pub proof fn lemma_steps_keep_wf(state: ExecutorState, id: TaskId, outcome: Poll<()>)
    requires
        state.wf(),
    ensures
        !state.pending.contains(id) ==> state.spawn(id).wf(),
        state.wake(id).wf(),
        state.pop().0.wf(),
        state.settle(id, outcome).wf(),
{
    if !state.pending.contains(id) {
        let s = state.spawn(id);
        assert forall|i: int, j: int| 0 <= i < s.ready.len() && 0 <= j < s.ready.len() && i != j implies s.ready[i]
            != s.ready[j] by {
            if i < state.ready.len() {
                assert(state.pending.contains(state.ready[i]));
            }
            if j < state.ready.len() {
                assert(state.pending.contains(state.ready[j]));
            }
        }
    }
    let w = state.wake(id);
    assert(w.wf()) by {
        if state.pending.contains(id) && !state.ready.contains(id) {
            assert forall|i: int, j: int|
                0 <= i < w.ready.len() && 0 <= j < w.ready.len() && i != j implies w.ready[i] != w.ready[j] by {
                if i < state.ready.len() {
                    assert(state.ready.contains(state.ready[i]));
                }
                if j < state.ready.len() {
                    assert(state.ready.contains(state.ready[j]));
                }
            }
        }
    }
    let p = state.pop().0;
    assert(p.wf()) by {
        if state.ready.len() > 0 {
            assert forall|i: int| 0 <= i < p.ready.len() implies p.pending.contains(#[trigger] p.ready[i]) by {
                assert(p.ready[i] == state.ready[i + 1]);
            }
            assert forall|i: int, j: int|
                0 <= i < p.ready.len() && 0 <= j < p.ready.len() && i != j implies p.ready[i] != p.ready[j] by {
                assert(p.ready[i] == state.ready[i + 1] && p.ready[j] == state.ready[j + 1]);
            }
        }
    }
    lemma_settle(state, id, outcome);
}

/// A task that has ended is neither pending nor ready; the other tasks are
/// where they were.
pub proof fn lemma_settle(state: ExecutorState, id: TaskId, outcome: Poll<()>)
    requires
        state.wf(),
    ensures
        state.settle(id, outcome).wf(),
        outcome is Ready ==> !state.settle(id, outcome).pending.contains(id) && !state.settle(
            id,
            outcome,
        ).ready.contains(id),
        forall|other: TaskId|
            other != id ==> state.settle(id, outcome).ready.contains(other) == state.ready.contains(other)
                && state.settle(id, outcome).pending.contains(other) == state.pending.contains(other),
{
    let s = state.settle(id, outcome);
    if outcome is Ready && state.ready.contains(id) {
        let k = state.ready.index_of(id);
        assert(0 <= k < state.ready.len() && state.ready[k] == id);
        assert forall|i: int| 0 <= i < s.ready.len() implies s.ready[i] == state.ready[if i < k {
            i
        } else {
            i + 1
        }] by {}
        assert forall|i: int| 0 <= i < s.ready.len() implies s.ready[i] != id && s.pending.contains(
            #[trigger] s.ready[i],
        ) by {
            let j = if i < k {
                i
            } else {
                i + 1
            };
            assert(s.ready[i] == state.ready[j]);
            assert(state.pending.contains(state.ready[j]));
        }
        assert forall|i: int, j: int|
            0 <= i < s.ready.len() && 0 <= j < s.ready.len() && i != j implies s.ready[i] != s.ready[j] by {
            let a = if i < k {
                i
            } else {
                i + 1
            };
            let b = if j < k {
                j
            } else {
                j + 1
            };
            assert(s.ready[i] == state.ready[a] && s.ready[j] == state.ready[b]);
        }
        assert forall|other: TaskId| other != id implies s.ready.contains(other) == state.ready.contains(
            other,
        ) by {
            if state.ready.contains(other) {
                let j = state.ready.index_of(other);
                assert(0 <= j < state.ready.len() && state.ready[j] == other);
                let i = if j < k {
                    j
                } else {
                    j - 1
                };
                assert(s.ready[i] == other);
            }
            if s.ready.contains(other) {
                let i = s.ready.index_of(other);
                assert(0 <= i < s.ready.len() && s.ready[i] == other);
                let j = if i < k {
                    i
                } else {
                    i + 1
                };
                assert(state.ready[j] == other);
            }
        }
    }
    if outcome is Ready && !state.ready.contains(id) {
        assert forall|i: int| 0 <= i < s.ready.len() implies s.pending.contains(#[trigger] s.ready[i]) by {
            assert(state.ready.contains(state.ready[i]));
            assert(state.pending.contains(state.ready[i]));
        }
    }
}

/// A task that is neither pending nor ready stays so whatever the executor
/// does, unless a task with that identity is spawned: once ended, a task
/// never becomes ready again.
pub proof fn lemma_ended_stays_out(
    state: ExecutorState,
    ended: TaskId,
    id: TaskId,
    outcome: Poll<()>,
)
    requires
        state.wf(),
        !state.pending.contains(ended),
    ensures
        !state.ready.contains(ended),
        id != ended ==> !state.spawn(id).pending.contains(ended) && !state.spawn(id).ready.contains(ended),
        !state.wake(id).pending.contains(ended) && !state.wake(id).ready.contains(ended),
        !state.pop().0.pending.contains(ended) && !state.pop().0.ready.contains(ended),
        !state.settle(id, outcome).pending.contains(ended) && !state.settle(id, outcome).ready.contains(
            ended,
        ),
{
    lemma_steps_keep_wf(state, id, outcome);
    assert(!state.ready.contains(ended)) by {
        if state.ready.contains(ended) {
            let i = state.ready.index_of(ended);
            assert(state.pending.contains(state.ready[i]));
        }
    }
    let w = state.wake(id);
    if w.ready.contains(ended) {
        let i = w.ready.index_of(ended);
        assert(w.pending.contains(w.ready[i]));
    }
    let p = state.pop().0;
    if p.ready.contains(ended) {
        let i = p.ready.index_of(ended);
        assert(p.pending.contains(p.ready[i]));
    }
    let t = state.settle(id, outcome);
    if t.ready.contains(ended) {
        let i = t.ready.index_of(ended);
        assert(t.pending.contains(t.ready[i]));
    }
    if id != ended {
        let s = state.spawn(id);
        if s.ready.contains(ended) {
            let i = s.ready.index_of(ended);
            if i < state.ready.len() {
                assert(state.pending.contains(state.ready[i]));
            }
        }
    }
}

/// A pending task that is woken is ready afterwards.
pub proof fn lemma_wake_makes_ready(state: ExecutorState, id: TaskId)
    requires
        state.pending.contains(id),
    ensures
        state.wake(id).ready.contains(id),
        state.wake(id).pending == state.pending,
{
    let w = state.wake(id);
    if !state.ready.contains(id) {
        assert(w.ready[w.ready.len() - 1] == id);
    }
}

/// A task that pulls scancodes is not left asleep: whenever a scancode
/// arrives around a pull of a pending task, the pull returns a scancode,
/// or waking the task that the interrupt handler is told to wake makes the
/// puller ready.
pub proof fn lemma_scancode_reaches_task(
    bridge: BridgeState,
    executor: ExecutorState,
    task: TaskId,
    scancode: u8,
    moment: int,
)
    requires
        bridge.wf(),
        executor.pending.contains(task),
        0 <= moment <= 3,
    ensures
        ({
            let (after, told, polled) = bridge.poll_with_interrupt(task, scancode, moment);
            polled is Ready || (told == AddScancode::Queued(Some(task)) && executor.wake(task).ready.contains(
                task,
            ))
        }),
{
    crate::task::keyboard::lemma_no_lost_wakeup(bridge, task, scancode, moment);
    lemma_wake_makes_ready(executor, task);
}

/// A cooperative scheduler. A task is polled when it is ready; it becomes
/// ready when it is spawned and whenever it is woken.
pub struct Executor {
    tasks: Vec<Task>,
    task_queue: VecDeque<TaskId>,
}

impl Executor {
    /// Identities of the stored tasks, in the order in which they are
    /// stored.
    spec fn ids(&self) -> Seq<TaskId> {
        self.tasks@.map_values(|task: Task| task.id())
    }

    /// For each task that has not ended, the number of times that it was
    /// resumed.
    pub closed spec fn polls(&self) -> Map<TaskId, nat> {
        Map::new(
            |id: TaskId| self.ids().contains(id),
            |id: TaskId| self.tasks@[self.ids().index_of(id)].polls(),
        )
    }

    /// The count of polls of a stored task is that of the task.
    proof fn lemma_polls_at(&self, i: int)
        requires
            self.ids().no_duplicates(),
            0 <= i < self.tasks@.len(),
        ensures
            self.polls().dom().contains(self.ids()[i]),
            self.polls()[self.ids()[i]] == self.tasks@[i].polls(),
    {
        let id = self.ids()[i];
        assert(self.ids().contains(id));
        let j = self.ids().index_of(id);
        assert(0 <= j < self.ids().len() && self.ids()[j] == id);
    }

    /// The tasks that have not ended and those that are ready.
    pub closed spec fn state(&self) -> ExecutorState {
        ExecutorState { pending: self.ids().to_set(), ready: self.task_queue@ }
    }

    /// No two stored tasks share an identity, every ready task is stored,
    /// and none is queued twice.
    pub closed spec fn wf(&self) -> bool {
        self.ids().no_duplicates() && self.state().wf()
    }

    /// In a well-formed executor the state is well-formed.
    pub proof fn lemma_state_wf(&self)
        requires
            self.wf(),
        ensures
            self.state().wf(),
    {
    }

    /// An executor without tasks.
    pub fn new() -> (r: Executor)
        ensures
            r.wf(),
            r.state() == (ExecutorState { pending: Set::empty(), ready: Seq::empty() }),
            r.polls() == Map::<TaskId, nat>::empty(),
    {
        let r = Executor { tasks: Vec::new(), task_queue: VecDeque::new() };
        proof {
            assert(r.ids() =~= Seq::<TaskId>::empty());
            assert(r.ids().to_set() =~= Set::<TaskId>::empty());
            assert(r.polls() =~= Map::<TaskId, nat>::empty());
        }
        r
    }

    /// Position of the task with identity `id` among the stored tasks.
    fn find(&self, id: TaskId) -> (r: Option<usize>)
        ensures
            r is Some == self.state().pending.contains(id),
            r matches Some(i) ==> i < self.tasks@.len() && self.ids()[i as int] == id,
    {
        let n: usize = self.tasks.len();
        let mut i: usize = 0;
        while i < n
            invariant
                0 <= i <= n,
                n == self.tasks@.len(),
                forall|k: int| 0 <= k < i ==> self.ids()[k] != id,
            decreases n - i,
        {
            if self.tasks[i].id().0 == id.0 {
                proof {
                    assert(self.ids()[i as int] == id);
                    assert(self.ids().contains(id));
                }
                return Some(i);
            }
            i = i + 1;
        }
        proof {
            if self.ids().contains(id) {
                let k = self.ids().index_of(id);
                assert(self.ids()[k] == id);
            }
        }
        None
    }

    /// Position of `id` among the ready tasks.
    fn find_ready(&self, id: TaskId) -> (r: Option<usize>)
        ensures
            r is Some == self.task_queue@.contains(id),
            r matches Some(i) ==> i < self.task_queue@.len() && self.task_queue@[i as int] == id,
    {
        let n: usize = self.task_queue.len();
        let mut i: usize = 0;
        while i < n
            invariant
                0 <= i <= n,
                n == self.task_queue@.len(),
                forall|k: int| 0 <= k < i ==> self.task_queue@[k] != id,
            decreases n - i,
        {
            if self.task_queue[i].0 == id.0 {
                return Some(i);
            }
            i = i + 1;
        }
        proof {
            if self.task_queue@.contains(id) {
                let k = self.task_queue@.index_of(id);
                assert(self.task_queue@[k] == id);
            }
        }
        None
    }

    /// Whether a task with identity `id` has not ended.
    pub fn is_pending(&self, id: TaskId) -> (r: bool)
        ensures
            r == self.state().pending.contains(id),
    {
        self.find(id).is_some()
    }

    /// Whether no task is ready: the processor may halt until an interrupt
    /// wakes a task.
    pub fn is_idle(&self) -> (r: bool)
        ensures
            r == (self.state().ready.len() == 0),
    {
        self.task_queue.len() == 0
    }

    /// Takes in `task`, ready to be polled. A task whose identity another
    /// stored task has is handed back.
    pub fn spawn(&mut self, task: Task) -> (r: Result<(), Task>)
        requires
            old(self).wf(),
        ensures
            final(self).wf(),
            r is Ok == !old(self).state().pending.contains(task.id()),
            r is Ok ==> final(self).state() == old(self).state().spawn(task.id()),
            r is Ok ==> final(self).polls() == old(self).polls().insert(task.id(), task.polls()),
            r matches Err(back) ==> back == task && final(self).state() == old(self).state() && final(self).polls() == old(self).polls(),
    {
        let id: TaskId = task.id();
        if self.find(id).is_some() {
            return Err(task);
        }
        proof {
            lemma_steps_keep_wf(self.state(), id, Poll::Pending);
        }
        self.tasks.push(task);
        self.task_queue.push_back(id);
        proof {
            assert(self.ids() =~= old(self).ids().push(id));
            assert(self.ids().to_set() =~= old(self).ids().to_set().insert(id)) by {
                assert forall|x: TaskId| self.ids().to_set().contains(x) <==> old(self).ids().to_set().insert(
                    id,
                ).contains(x) by {
                    if old(self).ids().contains(x) {
                        let k = old(self).ids().index_of(x);
                        assert(self.ids()[k] == x);
                    }
                    if x == id {
                        assert(self.ids()[self.ids().len() - 1] == x);
                    }
                    if self.ids().contains(x) {
                        let k = self.ids().index_of(x);
                        if k < old(self).ids().len() {
                            assert(old(self).ids()[k] == x);
                        }
                    }
                }
            }
            assert forall|i: int, j: int|
                0 <= i < self.ids().len() && 0 <= j < self.ids().len() && i != j implies self.ids()[i]
                != self.ids()[j] by {
                if i < old(self).ids().len() {
                    assert(old(self).ids().contains(old(self).ids()[i]));
                }
                if j < old(self).ids().len() {
                    assert(old(self).ids().contains(old(self).ids()[j]));
                }
            }
            assert(self.polls() =~= old(self).polls().insert(id, task.polls())) by {
                assert forall|x: TaskId| self.polls().dom().contains(x) implies #[trigger] self.polls()[x] == old(
                    self,
                ).polls().insert(id, task.polls())[x] by {
                    let k = self.ids().index_of(x);
                    assert(0 <= k < self.ids().len() && self.ids()[k] == x);
                    self.lemma_polls_at(k);
                    if k < old(self).ids().len() {
                        old(self).lemma_polls_at(k);
                    }
                }
            }
        }
        Ok(())
    }

    /// Marks the task `id` ready. Nothing happens where the task has
    /// ended or is ready already.
    pub fn wake(&mut self, id: TaskId)
        requires
            old(self).wf(),
        ensures
            final(self).wf(),
            final(self).state() == old(self).state().wake(id),
            final(self).polls() == old(self).polls(),
    {
        proof {
            lemma_steps_keep_wf(self.state(), id, Poll::Pending);
        }
        if self.find(id).is_some() && self.find_ready(id).is_none() {
            self.task_queue.push_back(id);
        }
    }

    /// Takes the next ready task to be polled; `None` where no task is
    /// ready.
    pub fn next_ready(&mut self) -> (r: Option<TaskId>)
        requires
            old(self).wf(),
        ensures
            final(self).wf(),
            (final(self).state(), r) == old(self).state().pop(),
            final(self).polls() == old(self).polls(),
    {
        proof {
            lemma_steps_keep_wf(self.state(), TaskId(0), Poll::Pending);
        }
        let r = self.task_queue.pop_front();
        proof {
            if r is Some {
                assert(self.task_queue@ =~= old(self).task_queue@.drop_first());
            }
        }
        r
    }

    /// Records what the poll of task `id` returned: a task that is ready
    /// is dropped and is no longer pending or ready, a task that is
    /// pending stays as it is.
    pub fn settle(&mut self, id: TaskId, outcome: Poll<()>)
        requires
            old(self).wf(),
        ensures
            final(self).wf(),
            final(self).state() == old(self).state().settle(id, outcome),
            final(self).polls() == match outcome {
                Poll::Ready(_) => old(self).polls().remove(id),
                Poll::Pending => old(self).polls(),
            },
    {
        proof {
            lemma_settle(self.state(), id, outcome);
        }
        match outcome {
            Poll::Pending => {},
            Poll::Ready(_) => {
                if let Some(i) = self.find(id) {
                    let ghost before = self.ids();
                    let ghost pre = *self;
                    self.tasks.remove(i);
                    proof {
                        assert(self.ids() =~= before.remove(i as int));
                        assert(self.ids().to_set() =~= before.to_set().remove(id)) by {
                            assert forall|x: TaskId| self.ids().to_set().contains(x) <==> before.to_set().remove(
                                id,
                            ).contains(x) by {
                                if self.ids().contains(x) {
                                    let k = self.ids().index_of(x);
                                    let j = if k < i {
                                        k
                                    } else {
                                        k + 1
                                    };
                                    assert(before[j] == x);
                                }
                                if before.contains(x) && x != id {
                                    let j = before.index_of(x);
                                    let k = if j < i {
                                        j
                                    } else {
                                        j - 1
                                    };
                                    assert(self.ids()[k] == x);
                                }
                            }
                        }
                        assert forall|a: int, b: int|
                            0 <= a < self.ids().len() && 0 <= b < self.ids().len() && a != b implies self.ids()[a]
                            != self.ids()[b] by {
                            let a2 = if a < i {
                                a
                            } else {
                                a + 1
                            };
                            let b2 = if b < i {
                                b
                            } else {
                                b + 1
                            };
                            assert(self.ids()[a] == before[a2] && self.ids()[b] == before[b2]);
                        }
                        assert(self.polls() =~= pre.polls().remove(id)) by {
                            assert forall|x: TaskId| self.polls().dom().contains(x) implies #[trigger] self.polls()[x]
                                == pre.polls().remove(id)[x] by {
                                let k = self.ids().index_of(x);
                                assert(0 <= k < self.ids().len() && self.ids()[k] == x);
                                let j = if k < i {
                                    k
                                } else {
                                    k + 1
                                };
                                assert(before[j] == x);
                                self.lemma_polls_at(k);
                                pre.lemma_polls_at(j);
                            }
                        }
                    }
                } else {
                    proof {
                        assert(self.ids().to_set().remove(id) =~= self.ids().to_set());
                        assert(self.polls().remove(id) =~= self.polls());
                    }
                }
                if let Some(k) = self.find_ready(id) {
                    let ghost queued = self.task_queue@;
                    self.task_queue.remove(k);
                    proof {
                        assert(queued.no_duplicates());
                        assert(queued.index_of(id) == k as int);
                    }
                }
            },
        }
    }

    /// Polls the task `id` once with `waker` and records what the poll
    /// returned. `None`, and nothing done, where the task has ended. A task
    /// that stays was resumed once more.
    pub fn poll_task(&mut self, id: TaskId, waker: &Waker) -> (r: Option<Poll<()>>)
        requires
            old(self).wf(),
        ensures
            final(self).wf(),
            r is Some == old(self).state().pending.contains(id),
            r matches Some(outcome) ==> final(self).state() == old(self).state().settle(id, outcome),
            r is None ==> final(self).state() == old(self).state(),
            final(self).polls() == match r {
                None => old(self).polls(),
                Some(Poll::Ready(_)) => old(self).polls().remove(id),
                Some(Poll::Pending) => old(self).polls().insert(id, old(self).polls()[id] + 1),
            },
    {
        let i: usize = match self.find(id) {
            Some(i) => i,
            None => {
                return None;
            },
        };
        let ghost before = self.ids();
        let ghost pre = *self;
        let outcome: Poll<()> = self.tasks[i].poll(waker);
        proof {
            assert(self.ids() =~= before);
            pre.lemma_polls_at(i as int);
            self.lemma_polls_at(i as int);
            assert(self.polls() =~= pre.polls().insert(id, self.tasks@[i as int].polls())) by {
                assert forall|x: TaskId| self.polls().dom().contains(x) implies #[trigger] self.polls()[x]
                    == pre.polls().insert(id, self.tasks@[i as int].polls())[x] by {
                    let k = self.ids().index_of(x);
                    assert(0 <= k < self.ids().len() && self.ids()[k] == x);
                    self.lemma_polls_at(k);
                    pre.lemma_polls_at(k);
                }
            }
            assert(pre.polls().insert(id, self.tasks@[i as int].polls()).remove(id) =~= pre.polls().remove(id));
        }
        match outcome {
            Poll::Ready(_) => {
                self.settle(id, Poll::Ready(()));
                Some(Poll::Ready(()))
            },
            Poll::Pending => {
                self.settle(id, Poll::Pending);
                Some(Poll::Pending)
            },
        }
    }
}

} // verus!
