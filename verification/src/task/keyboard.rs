//! The way of a scancode from the keyboard interrupt to the task that
//! reads it: a bounded queue that the interrupt handler fills, and a slot
//! for the task to be woken when a scancode arrives.

use vstd::prelude::*;
use crossbeam_queue::ArrayQueue;
use crate::task::Poll;
use crate::task::TaskId;

verus! {

/// `crossbeam_queue::ArrayQueue`: a queue of bounded capacity. What it
/// holds is named by `queue_items` and `queue_capacity`.
#[verifier::external_type_specification]
#[verifier::external_body]
#[verifier::reject_recursive_types(T)]
pub struct ExArrayQueue<T>(ArrayQueue<T>);

/// The bytes that a queue holds, the oldest first.
pub uninterp spec fn queue_items(queue: ArrayQueue<u8>) -> Seq<u8>;

/// The number of bytes that a queue was made to hold.
pub uninterp spec fn queue_capacity(queue: ArrayQueue<u8>) -> nat;

/// `crossbeam_queue::ArrayQueue::new`: an empty queue for `capacity`
/// bytes. The outside function panics on a capacity of zero.
#[verifier::external_body]
fn queue_new(capacity: usize) -> (queue: ArrayQueue<u8>)
    requires
        capacity > 0,
    ensures
        queue_items(queue) == Seq::<u8>::empty(),
        queue_capacity(queue) == capacity,
{
    ArrayQueue::new(capacity)
}

/// `crossbeam_queue::ArrayQueue::push`, on a queue that nobody else holds:
/// the byte goes to the back, unless the queue is full, which is left as
/// it was. Returns whether the byte was taken.
#[verifier::external_body]
fn queue_push(queue: &mut ArrayQueue<u8>, value: u8) -> (taken: bool)
    ensures
        taken == (queue_items(*old(queue)).len() < queue_capacity(*old(queue))),
        queue_capacity(*final(queue)) == queue_capacity(*old(queue)),
        queue_items(*final(queue)) == if taken {
            queue_items(*old(queue)).push(value)
        } else {
            queue_items(*old(queue))
        },
{
    queue.push(value).is_ok()
}

/// `crossbeam_queue::ArrayQueue::pop`, on a queue that nobody else holds:
/// the oldest byte leaves the queue, or `None` where the queue is empty.
#[verifier::external_body]
fn queue_pop(queue: &mut ArrayQueue<u8>) -> (value: Option<u8>)
    ensures
        value is Some == (queue_items(*old(queue)).len() > 0),
        value matches Some(v) ==> v == queue_items(*old(queue))[0],
        queue_capacity(*final(queue)) == queue_capacity(*old(queue)),
        queue_items(*final(queue)) == if value is Some {
            queue_items(*old(queue)).drop_first()
        } else {
            queue_items(*old(queue))
        },
{
    queue.pop().ok()
}

/// Number of scancodes that the queue holds at most.
pub const SCANCODE_QUEUE_CAPACITY: usize = 100;

/// What the bridge holds once it is set up: the scancodes that wait to be
/// read, the oldest first, and the task that waits for the next one.
pub struct BridgeState {
    pub scancodes: Seq<u8>,
    pub waiting: Option<TaskId>,
}

/// What became of a scancode that the interrupt handler handed in.
#[derive(Clone, Copy, Debug, PartialEq, Eq, Structural)]
pub enum AddScancode {
    /// The scancode is in the queue; the task, if any, is to be woken.
    Queued(Option<TaskId>),
    /// The queue was full; the scancode is lost.
    QueueFull,
    /// The queue was not set up; the scancode is lost.
    QueueUninitialized,
}

impl BridgeState {
    /// The queue holds no more than its capacity.
    pub open spec fn wf(self) -> bool {
        self.scancodes.len() <= SCANCODE_QUEUE_CAPACITY
    }

    /// The interrupt handler hands in `scancode`: it joins the queue and
    /// the waiting task is taken out to be woken, unless the queue is full.
    pub open spec fn add(self, scancode: u8) -> (BridgeState, AddScancode) {
        if self.scancodes.len() < SCANCODE_QUEUE_CAPACITY {
            (
                BridgeState { scancodes: self.scancodes.push(scancode), waiting: None },
                AddScancode::Queued(self.waiting),
            )
        } else {
            (self, AddScancode::QueueFull)
        }
    }

    /// The reader looks into the queue.
    pub open spec fn pop(self) -> (BridgeState, Option<u8>) {
        if self.scancodes.len() > 0 {
            (
                BridgeState { scancodes: self.scancodes.drop_first(), waiting: self.waiting },
                Some(self.scancodes[0]),
            )
        } else {
            (self, None)
        }
    }

    /// The reader leaves word that `task` waits for the next scancode.
    pub open spec fn register(self, task: TaskId) -> BridgeState {
        BridgeState { scancodes: self.scancodes, waiting: Some(task) }
    }

    /// The reader takes back the word it left.
    pub open spec fn take(self) -> BridgeState {
        BridgeState { scancodes: self.scancodes, waiting: None }
    }

    /// The reader looks into the queue once more, after it has left word;
    /// where it finds a scancode it takes its word back.
    pub open spec fn pop_again(self) -> (BridgeState, Option<u8>) {
        let (after, found) = self.pop();
        if found is Some {
            (after.take(), found)
        } else {
            (after, found)
        }
    }

    /// One pull of the reader, with nothing happening in between: the
    /// oldest scancode if there is one, else word is left for `task`.
    pub open spec fn poll(self, task: TaskId) -> (BridgeState, Poll<Option<u8>>) {
        let (first, found) = self.pop();
        if found is Some {
            (first, Poll::Ready(found))
        } else {
            let (second, found) = first.register(task).pop_again();
            if found is Some {
                (second, Poll::Ready(found))
            } else {
                (second, Poll::Pending)
            }
        }
    }

    /// The interrupt handler hands in `scancodes` one after the other.
    pub open spec fn add_all(self, scancodes: Seq<u8>) -> BridgeState
        decreases scancodes.len(),
    {
        if scancodes.len() == 0 {
            self
        } else {
            self.add_all(scancodes.drop_last()).add(scancodes.last()).0
        }
    }

    /// One pull of the reader for `task` with one scancode handed in by the
    /// interrupt handler at `moment`: before the pull (0), between its
    /// first look and its leaving word (1), between its leaving word and
    /// its second look (2), or after the pull (3). Gives the state
    /// afterwards, what the handler was told and what the pull returned.
    pub open spec fn poll_with_interrupt(self, task: TaskId, scancode: u8, moment: int) -> (
        BridgeState,
        AddScancode,
        Poll<Option<u8>>,
    ) {
        if moment == 0 {
            let (s1, told) = self.add(scancode);
            let (s2, polled) = s1.poll(task);
            (s2, told, polled)
        } else if moment == 3 {
            let (s1, polled) = self.poll(task);
            let (s2, told) = s1.add(scancode);
            (s2, told, polled)
        } else {
            let (s1, found) = self.pop();
            if found is Some {
                let (s2, told) = s1.add(scancode);
                (s2, told, Poll::Ready(found))
            } else if moment == 1 {
                let (s2, told) = s1.add(scancode);
                let (s3, found) = s2.register(task).pop_again();
                (
                    s3,
                    told,
                    if found is Some {
                        Poll::Ready(found)
                    } else {
                        Poll::Pending
                    },
                )
            } else {
                let (s2, told) = s1.register(task).add(scancode);
                let (s3, found) = s2.pop_again();
                (
                    s3,
                    told,
                    if found is Some {
                        Poll::Ready(found)
                    } else {
                        Poll::Pending
                    },
                )
            }
        }
    }
}

/// No wakeup is lost: whenever a scancode arrives around a pull, the pull
/// returns a scancode, or the handler is told to wake the task that
/// pulled.
pub proof fn lemma_no_lost_wakeup(state: BridgeState, task: TaskId, scancode: u8, moment: int)
    requires
        state.wf(),
        0 <= moment <= 3,
    ensures
        ({
            let (after, told, polled) = state.poll_with_interrupt(task, scancode, moment);
            &&& after.wf()
            &&& polled is Ready || told == AddScancode::Queued(Some(task))
            &&& polled is Pending ==> after.scancodes == seq![scancode]
        }),
{
    let (after, told, polled) = state.poll_with_interrupt(task, scancode, moment);
    if polled is Pending {
        assert(after.scancodes =~= seq![scancode]);
    }
}

/// Scancodes handed in are kept in the order in which they came, behind
/// those that wait already, and those for which the queue has no room are
/// lost.
pub proof fn lemma_add_all(state: BridgeState, scancodes: Seq<u8>)
    requires
        state.wf(),
    ensures
        state.add_all(scancodes).wf(),
        state.add_all(scancodes).scancodes == (state.scancodes + scancodes).take(
            if state.scancodes.len() + scancodes.len() <= SCANCODE_QUEUE_CAPACITY {
                (state.scancodes.len() + scancodes.len()) as int
            } else {
                SCANCODE_QUEUE_CAPACITY as int
            },
        ),
    decreases scancodes.len(),
{
    if scancodes.len() == 0 {
        assert(state.scancodes + scancodes =~= state.scancodes);
        assert(state.scancodes.take(state.scancodes.len() as int) =~= state.scancodes);
    } else {
        let init = scancodes.drop_last();
        lemma_add_all(state, init);
        let before = state.add_all(init);
        let total = state.scancodes.len() + scancodes.len();
        assert(state.scancodes + scancodes =~= (state.scancodes + init).push(scancodes.last()));
        if total <= SCANCODE_QUEUE_CAPACITY {
            assert(before.scancodes =~= state.scancodes + init);
            assert(state.add_all(scancodes).scancodes =~= (state.scancodes + scancodes).take(total as int));
        } else {
            assert(before.scancodes.len() == SCANCODE_QUEUE_CAPACITY);
            assert(state.add_all(scancodes).scancodes =~= (state.scancodes + scancodes).take(
                SCANCODE_QUEUE_CAPACITY as int,
            ));
        }
    }
}

/// A pull hands out the oldest scancode and leaves the others in their
/// order; it suspends only where none waits.
pub proof fn lemma_poll_in_order(state: BridgeState, task: TaskId)
    ensures
        state.scancodes.len() > 0 ==> state.poll(task) == (
            BridgeState { scancodes: state.scancodes.drop_first(), waiting: state.waiting },
            Poll::Ready(Some(state.scancodes[0])),
        ),
        state.scancodes.len() == 0 ==> state.poll(task) == (
            BridgeState { scancodes: state.scancodes, waiting: Some(task) },
            Poll::<Option<u8>>::Pending,
        ),
{
}

/// The queue of scancodes and the slot for the waiting task. It starts
/// without a queue; the queue is made when the reader is made.
pub struct ScancodeBridge {
    queue: Option<ArrayQueue<u8>>,
    waker: Option<TaskId>,
}

impl ScancodeBridge {
    /// The queue has been made.
    pub closed spec fn initialized(&self) -> bool {
        self.queue is Some
    }

    /// The scancodes that wait and the task that waits for one.
    pub closed spec fn state(&self) -> BridgeState {
        BridgeState {
            scancodes: match self.queue {
                Some(queue) => queue_items(queue),
                None => Seq::empty(),
            },
            waiting: self.waker,
        }
    }

    /// The queue, once made, has the capacity it is meant to have and
    /// holds no more than that.
    pub closed spec fn wf(&self) -> bool {
        match self.queue {
            Some(queue) => queue_capacity(queue) == SCANCODE_QUEUE_CAPACITY && queue_items(queue).len()
                <= SCANCODE_QUEUE_CAPACITY,
            None => true,
        }
    }

    /// In a well-formed bridge the state is well-formed.
    pub proof fn lemma_state_wf(&self)
        requires
            self.wf(),
        ensures
            self.state().wf(),
    {
    }

    /// A bridge without a queue and with nobody waiting.
    pub fn new() -> (r: ScancodeBridge)
        ensures
            r.wf(),
            !r.initialized(),
            r.state() == (BridgeState { scancodes: Seq::empty(), waiting: None }),
    {
        ScancodeBridge { queue: None, waker: None }
    }

    /// Takes the oldest scancode out of the queue.
    pub fn pop_scancode(&mut self) -> (r: Option<u8>)
        requires
            old(self).wf(),
            old(self).initialized(),
        ensures
            final(self).wf(),
            final(self).initialized(),
            (final(self).state(), r) == old(self).state().pop(),
    {
        match &mut self.queue {
            Some(queue) => queue_pop(queue),
            None => None,
        }
    }

    /// Leaves word that `task` waits for the next scancode, in place of
    /// whoever waited before.
    pub fn register_waker(&mut self, task: TaskId)
        ensures
            final(self).wf() == old(self).wf(),
            final(self).initialized() == old(self).initialized(),
            final(self).state() == old(self).state().register(task),
    {
        self.waker = Some(task);
    }

    /// Takes out the task that waits, if any.
    pub fn take_waker(&mut self) -> (r: Option<TaskId>)
        ensures
            final(self).wf() == old(self).wf(),
            final(self).initialized() == old(self).initialized(),
            final(self).state() == old(self).state().take(),
            r == old(self).state().waiting,
    {
        let waiting: Option<TaskId> = self.waker;
        self.waker = None;
        waiting
    }
}

/// Hands in a scancode from the interrupt handler. The scancode joins the
/// queue and the task that waits, if any, is handed back to be woken;
/// where the queue is full or was never made, the scancode is dropped and
/// nothing else changes.
pub fn add_scancode(bridge: &mut ScancodeBridge, scancode: u8) -> (r: AddScancode)
    requires
        old(bridge).wf(),
    ensures
        final(bridge).wf(),
        final(bridge).initialized() == old(bridge).initialized(),
        !old(bridge).initialized() ==> r == AddScancode::QueueUninitialized && final(bridge).state() == old(
            bridge,
        ).state(),
        old(bridge).initialized() ==> (final(bridge).state(), r) == old(bridge).state().add(scancode),
{
    let taken: bool = match &mut bridge.queue {
        Some(queue) => queue_push(queue, scancode),
        None => {
            return AddScancode::QueueUninitialized;
        },
    };
    if taken {
        AddScancode::Queued(bridge.take_waker())
    } else {
        AddScancode::QueueFull
    }
}

/// The reader of the scancodes: a sequence without end that cannot be
/// started anew.
pub struct ScancodeStream {
    _private: (),
}

impl ScancodeStream {
    /// Makes the queue of `bridge` and the reader for it. There is one
    /// reader for a bridge: `None` where the queue was made before.
    pub fn new(bridge: &mut ScancodeBridge) -> (r: Option<ScancodeStream>)
        requires
            old(bridge).wf(),
        ensures
            final(bridge).wf(),
            final(bridge).initialized(),
            r is Some == !old(bridge).initialized(),
            final(bridge).state() == old(bridge).state(),
    {
        if bridge.queue.is_some() {
            return None;
        }
        bridge.queue = Some(queue_new(SCANCODE_QUEUE_CAPACITY));
        Some(ScancodeStream { _private: () })
    }

    /// Pulls the next scancode for `task`. Hands out the oldest scancode
    /// if one waits. Otherwise leaves word for `task` and looks again, so
    /// that a scancode that arrived in between is not missed; if there is
    /// still none, the task is to suspend until it is woken.
    pub fn poll_next(&mut self, bridge: &mut ScancodeBridge, task: TaskId) -> (r: Poll<Option<u8>>)
        requires
            old(bridge).wf(),
            old(bridge).initialized(),
        ensures
            final(bridge).wf(),
            final(bridge).initialized(),
            (final(bridge).state(), r) == old(bridge).state().poll(task),
    {
        if let Some(scancode) = bridge.pop_scancode() {
            return Poll::Ready(Some(scancode));
        }
        bridge.register_waker(task);
        match bridge.pop_scancode() {
            Some(scancode) => {
                bridge.take_waker();
                Poll::Ready(Some(scancode))
            },
            None => Poll::Pending,
        }
    }
}

} // verus!
