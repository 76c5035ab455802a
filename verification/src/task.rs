//! Tasks: suspendable computations with an identity of their own.

use vstd::prelude::*;
use core::future::Future;
use core::pin::Pin;
use core::task::Context;
use core::task::Waker;
use futures_util::task::LocalFutureObj;

pub mod executor;
pub mod keyboard;
pub mod simple_executor;

verus! {

/// `core::task::Waker`: a handle that marks a task as ready when it is
/// invoked. The library passes it on and never looks inside.
#[verifier::external_type_specification]
#[verifier::external_body]
pub struct ExWaker(Waker);

/// `futures_util::task::LocalFutureObj`: a future of any type on the heap.
/// The library holds it and polls it, and never looks inside.
#[verifier::external_type_specification]
#[verifier::external_body]
#[verifier::reject_recursive_types(T)]
pub struct ExLocalFutureObj<'a, T>(LocalFutureObj<'a, T>);

/// `futures_util::task::LocalFutureObj::new` on `Box::pin(future)`: the
/// future moves to the heap and stays where it is until it is dropped.
#[verifier::external_body]
fn pin_future(future: impl Future<Output = ()> + 'static) -> LocalFutureObj<'static, ()> {
    LocalFutureObj::new(Box::pin(future))
}

/// What a poll found.
#[derive(Debug, PartialEq, Eq, Structural)]
pub enum Poll<T> {
    /// The value is there.
    Ready(T),
    /// The value is not there yet; the waker will tell when to ask again.
    Pending,
}

/// Identity of a task. No two tasks made from one source share it.
#[derive(Clone, Copy, Debug, PartialEq, Eq, Structural)]
pub struct TaskId(pub u64);

/// The counter that task identities are drawn from.
pub struct TaskIdSource {
    next: u64,
}

/// The identity that a source hands out `count` draws after it held
/// `start`: the counter counts up and wraps at the end of its range.
pub open spec fn id_after(start: u64, count: nat) -> u64 {
    ((start + count) % 0x1_0000_0000_0000_0000) as u64
}

/// Within 2^64 draws no identity comes twice.
pub proof fn lemma_ids_distinct(start: u64, first: nat, second: nat)
    requires
        first < second,
        second - first < 0x1_0000_0000_0000_0000,
    ensures
        id_after(start, first) != id_after(start, second),
{
    let m = 0x1_0000_0000_0000_0000int;
    let a = start + first;
    let b = start + second;
    vstd::arithmetic::div_mod::lemma_fundamental_div_mod(a, m);
    vstd::arithmetic::div_mod::lemma_fundamental_div_mod(b, m);
    if a % m == b % m {
        let q = b / m - a / m;
        assert(b - a == m * q) by (nonlinear_arith)
            requires
                a == m * (a / m) + a % m,
                b == m * (b / m) + b % m,
                a % m == b % m,
                q == b / m - a / m,
        ;
        assert(false) by (nonlinear_arith)
            requires
                0 < m * q < m,
        ;
    }
}

/// Each draw hands out the identity that follows the last one.
pub proof fn lemma_id_after_step(start: u64, count: nat)
    ensures
        id_after(start, 0) == start,
        id_after(start, count + 1) == if id_after(start, count) == u64::MAX {
            0
        } else {
            (id_after(start, count) + 1) as u64
        },
{
    let m = 0x1_0000_0000_0000_0000int;
    let a = start + count;
    vstd::arithmetic::div_mod::lemma_fundamental_div_mod(a, m);
    vstd::arithmetic::div_mod::lemma_fundamental_div_mod(a + 1, m);
    vstd::arithmetic::div_mod::lemma_small_mod(start as nat, m as nat);
    let q = a / m;
    let r = a % m;
    if r == m - 1 {
        assert(a + 1 == m * (q + 1) + 0) by (nonlinear_arith)
            requires
                a == m * q + r,
                r == m - 1,
        ;
        vstd::arithmetic::div_mod::lemma_fundamental_div_mod_converse(a + 1, m, q + 1, 0);
    } else {
        vstd::arithmetic::div_mod::lemma_fundamental_div_mod_converse(a + 1, m, q, r + 1);
    }
}

impl TaskIdSource {
    /// The identity that the next draw hands out.
    pub closed spec fn next(&self) -> u64 {
        self.next
    }

    /// A source that starts at zero.
    pub fn new() -> (r: TaskIdSource)
        ensures
            r.next() == 0,
    {
        TaskIdSource { next: 0 }
    }

    /// A source that starts at `next`.
    pub fn starting_at(next: u64) -> (r: TaskIdSource)
        ensures
            r.next() == next,
    {
        TaskIdSource { next }
    }
}

impl TaskId {
    /// Draws the next identity from `source`.
    pub fn new(source: &mut TaskIdSource) -> (r: TaskId)
        ensures
            r == TaskId(old(source).next()),
            final(source).next() == id_after(old(source).next(), 1),
    {
        proof {
            lemma_id_after_step(source.next, 0);
        }
        let id: u64 = source.next;
        source.next = if id == u64::MAX {
            0
        } else {
            id + 1
        };
        TaskId(id)
    }
}

/// A computation that can be suspended, kept at one place in memory, with
/// its identity.
pub struct Task {
    id: TaskId,
    done: bool,
    polls: Ghost<nat>,
    future: LocalFutureObj<'static, ()>,
}

impl Task {
    /// Identity of the task.
    pub closed spec fn spec_id(&self) -> TaskId {
        self.id
    }

    /// The computation has run to its end.
    pub closed spec fn spec_is_done(&self) -> bool {
        self.done
    }

    /// Number of times that the computation was resumed.
    pub closed spec fn polls(&self) -> nat {
        self.polls@
    }

    /// A task for `future`, with the next identity of `source`.
    pub fn new(future: impl Future<Output = ()> + 'static, source: &mut TaskIdSource) -> (r: Task)
        ensures
            r.id() == TaskId(old(source).next()),
            !r.is_done(),
            r.polls() == 0,
            final(source).next() == id_after(old(source).next(), 1),
    {
        Task { id: TaskId::new(source), done: false, polls: Ghost(0), future: pin_future(future) }
    }

    /// Identity of the task.
    #[verifier::when_used_as_spec(spec_id)]
    pub fn id(&self) -> (r: TaskId)
        ensures
            r == self.spec_id(),
    {
        self.id
    }

    /// The computation has run to its end.
    #[verifier::when_used_as_spec(spec_is_done)]
    pub fn is_done(&self) -> (r: bool)
        ensures
            r == self.spec_is_done(),
    {
        self.done
    }

    /// `core::future::Future::poll` on the pinned future, with a context
    /// made of `waker`: `true` where the future has completed. The outcome
    /// depends on the future alone, so nothing is said of it. A future that
    /// has completed must not be polled again, and so this is not called on
    /// a task that has ended. Each call is one poll of the future: that is
    /// what the count of polls counts.
    #[verifier::external_body]
    fn resume(&mut self, waker: &Waker) -> (ended: bool)
        requires
            !old(self).is_done(),
        ensures
            final(self).id() == old(self).id(),
            !final(self).is_done(),
            final(self).polls() == old(self).polls() + 1,
    {
        let mut context = Context::from_waker(waker);
        Pin::new(&mut self.future).poll(&mut context).is_ready()
    }

    /// Resumes the computation once, until it suspends or ends, and tells
    /// whether it has ended. A task that has ended is not resumed again.
    pub fn poll(&mut self, waker: &Waker) -> (r: Poll<()>)
        ensures
            final(self).id() == old(self).id(),
            old(self).is_done() ==> r == Poll::Ready(()),
            final(self).is_done() == (r == Poll::Ready(())),
            final(self).polls() == if old(self).is_done() {
                old(self).polls()
            } else {
                old(self).polls() + 1
            },
    {
        if self.done {
            return Poll::Ready(());
        }
        if self.resume(waker) {
            self.done = true;
            Poll::Ready(())
        } else {
            Poll::Pending
        }
    }
}

} // verus!
