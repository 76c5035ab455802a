use os_rs::task::executor::Executor;
use os_rs::task::keyboard::add_scancode;
use os_rs::task::keyboard::AddScancode;
use os_rs::task::keyboard::ScancodeBridge;
use os_rs::task::keyboard::ScancodeStream;
use os_rs::task::Poll;
use os_rs::task::Task;
use os_rs::task::TaskId;
use os_rs::task::TaskIdSource;
use std::cell::Cell;
use std::cell::RefCell;
use std::future::Future;
use std::pin::Pin;
use std::rc::Rc;
use std::task::Context;
use std::task::Waker;

/// Suspends `left` times, then ends; counts how often it was polled.
struct CountDown {
    left: u32,
    polls: Rc<Cell<u32>>,
}

impl Future for CountDown {
    type Output = ();

    fn poll(mut self: Pin<&mut Self>, _cx: &mut Context<'_>) -> std::task::Poll<()> {
        self.polls.set(self.polls.get() + 1);
        if self.left == 0 {
            std::task::Poll::Ready(())
        } else {
            self.left -= 1;
            std::task::Poll::Pending
        }
    }
}

fn count_down(left: u32) -> (CountDown, Rc<Cell<u32>>) {
    let polls = Rc::new(Cell::new(0));
    (CountDown { left, polls: polls.clone() }, polls)
}

/// Reads scancodes from the bridge until it has seen `want` of them.
struct Reader {
    id: TaskId,
    want: usize,
    bridge: Rc<RefCell<ScancodeBridge>>,
    stream: ScancodeStream,
    seen: Rc<RefCell<Vec<u8>>>,
}

impl Future for Reader {
    type Output = ();

    fn poll(self: Pin<&mut Self>, _cx: &mut Context<'_>) -> std::task::Poll<()> {
        let this = self.get_mut();
        loop {
            if this.seen.borrow().len() == this.want {
                return std::task::Poll::Ready(());
            }
            let polled = this.stream.poll_next(&mut this.bridge.borrow_mut(), this.id);
            match polled {
                Poll::Ready(Some(scancode)) => this.seen.borrow_mut().push(scancode),
                Poll::Ready(None) => return std::task::Poll::Ready(()),
                Poll::Pending => return std::task::Poll::Pending,
            }
        }
    }
}

#[test]
fn a_new_executor_is_idle() {
    let mut executor = Executor::new();
    assert!(executor.is_idle());
    assert_eq!(executor.next_ready(), None);
    assert!(!executor.is_pending(TaskId(0)));
}

#[test]
fn a_spawned_task_is_pending_and_ready() {
    let mut source = TaskIdSource::new();
    let mut executor = Executor::new();
    assert!(executor.spawn(Task::new(async {}, &mut source)).is_ok());
    assert!(executor.is_pending(TaskId(0)));
    assert!(!executor.is_idle());
    assert_eq!(executor.next_ready(), Some(TaskId(0)));
    assert!(executor.is_idle());
    assert!(executor.is_pending(TaskId(0)));
}

#[test]
fn tasks_become_ready_in_the_order_spawned() {
    let mut source = TaskIdSource::new();
    let mut executor = Executor::new();
    for _ in 0..3 {
        assert!(executor.spawn(Task::new(async {}, &mut source)).is_ok());
    }
    assert_eq!(executor.next_ready(), Some(TaskId(0)));
    assert_eq!(executor.next_ready(), Some(TaskId(1)));
    assert_eq!(executor.next_ready(), Some(TaskId(2)));
    assert_eq!(executor.next_ready(), None);
}

#[test]
fn a_task_with_an_identity_that_is_taken_is_handed_back() {
    let mut first = TaskIdSource::new();
    let mut second = TaskIdSource::new();
    let mut executor = Executor::new();
    assert!(executor.spawn(Task::new(async {}, &mut first)).is_ok());
    let back = executor.spawn(Task::new(async {}, &mut second));
    assert_eq!(back.err().map(|task| task.id()), Some(TaskId(0)));
    assert_eq!(executor.next_ready(), Some(TaskId(0)));
    assert_eq!(executor.next_ready(), None);
    assert!(executor.spawn(Task::new(async {}, &mut second)).is_ok());
    assert_eq!(executor.next_ready(), Some(TaskId(1)));
}

#[test]
fn a_task_that_ends_on_its_first_poll_leaves_for_good() {
    let mut source = TaskIdSource::new();
    let (future, polls) = count_down(0);
    let mut executor = Executor::new();
    assert!(executor.spawn(Task::new(future, &mut source)).is_ok());
    let id = executor.next_ready().unwrap();
    assert_eq!(executor.poll_task(id, Waker::noop()), Some(Poll::Ready(())));
    assert_eq!(polls.get(), 1);
    assert!(!executor.is_pending(id));
    assert!(executor.is_idle());
    executor.wake(id);
    assert!(executor.is_idle());
    assert_eq!(executor.next_ready(), None);
    assert_eq!(executor.poll_task(id, Waker::noop()), None);
    assert_eq!(polls.get(), 1);
    assert_eq!(Rc::strong_count(&polls), 1);
}

#[test]
fn a_suspended_task_waits_until_it_is_woken() {
    let mut source = TaskIdSource::new();
    let (future, polls) = count_down(1);
    let mut executor = Executor::new();
    assert!(executor.spawn(Task::new(future, &mut source)).is_ok());
    let id = executor.next_ready().unwrap();
    assert_eq!(executor.poll_task(id, Waker::noop()), Some(Poll::Pending));
    assert!(executor.is_pending(id));
    assert!(executor.is_idle());
    assert_eq!(executor.next_ready(), None);
    executor.wake(id);
    assert!(!executor.is_idle());
    assert_eq!(executor.next_ready(), Some(id));
    assert_eq!(executor.poll_task(id, Waker::noop()), Some(Poll::Ready(())));
    assert_eq!(polls.get(), 2);
    assert!(!executor.is_pending(id));
}

#[test]
fn waking_twice_queues_once() {
    let mut source = TaskIdSource::new();
    let mut executor = Executor::new();
    assert!(executor.spawn(Task::new(count_down(9).0, &mut source)).is_ok());
    assert!(executor.spawn(Task::new(count_down(9).0, &mut source)).is_ok());
    executor.wake(TaskId(0));
    executor.wake(TaskId(1));
    assert_eq!(executor.next_ready(), Some(TaskId(0)));
    executor.wake(TaskId(1));
    executor.wake(TaskId(0));
    executor.wake(TaskId(0));
    assert_eq!(executor.next_ready(), Some(TaskId(1)));
    assert_eq!(executor.next_ready(), Some(TaskId(0)));
    assert_eq!(executor.next_ready(), None);
}

#[test]
fn waking_a_task_that_was_never_spawned_does_nothing() {
    let mut executor = Executor::new();
    executor.wake(TaskId(17));
    assert!(executor.is_idle());
    assert_eq!(executor.poll_task(TaskId(17), Waker::noop()), None);
}

#[test]
fn a_task_woken_while_it_runs_leaves_the_queue_when_it_ends() {
    let mut source = TaskIdSource::new();
    let mut executor = Executor::new();
    assert!(executor.spawn(Task::new(count_down(0).0, &mut source)).is_ok());
    assert!(executor.spawn(Task::new(count_down(3).0, &mut source)).is_ok());
    let id = executor.next_ready().unwrap();
    executor.wake(id);
    assert_eq!(executor.poll_task(id, Waker::noop()), Some(Poll::Ready(())));
    assert_eq!(executor.next_ready(), Some(TaskId(1)));
    assert_eq!(executor.next_ready(), None);
}

#[test]
fn settle_records_an_outcome() {
    let mut source = TaskIdSource::new();
    let mut executor = Executor::new();
    assert!(executor.spawn(Task::new(count_down(3).0, &mut source)).is_ok());
    assert!(executor.spawn(Task::new(count_down(3).0, &mut source)).is_ok());
    executor.settle(TaskId(0), Poll::Pending);
    assert!(executor.is_pending(TaskId(0)));
    executor.settle(TaskId(0), Poll::Ready(()));
    assert!(!executor.is_pending(TaskId(0)));
    assert!(executor.is_pending(TaskId(1)));
    assert_eq!(executor.next_ready(), Some(TaskId(1)));
    assert_eq!(executor.next_ready(), None);
}

#[test]
fn a_task_that_awaits_a_scancode_is_woken_and_gets_it() {
    let bridge = Rc::new(RefCell::new(ScancodeBridge::new()));
    let stream = ScancodeStream::new(&mut bridge.borrow_mut()).unwrap();
    let seen = Rc::new(RefCell::new(Vec::new()));
    let mut source = TaskIdSource::new();
    let mut executor = Executor::new();
    let reader = Reader { id: TaskId(0), want: 2, bridge: bridge.clone(), stream, seen: seen.clone() };
    assert!(executor.spawn(Task::new(reader, &mut source)).is_ok());

    let id = executor.next_ready().unwrap();
    assert_eq!(executor.poll_task(id, Waker::noop()), Some(Poll::Pending));
    assert!(executor.is_idle());

    let told = add_scancode(&mut bridge.borrow_mut(), 0x1e);
    assert_eq!(told, AddScancode::Queued(Some(id)));
    executor.wake(id);
    assert_eq!(executor.next_ready(), Some(id));
    assert_eq!(executor.poll_task(id, Waker::noop()), Some(Poll::Pending));
    assert_eq!(*seen.borrow(), vec![0x1e]);

    assert_eq!(add_scancode(&mut bridge.borrow_mut(), 0x1f), AddScancode::Queued(Some(id)));
    executor.wake(id);
    assert_eq!(executor.next_ready(), Some(id));
    assert_eq!(executor.poll_task(id, Waker::noop()), Some(Poll::Ready(())));
    assert_eq!(*seen.borrow(), vec![0x1e, 0x1f]);
    assert!(!executor.is_pending(id));
    assert!(executor.is_idle());
}
