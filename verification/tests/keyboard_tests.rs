use os_rs::interrupts::keyboard_interrupt;
use os_rs::interrupts::InterruptIndex;
use os_rs::interrupts::PIC_1_OFFSET;
use os_rs::interrupts::PIC_2_OFFSET;
use os_rs::task::keyboard::add_scancode;
use os_rs::task::keyboard::AddScancode;
use os_rs::task::keyboard::ScancodeBridge;
use os_rs::task::keyboard::ScancodeStream;
use os_rs::task::keyboard::SCANCODE_QUEUE_CAPACITY;
use os_rs::task::Poll;
use os_rs::task::TaskId;

fn bridge_with_stream() -> (ScancodeBridge, ScancodeStream) {
    let mut bridge = ScancodeBridge::new();
    let stream = ScancodeStream::new(&mut bridge).unwrap();
    (bridge, stream)
}

#[test]
fn scancodes_arrive_in_the_order_pushed() {
    let (mut bridge, mut stream) = bridge_with_stream();
    for scancode in [0x1e, 0x1f, 0x20] {
        assert_eq!(add_scancode(&mut bridge, scancode), AddScancode::Queued(None));
    }
    assert_eq!(stream.poll_next(&mut bridge, TaskId(1)), Poll::Ready(Some(0x1e)));
    assert_eq!(stream.poll_next(&mut bridge, TaskId(1)), Poll::Ready(Some(0x1f)));
    assert_eq!(stream.poll_next(&mut bridge, TaskId(1)), Poll::Ready(Some(0x20)));
    assert_eq!(stream.poll_next(&mut bridge, TaskId(1)), Poll::Pending);
}

#[test]
fn the_scancode_beyond_the_capacity_is_dropped() {
    let (mut bridge, mut stream) = bridge_with_stream();
    assert_eq!(SCANCODE_QUEUE_CAPACITY, 100);
    let mut full = 0;
    for i in 0..101u32 {
        match add_scancode(&mut bridge, i as u8) {
            AddScancode::Queued(None) => {}
            AddScancode::QueueFull => {
                assert_eq!(i, 100);
                full += 1;
            }
            other => panic!("{:?}", other),
        }
    }
    assert_eq!(full, 1);
    for i in 0..100u32 {
        assert_eq!(stream.poll_next(&mut bridge, TaskId(7)), Poll::Ready(Some(i as u8)));
    }
    assert_eq!(stream.poll_next(&mut bridge, TaskId(7)), Poll::Pending);
}

#[test]
fn a_full_queue_takes_scancodes_again_after_a_pull() {
    let (mut bridge, mut stream) = bridge_with_stream();
    for i in 0..100u32 {
        add_scancode(&mut bridge, i as u8);
    }
    assert_eq!(add_scancode(&mut bridge, 0xaa), AddScancode::QueueFull);
    assert_eq!(stream.poll_next(&mut bridge, TaskId(7)), Poll::Ready(Some(0)));
    assert_eq!(add_scancode(&mut bridge, 0xbb), AddScancode::Queued(None));
    assert_eq!(add_scancode(&mut bridge, 0xcc), AddScancode::QueueFull);
    for i in 1..100u32 {
        assert_eq!(stream.poll_next(&mut bridge, TaskId(7)), Poll::Ready(Some(i as u8)));
    }
    assert_eq!(stream.poll_next(&mut bridge, TaskId(7)), Poll::Ready(Some(0xbb)));
    assert_eq!(stream.poll_next(&mut bridge, TaskId(7)), Poll::Pending);
}

#[test]
fn a_scancode_for_a_bridge_without_a_queue_is_dropped() {
    let mut bridge = ScancodeBridge::new();
    assert_eq!(add_scancode(&mut bridge, 0x1e), AddScancode::QueueUninitialized);
    let mut stream = ScancodeStream::new(&mut bridge).unwrap();
    assert_eq!(stream.poll_next(&mut bridge, TaskId(0)), Poll::Pending);
}

#[test]
fn a_bridge_has_one_reader() {
    let mut bridge = ScancodeBridge::new();
    assert!(ScancodeStream::new(&mut bridge).is_some());
    assert!(ScancodeStream::new(&mut bridge).is_none());
    assert!(ScancodeStream::new(&mut bridge).is_none());
}

#[test]
fn a_second_reader_does_not_empty_the_queue() {
    let (mut bridge, mut stream) = bridge_with_stream();
    add_scancode(&mut bridge, 0x10);
    assert!(ScancodeStream::new(&mut bridge).is_none());
    assert_eq!(stream.poll_next(&mut bridge, TaskId(0)), Poll::Ready(Some(0x10)));
}

#[test]
fn the_task_that_waits_is_woken_by_the_next_scancode() {
    let (mut bridge, mut stream) = bridge_with_stream();
    assert_eq!(stream.poll_next(&mut bridge, TaskId(5)), Poll::Pending);
    assert_eq!(add_scancode(&mut bridge, 0x1e), AddScancode::Queued(Some(TaskId(5))));
    assert_eq!(add_scancode(&mut bridge, 0x1f), AddScancode::Queued(None));
    assert_eq!(stream.poll_next(&mut bridge, TaskId(5)), Poll::Ready(Some(0x1e)));
    assert_eq!(stream.poll_next(&mut bridge, TaskId(5)), Poll::Ready(Some(0x1f)));
}

#[test]
fn the_last_task_to_wait_is_the_one_that_is_woken() {
    let (mut bridge, mut stream) = bridge_with_stream();
    assert_eq!(stream.poll_next(&mut bridge, TaskId(5)), Poll::Pending);
    assert_eq!(stream.poll_next(&mut bridge, TaskId(6)), Poll::Pending);
    assert_eq!(add_scancode(&mut bridge, 0x1e), AddScancode::Queued(Some(TaskId(6))));
}

#[test]
fn a_pull_that_finds_a_scancode_leaves_the_waiting_task_alone() {
    let (mut bridge, mut stream) = bridge_with_stream();
    bridge.register_waker(TaskId(3));
    assert_eq!(add_scancode(&mut bridge, 1), AddScancode::Queued(Some(TaskId(3))));
    bridge.register_waker(TaskId(3));
    assert_eq!(stream.poll_next(&mut bridge, TaskId(4)), Poll::Ready(Some(1)));
    assert_eq!(bridge.take_waker(), Some(TaskId(3)));
    assert_eq!(bridge.take_waker(), None);
}

#[test]
fn a_scancode_between_the_first_look_and_leaving_word_is_found_by_the_second_look() {
    let (mut bridge, _stream) = bridge_with_stream();
    assert_eq!(bridge.pop_scancode(), None);
    assert_eq!(add_scancode(&mut bridge, 0x2a), AddScancode::Queued(None));
    bridge.register_waker(TaskId(9));
    assert_eq!(bridge.pop_scancode(), Some(0x2a));
    assert_eq!(bridge.take_waker(), Some(TaskId(9)));
}

#[test]
fn a_scancode_between_leaving_word_and_the_second_look_wakes_and_is_found() {
    let (mut bridge, _stream) = bridge_with_stream();
    assert_eq!(bridge.pop_scancode(), None);
    bridge.register_waker(TaskId(9));
    assert_eq!(add_scancode(&mut bridge, 0x2a), AddScancode::Queued(Some(TaskId(9))));
    assert_eq!(bridge.pop_scancode(), Some(0x2a));
    assert_eq!(bridge.take_waker(), None);
}

#[test]
fn a_lost_scancode_wakes_nobody() {
    let (mut bridge, _stream) = bridge_with_stream();
    for i in 0..100u32 {
        add_scancode(&mut bridge, i as u8);
    }
    bridge.register_waker(TaskId(2));
    assert_eq!(add_scancode(&mut bridge, 0xff), AddScancode::QueueFull);
    assert_eq!(bridge.take_waker(), Some(TaskId(2)));
}

#[test]
fn the_keyboard_interrupt_hands_the_scancode_on_and_names_its_vector() {
    let (mut bridge, mut stream) = bridge_with_stream();
    assert_eq!(stream.poll_next(&mut bridge, TaskId(1)), Poll::Pending);
    assert_eq!(keyboard_interrupt(&mut bridge, 0x1e), (AddScancode::Queued(Some(TaskId(1))), 33));
    assert_eq!(keyboard_interrupt(&mut bridge, 0x9e), (AddScancode::Queued(None), 33));
    assert_eq!(stream.poll_next(&mut bridge, TaskId(1)), Poll::Ready(Some(0x1e)));
    assert_eq!(stream.poll_next(&mut bridge, TaskId(1)), Poll::Ready(Some(0x9e)));
}

#[test]
fn the_keyboard_interrupt_before_the_queue_is_made() {
    let mut bridge = ScancodeBridge::new();
    assert_eq!(keyboard_interrupt(&mut bridge, 0x1e), (AddScancode::QueueUninitialized, 33));
}

#[test]
fn interrupt_vectors() {
    assert_eq!(PIC_1_OFFSET, 32);
    assert_eq!(PIC_2_OFFSET, 40);
    assert_eq!(InterruptIndex::Timer.as_u8(), 32);
    assert_eq!(InterruptIndex::KeyBoard.as_u8(), 33);
    assert_eq!(InterruptIndex::Timer.as_usize(), 32);
    assert_eq!(InterruptIndex::KeyBoard.as_usize(), 33);
}
