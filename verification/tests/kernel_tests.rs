use aarch32_kernel::kernel::process::{AddressSpace, ProcessId, ProcessTable};
use aarch32_kernel::kernel::address::{align_down, align_up, PhysAddr, VirtAddr};
use aarch32_kernel::kernel::console::{
    self, available, lines, pop_into, push_input, ConsoleInput, ConsoleMode, LineBuffer, RingBuffer,
};
use aarch32_kernel::kernel::ipc::{read_wait_channel, write_wait_channel, PipeEnd, PipeId, PipeIo, PipeTable};
use aarch32_kernel::kernel::queue::ReadyQueue;
use aarch32_kernel::kernel::sleep::SleepQueue;
use aarch32_kernel::kernel::syscall::{ENOENT, ENOSPC};
use aarch32_kernel::kernel::task::TaskId;
use aarch32_kernel::kernel::wait::WaitQueueTable;

#[test]
fn pipe_bytes_come_out_in_order() {
    let mut pipes = PipeTable::new();
    let id = pipes.create().unwrap();
    assert_eq!(id, PipeId(0));
    assert_eq!(pipes.write(id, b"abcdef"), PipeIo::Write { bytes: 6, wake_reader: true });
    assert_eq!(pipes.available(id), 6);
    let mut buf = [0u8; 4];
    assert_eq!(pipes.read(id, &mut buf), PipeIo::Read { bytes: 4, wake_writer: true });
    assert_eq!(&buf, b"abcd");
    let mut buf = [0u8; 4];
    assert_eq!(pipes.read(id, &mut buf), PipeIo::Read { bytes: 2, wake_writer: true });
    assert_eq!(&buf[..2], b"ef");
    // An empty pipe with a writer makes the reader wait.
    assert_eq!(pipes.read(id, &mut buf), PipeIo::WouldBlock { channel: read_wait_channel(id) });
    // With no writer left, an empty pipe reads as closed.
    pipes.close(id, PipeEnd::Write);
    assert!(!pipes.has_writers(id));
    assert_eq!(pipes.read(id, &mut buf), PipeIo::Closed);
}

#[test]
fn pipe_full_and_errors() {
    let mut pipes = PipeTable::new();
    let id = pipes.create().unwrap();
    let big = [7u8; 300];
    assert_eq!(pipes.write(id, &big), PipeIo::Write { bytes: 256, wake_reader: true });
    assert_eq!(pipes.write(id, b"x"), PipeIo::WouldBlock { channel: write_wait_channel(id) });
    assert_eq!(pipes.read(PipeId(5), &mut [0u8; 1]), PipeIo::Error(ENOENT));
    for _ in 1..8 {
        pipes.create().unwrap();
    }
    assert_eq!(pipes.active_count(), 8);
    assert_eq!(pipes.create(), Err(ENOSPC));
    assert_eq!(read_wait_channel(PipeId(3)), 0x5049_0006);
    assert_eq!(write_wait_channel(PipeId(3)), 0x5049_0007);
}

#[test]
fn pipe_closes_when_both_ends_go() {
    let mut pipes = PipeTable::new();
    let id = pipes.create().unwrap();
    pipes.add_ref(id, PipeEnd::Read);
    pipes.close(id, PipeEnd::Read);
    assert_eq!(pipes.active_count(), 1);
    pipes.close(id, PipeEnd::Read);
    pipes.close(id, PipeEnd::Write);
    assert_eq!(pipes.active_count(), 0);
    // The slot is free for the next pipe.
    assert_eq!(pipes.create(), Ok(PipeId(0)));
}

#[test]
fn ready_queue_orders_by_priority_then_arrival() {
    let mut q = ReadyQueue::new();
    assert!(q.is_empty());
    q.push_back(TaskId(1), 2);
    q.push_back(TaskId(2), 0);
    q.push_back(TaskId(3), 2);
    q.push_back(TaskId(4), 0);
    assert_eq!(q.len(), 4);
    // Higher priority numbers run first; within a level, in arrival order.
    assert_eq!(q.pop_front(), Some(TaskId(1)));
    assert_eq!(q.pop_front(), Some(TaskId(3)));
    assert_eq!(q.pop_front(), Some(TaskId(2)));
    assert_eq!(q.pop_front(), Some(TaskId(4)));
    assert_eq!(q.pop_front(), None);
}

#[test]
fn sleep_queue_wakes_in_tick_order() {
    let mut q = SleepQueue::new();
    q.insert(TaskId(1), 50);
    q.insert(TaskId(2), 10);
    q.insert(TaskId(3), 50);
    q.insert(TaskId(4), 30);
    assert_eq!(q.len(), 4);
    assert_eq!(q.pop_expired(5), None);
    assert_eq!(q.pop_expired(30), Some(TaskId(2)));
    assert_eq!(q.pop_expired(30), Some(TaskId(4)));
    assert_eq!(q.pop_expired(30), None);
    q.remove_task(TaskId(1));
    assert_eq!(q.pop_expired(100), Some(TaskId(3)));
    assert_eq!(q.len(), 0);
}

#[test]
fn wait_queues_wake_everyone_on_a_channel() {
    let mut waits = WaitQueueTable::new();
    waits.sleep_on(7, TaskId(1));
    waits.sleep_on(9, TaskId(2));
    waits.sleep_on(7, TaskId(3));
    assert_eq!(waits.wake_all(7), vec![TaskId(1), TaskId(3)]);
    assert_eq!(waits.wake_all(7), Vec::<TaskId>::new());
    waits.remove_task(TaskId(2));
    assert_eq!(waits.wake_all(9), Vec::<TaskId>::new());
}

#[test]
fn ring_and_line_buffers() {
    let mut ring: RingBuffer<4> = RingBuffer::new();
    assert!(ring.push(1) && ring.push(2) && ring.push(3) && ring.push(4));
    assert!(!ring.push(5));
    assert_eq!(ring.pop(), Some(1));
    assert!(ring.push(5));
    let mut out = [0u8; 8];
    assert_eq!(ring.pop_into(&mut out), 4);
    assert_eq!(&out[..4], &[2, 3, 4, 5]);
    assert_eq!(ring.len(), 0);
    let mut line = LineBuffer::new();
    assert!(line.push(b'a'));
    assert!(line.backspace());
    assert!(!line.backspace());
}

#[test]
fn console_canonical_lines() {
    let mut input = ConsoleInput::new();
    assert_eq!(console::mode(&input), ConsoleMode::Canonical);
    let mut echo = Vec::new();
    for b in b"lx\x7fs\r" {
        push_input(&mut input, *b, &mut echo);
    }
    assert_eq!(echo, b"lx\x08 \x08s\r\n");
    assert_eq!(available(&input), 3);
    assert_eq!(lines(&input), 1);
    let mut buf = [0u8; 8];
    assert_eq!(pop_into(&mut input, &mut buf), 3);
    assert_eq!(&buf[..3], b"ls\n");
    // Ctrl-C drops the line and counts an interrupt.
    push_input(&mut input, b'z', &mut echo);
    push_input(&mut input, 0x03, &mut echo);
    assert_eq!(console::take_interrupts(&mut input), 1);
    assert_eq!(pop_into(&mut input, &mut buf), 1);
    assert_eq!(buf[0], b'\n');
}

#[test]
fn console_raw_mode_passes_bytes() {
    let mut input = ConsoleInput::new();
    console::set_mode(&mut input, ConsoleMode::Raw);
    let mut echo = Vec::new();
    push_input(&mut input, 0x7f, &mut echo);
    push_input(&mut input, b'q', &mut echo);
    assert_eq!(available(&input), 2);
    assert_eq!(console::pop_input(&mut input), Some(0x7f));
    assert_eq!(console::pop_input(&mut input), Some(b'q'));
    assert_eq!(console::pop_input(&mut input), None);
    assert_eq!(console::received(&input), 2);
}

#[test]
fn address_alignment() {
    assert_eq!(align_down(0x1234, 0x1000), 0x1000);
    assert_eq!(align_up(0x1234, 0x1000), 0x2000);
    assert_eq!(align_up(0x2000, 0x1000), 0x2000);
    assert!(PhysAddr::new(0x4000_1000).is_aligned(0x1000));
    assert!(!PhysAddr::new(0x4000_1004).is_aligned(0x1000));
    assert!(VirtAddr::new(0x1000).is_user());
    assert!(!VirtAddr::new(0x8000_0000).is_user());
}

#[test]
fn orphaned_children_go_to_init() {
    let mut table = ProcessTable::new();
    let space = || AddressSpace::kernel(PhysAddr::new(0x4000_0000));
    let init = table.create("init", ProcessId::new(0), space());
    table.set_init_process(init);
    let parent = table.create("parent", init, space());
    let child = table.create("child", parent, space());
    assert_eq!(table.parent_of(child), parent);
    table.orphan_children_of(parent);
    assert_eq!(table.parent_of(child), init);
}

#[test]
fn release_hands_orphans_to_init_and_frees_reaped_zombies() {
    let mut table = ProcessTable::new();
    let space = || AddressSpace::kernel(PhysAddr::new(0x4000_0000));
    let init = table.create("init", ProcessId::new(0), space());
    table.set_init_process(init);
    let parent = table.create("parent", init, space());
    let child = table.create("child", parent, space());
    let zombie = table.create("zombie", parent, space());
    let grandchild = table.create("grandchild", zombie, space());
    let other = table.create("other", init, space());
    table.mark_zombie(zombie, 3);
    assert!(table.mark_resources_reaped(zombie, space()).is_some());
    table.release(parent);
    assert_eq!(table.state_str(parent), "missing");
    assert_eq!(table.parent_of(child), init);
    assert_eq!(table.state_str(zombie), "missing");
    assert_eq!(table.parent_of(grandchild), init);
    assert_eq!(table.state_str(grandchild), "alive");
    assert_eq!(table.parent_of(other), init);
}

#[test]
fn release_orphans_to_nobody_when_init_is_not_alive() {
    let mut table = ProcessTable::new();
    let space = || AddressSpace::kernel(PhysAddr::new(0x4000_0000));
    let init = table.create("init", ProcessId::new(0), space());
    table.set_init_process(init);
    let parent = table.create("parent", init, space());
    let child = table.create("child", parent, space());
    table.mark_zombie(init, 1);
    table.release(parent);
    assert_eq!(table.parent_of(child), ProcessId::new(0));
    assert_eq!(table.state_str(child), "alive");
}
