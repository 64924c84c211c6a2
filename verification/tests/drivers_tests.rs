use aarch32_kernel::arch::aarch32::context::TaskContext as KernelContext;
use aarch32_kernel::arch::aarch32::cpu::{irq_unmasked_in, ExceptionKind};
use aarch32_kernel::arch::aarch32::mmu::{
    current_table_base, entry_user_accessible, l2_table_of, range_pages, small_page_entry, table_indices,
    user_range_accessible,
};
use aarch32_kernel::context::TaskContext;
use aarch32_kernel::drivers::device::{DeviceClass, DeviceError, DeviceManager, DeviceNode, DeviceState};
use aarch32_kernel::drivers::virtio::{self, BlockRead, VirtioNet, VirtioProbe};
use aarch32_kernel::kernel::net::interface::{self, NetInterfaces};
use aarch32_kernel::kernel::address::PhysAddr;
use aarch32_kernel::kernel::scheduler::Scheduler as KernelScheduler;
use aarch32_kernel::kernel::task::{TaskId, TaskState as KernelTaskState};
use aarch32_kernel::platform::fdt::{IrqSpec, MemRegion, VirtioKind, VirtioMmioDevice};
use aarch32_kernel::scheduler::Scheduler;
use aarch32_kernel::task::{alloc_stack_index, Task, TaskState};

fn node(name: &'static str, irq: u32) -> DeviceNode {
    let mut n = DeviceNode::empty();
    n.name = name;
    n.class = DeviceClass::Uart;
    n.irq = irq;
    n
}

#[test]
fn device_manager_registers_in_order() {
    let mut manager = DeviceManager::new();
    let a = manager.register(node("uart0", 33)).unwrap();
    let b = manager.register(node("uart1", 34)).unwrap();
    assert_eq!(a.0, 0);
    assert_eq!(b.0, 1);
    assert_eq!(manager.count(), 2);
    assert_eq!(manager.get(0).unwrap().state, DeviceState::Discovered);
    assert_eq!(manager.mark_ready(a), Ok(()));
    assert_eq!(manager.get(0).unwrap().state, DeviceState::Ready);
    assert_eq!(manager.mark_failed(b), Ok(()));
    assert_eq!(manager.find_by_irq(34).unwrap().state, DeviceState::Failed);
    assert!(manager.find_by_irq(99).is_none());
    assert_eq!(manager.mark_ready(aarch32_kernel::drivers::device::DeviceId(5)), Err(DeviceError::NotPresent));
    assert_eq!(manager.mark_ready(aarch32_kernel::drivers::device::DeviceId(40)), Err(DeviceError::Invalid));
    assert!(manager.get(2).is_none());
    for _ in 2..32 {
        manager.register(node("x", 0)).unwrap();
    }
    assert_eq!(manager.register(node("y", 0)), Err(DeviceError::Busy));
    assert_eq!(DeviceError::Busy.as_str(), "busy");
}

fn mmio(irq: u32) -> VirtioMmioDevice {
    VirtioMmioDevice { reg: MemRegion::new(0x0a00_0000, 0x200), irq: IrqSpec::new(irq, 1), kind: VirtioKind::Unknown }
}

#[test]
fn virtio_probe_reads_identification() {
    let block = virtio::probe(mmio(48), 0x7472_6976, 2, 2, 0x554d_4551, 256, 0);
    assert!(block.supported);
    assert!(block.is_block());
    assert_eq!(block.kind(), VirtioKind::Block);
    assert_eq!(block.device.kind, VirtioKind::Block);
    let net = virtio::probe(mmio(49), 0x7472_6976, 1, 1, 0, 256, 0x20);
    assert!(net.is_network());
    assert_eq!(net.features0, 0x20);
    let nothing = virtio::probe(mmio(50), 0x7472_6976, 2, 0, 0, 256, 0x20);
    assert!(!nothing.supported);
    assert_eq!(nothing.queue0_max, 0);
    let bad_magic = virtio::probe(mmio(50), 0, 2, 2, 0, 256, 0);
    assert!(!bad_magic.supported);
    assert!(!VirtioProbe::empty().supported);
}

#[test]
fn virtio_block_read_spans_sectors() {
    // Read 600 bytes from byte 500 of the disk: sectors 0, 1 and 2.
    let mut read = BlockRead::new(500, 600);
    let mut dst = vec![0u8; 600];
    let mut sectors = Vec::new();
    while let Some(sector) = read.next_sector() {
        sectors.push(sector);
        let data: Vec<u8> = (0..512).map(|i| (sector as usize * 7 + i) as u8).collect();
        read.absorb(&data, &mut dst);
    }
    assert_eq!(sectors, vec![0, 1, 2]);
    for (k, byte) in dst.iter().enumerate() {
        let abs = 500 + k;
        assert_eq!(*byte, ((abs / 512) * 7 + abs % 512) as u8);
    }
    assert_eq!(virtio::request_result(0), Ok(()));
    assert_eq!(virtio::request_result(2), Err(DeviceError::Io));
    assert_eq!(virtio::request_result(1), Err(DeviceError::Io));
    assert_eq!(virtio::queue_size_for(0), None);
    assert_eq!(virtio::queue_size_for(1024), Some(8));
}

#[test]
fn scheduler_round_robin_boot_tasks() {
    let mut s = Scheduler::new();
    s.add(Task::new(1, "a", TaskContext { sp: 0x100 }));
    s.add(Task::new(2, "b", TaskContext { sp: 0x200 }));
    assert_eq!(s.start(), 0x100);
    assert_eq!(s.tasks[0].state, TaskState::Running);
    let (resume, switched) = s.tick(0x180);
    assert_eq!(resume, 0x200);
    assert_eq!(switched, Some((0, 1)));
    assert_eq!(s.tasks[0].context.sp, 0x180);
    assert_eq!(s.tasks[0].state, TaskState::Ready);
    assert_eq!(s.tasks[1].state, TaskState::Running);
    let (resume, switched) = s.tick(0x280);
    assert_eq!(resume, 0x180);
    assert_eq!(switched, Some((1, 0)));
    assert_eq!(s.ticks, 2);
    // With no tasks a tick changes nothing.
    let mut empty = Scheduler::new();
    assert_eq!(empty.tick(0x999), (0x999, None));
    let mut next = 3usize;
    assert_eq!(alloc_stack_index(&mut next), Some(3));
    assert_eq!(alloc_stack_index(&mut next), None);
}

#[test]
fn kernel_scheduler_wakes_blocked_tasks() {
    let mut s = KernelScheduler::new();
    let ctx = KernelContext { sp: 0x4000_0000 };
    let a = s.spawn("worker", 0x4001_0000, ctx, PhysAddr(0x4010_0000));
    let b = s.spawn("other", 0x4002_0000, ctx, PhysAddr(0x4010_0000));
    assert_eq!(a, TaskId(0));
    assert_eq!(b, TaskId(1));
    assert_eq!(s.tasks[0].state, KernelTaskState::Ready);
    assert_eq!(s.ready.len(), 2);
    // Take both off the ready queue and block them on a channel.
    assert_eq!(s.ready.pop_front(), Some(a));
    assert_eq!(s.ready.pop_front(), Some(b));
    s.tasks[0].state = KernelTaskState::Blocked;
    s.tasks[1].state = KernelTaskState::Blocked;
    s.wait.sleep_on(42, a);
    s.wait.sleep_on(42, b);
    assert_eq!(s.wake_channel(7), 0);
    assert_eq!(s.wake_channel(42), 2);
    assert_eq!(s.tasks[0].state, KernelTaskState::Ready);
    assert_eq!(s.tasks[1].state, KernelTaskState::Ready);
    assert_eq!(s.ready.len(), 2);
    assert_eq!(s.wake_channel(42), 0);
}

#[test]
fn mmu_user_access_checks() {
    assert_eq!(current_table_base(0x4000_4059), 0x4000_4000);
    assert_eq!(table_indices(0x0012_3456), (1, 0x23));
    assert_eq!(l2_table_of(0x4000_0401), Some(0x4000_0400));
    assert_eq!(l2_table_of(0x4000_0402), None);
    assert_eq!(small_page_entry(0x4000_0032), Some(0x4000_0032));
    assert_eq!(small_page_entry(0x4000_0031), None);
    let rw = 0x4000_0000 | (0b11 << 4) | 0b10;
    let ro = 0x4000_0000 | (1 << 9) | (0b10 << 4) | 0b10;
    let kernel_only = 0x4000_0000 | (0b01 << 4) | 0b10;
    assert!(entry_user_accessible(rw, true));
    assert!(entry_user_accessible(ro, false));
    assert!(!entry_user_accessible(ro, true));
    assert!(!entry_user_accessible(kernel_only, false));
    assert_eq!(range_pages(0x1ff0, 0x20), Some((0x1000, 2)));
    assert_eq!(range_pages(usize::MAX, 2), None);
    assert!(user_range_accessible(0x1ff0, 0x20, false, &[Some(rw), Some(ro)]));
    assert!(!user_range_accessible(0x1ff0, 0x20, true, &[Some(rw), Some(ro)]));
    assert!(!user_range_accessible(0x1ff0, 0x20, false, &[Some(rw), None]));
    assert!(user_range_accessible(0x1ff0, 0, true, &[]));
}

#[test]
fn cpu_exception_numbers() {
    assert_eq!(ExceptionKind::from_raw(4), ExceptionKind::DataAbort);
    assert_eq!(ExceptionKind::from_raw(1).as_str(), "undefined");
    assert_eq!(ExceptionKind::from_raw(9), ExceptionKind::Unknown(9));
    assert!(irq_unmasked_in(0x13));
    assert!(!irq_unmasked_in(0x93));
}

fn queue(size: u16) -> aarch32_kernel::drivers::virtio::VirtQueue {
    let mut q = aarch32_kernel::drivers::virtio::VirtQueue::empty();
    q.size = size;
    q
}

#[test]
fn virtio_net_bind_registers_an_interface() {
    let mut interfaces = NetInterfaces::new();
    // A card that offers its MAC address.
    let probe = virtio::probe(mmio(49), 0x7472_6976, 2, 1, 0, 256, 0x20);
    let mut card = VirtioNet::new(probe);
    assert_eq!(card.bind(0, queue(8), queue(8), [2, 0, 0, 0, 0, 7], &mut interfaces), Ok(()));
    assert_eq!(card.interface(), Some(0));
    assert_eq!(card.mac.0, [2, 0, 0, 0, 0, 7]);
    let iface = interface::get(&interfaces, 0).unwrap();
    assert_eq!(iface.name_str(), "eth0");
    assert_eq!(iface.ipv4.0, [10, 0, 2, 15]);
    // Without the MAC feature the address comes from the registers.
    let plain = virtio::probe(mmio(50), 0x7472_6976, 2, 1, 0, 256, 0);
    let mut second = VirtioNet::new(plain);
    assert_eq!(second.bind(1, queue(8), queue(8), [2, 0, 0, 0, 0, 7], &mut interfaces), Ok(()));
    assert_eq!(second.mac.0, [0x52, 0x54, 0x00, 0x00, 50, 0x01]);
    assert_eq!(interface::get(&interfaces, 1).unwrap().name_str(), "eth1");
    // A missing queue or a card of another kind is refused.
    let mut third = VirtioNet::new(plain);
    assert_eq!(third.bind(2, queue(0), queue(8), [0; 6], &mut interfaces), Err(DeviceError::Invalid));
    let mut disk = VirtioNet::new(virtio::probe(mmio(51), 0x7472_6976, 2, 2, 0, 256, 0));
    assert_eq!(disk.bind(2, queue(8), queue(8), [0; 6], &mut interfaces), Err(DeviceError::Unsupported));
}
