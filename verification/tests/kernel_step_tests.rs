use aarch32_kernel::arch::aarch32::exception::decode_fault_status;
use aarch32_kernel::arch::aarch32::context::TaskContext as KernelContext;
use aarch32_kernel::arch::aarch32::page_table::{kernel_fits_check, map_kernel, KernelLayout, PageAttrs, PageTables};
use aarch32_kernel::drivers::device::{DeviceClass, DeviceError, DeviceManager};
use aarch32_kernel::drivers::virtio::{self, ProbeRegistration, ProbeStep, VirtioBlock};
use aarch32_kernel::fs::vfs::{FileSystemId, InodeRef};
use aarch32_kernel::kernel::address::{PhysAddr, VirtAddr};
use aarch32_kernel::kernel::loader::{build_initial_stack_with_args, LoadedImage, UserArg};
use aarch32_kernel::kernel::mmap::mmap_area;
use aarch32_kernel::kernel::memory::PageAllocator;
use aarch32_kernel::kernel::slab::SlabAllocator;
use aarch32_kernel::kernel::process::{AddressSpace, USER_MMAP_BASE, VM_ANON, VM_FILE, VM_FIXED, VM_MMAP, VM_READ, VM_USER, VM_WRITE};
use aarch32_kernel::kernel::scheduler::{KernelCall, Scheduler as KernelScheduler, TickAction};
use aarch32_kernel::kernel::syscall::{LINUX_SYS_EXIT_GROUP, LINUX_SYS_GETPID, LINUX_SYS_OPEN, LINUX_SYS_SCHED_YIELD, SYS_BLOCK, SYS_EXIT, SYS_GETPID, SYS_GETPPID, SYS_OPEN, SYS_SLEEP, SYS_WAIT, SYS_WAKE, SYS_YIELD};
use aarch32_kernel::kernel::syscall::{EAGAIN, ECHILD};
use aarch32_kernel::kernel::syscall::{EBADF, EEXIST, EFAULT, EINVAL, MAP_ANONYMOUS, MAP_FIXED, PROT_READ, PROT_WRITE};
use aarch32_kernel::kernel::task::{TaskId, TaskState};
use aarch32_kernel::kernel::process::ThreadMode;
use aarch32_kernel::kernel::user::{UserAccess, UserPtr};
use aarch32_kernel::kernel::io_plan::{next_chunk, partial_answer, ReadPlan, WritePlan};
use aarch32_kernel::kernel::net::checksum16;
use aarch32_kernel::kernel::process::{ProcessId, ProcessTable};
use aarch32_kernel::platform::fdt::{BootInfo, BootSource, IrqSpec, MemRegion, VirtioKind, VirtioMmioDevice};

fn le32(buf: &[u8], at: usize) -> u32 {
    u32::from_le_bytes([buf[at], buf[at + 1], buf[at + 2], buf[at + 3]])
}

#[test]
fn user_pointer_check_consults_the_tables() {
    let mut tables = PageTables::new(0x4010_0000);
    assert_eq!(tables.map_page(0x1000_0000, 0x4200_0000, PageAttrs::user_rw_xn()), Ok(()));
    assert_eq!(tables.map_page(0x1000_1000, 0x4200_1000, PageAttrs::user_ro_xn()), Ok(()));
    assert_eq!(tables.map_page(0x1000_2000, 0x4200_2000, PageAttrs::normal_rw_xn()), Ok(()));
    let p = UserPtr::new(0x1000_0ff0);
    assert_eq!(p.check(0x10, UserAccess::Write, &tables), Ok(()));
    // The range reaches the read-only page: reading is fine, writing is not.
    assert_eq!(p.check(0x20, UserAccess::Read, &tables), Ok(()));
    assert_eq!(p.check(0x20, UserAccess::Write, &tables), Err(EFAULT));
    // A kernel-only page and an unmapped page are refused.
    assert_eq!(UserPtr::new(0x1000_2000).check(4, UserAccess::Read, &tables), Err(EFAULT));
    assert_eq!(UserPtr::new(0x1000_3000).check(4, UserAccess::Read, &tables), Err(EFAULT));
    // An empty range below the top is always fine; the top itself never is.
    assert_eq!(UserPtr::new(0x1000_3000).check(0, UserAccess::Read, &tables), Ok(()));
    assert_eq!(UserPtr::new(0x8000_0000).check(0, UserAccess::Read, &tables), Err(EFAULT));
    assert_eq!(UserPtr::new(0x7fff_fff0).check(0x20, UserAccess::Read, &tables), Err(EFAULT));
    assert_eq!(UserPtr::new(usize::MAX).check(2, UserAccess::Read, &tables), Err(EFAULT));
}

fn image() -> LoadedImage {
    LoadedImage {
        name: "init",
        entry: VirtAddr(0),
        user_start: VirtAddr(0),
        user_end: VirtAddr(0),
        brk_start: VirtAddr(0),
        phdr: VirtAddr(0x10_0034),
        phnum: 2,
        phent: 32,
        interpreter_base: VirtAddr(0),
        interpreter_entry: VirtAddr(0),
        executable_entry: VirtAddr(0),
        executable_base: VirtAddr(0),
    }
}

#[test]
fn initial_stack_lays_out_arguments_and_auxv() {
    let mut buf = [0u8; 4096];
    let argv = [UserArg::from_bytes(b"sh")];
    let envp: [UserArg; 0] = [];
    let r = build_initial_stack_with_args(&mut buf, 0x7000_0000, 0x7000_1000, &image(), &argv, &envp);
    assert_eq!(r.map(|s| s.sp), Ok(0x7000_0F28));
    assert_eq!(le32(&buf, 0xF28), 1);
    assert_eq!(le32(&buf, 0xF2C), 0x7000_0FF2);
    assert_eq!(le32(&buf, 0xF30), 0);
    assert_eq!(le32(&buf, 0xF34), 0);
    assert_eq!(le32(&buf, 0xF38), 3);
    assert_eq!(le32(&buf, 0xF3C), 0x10_0034);
    assert_eq!(le32(&buf, 0xF40), 4);
    assert_eq!(le32(&buf, 0xF44), 32);
    assert_eq!(le32(&buf, 0xF48), 5);
    assert_eq!(le32(&buf, 0xF4C), 2);
    assert_eq!(&buf[0xFF2..0xFF5], b"sh\0");
}

fn mmio(irq: u32) -> VirtioMmioDevice {
    VirtioMmioDevice { reg: MemRegion::new(0x0a00_0000, 0x200), irq: IrqSpec::new(irq, 1), kind: VirtioKind::Unknown }
}

#[test]
fn probe_registration_numbers_minors_in_order() {
    let block = virtio::probe(mmio(48), 0x7472_6976, 2, 2, 0, 256, 0);
    let unsupported = virtio::probe(mmio(49), 0x7472_6976, 2, 0, 0, 256, 0);
    let net = virtio::probe(mmio(50), 0x7472_6976, 2, 1, 0, 256, 0);
    let probes = [block, unsupported, net];
    let mut manager = DeviceManager::new();
    let mut reg = ProbeRegistration::new(false, false);
    match reg.step(&probes, &mut manager) {
        ProbeStep::Done { registered } => assert_eq!(registered, 2),
        other => panic!("unexpected step {:?}", other),
    }
    assert_eq!(manager.count, 2);
    assert_eq!(manager.nodes[0].minor, 0);
    assert_eq!(manager.nodes[0].major, 254);
    assert_eq!(manager.nodes[0].class, DeviceClass::Block);
    assert_eq!(manager.nodes[0].irq, 48);
    assert_eq!(manager.nodes[0].driver, "virtio-mmio");
    assert_eq!(manager.nodes[1].minor, 1);
    assert_eq!(manager.nodes[1].major, 255);
    assert_eq!(manager.nodes[1].irq, 50);
    assert_eq!(manager.nodes[1].mmio_base, 0x0a00_0000);
}

#[test]
fn block_configure_refuses_other_devices() {
    let net = virtio::probe(mmio(50), 0x7472_6976, 2, 1, 0, 256, 0);
    let mut dev = VirtioBlock::new(net);
    assert_eq!(dev.configure(0x4400_0000, 16), Err(DeviceError::Unsupported));
    let block = virtio::probe(mmio(48), 0x7472_6976, 2, 2, 0, 256, 0);
    let mut dev = VirtioBlock::new(block);
    assert_eq!(dev.configure(0x4400_0000, 0), Err(DeviceError::Invalid));
    assert_eq!(dev.configure(0x4400_0000, 16), Ok(()));
    assert_eq!(dev.queue().size, 8);
}

fn user_space() -> AddressSpace {
    AddressSpace::user(
        PhysAddr(0x4100_0000),
        1,
        4,
        VirtAddr(0x1_0000),
        VirtAddr(0x1_0000),
        VirtAddr(0x2_0000),
        VirtAddr(0x7ff0_0000),
        VirtAddr(0x8000_0000),
    )
}

#[test]
fn mmap_places_areas_and_moves_the_cursor() {
    let mut space = user_space();
    let anon = MAP_ANONYMOUS;
    let first = mmap_area(&mut space, 0, 5000, PROT_READ | PROT_WRITE, anon, None, 0);
    assert_eq!(first, Ok(USER_MMAP_BASE));
    let area = space.find_vma(VirtAddr(USER_MMAP_BASE + 0x1000)).unwrap();
    assert_eq!(area.end.0, USER_MMAP_BASE + 0x2000);
    assert_eq!(area.flags, VM_READ | VM_WRITE | VM_USER | VM_MMAP | VM_ANON);
    assert_eq!(space.mmap_next.0, USER_MMAP_BASE + 0x2000);
    let second = mmap_area(&mut space, 0, 4096, PROT_READ, anon, None, 0);
    assert_eq!(second, Ok(USER_MMAP_BASE + 0x2000));
    // A hint on a mapped page is refused; a fixed mapping replaces it.
    assert_eq!(mmap_area(&mut space, USER_MMAP_BASE, 4096, PROT_READ, anon, None, 0), Err(EEXIST));
    let file = InodeRef { fs: FileSystemId::Ramfs, ino: 3 };
    assert_eq!(mmap_area(&mut space, USER_MMAP_BASE, 4096, PROT_READ, MAP_FIXED, Some(file), 0), Ok(USER_MMAP_BASE));
    let fixed = space.find_vma(VirtAddr(USER_MMAP_BASE)).unwrap();
    assert_eq!(fixed.flags, VM_READ | VM_USER | VM_MMAP | VM_FILE | VM_FIXED);
    assert_eq!(fixed.file, Some(file));
    assert_eq!(space.find_vma(VirtAddr(USER_MMAP_BASE + 0x1000)).unwrap().start.0, USER_MMAP_BASE + 0x1000);
    // Errors.
    assert_eq!(mmap_area(&mut space, 0, 0, PROT_READ, anon, None, 0), Err(EINVAL));
    assert_eq!(mmap_area(&mut space, 0, 4096, PROT_READ, anon, None, 12), Err(EINVAL));
    assert_eq!(mmap_area(&mut space, 0x5000_0004, 4096, PROT_READ, MAP_FIXED | anon, None, 0), Err(EINVAL));
    assert_eq!(mmap_area(&mut space, 0x1000, 4096, PROT_READ, anon, None, 0), Err(EINVAL));
}

#[test]
fn scheduler_switches_round_robin_and_preempts() {
    let mut s = KernelScheduler::new();
    let ctx = KernelContext { sp: 0x4000_0000 };
    let a = s.spawn("worker", 0x4001_0000, ctx, PhysAddr(0x4010_0000));
    let b = s.spawn("other", 0x4002_0000, ctx, PhysAddr(0x4010_0000));
    assert_eq!(s.pick_next(), Some(a));
    s.tasks[0].state = TaskState::Running;
    s.current = Some(a);
    // The running task goes to the back of the line; the other runs.
    assert_eq!(s.schedule_from_current(a, "tick"), Some(b));
    assert_eq!(s.current, Some(b));
    assert_eq!(s.tasks[1].state, TaskState::Running);
    assert_eq!(s.tasks[0].state, TaskState::Ready);
    assert_eq!(s.switches, 1);
    // A tick with time left resumes; one that uses up the slice switches.
    s.tasks[1].remaining_ticks = 2;
    assert_eq!(s.preempt_step(0x4002_0f00), TickAction::Resume);
    assert_eq!(s.tasks[1].context.sp, 0x4002_0f00);
    assert_eq!(s.preempt_step(0x4002_0e00), TickAction::Run(a));
    assert_eq!(s.current, Some(a));
    // A sleeper whose tick has come is woken.
    s.tasks[1].state = TaskState::Sleeping;
    s.ready.pop_front();
    s.sleep.insert(b, 0);
    s.wake_sleepers();
    assert_eq!(s.tasks[1].state, TaskState::Ready);
    assert_eq!(s.ready.len(), 1);
    assert_eq!(s.sleep.len(), 0);
}

fn boot() -> BootInfo {
    let mut b = BootInfo::fallback_with_source(0, BootSource::Static);
    b.ram_start = 0x4000_0000;
    b.ram_end = 0x4800_0000;
    b.mmio_start = 0x0800_0000;
    b.mmio_end = 0x0a00_4000;
    b
}

fn layout() -> KernelLayout {
    KernelLayout {
        kernel_start: 0x4000_0000,
        kernel_end: 0x4010_0000,
        text_start: 0x4000_0000,
        text_end: 0x4002_0000,
        rodata_start: 0x4002_0000,
        rodata_end: 0x4003_0000,
        user_text_start: 0x4003_0000,
        user_text_end: 0x4003_1000,
        user_rodata_start: 0x4003_1000,
        user_rodata_end: 0x4003_2000,
        data_start: 0x4003_2000,
        data_end: 0x4004_0000,
        bss_start: 0x4004_0000,
        bss_end: 0x4005_0000,
    }
}

#[test]
fn kernel_map_gives_each_section_its_access() {
    let b = boot();
    let l = layout();
    assert!(kernel_fits_check(&b, &l));
    let mut tables = PageTables::new(0x4010_0000);
    assert!(map_kernel(&mut tables, &b, &l).is_ok());
    assert_eq!(tables.entry_at(0x4000_0000), 0x4000_0000 | PageAttrs::normal_rx().bits);
    assert_eq!(tables.entry_at(0x4002_0000), 0x4002_0000 | PageAttrs::normal_ro_xn().bits);
    assert_eq!(tables.entry_at(0x4003_0000), 0x4003_0000 | PageAttrs::user_rx().bits);
    assert_eq!(tables.entry_at(0x4006_0000), 0x4006_0000 | PageAttrs::normal_rw_xn().bits);
    assert_eq!(tables.entry_at(0x0900_0000), 0x0900_0000 | PageAttrs::device_rw_xn().bits);
    assert_eq!(tables.entry_at(0x8000_0000), 0x4000_0000 | PageAttrs::normal_rx().bits);
    assert_eq!(tables.entry_at(0x1000_0000), 0);
    let mut bad = l;
    bad.text_start = 0x3fff_0000;
    assert!(!kernel_fits_check(&b, &bad));
}

#[test]
fn appended_checksum_sums_to_zero() {
    let mut data = vec![0x45u8, 0x00, 0x00, 0x1c, 0x12, 0x34, 0x40, 0x00, 0x40, 0x01];
    let c = checksum16(&data);
    data.extend_from_slice(&c.to_be_bytes());
    assert_eq!(checksum16(&data), 0);
}

#[test]
fn io_plans_follow_the_descriptor() {
    let table = ProcessTable::new();
    let nobody = ProcessId::new(7);
    assert_eq!(table.read_plan(nobody, 0, 16), ReadPlan::Answer(EBADF));
    assert_eq!(table.write_plan(nobody, 1, 16), WritePlan::Answer(EBADF));
    assert_eq!(partial_answer(0, EBADF), EBADF);
    assert_eq!(partial_answer(12, EBADF), 12);
    assert_eq!(next_chunk(300, 0), 128);
    assert_eq!(next_chunk(300, 256), 44);
}

#[test]
fn slab_hands_out_objects_last_first() {
    let mut pages = PageAllocator::init(0x4000_0000 + 100 * 4096);
    let mut slab = SlabAllocator::new();
    assert_eq!(slab.class_for(24, 8), Some(1));
    assert_eq!(slab.class_for(4096, 8), None);
    let a = slab.allocate(&mut pages, 24, 8).unwrap();
    let stats = slab.stats(1).unwrap();
    assert_eq!(stats.pages, 1);
    assert_eq!(stats.objects, 128);
    assert_eq!(stats.allocated, 1);
    assert_eq!(stats.free, 127);
    let b = slab.allocate(&mut pages, 24, 8).unwrap();
    assert_eq!(a, b + 32);
    slab.dealloc(a, 24, 8);
    assert_eq!(slab.allocate(&mut pages, 24, 8), Some(a));
    assert_eq!(slab.allocate(&mut pages, 5000, 8), None);
    assert_eq!(slab.stats(8), None);
}

#[test]
fn fork_copies_a_user_task() {
    let mut s = KernelScheduler::new();
    let ctx = KernelContext { sp: 0x4000_0000 };
    let a = s.spawn("worker", 0x4001_0000, ctx, PhysAddr(0x4010_0000));
    // A kernel thread cannot fork.
    assert_eq!(s.fork_task(a, user_space(), 0x4003_0000, ctx).map(|(t, _)| t), Err(EINVAL));
    s.tasks[0].mode = ThreadMode::User;
    s.tasks[0].user_entry = 0x1_0000;
    let before = s.ready.len();
    let (child, pid) = s.fork_task(a, user_space(), 0x4003_0000, KernelContext { sp: 0x4003_0f00 }).unwrap();
    assert_eq!(child, TaskId(1));
    assert_eq!(s.tasks[1].state, TaskState::Ready);
    assert_eq!(s.tasks[1].process_id, pid);
    assert_eq!(s.tasks[1].user_entry, 0x1_0000);
    assert_eq!(s.tasks[1].user_stack_top, 0x8000_0000);
    assert_eq!(s.tasks[1].context.sp, 0x4003_0f00);
    assert_eq!(s.ready.len(), before + 1);
    assert_eq!(s.processes.parent_of(pid), s.tasks[0].process_id);
}

#[test]
fn fault_status_classes() {
    assert_eq!(decode_fault_status(0x001), "alignment");
    assert_eq!(decode_fault_status(0x005), "translation-section");
    assert_eq!(decode_fault_status(0x80f), "permission-page");
    assert_eq!(decode_fault_status(0x400), "tlb-conflict");
    assert_eq!(decode_fault_status(0x416), "async-external-abort");
    assert_eq!(decode_fault_status(0x401), "unknown");
    assert_eq!(decode_fault_status(0x000), "unknown");
}

#[test]
fn sleep_and_block_calls_hand_over_the_cpu() {
    let mut s = KernelScheduler::new();
    let ctx = KernelContext { sp: 0x4000_0000 };
    let a = s.spawn("worker", 0x4001_0000, ctx, PhysAddr(0x4010_0000));
    let b = s.spawn("other", 0x4002_0000, ctx, PhysAddr(0x4010_0000));
    assert_eq!(s.pick_next(), Some(a));
    s.tasks[0].state = TaskState::Running;
    s.current = Some(a);
    // A sleep of no ticks still lasts one.
    assert_eq!(s.sleep_current(a, 0), Some(b));
    assert_eq!(s.tasks[0].state, TaskState::Sleeping);
    assert_eq!(s.tasks[0].wake_at_tick, 1);
    assert_eq!(s.tasks[0].stats.sleep_count, 1);
    assert_eq!(s.sleep.len(), 1);
    assert_eq!(s.current, Some(b));
    // The other blocks; nothing else is ready.
    assert_eq!(s.block_current(b, 77), None);
    assert_eq!(s.tasks[1].state, TaskState::Blocked);
    assert_eq!(s.tasks[1].wait_channel, 77);
    assert_eq!(s.wake_channel(77), 1);
    assert_eq!(s.tasks[1].state, TaskState::Ready);
}

#[test]
fn kernel_scheduling_calls() {
    let mut s = KernelScheduler::new();
    let ctx = KernelContext { sp: 0x4000_0000 };
    let a = s.spawn("worker", 0x4001_0000, ctx, PhysAddr(0x4010_0000));
    let b = s.spawn("other", 0x4002_0000, ctx, PhysAddr(0x4010_0000));
    assert_eq!(s.pick_next(), Some(a));
    s.tasks[0].state = TaskState::Running;
    s.current = Some(a);
    assert_eq!(s.kernel_call(a, SYS_OPEN, 0), KernelCall::Other);
    assert_eq!(s.tasks[0].stats.last_syscall, SYS_OPEN);
    assert_eq!(s.tasks[0].state, TaskState::Running);
    let pid = s.tasks[0].process_id.0 as u32;
    assert_eq!(s.kernel_call(a, SYS_GETPID, 0), KernelCall::Return(pid));
    assert_eq!(s.kernel_call(a, SYS_GETPPID, 0), KernelCall::Return(0));
    assert_eq!(s.kernel_call(a, SYS_YIELD, 0), KernelCall::Switch { value: 0, next: Some(b) });
    assert_eq!(s.tasks[0].state, TaskState::Ready);
    assert_eq!(s.kernel_call(b, SYS_SLEEP, 5), KernelCall::Switch { value: 0, next: Some(a) });
    assert_eq!(s.tasks[1].wake_at_tick, 5);
    assert_eq!(s.kernel_call(a, SYS_BLOCK, 9), KernelCall::Switch { value: 0, next: None });
    assert_eq!(s.tasks[0].state, TaskState::Blocked);
    s.tasks[1].state = TaskState::Running;
    assert_eq!(s.kernel_call(b, SYS_WAKE, 9), KernelCall::Return(1));
    assert_eq!(s.tasks[0].state, TaskState::Ready);
    assert_eq!(s.kernel_call(b, SYS_EXIT, 3), KernelCall::Switch { value: 0, next: Some(a) });
    assert_eq!(s.tasks[1].state, TaskState::Zombie);
    assert_eq!(s.tasks[1].stats.exit_code, 3);
}

#[test]
fn linux_scheduling_calls() {
    let mut s = KernelScheduler::new();
    let ctx = KernelContext { sp: 0x4000_0000 };
    let a = s.spawn("worker", 0x4001_0000, ctx, PhysAddr(0x4010_0000));
    let b = s.spawn("other", 0x4002_0000, ctx, PhysAddr(0x4010_0000));
    assert_eq!(s.pick_next(), Some(a));
    s.tasks[0].state = TaskState::Running;
    s.current = Some(a);
    let pid = s.tasks[0].process_id.0 as u32;
    assert_eq!(s.linux_call(a, LINUX_SYS_GETPID, 0), KernelCall::Return(pid));
    assert_eq!(s.tasks[0].stats.last_syscall, LINUX_SYS_GETPID);
    assert_eq!(s.linux_call(a, LINUX_SYS_OPEN, 0), KernelCall::Other);
    assert_eq!(s.linux_call(a, LINUX_SYS_SCHED_YIELD, 0), KernelCall::Switch { value: 0, next: Some(b) });
    assert_eq!(s.linux_call(b, LINUX_SYS_EXIT_GROUP, 7), KernelCall::Switch { value: 0, next: Some(a) });
    assert_eq!(s.tasks[1].state, TaskState::Zombie);
    assert_eq!(s.tasks[1].stats.exit_code, 7);
}

#[test]
fn wait_call_reaps_or_waits() {
    let mut s = KernelScheduler::new();
    let ctx = KernelContext { sp: 0x4000_0000 };
    let a = s.spawn("worker", 0x4001_0000, ctx, PhysAddr(0x4010_0000));
    let b = s.spawn("other", 0x4002_0000, ctx, PhysAddr(0x4010_0000));
    assert_eq!(s.pick_next(), Some(a));
    s.tasks[0].state = TaskState::Running;
    s.current = Some(a);
    let parent = s.tasks[0].process_id;
    let space = || AddressSpace::kernel(PhysAddr(0x4010_0000));
    let done = s.processes.create("done", parent, space());
    s.processes.mark_zombie(done, 5);
    assert!(s.processes.mark_resources_reaped(done, space()).is_some());
    let expected = ((done.0 as u32) << 8) | 5;
    assert_eq!(s.kernel_call(a, SYS_WAIT, 0), KernelCall::Return(expected));
    assert_eq!(s.processes.state_str(done), "missing");
    assert_eq!(s.kernel_call(a, SYS_WAIT, 0), KernelCall::Return(ECHILD));
    let _alive = s.processes.create("alive", parent, space());
    assert_eq!(s.kernel_call(a, SYS_WAIT, 0), KernelCall::Switch { value: EAGAIN, next: Some(b) });
    assert_eq!(s.tasks[0].state, TaskState::Blocked);
}
