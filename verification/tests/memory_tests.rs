use aarch32_kernel::arch::aarch32::mmu::UserMapping;
use aarch32_kernel::arch::aarch32::page_table::{map_kernel, user_attrs, KernelLayout, PageAttrs, PageTables};
use aarch32_kernel::kernel::elf::{interpreter_path, loaded_image, plan_object};
use aarch32_kernel::kernel::memory::{PageAllocator, PageState, MAX_ORDER, MAX_PHYS_PAGES, PAGE_SIZE};
use aarch32_kernel::kernel::process::{VM_EXEC, VM_FILE, VM_READ, VM_USER, VM_WRITE};
use aarch32_kernel::kernel::syscall::ENOEXEC;
use aarch32_kernel::platform::fdt::{BootInfo, BootSource};

const RAM: usize = 0x4000_0000;

fn allocator() -> PageAllocator {
    // The kernel image takes the first 100 pages and a bit more.
    PageAllocator::init(RAM + 100 * PAGE_SIZE + 12)
}

#[test]
fn page_allocator_starts_after_the_kernel() {
    let a = allocator();
    assert_eq!(a.heap_start(), RAM + 101 * PAGE_SIZE);
    assert_eq!(a.reserved_pages(), 101);
    assert_eq!(a.free_page_count(), MAX_PHYS_PAGES - 101);
    assert_eq!(a.allocated_pages(), 0);
    assert_eq!(a.next_free(), a.heap_start());
    assert_eq!(a.page_state(RAM), Some(PageState::Reserved));
    assert_eq!(a.page_state(RAM + 101 * PAGE_SIZE), Some(PageState::Free));
    assert_eq!(a.page_state(RAM - 1), None);
    assert_eq!(a.largest_free_order(), Some(MAX_ORDER - 2));
}

#[test]
fn page_allocator_alloc_and_free_round_trip() {
    let mut a = allocator();
    let free_before = a.free_page_count();
    let ranges_before = a.free_ranges();
    // Three pages take a block of four.
    let addr = a.alloc_pages(3).unwrap();
    assert_eq!(addr % (4 * PAGE_SIZE), 0);
    assert_eq!(a.allocated_pages(), 4);
    assert_eq!(a.free_page_count(), free_before - 4);
    for k in 0..4 {
        assert_eq!(a.page_state(addr + k * PAGE_SIZE), Some(PageState::Used));
        assert_eq!(a.page_frame(addr + k * PAGE_SIZE).unwrap().order, 2);
    }
    assert!(a.next_free() >= addr + 4 * PAGE_SIZE);
    assert!(a.can_free(addr, 3));
    a.free_pages(addr, 3);
    assert_eq!(a.allocated_pages(), 0);
    assert_eq!(a.free_page_count(), free_before);
    assert_eq!(a.page_state(addr), Some(PageState::Free));
    // The freed block joined its free buddy again: the free blocks are as
    // they were, the one of order 3 among them.
    assert_eq!(a.free_ranges(), ranges_before);
    assert_eq!(a.buddy_order_count(2), 0);
    assert_eq!(a.buddy_order_count(3), 1);
    assert_eq!(a.buddy_order_count(MAX_ORDER), 0);
    // A block that is already free cannot be freed twice.
    assert!(!a.can_free(addr, 3));
}

#[test]
fn page_allocator_refuses_what_it_cannot_give() {
    let mut a = allocator();
    assert_eq!(a.alloc_pages(0), None);
    assert_eq!(a.alloc_pages(1 << 16), None);
    assert!(a.can_free(0, 4));
    assert!(a.can_free(RAM + 200 * PAGE_SIZE, 0));
    assert!(!a.can_free(RAM + 200 * PAGE_SIZE + 1, 1));
    let counts = (a.allocated_pages(), a.free_page_count(), a.reserved_pages());
    assert_eq!(counts.0 + counts.1 + counts.2, MAX_PHYS_PAGES);
    a.free_pages(0, 4);
    assert_eq!((a.allocated_pages(), a.free_page_count(), a.reserved_pages()), counts);
}

#[test]
fn page_allocator_reserves_free_pages() {
    let mut a = allocator();
    let start = RAM + 300 * PAGE_SIZE + 10;
    assert!(a.can_reserve(start, 2 * PAGE_SIZE));
    let free_before = a.free_page_count();
    a.reserve_range(start, 2 * PAGE_SIZE);
    // Three pages are touched: 300, 301 and 302.
    assert_eq!(a.free_page_count(), free_before - 3);
    assert_eq!(a.reserved_pages(), 104);
    for k in 300..303 {
        assert_eq!(a.page_state(RAM + k * PAGE_SIZE), Some(PageState::Reserved));
    }
    assert_eq!(a.page_state(RAM + 303 * PAGE_SIZE), Some(PageState::Free));
    // Allocated pages cannot be reserved.
    let addr = a.alloc_pages(1).unwrap();
    assert!(!a.can_reserve(addr, 1));
    assert!(!a.can_reserve(RAM - PAGE_SIZE, 1));
    let counts = a.allocated_pages() + a.free_page_count() + a.reserved_pages();
    assert_eq!(counts, MAX_PHYS_PAGES);
}

#[test]
fn page_tables_map_and_translate() {
    let mut pt = PageTables::new(0x4010_0000);
    let attrs = PageAttrs::normal_rw_xn();
    assert_eq!(pt.map_range_to(0x8000_0000, 0x4000_0000, 3 * PAGE_SIZE + 1, attrs), Ok(4));
    assert_eq!(pt.used_l2_tables(), 1);
    assert_eq!(pt.l1[0x800] & 0b11, 0b01);
    let table = ((pt.l1[0x800] & 0xffff_fc00) - 0x4010_0000) as usize / 1024;
    assert_eq!(table, 0);
    assert_eq!(pt.l2[0][0], 0x4000_0000 | attrs.bits);
    assert_eq!(pt.l2[0][3], 0x4000_3000 | attrs.bits);
    assert_eq!(pt.l2[0][4], 0);
    // A second megabyte needs a second table.
    assert_eq!(pt.map_page(0x8010_0000, 0x4800_0000, attrs), Ok(()));
    assert_eq!(pt.used_l2_tables(), 2);
    assert_eq!(pt.map_range(0x0900_0000, 0x0900_0000, PageAttrs::device_rw_xn()), Ok(0));
    assert_eq!(user_attrs(UserMapping::Stack), PageAttrs::user_rw_xn());
    assert_eq!(PageAttrs::user_rx().bits & 1, 0);
    assert_eq!(PageAttrs::user_ro_xn().bits & 1, 1);
}

#[test]
fn page_tables_map_the_kernel() {
    let mut pt = PageTables::new(0x4010_0000);
    let mut boot = BootInfo::fallback_with_source(0, BootSource::Static);
    boot.ram_start = 0x4000_0000;
    boot.ram_end = 0x4040_0000;
    boot.mmio_start = 0x0900_0000;
    boot.mmio_end = 0x0900_1000;
    let layout = KernelLayout {
        kernel_start: 0x4000_0000,
        kernel_end: 0x4002_0000,
        text_start: 0x4000_0000,
        text_end: 0x4000_8000,
        rodata_start: 0x4000_8000,
        rodata_end: 0x4000_a000,
        user_text_start: 0x4000_a000,
        user_text_end: 0x4000_b000,
        user_rodata_start: 0x4000_b000,
        user_rodata_end: 0x4000_c000,
        data_start: 0x4000_c000,
        data_end: 0x4000_d000,
        bss_start: 0x4000_d000,
        bss_end: 0x4002_0000,
    };
    let mapping = map_kernel(&mut pt, &boot, &layout).unwrap();
    assert_eq!(mapping.ram_pages, 1024);
    assert_eq!(mapping.device_pages, 1);
    assert_eq!(mapping.high_linear_pages, 1024);
    assert_eq!(mapping.high_device_pages, 1);
    assert_eq!(mapping.kernel_text_pages, 8);
    assert_eq!(mapping.kernel_rodata_pages, 2);
    assert_eq!(mapping.user_text_pages, 1);
    assert_eq!(mapping.user_rodata_pages, 1);
    assert_eq!(mapping.kernel_data_pages, 1 + 19);
    // RAM takes four tables, its high alias four more, the devices two.
    assert_eq!(pt.used_l2_tables(), 10);
}

/// A small 32-bit ARM executable with one loadable segment and an
/// interpreter request.
fn elf(ty: u16, with_interp: bool) -> Vec<u8> {
    let mut e = vec![0u8; 0x200];
    e[0..4].copy_from_slice(b"\x7fELF");
    e[4] = 1;
    e[5] = 1;
    e[16..18].copy_from_slice(&ty.to_le_bytes());
    e[18..20].copy_from_slice(&40u16.to_le_bytes());
    e[24..28].copy_from_slice(&0x0001_0010u32.to_le_bytes());
    e[28..32].copy_from_slice(&52u32.to_le_bytes());
    e[42..44].copy_from_slice(&32u16.to_le_bytes());
    let phnum: u16 = if with_interp { 3 } else { 2 };
    e[44..46].copy_from_slice(&phnum.to_le_bytes());
    let mut ph = |i: usize, fields: [u32; 8]| {
        for (k, f) in fields.iter().enumerate() {
            let at = 52 + i * 32 + k * 4;
            e[at..at + 4].copy_from_slice(&f.to_le_bytes());
        }
    };
    // PT_LOAD text: file 0x100..0x140 at 0x10100, 0x80 bytes in memory, R X.
    ph(0, [1, 0x100, 0x0001_0100, 0, 0x40, 0x80, 5, 0x1000]);
    // PT_LOAD data: 0x10 file bytes, 0x2000 in memory at 0x20ff0, R W.
    ph(1, [1, 0x140, 0x0002_0ff0, 0, 0x10, 0x2000, 6, 0x1000]);
    if with_interp {
        ph(2, [3, 0x180, 0, 0, 16, 16, 4, 1]);
        e[0x180..0x180 + 15].copy_from_slice(b"/lib/ld-lite.so");
    }
    e
}

#[test]
fn elf_plan_places_segments() {
    let image = elf(2, false);
    let plan = plan_object(&image, 0x1000_0000).unwrap();
    assert_eq!(plan.load_base, 0);
    assert_eq!(plan.entry, 0x0001_0010);
    assert_eq!(plan.segments.len(), 2);
    let text = plan.segments[0];
    assert_eq!((text.virt_start, text.virt_end, text.pages), (0x10000, 0x11000, 1));
    assert_eq!((text.file_start, text.file_len, text.copy_offset), (0x100, 0x40, 0x100));
    assert_eq!(text.mapping, UserMapping::Rx);
    assert_eq!(text.vma_flags, VM_READ | VM_USER | VM_FILE | VM_EXEC);
    let data = plan.segments[1];
    assert_eq!((data.virt_start, data.virt_end, data.pages), (0x20000, 0x23000, 3));
    assert_eq!(data.copy_offset, 0xff0);
    assert_eq!(data.mapping, UserMapping::RwData);
    assert_eq!(data.vma_flags, VM_READ | VM_USER | VM_FILE | VM_WRITE);
    assert_eq!((plan.user_start, plan.user_end), (0x10000, 0x23000));
    // No PT_PHDR: the header table's file offset stands in.
    assert_eq!(plan.phdr, 52);
    assert_eq!((plan.phnum, plan.phent), (2, 32));
    assert_eq!(interpreter_path(&plan), Ok(None));
    let loaded = loaded_image("init", &plan, None);
    assert_eq!(loaded.brk_start.0, 0x23000);
    assert_eq!(loaded.entry.0, 0x0001_0010);
}

#[test]
fn elf_plan_moves_position_independent_objects() {
    let image = elf(3, true);
    let plan = plan_object(&image, 0x1000_0000).unwrap();
    // The lowest segment page (0x10000) lands on 0x10000000.
    assert_eq!(plan.load_base, 0x1000_0000 - 0x10000);
    assert_eq!(plan.entry, 0x1000_0010);
    assert_eq!(plan.segments[0].virt_start, 0x1000_0000);
    assert_eq!(interpreter_path(&plan), Ok(Some("/lib/ld-lite.so")));
    let exe = plan_object(&elf(2, false), 0x10_0000).unwrap();
    let loaded = loaded_image("prog", &exe, Some(&plan));
    assert_eq!(loaded.entry.0, plan.entry);
    assert_eq!(loaded.executable_entry.0, exe.entry);
    assert_eq!(loaded.interpreter_base.0, plan.load_base);
    assert_eq!(loaded.user_start.0, 0x10000);
    assert_eq!(loaded.user_end.0, plan.user_end);
}

#[test]
fn elf_plan_refuses_bad_files() {
    let mut bad = elf(2, false);
    bad[0] = 0;
    assert_eq!(plan_object(&bad, 0x10_0000).err(), Some(ENOEXEC));
    assert_eq!(plan_object(&elf(1, false), 0x10_0000).err(), Some(ENOEXEC));
    // File bytes past the end of the file.
    let mut cut = elf(2, false);
    cut[52 + 32 + 16..52 + 32 + 20].copy_from_slice(&0x1000u32.to_le_bytes());
    assert_eq!(plan_object(&cut, 0x10_0000).err(), Some(ENOEXEC));
    // More file bytes than memory bytes.
    let mut big = elf(2, false);
    big[52 + 16..52 + 20].copy_from_slice(&0x100u32.to_le_bytes());
    assert_eq!(plan_object(&big, 0x10_0000).err(), Some(ENOEXEC));
    // No loadable segment at all.
    let mut empty = elf(2, false);
    empty[52..56].copy_from_slice(&0u32.to_le_bytes());
    empty[84..88].copy_from_slice(&0u32.to_le_bytes());
    assert_eq!(plan_object(&empty, 0x10_0000).err(), Some(ENOEXEC));
}

#[test]
fn page_allocator_free_after_alloc_restores_every_order() {
    let mut a = allocator();
    let counts: Vec<usize> = (0..MAX_ORDER).map(|o| a.buddy_order_count(o)).collect();
    let addr = a.alloc_pages(1).unwrap();
    a.free_pages(addr, 1);
    for o in 0..MAX_ORDER {
        assert_eq!(a.buddy_order_count(o), counts[o]);
    }
    assert_eq!(a.allocated_pages(), 0);
}
