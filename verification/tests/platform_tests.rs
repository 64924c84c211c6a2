use aarch32_kernel::platform::fdt::{
    self, choose_timer_irq, compatible_contains, detect_fdt_ptr, is_valid_fdt_header, node_name_eq, parse_irq,
    parse_reg_entry, prop_u32, read_cells, scan_fdt, value_streq, BootInfo, BootSource, IrqSpec, MemRegion,
    VirtioKind,
};
use aarch32_kernel::platform::initrd::{detect, loaded_page_range, InitrdFormat, InitrdImage};

/// Builds a flattened device tree blob.
struct Blob {
    structure: Vec<u8>,
    strings: Vec<u8>,
}

impl Blob {
    fn new() -> Self {
        Blob { structure: Vec::new(), strings: Vec::new() }
    }

    fn word(&mut self, w: u32) {
        self.structure.extend_from_slice(&w.to_be_bytes());
    }

    fn pad(&mut self) {
        while self.structure.len() % 4 != 0 {
            self.structure.push(0);
        }
    }

    fn begin(&mut self, name: &str) {
        self.word(1);
        self.structure.extend_from_slice(name.as_bytes());
        self.structure.push(0);
        self.pad();
    }

    fn end(&mut self) {
        self.word(2);
    }

    fn name_offset(&mut self, name: &str) -> u32 {
        let off = self.strings.len() as u32;
        self.strings.extend_from_slice(name.as_bytes());
        self.strings.push(0);
        off
    }

    fn prop(&mut self, name: &str, value: &[u8]) {
        let off = self.name_offset(name);
        self.word(3);
        self.word(value.len() as u32);
        self.word(off);
        self.structure.extend_from_slice(value);
        self.pad();
    }

    fn prop_cells(&mut self, name: &str, cells: &[u32]) {
        let mut value = Vec::new();
        for c in cells {
            value.extend_from_slice(&c.to_be_bytes());
        }
        self.prop(name, &value);
    }

    fn finish(mut self) -> Vec<u8> {
        self.word(9);
        let off_struct = 56u32;
        let off_strings = off_struct + self.structure.len() as u32;
        let total = off_strings + self.strings.len() as u32;
        let mut out = Vec::new();
        for w in [0xd00d_feedu32, total, off_struct, off_strings, 40, 17, 16, 0, self.strings.len() as u32, self.structure.len() as u32] {
            out.extend_from_slice(&w.to_be_bytes());
        }
        out.extend_from_slice(&[0u8; 16]);
        out.extend_from_slice(&self.structure);
        out.extend_from_slice(&self.strings);
        out
    }
}

fn virt_board() -> Vec<u8> {
    let mut b = Blob::new();
    b.begin("");
    b.prop_cells("#address-cells", &[2]);
    b.prop_cells("#size-cells", &[2]);
    b.prop("compatible", b"linux,dummy-virt\0");
    b.begin("memory@40000000");
    b.prop("device_type", b"memory\0");
    b.prop_cells("reg", &[0, 0x4000_0000, 0, 0x0800_0000]);
    b.end();
    b.begin("pl011@9000000");
    b.prop("compatible", b"arm,pl011\0arm,primecell\0");
    b.prop_cells("reg", &[0, 0x0900_0000, 0, 0x1000]);
    b.prop_cells("interrupts", &[0, 1, 4]);
    b.end();
    b.begin("intc@8000000");
    b.prop("compatible", b"arm,cortex-a15-gic\0");
    b.prop_cells("#interrupt-cells", &[3]);
    b.prop_cells("reg", &[0, 0x0800_0000, 0, 0x1_0000, 0, 0x0801_0000, 0, 0x1_0000]);
    b.end();
    b.begin("timer");
    b.prop("compatible", b"arm,armv7-timer\0");
    b.prop_cells("interrupts", &[1, 13, 0xf04, 1, 14, 0xf04, 1, 11, 0xf04, 1, 10, 0xf04]);
    b.end();
    b.begin("virtio_mmio@a000000");
    b.prop("compatible", b"virtio,mmio\0");
    b.prop_cells("reg", &[0, 0x0a00_0000, 0, 0x200]);
    b.prop_cells("interrupts", &[0, 16, 1]);
    b.end();
    b.end();
    b.finish()
}

fn assert_same(a: &BootInfo, b: &BootInfo) {
    assert_eq!(a.fdt_ptr, b.fdt_ptr);
    assert_eq!(a.source, b.source);
    assert_eq!((a.ram_start, a.ram_end, a.mmio_start, a.mmio_end), (b.ram_start, b.ram_end, b.mmio_start, b.mmio_end));
    assert_eq!(a.root_compatible_len, b.root_compatible_len);
    assert_eq!(a.devices.uart0.reg, b.devices.uart0.reg);
    assert_eq!(a.devices.gic.distributor, b.devices.gic.distributor);
    assert_eq!(a.devices.timer.physical_irq, b.devices.timer.physical_irq);
    assert_eq!(a.devices.virtio_mmio_count, b.devices.virtio_mmio_count);
}

#[test]
fn fdt_parses_a_virt_board() {
    let blob = virt_board();
    let info: BootInfo = fdt::init(0x4800_0000, &blob);
    assert_eq!(info.source, BootSource::Fdt);
    assert_eq!(info.fdt_ptr, 0x4800_0000);
    assert_eq!(info.ram_start, 0x4000_0000);
    assert_eq!(info.ram_end, 0x4800_0000);
    assert_eq!(info.root_compatible_str(), "linux,dummy-virt");
    let devices = fdt::devices(&info);
    assert_eq!(devices.uart0.reg, MemRegion::new(0x0900_0000, 0x1000));
    assert_eq!(devices.uart0.irq, IrqSpec::new(33, 4));
    assert_eq!(devices.gic.distributor, MemRegion::new(0x0800_0000, 0x1_0000));
    assert_eq!(devices.gic.cpu_interface, MemRegion::new(0x0801_0000, 0x1_0000));
    assert_eq!(devices.gic.interrupt_cells, 3);
    assert_eq!(devices.timer.physical_irq, IrqSpec::new(30, 0xf04));
    assert_eq!(devices.virtio_mmio_count, 1);
    let virtio = fdt::virtio_mmio(&info, 0).unwrap();
    assert_eq!(virtio.reg, MemRegion::new(0x0a00_0000, 0x200));
    assert_eq!(virtio.irq, IrqSpec::new(48, 1));
    assert_eq!(virtio.kind, VirtioKind::Unknown);
    assert!(fdt::virtio_mmio(&info, 1).is_none());
    assert_eq!(info.mmio_start, 0x0800_0000);
    assert_eq!(info.mmio_end, 0x0a00_0200);
    assert_eq!(fdt::uart0(&info).reg.start, 0x0900_0000);
    assert_eq!(fdt::gic(&info).interrupt_cells, 3);
    assert_eq!(fdt::timer(&info).physical_irq.irq, 30);
}

#[test]
fn fdt_without_a_tree_uses_the_static_board() {
    let info = fdt::init(0, &[]);
    assert_eq!(info.source, BootSource::Static);
    assert_eq!(info.source_str(), "qemu-virt-static");
    assert_same(&info, &BootInfo::fallback_with_source(0, BootSource::Static));
}

#[test]
fn fdt_with_a_bad_tree_is_marked_invalid() {
    let mut blob = virt_board();
    blob[0] = 0;
    let info = fdt::init(0x4800_0000, &blob);
    assert_eq!(info.source, BootSource::FdtInvalid);
    assert_same(&info, &BootInfo::fallback_with_source(0x4800_0000, BootSource::FdtInvalid));
    // A tree with a token the format does not know is refused as well.
    let mut b = Blob::new();
    b.begin("");
    b.word(7);
    b.end();
    let odd = b.finish();
    let info = fdt::init(0x4800_0000, &odd);
    assert_eq!(info.source, BootSource::FdtInvalid);
    // A node closed at depth zero is refused.
    let mut b = Blob::new();
    b.end();
    let unbalanced = b.finish();
    assert_eq!(fdt::init(0x4800_0000, &unbalanced).source, BootSource::FdtInvalid);
}

#[test]
fn fdt_header_checks() {
    let blob = virt_board();
    assert!(is_valid_fdt_header(0x4800_0000, &blob[..40]));
    assert!(!is_valid_fdt_header(0, &blob[..40]));
    assert!(!is_valid_fdt_header(0x4800_0002, &blob[..40]));
    let mut bad = blob.clone();
    bad[3] = 0;
    assert!(!is_valid_fdt_header(0x4800_0000, &bad[..40]));
    // The register's address wins when its header is valid.
    assert_eq!(detect_fdt_ptr(0x4800_0000, &blob[..40], 0x1000, 0x1100, &[0u8; 0x100]), 0x4800_0000);
    // Otherwise the scan window is searched at 8-byte steps.
    let mut window = vec![0u8; 0x100];
    window[0x40..0x40 + 40].copy_from_slice(&blob[..40]);
    assert_eq!(scan_fdt(0x1000, 0x1100, &window), Some(0x1040));
    assert_eq!(detect_fdt_ptr(0, &[0u8; 40], 0x1000, 0x1100, &window), 0x1040);
    assert_eq!(detect_fdt_ptr(0, &[0u8; 40], 0x1000, 0x1100, &[0u8; 0x100]), 0);
}

#[test]
fn fdt_property_helpers() {
    assert_eq!(prop_u32(&[0, 0, 0, 2]), Some(2));
    assert_eq!(prop_u32(&[0, 0, 2]), None);
    assert_eq!(read_cells(&[0, 0, 0, 1, 0, 0, 0, 2], 0, 2), Some(0x1_0000_0002));
    assert_eq!(read_cells(&[0, 0, 0, 1], 0, 1), Some(1));
    let reg = [0u8, 0, 0, 0, 0x40, 0, 0, 0, 0, 0, 0, 0, 0x08, 0, 0, 0];
    assert_eq!(parse_reg_entry(&reg, 2, 2, 0), Some(MemRegion::new(0x4000_0000, 0x0800_0000)));
    assert_eq!(parse_reg_entry(&reg, 2, 2, 1), None);
    let irqs = [0u8, 0, 0, 0, 0, 0, 0, 5, 0, 0, 0, 4, 0, 0, 0, 1, 0, 0, 0, 14, 0, 0, 0, 8];
    assert_eq!(parse_irq(&irqs, 0, 3), Some(IrqSpec::new(37, 4)));
    assert_eq!(parse_irq(&irqs, 1, 3), Some(IrqSpec::new(30, 8)));
    assert_eq!(parse_irq(&irqs, 2, 3), None);
    assert_eq!(parse_irq(&irqs, 0, 1), Some(IrqSpec::new(0, 0)));
    // The physical timer interrupt is preferred over the first one.
    assert_eq!(choose_timer_irq(&irqs, 3), Some(IrqSpec::new(30, 8)));
    assert_eq!(choose_timer_irq(&irqs[..12], 3), Some(IrqSpec::new(37, 4)));
    assert!(compatible_contains(b"arm,pl011\0arm,primecell\0", b"arm,primecell"));
    assert!(!compatible_contains(b"arm,pl011\0", b"arm,pl01"));
    assert!(value_streq(b"memory\0", b"memory"));
    assert!(!value_streq(b"memory\0", b"mem"));
    assert!(node_name_eq(b"memory@40000000", b"memory"));
    assert!(node_name_eq(b"memory", b"memory"));
    assert!(!node_name_eq(b"memoryx", b"memory"));
}

fn initrd_header(format: u32, offset: u32, size: u32) -> Vec<u8> {
    let mut h = vec![0u8; 64];
    h[0..4].copy_from_slice(&0x4452_5352u32.to_le_bytes());
    h[8..12].copy_from_slice(&format.to_le_bytes());
    h[12..16].copy_from_slice(&offset.to_le_bytes());
    h[16..20].copy_from_slice(&size.to_le_bytes());
    h
}

#[test]
fn initrd_header_detection() {
    let image = detect(&initrd_header(1, 64, 1000), 0x4400_0000);
    assert_eq!(image, InitrdImage { base: 0x4400_0000, data: 0x4400_0040, size: 1000, format: InitrdFormat::CpioNewc });
    assert!(image.is_present());
    assert_eq!(image.format.as_str(), "cpio-newc");
    assert_eq!(loaded_page_range(image), Some((0x4400_0000, 0x1000)));
    let tar = detect(&initrd_header(2, 4096, 5000), 0x4400_0000);
    assert_eq!(tar.format, InitrdFormat::TarUstar);
    assert_eq!(loaded_page_range(tar), Some((0x4400_0000, 0x3000)));
    assert_eq!(detect(&initrd_header(1, 32, 1000), 0x4400_0000), InitrdImage::none());
    assert_eq!(detect(&initrd_header(1, 64, 0), 0x4400_0000), InitrdImage::none());
    assert_eq!(detect(&[0u8; 64], 0x4400_0000), InitrdImage::none());
    assert_eq!(loaded_page_range(InitrdImage::none()), None);
    assert_eq!(InitrdFormat::Absent.as_str(), "none");
}
