use aarch32_kernel::fs::archive::{
    self, align4, align512, cpio_file_type, normalize_entry_name, parse_hex, parse_tar_octal, tar_file_type, Cursor,
};
use aarch32_kernel::fs::ramfs::RamFs;
use aarch32_kernel::fs::vfs::FileType;
use aarch32_kernel::platform::initrd::{InitrdFormat, InitrdImage};

fn cpio_entry(out: &mut Vec<u8>, name: &str, mode: u32, data: &[u8]) {
    let fields = [1u32, mode, 0, 0, 1, 0, data.len() as u32, 0, 0, 0, 0, name.len() as u32 + 1, 0];
    out.extend_from_slice(b"070701");
    for f in fields {
        out.extend_from_slice(format!("{:08X}", f).as_bytes());
    }
    out.extend_from_slice(name.as_bytes());
    out.push(0);
    while out.len() % 4 != 0 {
        out.push(0);
    }
    out.extend_from_slice(data);
    while out.len() % 4 != 0 {
        out.push(0);
    }
}

fn cpio_archive() -> Vec<u8> {
    let mut out = Vec::new();
    cpio_entry(&mut out, "./bin", 0o040755, b"");
    cpio_entry(&mut out, "./bin/hello", 0o100755, b"hello world\n");
    cpio_entry(&mut out, "/etc/motd", 0o100644, b"hi");
    cpio_entry(&mut out, "TRAILER!!!", 0, b"");
    out
}

fn tar_header(name: &str, size: usize, typeflag: u8, mode: &str) -> Vec<u8> {
    let mut h = vec![0u8; 512];
    h[..name.len()].copy_from_slice(name.as_bytes());
    h[100..100 + mode.len()].copy_from_slice(mode.as_bytes());
    let size_text = format!("{:011o}", size);
    h[124..135].copy_from_slice(size_text.as_bytes());
    h[156] = typeflag;
    h[257..262].copy_from_slice(b"ustar");
    h
}

fn tar_archive() -> Vec<u8> {
    let mut out = Vec::new();
    out.extend(tar_header("docs/", 0, b'5', "0000755"));
    out.extend(tar_header("docs/readme", 5, b'0', "0000644"));
    let mut data = b"howdy".to_vec();
    data.resize(512, 0);
    out.extend(data);
    out.extend(vec![0u8; 1024]);
    out
}

fn image(format: InitrdFormat, size: usize) -> InitrdImage {
    InitrdImage { base: 0x4400_0000, data: 0x4400_0040, size, format }
}

#[test]
fn archive_cpio_entries_in_order() {
    let bytes = cpio_archive();
    let all = archive::entries(image(InitrdFormat::CpioNewc, bytes.len()), &bytes);
    assert_eq!(all.len(), 3);
    assert_eq!(all[0].name, "bin");
    assert_eq!(all[0].file_type, FileType::Directory);
    assert_eq!(all[0].mode, 0o755);
    assert_eq!(all[1].name(), "bin/hello");
    assert_eq!(all[1].file_type, FileType::Regular);
    assert_eq!(all[1].data, b"hello world\n");
    assert_eq!(all[1].size, 12);
    assert_eq!(all[1].index, 1);
    assert_eq!(all[2].name, "etc/motd");
    assert_eq!(all[2].data, b"hi");
    assert_eq!(archive::file_count(image(InitrdFormat::CpioNewc, bytes.len()), &bytes), 2);
}

#[test]
fn archive_cursor_stops_at_bad_magic() {
    let mut bytes = cpio_archive();
    bytes[0] = b'1';
    let mut cursor = Cursor::new(&bytes, InitrdFormat::CpioNewc);
    assert!(cursor.next().is_none());
    // An absent image has no entries at all.
    let good = cpio_archive();
    assert_eq!(archive::entries(InitrdImage::none(), &good).len(), 0);
    assert!(!archive::is_mounted(InitrdImage::none()));
    assert!(archive::is_mounted(image(InitrdFormat::CpioNewc, good.len())));
    assert_eq!(archive::format(image(InitrdFormat::TarUstar, 1)), InitrdFormat::TarUstar);
}

#[test]
fn archive_tar_entries() {
    let bytes = tar_archive();
    let all = archive::entries(image(InitrdFormat::TarUstar, bytes.len()), &bytes);
    // The directory entry, whose name ends in '/', is passed over.
    assert_eq!(all.len(), 1);
    assert_eq!(all[0].name, "docs/readme");
    assert_eq!(all[0].index, 1);
    assert_eq!(all[0].data, b"howdy");
    assert_eq!(all[0].mode, 0o644);
    assert_eq!(all[0].file_type, FileType::Regular);
    assert_eq!(archive::file_count(image(InitrdFormat::TarUstar, bytes.len()), &bytes), 1);
}

#[test]
fn archive_unpacks_into_ramfs() {
    let bytes = cpio_archive();
    let all = archive::entries(image(InitrdFormat::CpioNewc, bytes.len()), &bytes);
    let mut fs = RamFs::new();
    // Every entry counts, the directory too.
    assert_eq!(fs.unpack_archive(&all), Ok(3));
    let hello = fs.lookup(b"/bin/hello").unwrap();
    assert_eq!(fs.open(hello).unwrap().data, b"hello world\n");
    let motd = fs.lookup(b"/etc/motd").unwrap();
    assert_eq!(fs.open(motd).unwrap().data, b"hi");
    assert_eq!(fs.metadata(fs.lookup(b"/etc").unwrap()).unwrap().file_type, FileType::Directory);
}

#[test]
fn archive_number_fields() {
    assert_eq!(parse_hex(b"000001A4", 0, 8), Some(0x1a4));
    assert_eq!(parse_hex(b"xx00ff", 2, 4), Some(0xff));
    assert_eq!(parse_hex(b"0000000g", 0, 8), None);
    assert_eq!(parse_tar_octal(b"0000644\0"), Some(0o644));
    assert_eq!(parse_tar_octal(b"  17 \0"), Some(0o17));
    assert_eq!(parse_tar_octal(b"0009"), None);
    assert_eq!(align4(5), 8);
    assert_eq!(align4(8), 8);
    assert_eq!(align512(1), 512);
    assert_eq!(align512(1024), 1024);
    assert_eq!(normalize_entry_name(b"/./etc"), b"etc");
    assert_eq!(normalize_entry_name(b"./etc"), b"etc");
    assert_eq!(normalize_entry_name(b"etc"), b"etc");
    assert_eq!(cpio_file_type(0o040755), FileType::Directory);
    assert_eq!(cpio_file_type(0o120777), FileType::Symlink);
    assert_eq!(cpio_file_type(0o020666), FileType::Device);
    assert_eq!(cpio_file_type(0o060666), FileType::Device);
    assert_eq!(cpio_file_type(0o100644), FileType::Regular);
    assert_eq!(tar_file_type(b'5'), FileType::Directory);
    assert_eq!(tar_file_type(b'2'), FileType::Symlink);
    assert_eq!(tar_file_type(b'4'), FileType::Device);
    assert_eq!(tar_file_type(b'0'), FileType::Regular);
}
