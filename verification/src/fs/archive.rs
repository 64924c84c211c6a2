use vstd::prelude::*;
use vstd::string::StringSliceAdditionalSpecFns;

use crate::fs::ramfs::{bytes_equal, trim_nul};
use crate::fs::vfs::{nul_end, FileType};
use crate::kernel::net::interface::utf8_text;
use crate::platform::initrd::{InitrdFormat, InitrdImage};

verus! {

pub const CPIO_HEADER: usize = 110;
pub const TAR_BLOCK: usize = 512;

/// One file of the initrd archive: its name (leading `/` and `./` cut),
/// type, permission bits and bytes. `index` counts every header read
/// before it, skipped ones included.
#[derive(Clone, Copy, Debug)]
pub struct ArchiveEntry<'a> {
    pub index: usize,
    pub name: &'a str,
    pub file_type: FileType,
    pub mode: u16,
    pub size: usize,
    pub data: &'a [u8],
}

impl<'a> ArchiveEntry<'a> {
    pub fn name(self) -> (r: &'a str)
        ensures
            r == self.name,
    {
        self.name
    }
}

/// The value of a hexadecimal digit.
pub open spec fn hex_digit(b: u8) -> Option<int> {
    if 0x30 <= b <= 0x39 {
        Some(b - 0x30)
    } else if 0x61 <= b <= 0x66 {
        Some(b - 0x61 + 10)
    } else if 0x41 <= b <= 0x46 {
        Some(b - 0x41 + 10)
    } else {
        None
    }
}

/// The number that the hexadecimal digits `s` spell, most significant
/// first.
pub open spec fn hex_value(s: Seq<u8>) -> Option<int>
    decreases s.len(),
{
    if s.len() == 0 {
        Some(0)
    } else {
        match (hex_value(s.drop_last()), hex_digit(s.last())) {
            (Some(v), Some(d)) => Some(v * 16 + d),
            _ => None,
        }
    }
}

/// 16 to the power `n`.
pub open spec fn p16(n: nat) -> nat
    decreases n,
{
    if n == 0 { 1 } else { 16 * p16((n - 1) as nat) }
}

/// Reads the `len` hexadecimal digits at `offset`.
pub fn parse_hex(bytes: &[u8], offset: usize, len: usize) -> (r: Option<usize>)
    requires
        offset + len <= bytes@.len(),
        len <= 8,
    ensures
        match hex_value(bytes@.subrange(offset as int, offset + len)) {
            Some(v) => r == Some(v as usize),
            None => r is None,
        },
{
    let ghost field = bytes@.subrange(offset as int, offset + len);
    let n = bytes.len();
    let mut value: usize = 0;
    let mut i: usize = 0;
    assert(field.take(0) =~= Seq::<u8>::empty());
    while i < len
        invariant
            i <= len <= 8,
            offset + len <= n,
            n == bytes@.len(),
            field == bytes@.subrange(offset as int, offset + len),
            hex_value(field.take(i as int)) == Some(value as int),
            value < p16(i as nat),
        decreases len - i,
    {
        let byte = bytes[offset + i];
        proof {
            assert(field.take(i + 1).drop_last() =~= field.take(i as int));
            assert(field.take(i + 1).last() == byte);
        }
        let digit: usize = if 0x30 <= byte && byte <= 0x39 {
            (byte - 0x30) as usize
        } else if 0x61 <= byte && byte <= 0x66 {
            (byte - 0x61 + 10) as usize
        } else if 0x41 <= byte && byte <= 0x46 {
            (byte - 0x41 + 10) as usize
        } else {
            proof {
                lemma_hex_none_extends(field, (i + 1) as int);
            }
            return None;
        };
        proof {
            lemma_p16_mono((i + 1) as nat, 8);
            assert(p16(8) == 0x1_0000_0000) by {
                reveal_with_fuel(p16, 9);
            }
            let p = p16(i as nat);
            assert(value * 16 + digit < p * 16) by (nonlinear_arith)
                requires
                    value < p,
                    digit < 16,
            ;
        }
        value = value * 16 + digit;
        i += 1;
    }
    assert(field.take(len as int) =~= field);
    Some(value)
}

pub proof fn lemma_hex_bound(s: Seq<u8>)
    ensures
        hex_value(s) matches Some(v) ==> 0 <= v < p16(s.len()),
    decreases s.len(),
{
    if s.len() > 0 {
        lemma_hex_bound(s.drop_last());
        if let Some(v) = hex_value(s.drop_last()) {
            if let Some(d) = hex_digit(s.last()) {
                let p = p16((s.len() - 1) as nat);
                assert(v * 16 + d < p * 16) by (nonlinear_arith)
                    requires
                        0 <= v < p,
                        0 <= d < 16,
                ;
            }
        }
    }
}

proof fn lemma_p16_mono(a: nat, b: nat)
    requires
        a <= b,
    ensures
        p16(a) <= p16(b),
    decreases b,
{
    if a < b {
        lemma_p16_mono(a, (b - 1) as nat);
    }
}

/// Once a prefix of `s` fails to parse, every longer prefix does too.
proof fn lemma_hex_none_extends(s: Seq<u8>, k: int)
    requires
        0 <= k <= s.len(),
        hex_value(s.take(k)) is None,
    ensures
        hex_value(s) is None,
    decreases s.len() - k,
{
    if k < s.len() {
        assert(s.take(k + 1).drop_last() =~= s.take(k));
        lemma_hex_none_extends(s, k + 1);
    } else {
        assert(s.take(k) =~= s);
    }
}

/// The number that a tar octal field spells: NULs and spaces are passed
/// over, each octal digit shifts the value by three bits (as `usize`).
pub open spec fn octal_value(s: Seq<u8>) -> Option<usize>
    decreases s.len(),
{
    if s.len() == 0 {
        Some(0)
    } else {
        match octal_value(s.drop_last()) {
            None => None,
            Some(v) => {
                let b = s.last();
                if b == 0 || b == 0x20 {
                    Some(v)
                } else if 0x30 <= b <= 0x37 {
                    Some((((v << 3usize) as int) + (b - 0x30)) as usize)
                } else {
                    None
                }
            },
        }
    }
}

proof fn lemma_octal_none_extends(s: Seq<u8>, k: int)
    requires
        0 <= k <= s.len(),
        octal_value(s.take(k)) is None,
    ensures
        octal_value(s) is None,
    decreases s.len() - k,
{
    if k < s.len() {
        assert(s.take(k + 1).drop_last() =~= s.take(k));
        lemma_octal_none_extends(s, k + 1);
    } else {
        assert(s.take(k) =~= s);
    }
}

pub fn parse_tar_octal(bytes: &[u8]) -> (r: Option<usize>)
    ensures
        r == octal_value(bytes@),
{
    let mut value: usize = 0;
    let mut i: usize = 0;
    while i < bytes.len()
        invariant
            i <= bytes@.len(),
            octal_value(bytes@.take(i as int)) == Some(value),
        decreases bytes@.len() - i,
    {
        let byte = bytes[i];
        proof {
            assert(bytes@.take(i + 1).drop_last() =~= bytes@.take(i as int));
            assert(bytes@.take(i + 1).last() == byte);
        }
        if byte == 0 || byte == 0x20 {
        } else if 0x30 <= byte && byte <= 0x37 {
            let d: usize = (byte - 0x30) as usize;
            let shifted = value << 3usize;
            assert(shifted & 7usize == 0usize) by (bit_vector)
                requires
                    shifted == value << 3usize,
            ;
            assert(shifted & 7usize == shifted % 8) by (bit_vector);
            value = shifted + d;
        } else {
            proof {
                lemma_octal_none_extends(bytes@, (i + 1) as int);
            }
            return None;
        }
        i += 1;
    }
    assert(bytes@.take(bytes@.len() as int) =~= bytes@);
    Some(value)
}

/// A header of the archive as read: the entry's name, type, permission
/// bits and size, where its bytes lie, and where the next header starts.
pub struct ParsedEntry {
    pub name: Seq<u8>,
    pub file_type: FileType,
    pub mode: u16,
    pub size: usize,
    pub data_start: int,
    pub data_end: int,
    pub next: int,
}

pub open spec fn align4_spec(v: int) -> int {
    ((v + 3) / 4) * 4
}

pub open spec fn align512_spec(v: int) -> int {
    ((v + 511) / 512) * 512
}

pub fn align4(value: usize) -> (r: usize)
    requires
        value + 3 <= usize::MAX,
    ensures
        r == align4_spec(value as int),
        value <= r <= value + 3,
{
    assert(((value + 3) / 4) * 4 <= value + 3) by (nonlinear_arith);
    assert(((value + 3) / 4) * 4 >= value) by (nonlinear_arith);
    (value + 3) / 4 * 4
}

pub fn align512(value: usize) -> (r: usize)
    requires
        value + 511 <= usize::MAX,
    ensures
        r == align512_spec(value as int),
        value <= r <= value + 511,
{
    assert(((value + 511) / 512) * 512 <= value + 511) by (nonlinear_arith);
    assert(((value + 511) / 512) * 512 >= value) by (nonlinear_arith);
    (value + 511) / 512 * 512
}

/// A name with one leading `/` and then one leading `./` cut.
pub open spec fn entry_name(p: Seq<u8>) -> Seq<u8> {
    let q = if p.len() >= 1 && p[0] == 0x2f { p.skip(1) } else { p };
    if q.len() >= 2 && q[0] == 0x2e && q[1] == 0x2f { q.skip(2) } else { q }
}

pub fn normalize_entry_name(path: &[u8]) -> (r: &[u8])
    ensures
        r@ == entry_name(path@),
{
    let q = if path.len() >= 1 && path[0] == 0x2f {
        let t = vstd::slice::slice_subrange(path, 1, path.len());
        assert(t@ =~= path@.skip(1));
        t
    } else {
        path
    };
    if q.len() >= 2 && q[0] == 0x2e && q[1] == 0x2f {
        let t = vstd::slice::slice_subrange(q, 2, q.len());
        assert(t@ =~= q@.skip(2));
        t
    } else {
        q
    }
}

pub open spec fn cpio_type(mode: int) -> FileType {
    if mode % 0o200000 - mode % 0o10000 == 0o040000 {
        FileType::Directory
    } else if mode % 0o200000 - mode % 0o10000 == 0o120000 {
        FileType::Symlink
    } else if mode % 0o200000 - mode % 0o10000 == 0o020000 || mode % 0o200000 - mode % 0o10000 == 0o060000 {
        FileType::Device
    } else {
        FileType::Regular
    }
}

pub fn cpio_file_type(mode: u32) -> (r: FileType)
    ensures
        r == cpio_type(mode as int),
{
    let t = mode & 0o170000;
    assert(mode & 0o170000 == mode % 0o200000 - mode % 0o10000) by (bit_vector);
    if t == 0o040000 {
        FileType::Directory
    } else if t == 0o120000 {
        FileType::Symlink
    } else if t == 0o020000 || t == 0o060000 {
        FileType::Device
    } else {
        FileType::Regular
    }
}

pub open spec fn tar_type(flag: u8) -> FileType {
    if flag == 0x35 {
        FileType::Directory
    } else if flag == 0x32 {
        FileType::Symlink
    } else if flag == 0x33 || flag == 0x34 || flag == 0x36 {
        FileType::Device
    } else {
        FileType::Regular
    }
}

pub fn tar_file_type(typeflag: u8) -> (r: FileType)
    ensures
        r == tar_type(typeflag),
{
    if typeflag == 0x35 {
        FileType::Directory
    } else if typeflag == 0x32 {
        FileType::Symlink
    } else if typeflag == 0x33 || typeflag == 0x34 || typeflag == 0x36 {
        FileType::Device
    } else {
        FileType::Regular
    }
}

/// The type of a cpio entry is what the file-type bits of its mode say:
/// 0o040000 a directory, 0o120000 a link, 0o020000 and 0o060000 a device,
/// anything else a regular file.
pub proof fn lemma_cpio_type_bits(mode: u32)
    ensures
        (cpio_type(mode as int) == FileType::Directory) == (mode & 0o170000 == 0o040000),
        (cpio_type(mode as int) == FileType::Symlink) == (mode & 0o170000 == 0o120000),
        (cpio_type(mode as int) == FileType::Device) == (mode & 0o170000 == 0o020000 || mode & 0o170000 == 0o060000),
{
    assert(mode & 0o170000 == mode % 0o200000 - mode % 0o10000) by (bit_vector);
}

/// The type of a tar entry is what its type flag says: `5` a directory,
/// `2` a link, `3`, `4` and `6` a device, anything else a regular file.
pub proof fn lemma_tar_type_flags(flag: u8)
    ensures
        (tar_type(flag) == FileType::Directory) == (flag == 0x35),
        (tar_type(flag) == FileType::Symlink) == (flag == 0x32),
        (tar_type(flag) == FileType::Device) == (flag == 0x33 || flag == 0x34 || flag == 0x36),
{
}

pub open spec fn cpio_magic(h: Seq<u8>) -> bool {
    h.take(6) == seq![0x30u8, 0x37, 0x30, 0x37, 0x30, 0x31] || h.take(6) == seq![0x30u8, 0x37, 0x30, 0x37, 0x30, 0x32]
}

pub open spec fn trailer() -> Seq<u8> {
    seq![0x54u8, 0x52, 0x41, 0x49, 0x4c, 0x45, 0x52, 0x21, 0x21, 0x21]
}

/// The cpio "newc" header at `off`, when it is one that starts an entry.
pub open spec fn cpio_at(b: Seq<u8>, off: int) -> Option<ParsedEntry> {
    if off < 0 || off + CPIO_HEADER > b.len() {
        None
    } else {
        let h = b.subrange(off, off + CPIO_HEADER);
        if !cpio_magic(h) {
            None
        } else {
            match (hex_value(h.subrange(14, 22)), hex_value(h.subrange(54, 62)), hex_value(h.subrange(94, 102))) {
                (Some(mode), Some(fsize), Some(nsize)) => {
                    let name_start = off + CPIO_HEADER;
                    let name_end = name_start + nsize;
                    if nsize == 0 || name_end > b.len() {
                        None
                    } else {
                        let raw = b.subrange(name_start, name_end);
                        let trimmed = raw.take(nul_end(raw));
                        let data_start = align4_spec(name_end);
                        let data_end = data_start + fsize;
                        let name = entry_name(trimmed);
                        if trimmed == trailer() || data_end > b.len() || !vstd::utf8::valid_utf8(name) {
                            None
                        } else {
                            Some(ParsedEntry {
                                name,
                                file_type: cpio_type(mode),
                                mode: (mode % 0o10000) as u16,
                                size: fsize as usize,
                                data_start,
                                data_end,
                                next: align4_spec(data_end),
                            })
                        }
                    }
                },
                _ => None,
            }
        }
    }
}

pub open spec fn all_zero(s: Seq<u8>) -> bool {
    forall|k: int| 0 <= k < s.len() ==> s[k] == 0
}

/// The tar header block at `off`, when it is one that starts an entry.
pub open spec fn tar_at(b: Seq<u8>, off: int) -> Option<ParsedEntry> {
    if off < 0 || off + TAR_BLOCK > b.len() {
        None
    } else {
        let h = b.subrange(off, off + TAR_BLOCK);
        if all_zero(h) {
            None
        } else {
            match octal_value(h.subrange(124, 136)) {
                None => None,
                Some(size) => {
                    let data_start = off + TAR_BLOCK;
                    let data_end = data_start + size;
                    let raw = h.take(100);
                    let name = entry_name(raw.take(nul_end(raw)));
                    if data_end > b.len() || !vstd::utf8::valid_utf8(name) {
                        None
                    } else {
                        Some(ParsedEntry {
                            name,
                            file_type: tar_type(h[156]),
                            mode: (match octal_value(h.subrange(100, 108)) {
                                Some(m) => m,
                                None => 0usize,
                            }) as u16,
                            size,
                            data_start,
                            data_end,
                            next: align512_spec(data_end),
                        })
                    }
                },
            }
        }
    }
}

pub open spec fn header_at(b: Seq<u8>, format: InitrdFormat, off: int) -> Option<ParsedEntry> {
    match format {
        InitrdFormat::CpioNewc => cpio_at(b, off),
        InitrdFormat::TarUstar => tar_at(b, off),
        InitrdFormat::Absent => None,
    }
}

/// Entries that name no file: empty, `.`, or a directory written with a
/// trailing `/`.
pub open spec fn skipped(name: Seq<u8>) -> bool {
    name.len() == 0 || name == seq![0x2eu8] || name.last() == 0x2f
}

pub proof fn lemma_header_advances(b: Seq<u8>, format: InitrdFormat, off: int)
    requires
        b.len() + TAR_BLOCK <= usize::MAX,
    ensures
        header_at(b, format, off) matches Some(e) ==> {
            &&& off + CPIO_HEADER <= e.next <= b.len() + TAR_BLOCK
            &&& off + CPIO_HEADER <= e.data_start <= e.data_end <= b.len()
            &&& e.data_end == e.data_start + e.size
            &&& format == InitrdFormat::TarUstar ==> e.next >= off + TAR_BLOCK
        },
{
    match header_at(b, format, off) {
        Some(e) => {
            if format == InitrdFormat::CpioNewc {
                let h = b.subrange(off, off + CPIO_HEADER);
                let nsize = hex_value(h.subrange(94, 102))->Some_0;
                lemma_hex_bound(h.subrange(94, 102));
                lemma_hex_bound(h.subrange(54, 62));
                assert(align4_spec(off + CPIO_HEADER + nsize) >= off + CPIO_HEADER + nsize) by (nonlinear_arith)
                    requires
                        off + CPIO_HEADER + nsize >= 0,
                ;
            }
            assert(e.data_end >= 0);
            assert(align4_spec(e.data_end) >= e.data_end) by (nonlinear_arith)
                requires
                    e.data_end >= 0,
            ;
            assert(align4_spec(e.data_end) <= e.data_end + 3) by (nonlinear_arith)
                requires
                    e.data_end >= 0,
            ;
            assert(align512_spec(e.data_end) >= e.data_end) by (nonlinear_arith)
                requires
                    e.data_end >= 0,
            ;
            assert(align512_spec(e.data_end) <= e.data_end + 511) by (nonlinear_arith)
                requires
                    e.data_end >= 0,
            ;
        },
        None => {},
    }
}

/// The next entry from `off` on that names a file, the index it gets, and
/// where the walk goes on from there.
pub open spec fn next_entry(b: Seq<u8>, format: InitrdFormat, off: int, idx: int) -> Option<(ParsedEntry, int, int, int)>
    decreases b.len() + TAR_BLOCK - off,
{
    if b.len() + TAR_BLOCK > usize::MAX {
        None
    } else {
        match header_at(b, format, off) {
            None => None,
            Some(e) => {
                proof {
                    lemma_header_advances(b, format, off);
                }
                if skipped(e.name) {
                    next_entry(b, format, e.next, idx + 1)
                } else {
                    Some((e, idx, e.next, idx + 1))
                }
            },
        }
    }
}

/// Every entry of the archive from `off` on, with its index.
pub open spec fn entries_from(b: Seq<u8>, format: InitrdFormat, off: int, idx: int) -> Seq<(ParsedEntry, int)>
    decreases b.len() + TAR_BLOCK - off,
{
    if b.len() + TAR_BLOCK > usize::MAX {
        Seq::empty()
    } else {
        match next_entry(b, format, off, idx) {
            None => Seq::empty(),
            Some((e, i, no, ni)) => {
                proof {
                    lemma_next_advances(b, format, off, idx);
                }
                seq![(e, i)] + entries_from(b, format, no, ni)
            },
        }
    }
}

pub proof fn lemma_next_advances(b: Seq<u8>, format: InitrdFormat, off: int, idx: int)
    requires
        b.len() + TAR_BLOCK <= usize::MAX,
    ensures
        next_entry(b, format, off, idx) matches Some((e, i, no, ni)) ==> off < no <= b.len() + TAR_BLOCK && ni == i + 1
            && idx <= i && (i - idx) * CPIO_HEADER <= e.data_start - off,
    decreases b.len() + TAR_BLOCK - off,
{
    lemma_header_advances(b, format, off);
    match header_at(b, format, off) {
        None => {},
        Some(e) => {
            if skipped(e.name) {
                lemma_next_advances(b, format, e.next, idx + 1);
            }
        },
    }
}

/// An archive walk hands out only entries that name a file: the name is not
/// empty, is not `.`, and does not end in `/`. A header whose name does is
/// handed out at once, with the index the walk had reached.
pub proof fn lemma_next_entry_names_file(b: Seq<u8>, format: InitrdFormat, off: int, idx: int)
    ensures
        next_entry(b, format, off, idx) matches Some((e, i, no, ni)) ==> {
            &&& e.name.len() > 0
            &&& e.name != seq![0x2eu8]
            &&& e.name[e.name.len() - 1] != 0x2f
        },
        b.len() + TAR_BLOCK <= usize::MAX ==> (header_at(b, format, off) matches Some(e) ==> (e.name.len() > 0
            && e.name != seq![0x2eu8] && e.name[e.name.len() - 1] != 0x2f ==> next_entry(b, format, off, idx) == Some(
            (e, idx, e.next, idx + 1),
        ))),
    decreases b.len() + TAR_BLOCK - off,
{
    if b.len() + TAR_BLOCK <= usize::MAX {
        match header_at(b, format, off) {
            None => {},
            Some(e) => {
                lemma_header_advances(b, format, off);
                if skipped(e.name) {
                    lemma_next_entry_names_file(b, format, e.next, idx + 1);
                }
            },
        }
    }
}

/// No entry of an archive is nameless, `.`, or a name ending in `/`.
pub proof fn lemma_entries_name_files(b: Seq<u8>, format: InitrdFormat, off: int, idx: int)
    ensures
        forall|k: int|
            0 <= k < entries_from(b, format, off, idx).len() ==> {
                let n = (#[trigger] entries_from(b, format, off, idx)[k]).0.name;
                &&& n.len() > 0
                &&& n != seq![0x2eu8]
                &&& n[n.len() - 1] != 0x2f
            },
    decreases b.len() + TAR_BLOCK - off,
{
    if b.len() + TAR_BLOCK <= usize::MAX {
        lemma_next_entry_names_file(b, format, off, idx);
        match next_entry(b, format, off, idx) {
            None => {},
            Some((e, i, no, ni)) => {
                lemma_next_advances(b, format, off, idx);
                lemma_entries_name_files(b, format, no, ni);
                let all = entries_from(b, format, off, idx);
                assert(all == seq![(e, i)] + entries_from(b, format, no, ni));
                assert forall|k: int| 0 <= k < all.len() implies {
                    let n = (#[trigger] all[k]).0.name;
                    &&& n.len() > 0
                    &&& n != seq![0x2eu8]
                    &&& n[n.len() - 1] != 0x2f
                } by {
                    if k > 0 {
                        assert(all[k] == entries_from(b, format, no, ni)[k - 1]);
                    }
                }
            },
        }
    }
}

/// The entries of an image name files only: none is `.`, empty, or a
/// name ending in `/`.
pub proof fn lemma_image_entries_name_files(image: InitrdImage, bytes: Seq<u8>)
    ensures
        forall|k: int|
            0 <= k < image_entries(image, bytes).len() ==> {
                let n = (#[trigger] image_entries(image, bytes)[k]).0.name;
                &&& n.len() > 0
                &&& n != seq![0x2eu8]
                &&& n[n.len() - 1] != 0x2f
            },
{
    if image.present() {
        lemma_entries_name_files(bytes, image.format, 0, 0);
    }
}

/// The entry `ex` is the parsed header `p` of the archive `b`, with index
/// `idx`.
pub open spec fn entry_is(ex: ArchiveEntry, p: ParsedEntry, idx: int, b: Seq<u8>) -> bool {
    &&& ex.index == idx
    &&& ex.name.spec_bytes() == p.name
    &&& ex.file_type == p.file_type
    &&& ex.mode == p.mode
    &&& ex.size == p.size
    &&& ex.data@ == b.subrange(p.data_start, p.data_end)
}

/// A walk over the headers of an archive.
pub struct Cursor<'a> {
    pub bytes: &'a [u8],
    pub format: InitrdFormat,
    pub offset: usize,
    pub index: usize,
}

impl<'a> Cursor<'a> {
    pub open spec fn wf(&self) -> bool {
        &&& self.bytes@.len() + TAR_BLOCK <= usize::MAX
        &&& self.offset <= self.bytes@.len() + TAR_BLOCK
        &&& self.index * CPIO_HEADER <= self.offset
    }

    pub fn new(bytes: &'a [u8], format: InitrdFormat) -> (r: Self)
        requires
            bytes@.len() + TAR_BLOCK <= usize::MAX,
        ensures
            r.wf(),
            r.bytes == bytes && r.format == format && r.offset == 0 && r.index == 0,
    {
        Cursor { bytes, format, offset: 0, index: 0 }
    }

    fn next_cpio(&mut self) -> (r: Option<(ArchiveEntry<'a>, &'a [u8])>)
        requires
            old(self).wf(),
        ensures
            final(self).bytes == old(self).bytes && final(self).format == old(self).format,
            match cpio_at(old(self).bytes@, old(self).offset as int) {
                None => r is None,
                Some(e) => r matches Some((x, nb)) && entry_is(x, e, old(self).index as int, old(self).bytes@)
                    && nb@ == e.name && final(self).offset == e.next && final(self).index == old(self).index + 1
                    && final(self).wf(),
            },
    {
        let b = self.bytes;
        let n = b.len();
        let off = self.offset;
        proof {
            lemma_header_advances(b@, InitrdFormat::CpioNewc, off as int);
        }
        if off > n || n - off < CPIO_HEADER {
            return None;
        }
        let h = vstd::slice::slice_subrange(b, off, off + CPIO_HEADER);
        let magic_ok = h[0] == 0x30 && h[1] == 0x37 && h[2] == 0x30 && h[3] == 0x37 && h[4] == 0x30 && (h[5] == 0x31 || h[5] == 0x32);
        proof {
            let m1 = seq![0x30u8, 0x37, 0x30, 0x37, 0x30, 0x31];
            let m2 = seq![0x30u8, 0x37, 0x30, 0x37, 0x30, 0x32];
            if magic_ok {
                if h[5] == 0x31 {
                    assert(h@.take(6) =~= m1);
                } else {
                    assert(h@.take(6) =~= m2);
                }
            } else {
                if h@.take(6) == m1 {
                    assert(h@.take(6)[5] == 0x31 && h@.take(6)[0] == 0x30 && h@.take(6)[1] == 0x37);
                }
                if h@.take(6) == m2 {
                    assert(h@.take(6)[5] == 0x32 && h@.take(6)[0] == 0x30 && h@.take(6)[1] == 0x37);
                }
            }
        }
        if !magic_ok {
            return None;
        }
        let mode = match parse_hex(h, 14, 8) {
            Some(v) => v,
            None => {
                return None;
            },
        };
        let file_size = match parse_hex(h, 54, 8) {
            Some(v) => v,
            None => {
                return None;
            },
        };
        let name_size = match parse_hex(h, 94, 8) {
            Some(v) => v,
            None => {
                return None;
            },
        };
        proof {
            lemma_hex_bound(h@.subrange(14, 22));
            lemma_hex_bound(h@.subrange(54, 62));
            lemma_hex_bound(h@.subrange(94, 102));
            assert(h@.subrange(14, 22) == b@.subrange(off as int, off + CPIO_HEADER).subrange(14, 22));
            assert(p16(8) == 0x1_0000_0000) by {
                reveal_with_fuel(p16, 9);
            }
        }
        let name_start = off + CPIO_HEADER;
        let name_end = match name_start.checked_add(name_size) {
            Some(e) => e,
            None => {
                return None;
            },
        };
        if name_size == 0 || name_end > n {
            return None;
        }
        let raw = vstd::slice::slice_subrange(b, name_start, name_end);
        let trimmed = trim_nul(raw);
        let trailer_bytes: [u8; 10] = [0x54, 0x52, 0x41, 0x49, 0x4c, 0x45, 0x52, 0x21, 0x21, 0x21];
        assert(trailer_bytes@ =~= trailer());
        if bytes_equal(trimmed, &trailer_bytes) {
            return None;
        }
        let data_start = align4(name_end);
        let data_end = match data_start.checked_add(file_size) {
            Some(e) => e,
            None => {
                return None;
            },
        };
        if data_end > n {
            return None;
        }
        self.offset = align4(data_end);
        let index = self.index;
        self.index = self.index + 1;
        let name_bytes = normalize_entry_name(trimmed);
        let name = match utf8_text(name_bytes) {
            Some(t) => t,
            None => {
                return None;
            },
        };
        let m = mode as u32;
        assert(m & 0o7777 == m % 0o10000) by (bit_vector);
        let entry = ArchiveEntry {
            index,
            name,
            file_type: cpio_file_type(m),
            mode: (m & 0o7777) as u16,
            size: file_size,
            data: vstd::slice::slice_subrange(b, data_start, data_end),
        };
        Some((entry, name_bytes))
    }

    fn next_tar(&mut self) -> (r: Option<(ArchiveEntry<'a>, &'a [u8])>)
        requires
            old(self).wf(),
        ensures
            final(self).bytes == old(self).bytes && final(self).format == old(self).format,
            match tar_at(old(self).bytes@, old(self).offset as int) {
                None => r is None,
                Some(e) => r matches Some((x, nb)) && entry_is(x, e, old(self).index as int, old(self).bytes@)
                    && nb@ == e.name && final(self).offset == e.next && final(self).index == old(self).index + 1
                    && final(self).wf(),
            },
    {
        let b = self.bytes;
        let n = b.len();
        let off = self.offset;
        proof {
            lemma_header_advances(b@, InitrdFormat::TarUstar, off as int);
        }
        if off > n || n - off < TAR_BLOCK {
            return None;
        }
        let h = vstd::slice::slice_subrange(b, off, off + TAR_BLOCK);
        self.offset = off + TAR_BLOCK;
        let mut k: usize = 0;
        while k < TAR_BLOCK && h[k] == 0
            invariant
                k <= TAR_BLOCK,
                h@.len() == TAR_BLOCK,
                forall|j: int| 0 <= j < k ==> h@[j] == 0,
            decreases TAR_BLOCK - k,
        {
            k += 1;
        }
        if k == TAR_BLOCK {
            return None;
        }
        let size = match parse_tar_octal(vstd::slice::slice_subrange(h, 124, 136)) {
            Some(v) => v,
            None => {
                return None;
            },
        };
        let typeflag = h[156];
        let data_start = self.offset;
        let data_end = match data_start.checked_add(size) {
            Some(e) => e,
            None => {
                return None;
            },
        };
        if data_end > n {
            return None;
        }
        self.offset = align512(data_end);
        let raw = vstd::slice::slice_subrange(h, 0, 100);
        assert(raw@ =~= h@.take(100));
        let name_bytes = normalize_entry_name(trim_nul(raw));
        let name = match utf8_text(name_bytes) {
            Some(t) => t,
            None => {
                return None;
            },
        };
        let index = self.index;
        self.index = self.index + 1;
        let mode = match parse_tar_octal(vstd::slice::slice_subrange(h, 100, 108)) {
            Some(m) => m,
            None => 0,
        };
        let entry = ArchiveEntry {
            index,
            name,
            file_type: tar_file_type(typeflag),
            mode: mode as u16,
            size,
            data: vstd::slice::slice_subrange(b, data_start, data_end),
        };
        Some((entry, name_bytes))
    }

    /// The next entry that names a file.
    #[verifier::rlimit(40)]
    pub fn next(&mut self) -> (r: Option<ArchiveEntry<'a>>)
        requires
            old(self).wf(),
        ensures
            final(self).bytes == old(self).bytes && final(self).format == old(self).format,
            match next_entry(old(self).bytes@, old(self).format, old(self).offset as int, old(self).index as int) {
                None => r is None,
                Some((e, i, no, ni)) => r matches Some(x) && entry_is(x, e, i, old(self).bytes@)
                    && final(self).offset == no && final(self).index == ni && final(self).wf(),
            },
    {
        let ghost b = self.bytes@;
        let ghost fmt = self.format;
        loop
            invariant
                self.wf(),
                self.bytes == old(self).bytes && self.format == old(self).format,
                self.bytes@ == b && self.format == fmt,
                next_entry(b, fmt, old(self).offset as int, old(self).index as int) == next_entry(b, fmt, self.offset as int, self.index as int),
            decreases b.len() + TAR_BLOCK - self.offset,
        {
            let ghost off0 = self.offset;
            let ghost idx0 = self.index;
            let ghost hdr = header_at(b, fmt, off0 as int);
            proof {
                lemma_header_advances(b, fmt, off0 as int);
            }
            let stepped = match self.format {
                InitrdFormat::CpioNewc => self.next_cpio(),
                InitrdFormat::TarUstar => self.next_tar(),
                InitrdFormat::Absent => {
                    return None;
                },
            };
            let (entry, name_bytes) = match stepped {
                Some(pair) => pair,
                None => {
                    assert(hdr is None);
                    return None;
                },
            };
            let ghost e = hdr->Some_0;
            assert(hdr is Some && name_bytes@ == e.name && self.offset == e.next && self.index == idx0 + 1);
            assert(entry_is(entry, e, idx0 as int, b));
            let skip = name_bytes.len() == 0 || (name_bytes.len() == 1 && name_bytes[0] == 0x2e) || name_bytes[name_bytes.len() - 1] == 0x2f;
            proof {
                if name_bytes@.len() == 1 && name_bytes@[0] == 0x2e {
                    assert(name_bytes@ =~= seq![0x2eu8]);
                }
                if name_bytes@ == seq![0x2eu8] {
                    assert(name_bytes@.len() == 1);
                }
                assert(skip == skipped(e.name));
            }
            if !skip {
                return Some(entry);
            }
        }
    }
}

/// Whether an initrd image was found.
pub fn is_mounted(image: InitrdImage) -> (r: bool)
    ensures
        r == image.present(),
{
    image.is_present()
}

pub fn format(image: InitrdImage) -> (r: InitrdFormat)
    ensures
        r == image.format,
{
    image.format
}

/// The entries of the image whose archive is `bytes`.
pub open spec fn image_entries(image: InitrdImage, bytes: Seq<u8>) -> Seq<(ParsedEntry, int)> {
    if !image.present() {
        Seq::empty()
    } else {
        entries_from(bytes, image.format, 0, 0)
    }
}

/// Every entry of the archive, in order.
pub fn entries<'a>(image: InitrdImage, bytes: &'a [u8]) -> (r: Vec<ArchiveEntry<'a>>)
    requires
        bytes@.len() + TAR_BLOCK <= usize::MAX,
    ensures
        r@.len() == image_entries(image, bytes@).len(),
        forall|k: int| 0 <= k < r@.len() ==> entry_is(#[trigger] r@[k], image_entries(image, bytes@)[k].0, image_entries(image, bytes@)[k].1, bytes@),
{
    let mut out: Vec<ArchiveEntry<'a>> = Vec::new();
    if !image.is_present() {
        return out;
    }
    let mut cursor = Cursor::new(bytes, image.format);
    let ghost all = entries_from(bytes@, image.format, 0, 0);
    loop
        invariant
            cursor.wf(),
            cursor.bytes == bytes && cursor.format == image.format,
            image.present(),
            all == entries_from(bytes@, image.format, 0, 0),
            out@.len() + entries_from(bytes@, image.format, cursor.offset as int, cursor.index as int).len() == all.len(),
            all.skip(out@.len() as int) == entries_from(bytes@, image.format, cursor.offset as int, cursor.index as int),
            forall|k: int| 0 <= k < out@.len() ==> entry_is(#[trigger] out@[k], all[k].0, all[k].1, bytes@),
        decreases bytes@.len() + TAR_BLOCK - cursor.offset,
    {
        let ghost before = entries_from(bytes@, image.format, cursor.offset as int, cursor.index as int);
        let ghost off0 = cursor.offset;
        let ghost idx0 = cursor.index;
        proof {
            lemma_next_advances(bytes@, image.format, off0 as int, idx0 as int);
        }
        match cursor.next() {
            Some(entry) => {
                proof {
                    let (e, i, no, ni) = next_entry(bytes@, image.format, off0 as int, idx0 as int)->Some_0;
                    assert(before == seq![(e, i)] + entries_from(bytes@, image.format, no, ni));
                    assert(all[out@.len() as int] == before[0]);
                    assert(all.skip((out@.len() + 1) as int) =~= before.skip(1));
                    assert(before.skip(1) =~= entries_from(bytes@, image.format, no, ni));
                }
                out.push(entry);
            },
            None => {
                assert(before.len() == 0);
                assert(all.skip(out@.len() as int).len() == 0);
                return out;
            },
        }
    }
}

/// The number of regular files in the archive.
pub open spec fn regular_entries(s: Seq<(ParsedEntry, int)>) -> nat
    decreases s.len(),
{
    if s.len() == 0 {
        0
    } else {
        regular_entries(s.drop_last()) + if s.last().0.file_type == FileType::Regular { 1nat } else { 0nat }
    }
}

pub fn file_count(image: InitrdImage, bytes: &[u8]) -> (r: usize)
    requires
        bytes@.len() + TAR_BLOCK <= usize::MAX,
    ensures
        r == regular_entries(image_entries(image, bytes@)),
{
    let all = entries(image, bytes);
    let ghost s = image_entries(image, bytes@);
    let mut count: usize = 0;
    let mut k: usize = 0;
    while k < all.len()
        invariant
            k <= all@.len(),
            all@.len() == s.len(),
            forall|j: int| 0 <= j < all@.len() ==> entry_is(#[trigger] all@[j], s[j].0, s[j].1, bytes@),
            count == regular_entries(s.take(k as int)),
            count <= k,
        decreases all@.len() - k,
    {
        assert(s.take(k + 1).drop_last() =~= s.take(k as int));
        assert(entry_is(all@[k as int], s[k as int].0, s[k as int].1, bytes@));
        if all[k].file_type == FileType::Regular {
            count += 1;
        }
        k += 1;
    }
    assert(s.take(s.len() as int) =~= s);
    count
}

} // verus!
