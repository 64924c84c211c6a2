use vstd::prelude::*;

use crate::kernel::address::{align_down, align_up};
use crate::kernel::loader::{le32_at, read_le32};
use crate::kernel::memory::PAGE_SIZE;

verus! {

pub const MAGIC: u32 = 0x4452_5352;
pub const HEADER_SIZE: usize = 64;

/// How the external initrd image is laid out.
#[derive(Clone, Copy, PartialEq, Eq, Structural, Debug)]
pub enum InitrdFormat {
    Absent,
    CpioNewc,
    TarUstar,
}

pub open spec fn format_name(f: InitrdFormat) -> Seq<char> {
    match f {
        InitrdFormat::Absent => "none"@,
        InitrdFormat::CpioNewc => "cpio-newc"@,
        InitrdFormat::TarUstar => "tar-ustar"@,
    }
}

impl InitrdFormat {
    pub fn as_str(self) -> (r: &'static str)
        ensures
            r@ == format_name(self),
    {
        match self {
            InitrdFormat::Absent => "none",
            InitrdFormat::CpioNewc => "cpio-newc",
            InitrdFormat::TarUstar => "tar-ustar",
        }
    }
}

/// Where the boot loader put the initrd: the header at `base`, the archive
/// of `size` bytes at `data`.
#[derive(Clone, Copy, PartialEq, Eq, Structural, Debug)]
pub struct InitrdImage {
    pub base: usize,
    pub data: usize,
    pub size: usize,
    pub format: InitrdFormat,
}

impl InitrdImage {
    pub fn none() -> (r: Self)
        ensures
            r == (InitrdImage { base: 0, data: 0, size: 0, format: InitrdFormat::Absent }),
    {
        InitrdImage { base: 0, data: 0, size: 0, format: InitrdFormat::Absent }
    }

    pub open spec fn present(self) -> bool {
        self.size != 0 && self.format != InitrdFormat::Absent
    }

    pub fn is_present(self) -> (r: bool)
        ensures
            r == self.present(),
    {
        self.size != 0 && self.format != InitrdFormat::Absent
    }
}

/// The image that the header `header`, read at `base`, describes.
pub open spec fn image_from_header(header: Seq<u8>, base: usize) -> InitrdImage {
    let format = if le32_at(header, 8) == 1 {
        InitrdFormat::CpioNewc
    } else if le32_at(header, 8) == 2 {
        InitrdFormat::TarUstar
    } else {
        InitrdFormat::Absent
    };
    let offset = le32_at(header, 12);
    let size = le32_at(header, 16);
    if le32_at(header, 0) != MAGIC || offset < HEADER_SIZE || size == 0 || base + offset > usize::MAX {
        InitrdImage { base: 0, data: 0, size: 0, format: InitrdFormat::Absent }
    } else {
        InitrdImage { base, data: (base + offset) as usize, size: size as usize, format }
    }
}

/// Reads the initrd header that the boot loader left at `base`.
pub fn detect(header: &[u8], base: usize) -> (r: InitrdImage)
    requires
        header@.len() >= HEADER_SIZE,
    ensures
        r == image_from_header(header@, base),
{
    if read_le32(header, 0) != MAGIC {
        return InitrdImage::none();
    }
    let format = match read_le32(header, 8) {
        1 => InitrdFormat::CpioNewc,
        2 => InitrdFormat::TarUstar,
        _ => InitrdFormat::Absent,
    };
    let offset = read_le32(header, 12) as usize;
    let size = read_le32(header, 16) as usize;
    if offset < HEADER_SIZE || size == 0 {
        return InitrdImage::none();
    }
    match base.checked_add(offset) {
        Some(data) => InitrdImage { base, data, size, format },
        None => InitrdImage::none(),
    }
}

/// `e` rounded up to a whole page.
pub open spec fn page_end(e: int) -> int {
    ((e + 4095) / 4096) * 4096
}

/// The whole pages that hold a present image, header included: their
/// start and length.
pub fn loaded_page_range(image: InitrdImage) -> (r: Option<(usize, usize)>)
    requires
        image.data + image.size + PAGE_SIZE <= usize::MAX,
        image.base <= image.data,
    ensures
        !image.present() ==> r is None,
        image.present() ==> (r matches Some((start, len)) && start == image.base - image.base % PAGE_SIZE
            && start + len == page_end(image.data + image.size)),
{
    if !image.is_present() {
        return None;
    }
    let start = align_down(image.base, PAGE_SIZE);
    let end = align_up(image.data + image.size, PAGE_SIZE);
    proof {
        let e = image.data + image.size;
        assert(end % PAGE_SIZE == 0 && e <= end < e + PAGE_SIZE);
        assert(end == page_end(e)) by (nonlinear_arith)
            requires
                end % 4096 == 0,
                e <= end < e + 4096,
        ;
    }
    Some((start, end - start))
}

} // verus!
