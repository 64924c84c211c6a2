use vstd::prelude::*;

use crate::kernel::address::{lemma_page_mask, PageFrameNumber, PhysAddr};
use crate::platform::qemu_virt::{RAM_END, RAM_START};

verus! {

pub const PAGE_SIZE: usize = 4096;
pub const PHYS_MEMORY_START: usize = RAM_START;
pub const PHYS_MEMORY_END: usize = RAM_END;
pub const MAX_PHYS_PAGES: usize = 32768;
pub const MAX_ORDER: usize = 16;

#[derive(Clone, Copy, PartialEq, Eq, Structural, Debug)]
pub enum PageState {
    Reserved,
    Free,
    Used,
}

impl PageState {
    pub fn as_str(self) -> (r: &'static str)
        ensures
            r@ == match self {
                PageState::Reserved => "reserved"@,
                PageState::Free => "free"@,
                PageState::Used => "used"@,
            },
    {
        match self {
            PageState::Reserved => "reserved",
            PageState::Free => "free",
            PageState::Used => "used",
        }
    }
}

/// What the allocator knows of one physical page.
#[derive(Clone, Copy, PartialEq, Eq, Structural, Debug)]
pub struct PageFrame {
    pub state: PageState,
    pub order: u8,
    pub ref_count: u16,
    pub flags: u16,
}

impl PageFrame {
    pub fn reserved() -> (r: Self)
        ensures
            r == (PageFrame { state: PageState::Reserved, order: 0, ref_count: 0, flags: 0 }),
    {
        PageFrame { state: PageState::Reserved, order: 0, ref_count: 0, flags: 0 }
    }
}

pub fn total_pages() -> (r: usize)
    ensures
        r == MAX_PHYS_PAGES,
{
    MAX_PHYS_PAGES
}

/// The frame number of `addr` within RAM.
pub open spec fn pfn_of(addr: int) -> Option<int> {
    if PHYS_MEMORY_START <= addr < PHYS_MEMORY_END {
        Some((addr - PHYS_MEMORY_START) / (PAGE_SIZE as int))
    } else {
        None
    }
}

pub fn addr_to_pfn(addr: usize) -> (r: Option<usize>)
    ensures
        match r {
            Some(p) => pfn_of(addr as int) == Some(p as int) && p < MAX_PHYS_PAGES,
            None => pfn_of(addr as int) == None::<int>,
        },
{
    if addr < PHYS_MEMORY_START || addr >= PHYS_MEMORY_END {
        return None;
    }
    Some((addr - PHYS_MEMORY_START) / PAGE_SIZE)
}

pub fn pfn_to_addr(pfn: usize) -> (r: usize)
    requires
        pfn <= MAX_PHYS_PAGES,
    ensures
        r == PHYS_MEMORY_START + pfn * PAGE_SIZE,
{
    PHYS_MEMORY_START + pfn * PAGE_SIZE
}

/// Whether `pages` pages from `start` lie within RAM.
pub fn range_in_ram(start: usize, pages: usize) -> (r: bool)
    ensures
        r == (PHYS_MEMORY_START <= start && start + pages * PAGE_SIZE <= PHYS_MEMORY_END),
{
    let bytes = match pages.checked_mul(PAGE_SIZE) {
        Some(b) => b,
        None => {
            return false;
        },
    };
    let end = match start.checked_add(bytes) {
        Some(e) => e,
        None => {
            return false;
        },
    };
    start >= PHYS_MEMORY_START && end <= PHYS_MEMORY_END
}

pub fn phys_to_pfn(addr: PhysAddr) -> (r: Option<PageFrameNumber>)
    ensures
        match r {
            Some(p) => pfn_of(addr.0 as int) == Some(p.0 as int),
            None => pfn_of(addr.0 as int) == None::<int>,
        },
{
    match addr_to_pfn(addr.as_usize()) {
        Some(pfn) => Some(PageFrameNumber::new(pfn)),
        None => None,
    }
}

/// Rounds `value` up to a multiple of `align`, a power of two.
pub fn align_up(value: usize, align: usize) -> (r: usize)
    requires
        align > 0,
        value + align - 1 <= usize::MAX,
    ensures
        r == ((value + align - 1) as usize) & !((align - 1) as usize),
        align == PAGE_SIZE ==> r % PAGE_SIZE == 0 && value <= r < value + PAGE_SIZE,
{
    let sum = value + (align - 1);
    proof {
        lemma_page_mask(sum);
    }
    sum & !(align - 1)
}

/// `2` to the power `n`.
pub open spec fn pow2(n: nat) -> nat
    decreases n,
{
    if n == 0 {
        1
    } else {
        2 * pow2((n - 1) as nat)
    }
}

proof fn lemma_pow2_mono(a: nat, b: nat)
    requires
        a <= b,
    ensures
        pow2(a) <= pow2(b),
    decreases b,
{
    if a < b {
        lemma_pow2_mono(a, (b - 1) as nat);
    }
}

/// The order of the smallest buddy block of at least `pages` pages, if one
/// below `MAX_ORDER` is large enough.
pub fn order_for_pages(pages: usize) -> (r: Option<usize>)
    ensures
        match r {
            Some(o) => o < MAX_ORDER && pages <= pow2(o as nat) && (o == 0 || pow2((o - 1) as nat) < pages),
            None => forall|o: nat| o < MAX_ORDER ==> pow2(o) < pages,
        },
{
    let mut order: usize = 0;
    let mut block_pages: usize = 1;
    while block_pages < pages
        invariant
            order < MAX_ORDER,
            block_pages == pow2(order as nat),
            order == 0 || pow2((order - 1) as nat) < pages,
        decreases MAX_ORDER - order,
    {
        if order + 1 >= MAX_ORDER {
            proof {
                assert forall|o: nat| o < MAX_ORDER implies pow2(o) < pages by {
                    lemma_pow2_mono(o, order as nat);
                }
            }
            return None;
        }
        proof {
            reveal_with_fuel(pow2, 2);
            lemma_pow2_mono(order as nat, 14);
            assert(pow2(14) == 16384) by {
                reveal_with_fuel(pow2, 15);
            }
        }
        order = order + 1;
        block_pages = block_pages * 2;
    }
    Some(order)
}

/// A page of a free block of order `o`.
pub open spec fn free_frame(o: int) -> PageFrame {
    PageFrame { state: PageState::Free, order: o as u8, ref_count: 0, flags: 0 }
}

/// A page of an allocated block of order `o`.
pub open spec fn used_frame(o: int) -> PageFrame {
    PageFrame { state: PageState::Used, order: o as u8, ref_count: 1, flags: 0 }
}

/// How many of the first `n` frames of `s` are in state `st`.
pub open spec fn count_state(s: Seq<PageFrame>, st: PageState, n: int) -> int
    decreases n,
{
    if n <= 0 {
        0
    } else {
        count_state(s, st, n - 1) + if s[n - 1].state == st { 1int } else { 0int }
    }
}

pub proof fn lemma_count_bounds(s: Seq<PageFrame>, st: PageState, n: int)
    requires
        0 <= n,
    ensures
        0 <= count_state(s, st, n) <= n,
    decreases n,
{
    if n > 0 {
        lemma_count_bounds(s, st, n - 1);
    }
}

/// Every frame is in exactly one state.
pub proof fn lemma_count_total(s: Seq<PageFrame>, n: int)
    requires
        0 <= n,
    ensures
        count_state(s, PageState::Free, n) + count_state(s, PageState::Used, n) + count_state(s, PageState::Reserved, n) == n,
    decreases n,
{
    if n > 0 {
        lemma_count_total(s, n - 1);
    }
}

proof fn lemma_count_update(s: Seq<PageFrame>, st: PageState, n: int, i: int, f: PageFrame)
    requires
        0 <= i < s.len(),
        0 <= n <= s.len(),
    ensures
        count_state(s.update(i, f), st, n) == count_state(s, st, n) + if i < n {
            (if f.state == st { 1int } else { 0int }) - (if s[i].state == st { 1int } else { 0int })
        } else {
            0int
        },
    decreases n,
{
    if n > 0 {
        lemma_count_update(s, st, n - 1, i, f);
    }
}

/// The frames of `s` with the `len` from `start` set to `f`.
pub open spec fn marked(s: Seq<PageFrame>, start: int, len: int, f: PageFrame) -> Seq<PageFrame> {
    Seq::new(s.len(), |q: int| if start <= q < start + len { f } else { s[q] })
}

/// The physical page allocator: what each page frame holds, and the free
/// blocks of each order, most recently freed last.
pub struct PageAllocator {
    pub frames: Vec<PageFrame>,
    pub free_areas: Vec<Vec<usize>>,
    pub heap_start: usize,
    pub high_water: usize,
    pub allocated: usize,
    pub free: usize,
    pub reserved: usize,
}

impl PageAllocator {
    /// The block of order `o` at `p` is in RAM, aligned to its size, and
    /// every page of it is a free page of that order.
    pub open spec fn block_ok(&self, o: int, p: int) -> bool {
        &&& 0 <= p
        &&& p % (pow2(o as nat) as int) == 0
        &&& p + pow2(o as nat) <= MAX_PHYS_PAGES
        &&& forall|q: int| p <= q < p + pow2(o as nat) ==> #[trigger] self.frames@[q] == free_frame(o)
    }

    pub open spec fn lists_ok(&self) -> bool {
        &&& forall|o: int, k: int|
            0 <= o < MAX_ORDER && 0 <= k < self.free_areas@[o]@.len() ==> self.block_ok(
                o,
                #[trigger] self.free_areas@[o]@[k] as int,
            )
        &&& forall|o: int| 0 <= o < MAX_ORDER ==> (#[trigger] self.free_areas@[o])@.no_duplicates()
    }

    /// The page counts agree with the frames.
    pub open spec fn counts_ok(&self) -> bool {
        &&& self.free == count_state(self.frames@, PageState::Free, MAX_PHYS_PAGES as int)
        &&& self.allocated == count_state(self.frames@, PageState::Used, MAX_PHYS_PAGES as int)
        &&& self.reserved == count_state(self.frames@, PageState::Reserved, MAX_PHYS_PAGES as int)
    }

    pub open spec fn shape_ok(&self) -> bool {
        &&& self.frames@.len() == MAX_PHYS_PAGES
        &&& self.free_areas@.len() == MAX_ORDER
        &&& self.lists_ok()
    }

    pub open spec fn wf(&self) -> bool {
        &&& self.shape_ok()
        &&& self.counts_ok()
    }
}

/// Sets the `len` frames from `start` to `f`; each of them was in state
/// `from`.
fn mark_pages(frames: &mut Vec<PageFrame>, start: usize, len: usize, f: PageFrame, from: PageState)
    requires
        old(frames)@.len() == MAX_PHYS_PAGES,
        start + len <= MAX_PHYS_PAGES,
        forall|q: int| start <= q < start + len ==> (#[trigger] old(frames)@[q]).state == from,
    ensures
        final(frames)@ == marked(old(frames)@, start as int, len as int, f),
        forall|st: PageState| #[trigger] count_state(final(frames)@, st, MAX_PHYS_PAGES as int) == count_state(
            old(frames)@,
            st,
            MAX_PHYS_PAGES as int,
        ) + (if f.state == st { len as int } else { 0int }) - (if from == st { len as int } else { 0int }),
{
    let ghost orig = frames@;
    let mut i: usize = 0;
    while i < len
        invariant
            i <= len,
            start + len <= MAX_PHYS_PAGES,
            frames@.len() == MAX_PHYS_PAGES,
            forall|q: int| start <= q < start + len ==> (#[trigger] orig[q]).state == from,
            frames@ == marked(orig, start as int, i as int, f),
            forall|st: PageState| #[trigger] count_state(frames@, st, MAX_PHYS_PAGES as int) == count_state(
                orig,
                st,
                MAX_PHYS_PAGES as int,
            ) + (if f.state == st { i as int } else { 0int }) - (if from == st { i as int } else { 0int }),
        decreases len - i,
    {
        let ghost before = frames@;
        proof {
            assert forall|st: PageState| #[trigger] count_state(before.update((start + i) as int, f), st, MAX_PHYS_PAGES as int)
                == count_state(before, st, MAX_PHYS_PAGES as int) + (if f.state == st { 1int } else { 0int }) - (if from == st { 1int } else { 0int }) by {
                lemma_count_update(before, st, MAX_PHYS_PAGES as int, (start + i) as int, f);
            }
        }
        frames.set(start + i, f);
        assert(frames@ =~= marked(orig, start as int, i + 1, f));
        i += 1;
    }
}

pub proof fn lemma_pow2_pos(n: nat)
    ensures
        pow2(n) >= 1,
    decreases n,
{
    if n > 0 {
        lemma_pow2_pos((n - 1) as nat);
    }
}

proof fn lemma_pow2_small(n: nat)
    requires
        n < MAX_ORDER,
    ensures
        pow2(n) <= MAX_PHYS_PAGES,
{
    lemma_pow2_mono(n, 15);
    assert(pow2(15) == 32768) by {
        reveal_with_fuel(pow2, 16);
    }
}

/// The size in pages of a block of order `order`.
fn block_pages(order: usize) -> (r: usize)
    requires
        order < MAX_ORDER,
    ensures
        r == pow2(order as nat),
        1 <= r <= MAX_PHYS_PAGES,
{
    proof {
        lemma_pow2_small(order as nat);
        lemma_pow2_pos(order as nat);
    }
    let mut r: usize = 1;
    let mut i: usize = 0;
    while i < order
        invariant
            i <= order < MAX_ORDER,
            r == pow2(i as nat),
        decreases order - i,
    {
        proof {
            lemma_pow2_small((i + 1) as nat);
        }
        r = r * 2;
        i += 1;
    }
    r
}

/// The start of the block of order `o` that holds page `q`.
pub open spec fn head_of(q: int, o: int) -> int {
    q - q % (pow2(o as nat) as int)
}

proof fn lemma_head(p: int, q: int, o: int)
    requires
        0 <= o,
        0 <= p,
        p % (pow2(o as nat) as int) == 0,
        p <= q < p + pow2(o as nat),
    ensures
        head_of(q, o) == p,
{
    lemma_pow2_pos(o as nat);
    let b = pow2(o as nat) as int;
    assert(q - q % b == p) by (nonlinear_arith)
        requires
            b >= 1,
            p % b == 0,
            p <= q < p + b,
            0 <= p,
    ;
}

impl PageAllocator {
    /// Some listed free block holds page `q`.
    pub open spec fn covered(&self, q: int) -> bool {
        exists|o: int, k: int|
            0 <= o < MAX_ORDER && 0 <= k < self.free_areas@[o]@.len() && #[trigger] self.free_areas@[o]@[k] <= q < self.free_areas@[o]@[k] + pow2(o as nat)
    }

    /// A listed block that holds `q` is the block of `q`'s order that
    /// starts at `q`'s block head.
    proof fn lemma_covered(&self, q: int)
        requires
            self.wf(),
            self.covered(q),
        ensures
            self.frames@[q].state == PageState::Free,
            self.free_areas@[self.frames@[q].order as int]@.contains(head_of(q, self.frames@[q].order as int) as usize),
            self.frames@[q].order < MAX_ORDER,
    {
        let (o, k) = choose|o: int, k: int|
            0 <= o < MAX_ORDER && 0 <= k < self.free_areas@[o]@.len() && #[trigger] self.free_areas@[o]@[k] <= q < self.free_areas@[o]@[k] + pow2(o as nat);
        let p = self.free_areas@[o]@[k] as int;
        assert(self.block_ok(o, p));
        assert(self.frames@[q] == free_frame(o));
        lemma_head(p, q, o);
        assert(self.frames@[q].order as int == o);
    }
}

/// Takes `value` out of `list`, where it occurs at most once; whether it
/// was there.
fn remove_entry(list: &mut Vec<usize>, value: usize) -> (r: bool)
    requires
        old(list)@.no_duplicates(),
    ensures
        r == old(list)@.contains(value),
        !r ==> final(list)@ == old(list)@,
        final(list)@.no_duplicates(),
        !final(list)@.contains(value),
        forall|x: usize| x != value ==> (final(list)@.contains(x) <==> old(list)@.contains(x)),
        final(list)@.to_set() =~= old(list)@.to_set().remove(value),
{
    let mut i: usize = 0;
    while i < list.len()
        invariant
            i <= list@.len(),
            list@ == old(list)@,
            old(list)@.no_duplicates(),
            forall|j: int| 0 <= j < i ==> list@[j] != value,
        decreases list@.len() - i,
    {
        if list[i] == value {
            let ghost before = list@;
            list.remove(i);
            proof {
                assert(list@ =~= before.remove(i as int));
                assert forall|a: int, b: int| 0 <= a < b < list@.len() implies list@[a] != list@[b] by {
                    let a2 = if a < i { a } else { a + 1 };
                    let b2 = if b < i { b } else { b + 1 };
                    assert(list@[a] == before[a2] && list@[b] == before[b2]);
                }
                assert forall|x: usize| x != value implies (list@.contains(x) <==> before.contains(x)) by {
                    if before.contains(x) {
                        let j = choose|j: int| 0 <= j < before.len() && before[j] == x;
                        assert(j != i);
                        if j < i {
                            assert(list@[j] == x);
                        } else {
                            assert(list@[j - 1] == x);
                        }
                    }
                    if list@.contains(x) {
                        let j = choose|j: int| 0 <= j < list@.len() && list@[j] == x;
                        if j < i {
                            assert(before[j] == x);
                        } else {
                            assert(before[j + 1] == x);
                        }
                    }
                }
                assert(!list@.contains(value)) by {
                    if list@.contains(value) {
                        let j = choose|j: int| 0 <= j < list@.len() && list@[j] == value;
                        if j < i {
                            assert(before[j] == value);
                        } else {
                            assert(before[j + 1] == value);
                            assert(before[i as int] == value);
                        }
                    }
                }
                assert(before.contains(value)) by {
                    assert(before[i as int] == value);
                }
            }
            return true;
        }
        i += 1;
    }
    false
}

impl PageAllocator {
    /// Lists the block of order `order` at `pfn`, its pages marked free
    /// pages of that order; they were pages in state `from` that no listed
    /// block held.
    fn insert_block(&mut self, pfn: usize, order: usize, from: PageState)
        requires
            old(self).shape_ok(),
            order < MAX_ORDER,
            (pfn as int) % (pow2(order as nat) as int) == 0,
            pfn + pow2(order as nat) <= MAX_PHYS_PAGES,
            forall|q: int| pfn <= q < pfn + pow2(order as nat) ==> (#[trigger] old(self).frames@[q]).state == from && !old(self).covered(q),
        ensures
            final(self).shape_ok(),
            final(self).frames@ == marked(old(self).frames@, pfn as int, pow2(order as nat) as int, free_frame(order as int)),
            final(self).free_areas@[order as int]@ == old(self).free_areas@[order as int]@.push(pfn),
            forall|o: int| 0 <= o < MAX_ORDER && o != order ==> #[trigger] final(self).free_areas@[o] == old(self).free_areas@[o],
            forall|st: PageState| #[trigger] count_state(final(self).frames@, st, MAX_PHYS_PAGES as int) == count_state(
                old(self).frames@,
                st,
                MAX_PHYS_PAGES as int,
            ) + (if st == PageState::Free { pow2(order as nat) as int } else { 0int }) - (if from == st { pow2(order as nat) as int } else { 0int }),
            final(self).heap_start == old(self).heap_start && final(self).high_water == old(self).high_water,
            final(self).allocated == old(self).allocated && final(self).free == old(self).free && final(self).reserved == old(self).reserved,
    {
        let n = block_pages(order);
        let ghost before = *self;
        let f = PageFrame { state: PageState::Free, order: order as u8, ref_count: 0, flags: 0 };
        mark_pages(&mut self.frames, pfn, n, f, from);
        proof {
            assert(!before.free_areas@[order as int]@.contains(pfn)) by {
                if before.free_areas@[order as int]@.contains(pfn) {
                    let k = choose|k: int| 0 <= k < before.free_areas@[order as int]@.len() && before.free_areas@[order as int]@[k] == pfn;
                    lemma_pow2_pos(order as nat);
                    assert(before.frames@[pfn as int].state == from);
                    assert(before.covered(pfn as int));
                }
            }
        }
        self.free_areas[order].push(pfn);
        proof {
            let fa = self.free_areas@;
            assert forall|o: int, k: int| 0 <= o < MAX_ORDER && 0 <= k < fa[o]@.len() implies self.block_ok(o, #[trigger] fa[o]@[k] as int) by {
                if o == order && k == fa[o]@.len() - 1 {
                    assert(fa[o]@[k] == pfn);
                } else {
                    assert(fa[o]@[k] == before.free_areas@[o]@[k]);
                    let p = fa[o]@[k] as int;
                    assert(before.block_ok(o, p));
                    assert forall|q: int| p <= q < p + pow2(o as nat) implies #[trigger] self.frames@[q] == free_frame(o) by {
                        assert(before.covered(q));
                        assert(before.frames@[q] == free_frame(o));
                    }
                }
            }
            assert forall|o: int| 0 <= o < MAX_ORDER implies (#[trigger] self.free_areas@[o])@.no_duplicates() by {
                if o == order {
                    assert(before.free_areas@[o]@.no_duplicates());
                    let l = self.free_areas@[o]@;
                    assert forall|a: int, b: int| 0 <= a < l.len() && 0 <= b < l.len() && a != b implies l[a] != l[b] by {
                        if a == l.len() - 1 {
                            assert(before.free_areas@[o]@[b] == l[b]);
                        } else if b == l.len() - 1 {
                            assert(before.free_areas@[o]@[a] == l[a]);
                        } else {
                            assert(before.free_areas@[o]@[a] == l[a] && before.free_areas@[o]@[b] == l[b]);
                        }
                    }
                }
            }
        }
    }
}

impl PageAllocator {
    /// After the listed block of order `order` at `pfn` is taken off its
    /// list (the rest staying), no listed block holds any of its pages.
    proof fn lemma_unlisted(&self, old_self: &PageAllocator, pfn: int, order: int)
        requires
            old_self.shape_ok(),
            self.shape_ok(),
            0 <= order < MAX_ORDER,
            old_self.block_ok(order, pfn),
            self.frames@ == old_self.frames@,
            !self.free_areas@[order]@.contains(pfn as usize),
            forall|o: int, x: usize| 0 <= o < MAX_ORDER && #[trigger] self.free_areas@[o]@.contains(x) ==> old_self.free_areas@[o]@.contains(x),
        ensures
            forall|q: int| pfn <= q < pfn + pow2(order as nat) ==> !(#[trigger] self.covered(q)),
    {
        assert forall|q: int| pfn <= q < pfn + pow2(order as nat) implies !(#[trigger] self.covered(q)) by {
            if self.covered(q) {
                let (o, k) = choose|o: int, k: int|
                    0 <= o < MAX_ORDER && 0 <= k < self.free_areas@[o]@.len() && #[trigger] self.free_areas@[o]@[k] <= q < self.free_areas@[o]@[k] + pow2(o as nat);
                let p = self.free_areas@[o]@[k];
                assert(self.free_areas@[o]@.contains(p));
                assert(self.block_ok(o, p as int));
                assert(self.frames@[q] == free_frame(o));
                assert(old_self.frames@[q] == free_frame(order));
                assert(o == order);
                lemma_head(p as int, q, o);
                lemma_head(pfn, q, order);
            }
        }
    }

    /// Takes the block of order `order` at `pfn` off its list; whether it
    /// was listed.
    fn remove_block(&mut self, pfn: usize, order: usize) -> (r: bool)
        requires
            old(self).shape_ok(),
            order < MAX_ORDER,
        ensures
            final(self).shape_ok(),
            final(self).frames@ == old(self).frames@,
            r == old(self).free_areas@[order as int]@.contains(pfn),
            !r ==> forall|o: int| 0 <= o < MAX_ORDER ==> #[trigger] final(self).free_areas@[o]@ == old(self).free_areas@[o]@,
            !final(self).free_areas@[order as int]@.contains(pfn),
            final(self).free_areas@[order as int]@.to_set() == old(self).free_areas@[order as int]@.to_set().remove(pfn),
            forall|o: int, x: usize| 0 <= o < MAX_ORDER && #[trigger] final(self).free_areas@[o]@.contains(x) ==> old(self).free_areas@[o]@.contains(x),
            forall|o: int| 0 <= o < MAX_ORDER && o != order ==> #[trigger] final(self).free_areas@[o] == old(self).free_areas@[o],
            r ==> old(self).block_ok(order as int, pfn as int),
            r ==> forall|q: int| pfn <= q < pfn + pow2(order as nat) ==> !(#[trigger] final(self).covered(q)),
            final(self).heap_start == old(self).heap_start && final(self).high_water == old(self).high_water,
            final(self).allocated == old(self).allocated && final(self).free == old(self).free && final(self).reserved == old(self).reserved,
    {
        let ghost before = *self;
        proof {
            assert(before.free_areas@[order as int]@.no_duplicates());
        }
        let found = remove_entry(&mut self.free_areas[order], pfn);
        proof {
            assert forall|o: int, x: usize| 0 <= o < MAX_ORDER && #[trigger] self.free_areas@[o]@.contains(x) implies before.free_areas@[o]@.contains(x) by {
                if o != order {
                    assert(self.free_areas@[o] == before.free_areas@[o]);
                }
            }
            assert forall|o: int, k: int| 0 <= o < MAX_ORDER && 0 <= k < self.free_areas@[o]@.len() implies self.block_ok(o, #[trigger] self.free_areas@[o]@[k] as int) by {
                let x = self.free_areas@[o]@[k];
                assert(self.free_areas@[o]@.contains(x));
                assert(before.free_areas@[o]@.contains(x));
                let k2 = choose|k2: int| 0 <= k2 < before.free_areas@[o]@.len() && before.free_areas@[o]@[k2] == x;
                assert(before.block_ok(o, before.free_areas@[o]@[k2] as int));
            }
            if !found {
                assert forall|o: int| 0 <= o < MAX_ORDER implies #[trigger] self.free_areas@[o]@ == before.free_areas@[o]@ by {
                    if o != order {
                        assert(self.free_areas@[o] == before.free_areas@[o]);
                    }
                }
            }
            if found {
                let k2 = choose|k2: int| 0 <= k2 < before.free_areas@[order as int]@.len() && before.free_areas@[order as int]@[k2] == pfn;
                assert(before.block_ok(order as int, before.free_areas@[order as int]@[k2] as int));
                self.lemma_unlisted(&before, pfn as int, order as int);
            }
        }
        found
    }

    /// Takes the most recently listed block of order `order` off its list.
    fn remove_head(&mut self, order: usize) -> (r: Option<usize>)
        requires
            old(self).shape_ok(),
            order < MAX_ORDER,
        ensures
            final(self).shape_ok(),
            final(self).frames@ == old(self).frames@,
            old(self).free_areas@[order as int]@.len() == 0 ==> r is None && *final(self) == *old(self),
            old(self).free_areas@[order as int]@.len() > 0 ==> r == Some(old(self).free_areas@[order as int]@.last())
                && final(self).free_areas@[order as int]@ == old(self).free_areas@[order as int]@.drop_last(),
            forall|o: int| 0 <= o < MAX_ORDER && o != order ==> #[trigger] final(self).free_areas@[o] == old(self).free_areas@[o],
            r matches Some(p) ==> old(self).block_ok(order as int, p as int),
            r matches Some(p) ==> forall|q: int| p <= q < p + pow2(order as nat) ==> !(#[trigger] final(self).covered(q)),
            final(self).heap_start == old(self).heap_start && final(self).high_water == old(self).high_water,
            final(self).allocated == old(self).allocated && final(self).free == old(self).free && final(self).reserved == old(self).reserved,
    {
        if self.free_areas[order].len() == 0 {
            return None;
        }
        let ghost before = *self;
        let p = self.free_areas[order].pop().unwrap();
        proof {
            let l = before.free_areas@[order as int]@;
            assert(self.free_areas@[order as int]@ =~= l.drop_last());
            assert(l.no_duplicates());
            assert(before.block_ok(order as int, l[l.len() - 1] as int));
            assert forall|o: int, x: usize| 0 <= o < MAX_ORDER && #[trigger] self.free_areas@[o]@.contains(x) implies before.free_areas@[o]@.contains(x) by {
                if o == order {
                    let j = choose|j: int| 0 <= j < self.free_areas@[o]@.len() && self.free_areas@[o]@[j] == x;
                    assert(l[j] == x);
                } else {
                    assert(self.free_areas@[o] == before.free_areas@[o]);
                }
            }
            assert forall|o: int, k: int| 0 <= o < MAX_ORDER && 0 <= k < self.free_areas@[o]@.len() implies self.block_ok(o, #[trigger] self.free_areas@[o]@[k] as int) by {
                if o == order {
                    assert(self.free_areas@[o]@[k] == l[k]);
                } else {
                    assert(self.free_areas@[o] == before.free_areas@[o]);
                }
            }
            assert forall|o: int| 0 <= o < MAX_ORDER implies (#[trigger] self.free_areas@[o])@.no_duplicates() by {
                if o == order {
                    let m = self.free_areas@[o]@;
                    assert forall|a: int, b: int| 0 <= a < m.len() && 0 <= b < m.len() && a != b implies m[a] != m[b] by {
                        assert(m[a] == l[a] && m[b] == l[b]);
                    }
                } else {
                    assert(self.free_areas@[o] == before.free_areas@[o]);
                }
            }
            assert(!self.free_areas@[order as int]@.contains(p)) by {
                if self.free_areas@[order as int]@.contains(p) {
                    let j = choose|j: int| 0 <= j < self.free_areas@[order as int]@.len() && self.free_areas@[order as int]@[j] == p;
                    assert(l[j] == l[l.len() - 1]);
                }
            }
            self.lemma_unlisted(&before, p as int, order as int);
        }
        Some(p)
    }
}

proof fn lemma_pow2_step(n: nat)
    ensures
        pow2(n + 1) == 2 * pow2(n),
{
    reveal_with_fuel(pow2, 2);
}

proof fn lemma_align_smaller(p: int, a: nat, b: nat)
    requires
        b <= a,
        p % (pow2(a) as int) == 0,
    ensures
        p % (pow2(b) as int) == 0,
    decreases a - b,
{
    if b < a {
        lemma_pow2_step((a - 1) as nat);
        lemma_pow2_pos((a - 1) as nat);
        let x = pow2((a - 1) as nat) as int;
        vstd::arithmetic::div_mod::lemma_fundamental_div_mod(p, 2 * x);
        let m = p / (2 * x);
        assert(p == (m * 2) * x) by (nonlinear_arith)
            requires
                p == (2 * x) * m + p % (2 * x),
                p % (2 * x) == 0,
        ;
        vstd::arithmetic::div_mod::lemma_mod_multiples_basic(m * 2, x);
        lemma_align_smaller(p, (a - 1) as nat, b);
    }
}

impl PageAllocator {
    /// Marking pages that no listed block holds keeps every listed block
    /// as it was.
    proof fn lemma_mark_unlisted(&self, old_self: &PageAllocator, start: int, len: int, f: PageFrame)
        requires
            old_self.shape_ok(),
            self.frames@ == marked(old_self.frames@, start, len, f),
            self.free_areas@ == old_self.free_areas@,
            forall|q: int| start <= q < start + len ==> !(#[trigger] old_self.covered(q)),
        ensures
            self.shape_ok(),
    {
        assert forall|o: int, k: int| 0 <= o < MAX_ORDER && 0 <= k < self.free_areas@[o]@.len() implies self.block_ok(o, #[trigger] self.free_areas@[o]@[k] as int) by {
            let p = self.free_areas@[o]@[k] as int;
            assert(old_self.block_ok(o, p));
            assert forall|q: int| p <= q < p + pow2(o as nat) implies #[trigger] self.frames@[q] == free_frame(o) by {
                assert(old_self.free_areas@[o]@[k] <= q < old_self.free_areas@[o]@[k] + pow2(o as nat));
                assert(old_self.covered(q));
                assert(old_self.frames@[q] == free_frame(o));
            }
        }
        assert forall|o: int| 0 <= o < MAX_ORDER implies (#[trigger] self.free_areas@[o])@.no_duplicates() by {
            assert(old_self.free_areas@[o]@.no_duplicates());
        }
    }
}

/// The order of the smallest block that holds `pages` pages.
pub open spec fn fits_order(pages: int, o: int) -> bool {
    &&& 0 <= o < MAX_ORDER
    &&& pages <= pow2(o as nat)
    &&& (o == 0 || pow2((o - 1) as nat) < pages)
}

/// Some order below `MAX_ORDER` is large enough for `pages` pages.
pub open spec fn has_order(pages: int) -> bool {
    exists|o: int| #[trigger] fits_order(pages, o)
}

/// The order of the smallest block that holds `pages` pages.
pub open spec fn order_spec(pages: int) -> int {
    choose|o: int| #[trigger] fits_order(pages, o)
}

/// The first order at or above `o` that lists a free block; `MAX_ORDER` when
/// none does.
pub open spec fn first_listed_order(a: PageAllocator, o: int) -> int
    decreases MAX_ORDER - o,
{
    if o < 0 || o >= MAX_ORDER {
        MAX_ORDER as int
    } else if a.free_areas@[o]@.len() > 0 {
        o
    } else {
        first_listed_order(a, o + 1)
    }
}

/// Free list `l` of order `o` after the block `p` last listed at order `top`
/// was split down to order `lo`: the block left the list of `top`, and each
/// order from `lo` up to `top` gained the upper half `p + 2^o`.
pub open spec fn split_list(l: Seq<usize>, o: int, lo: int, top: int, p: int) -> Seq<usize> {
    if o == top {
        l.drop_last()
    } else if lo <= o < top {
        l.push((p + pow2(o as nat)) as usize)
    } else {
        l
    }
}

/// Every free list of `new` is that of `old` after block `p` of order `top`
/// was split down to order `lo`.
pub open spec fn split_lists(old: PageAllocator, new: PageAllocator, lo: int, top: int, p: int) -> bool {
    forall|o: int| 0 <= o < MAX_ORDER ==> #[trigger] new.free_areas@[o]@ == split_list(old.free_areas@[o]@, o, lo, top, p)
}

/// The buddy of the block of order `o` at `blk`: the other half of the block
/// of order `o + 1` that holds it.
pub open spec fn buddy_of(blk: int, o: int) -> int {
    if (blk / (pow2(o as nat) as int)) % 2 == 0 {
        blk + pow2(o as nat)
    } else {
        blk - pow2(o as nat)
    }
}

/// The buddy of `b` of order `o` is free in `a`: a listed free block of the
/// same order with no references.
pub open spec fn buddy_free(a: PageAllocator, b: int, o: int) -> bool {
    &&& 0 <= b < MAX_PHYS_PAGES
    &&& a.frames@[b].state == PageState::Free
    &&& a.frames@[b].order as int == o
    &&& a.frames@[b].ref_count == 0
    &&& a.free_areas@[o]@.contains(b as usize)
}

/// Where freeing the block of order `o` at `blk` ends up in `a`: while the
/// buddy is free and a larger order exists, the two merge; the block and
/// order merging stops at.
pub open spec fn merge_result(a: PageAllocator, blk: int, o: int) -> (int, int)
    decreases MAX_ORDER - o,
{
    if o < 0 || o + 1 >= MAX_ORDER || !buddy_free(a, buddy_of(blk, o), o) {
        (blk, o)
    } else {
        merge_result(a, if buddy_of(blk, o) < blk { buddy_of(blk, o) } else { blk }, o + 1)
    }
}

/// The buddy met at order `k` when merging upwards from the block of order
/// `o` at `blk`.
pub open spec fn merge_buddy(blk: int, o: int, k: int) -> int
    decreases k - o,
{
    if o >= k {
        buddy_of(blk, o)
    } else {
        merge_buddy(if buddy_of(blk, o) < blk { buddy_of(blk, o) } else { blk }, o + 1, k)
    }
}

/// List `new` is list `old` less `b`, which `old` held.
pub open spec fn lost_one(new: Seq<usize>, old: Seq<usize>, b: int) -> bool {
    old.contains(b as usize) && new.to_set() == old.to_set().remove(b as usize)
}

/// The free lists of `new` are those of `old` after the block of order `o`
/// at `pfn` was freed: each buddy merged with left its list, the other lists
/// stay, and the merged block joined the list of its order.
pub open spec fn merged_lists(old: PageAllocator, new: PageAllocator, pfn: int, o: int) -> bool {
    let (mb, m) = merge_result(old, pfn, o);
    &&& forall|k: int| 0 <= k < MAX_ORDER && (k < o || k > m) ==> #[trigger] new.free_areas@[k]@ == old.free_areas@[k]@
    &&& forall|k: int| o <= k < m ==> #[trigger] lost_one(new.free_areas@[k]@, old.free_areas@[k]@, merge_buddy(pfn, o, k))
    &&& new.free_areas@[m]@ == old.free_areas@[m]@.push(mb as usize)
}

/// `new` is `old` after the block for `pages` pages was taken at `addr`: the
/// last block listed at the first order from the needed one up that lists
/// any was split down to the needed order, each upper half listed free at its
/// order, and no page outside that block changed.
pub open spec fn split_outcome(old: PageAllocator, new: PageAllocator, pages: int, addr: int) -> bool {
    let o = order_spec(pages);
    let top = first_listed_order(old, o);
    let p = old.free_areas@[top]@.last();
    &&& o <= top < MAX_ORDER
    &&& addr == PHYS_MEMORY_START + p * PAGE_SIZE
    &&& split_lists(old, new, o, top, p as int)
    &&& forall|q: int| 0 <= q < MAX_PHYS_PAGES && !(p <= q < p + pow2(top as nat)) ==> #[trigger] new.frames@[q] == old.frames@[q]
    &&& forall|j: int| o <= j < top ==> #[trigger] new.frames@[p + pow2(j as nat)] == free_frame(j)
}

/// Some free block of order `order` or above is listed.
pub open spec fn block_available(a: PageAllocator, order: int) -> bool {
    exists|c: int| order <= c < MAX_ORDER && (#[trigger] a.free_areas@[c])@.len() > 0
}

/// `new` is `old` after `pages` pages were allocated at `addr`: the block
/// of the smallest order that holds them, all free before, is in use; no
/// other page changed state; the counts moved by the block's size.
pub open spec fn allocated_block(old: PageAllocator, new: PageAllocator, pages: int, addr: int) -> bool {
    let o = order_spec(pages);
    let pfn = (addr - PHYS_MEMORY_START) / (PAGE_SIZE as int);
    &&& fits_order(pages, o)
    &&& addr == PHYS_MEMORY_START + pfn * PAGE_SIZE
    &&& 0 <= pfn && pfn % (pow2(o as nat) as int) == 0 && pfn + pow2(o as nat) <= MAX_PHYS_PAGES
    &&& forall|q: int| pfn <= q < pfn + pow2(o as nat) ==> (#[trigger] old.frames@[q]).state == PageState::Free
        && new.frames@[q] == used_frame(o)
    &&& forall|q: int| 0 <= q < MAX_PHYS_PAGES && !(pfn <= q < pfn + pow2(o as nat)) ==> (#[trigger] new.frames@[q]).state == old.frames@[q].state
    &&& new.allocated == old.allocated + pow2(o as nat)
    &&& new.free == old.free - pow2(o as nat)
    &&& new.reserved == old.reserved
    &&& new.high_water == (if old.high_water > addr + pow2(o as nat) * PAGE_SIZE { old.high_water as int } else { addr + pow2(o as nat) * PAGE_SIZE })
}

/// `new` is `old` after the block of `pages` pages at `addr` was freed:
/// its pages are free, no other page changed state, and the counts moved
/// back by the block's size.
pub open spec fn freed_block(old: PageAllocator, new: PageAllocator, addr: int, pages: int) -> bool {
    let o = order_spec(pages);
    let pfn = (addr - PHYS_MEMORY_START) / (PAGE_SIZE as int);
    &&& forall|q: int| pfn <= q < pfn + pow2(o as nat) ==> (#[trigger] new.frames@[q]).state == PageState::Free
    &&& forall|q: int| 0 <= q < MAX_PHYS_PAGES && !(pfn <= q < pfn + pow2(o as nat)) ==> (#[trigger] new.frames@[q]).state == old.frames@[q].state
    &&& new.allocated == old.allocated - pow2(o as nat)
    &&& new.free == old.free + pow2(o as nat)
    &&& new.reserved == old.reserved
}

impl PageAllocator {
    /// Takes a block of the smallest order that holds `pages` pages,
    /// splitting a larger free block when none of that order is free, and
    /// gives the physical address of its first page; none for no pages, too
    /// many, or when no block is large enough. The page contents are left
    /// for the caller to clear.
    pub fn alloc_pages(&mut self, pages: usize) -> (r: Option<usize>)
        requires
            old(self).wf(),
        ensures
            final(self).wf(),
            r is None ==> *final(self) == *old(self),
            r is Some <==> pages > 0 && has_order(pages as int) && block_available(*old(self), order_spec(pages as int)),
            r matches Some(addr) ==> allocated_block(*old(self), *final(self), pages as int, addr as int),
            r matches Some(addr) ==> split_outcome(*old(self), *final(self), pages as int, addr as int),
            final(self).heap_start == old(self).heap_start,
    {
        if pages == 0 {
            return None;
        }
        let order = match order_for_pages(pages) {
            Some(o) => o,
            None => {
                proof {
                    assert forall|o: int| !#[trigger] fits_order(pages as int, o) by {
                        if fits_order(pages as int, o) {
                            assert(pow2(o as nat) < pages);
                        }
                    }
                }
                return None;
            },
        };
        assert(fits_order(pages as int, order as int));
        proof {
            assert forall|o: int| fits_order(pages as int, o) implies o == order by {
                if o < order {
                    lemma_pow2_mono(o as nat, (order - 1) as nat);
                } else if o > order {
                    lemma_pow2_mono(order as nat, (o - 1) as nat);
                }
            }
            assert(has_order(pages as int));
            assert(order_spec(pages as int) == order);
        }
        let mut current = order;
        while current < MAX_ORDER && self.free_areas[current].len() == 0
            invariant
                order <= current <= MAX_ORDER,
                self.wf(),
                forall|c: int| order <= c < current ==> (#[trigger] self.free_areas@[c])@.len() == 0,
                *self == *old(self),
                first_listed_order(*self, order as int) == first_listed_order(*self, current as int),
            decreases MAX_ORDER - current,
        {
            current += 1;
        }
        if current == MAX_ORDER {
            assert(!block_available(*self, order as int));
            return None;
        }
        assert(block_available(*old(self), order as int));
        let ghost start = *self;
        let ghost top = current;
        let pfn = self.remove_head(current).unwrap();
        proof {
            lemma_pow2_small(top as nat);
            lemma_pow2_pos(top as nat);
        }
        while current > order
            invariant
                order <= current <= top < MAX_ORDER,
                self.shape_ok(),
                self.frames@.len() == MAX_PHYS_PAGES,
                self.heap_start == start.heap_start && self.high_water == start.high_water,
                self.allocated == start.allocated && self.free == start.free && self.reserved == start.reserved,
                start.wf(),
                forall|st: PageState| #[trigger] count_state(self.frames@, st, MAX_PHYS_PAGES as int) == count_state(start.frames@, st, MAX_PHYS_PAGES as int),
                start.block_ok(top as int, pfn as int),
                forall|q: int| pfn <= q < pfn + pow2(current as nat) ==> !(#[trigger] self.covered(q)),
                forall|q: int| pfn <= q < pfn + pow2(top as nat) ==> (#[trigger] self.frames@[q]).state == PageState::Free,
                forall|q: int| 0 <= q < MAX_PHYS_PAGES && !(pfn <= q < pfn + pow2(top as nat)) ==> #[trigger] self.frames@[q] == start.frames@[q],
                pfn == start.free_areas@[top as int]@.last(),
                forall|o: int| 0 <= o < MAX_ORDER ==> #[trigger] self.free_areas@[o]@ == split_list(start.free_areas@[o]@, o, current as int, top as int, pfn as int),
                forall|j: int| current <= j < top ==> #[trigger] self.frames@[pfn + pow2(j as nat)] == free_frame(j),
            decreases current,
        {
            current -= 1;
            let size = block_pages(current);
            proof {
                lemma_pow2_step(current as nat);
                lemma_pow2_mono((current + 1) as nat, top as nat);
                lemma_align_smaller(pfn as int, top as nat, (current + 1) as nat);
                lemma_align_smaller(pfn as int, top as nat, current as nat);
                let x = pow2(current as nat) as int;
                let pi = pfn as int;
                assert((pi + x) % x == 0) by (nonlinear_arith)
                    requires
                        x >= 1,
                        pi % x == 0,
                ;
            }
            let buddy = pfn + size;
            let ghost before = *self;
            self.insert_block(buddy, current, PageState::Free);
            proof {
                assert forall|q: int| pfn <= q < pfn + pow2(current as nat) implies !(#[trigger] self.covered(q)) by {
                    if self.covered(q) {
                        let (o, k) = choose|o: int, k: int|
                            0 <= o < MAX_ORDER && 0 <= k < self.free_areas@[o]@.len() && #[trigger] self.free_areas@[o]@[k] <= q < self.free_areas@[o]@[k] + pow2(o as nat);
                        if o == current && k == self.free_areas@[o]@.len() - 1 {
                            assert(self.free_areas@[o]@[k] == buddy);
                        } else {
                            assert(self.free_areas@[o]@[k] == before.free_areas@[o]@[k]);
                            assert(before.covered(q));
                        }
                    }
                }
                assert forall|q: int| pfn <= q < pfn + pow2(top as nat) implies (#[trigger] self.frames@[q]).state == PageState::Free by {
                    assert(before.frames@[q].state == PageState::Free);
                }
                assert forall|q: int| 0 <= q < MAX_PHYS_PAGES && !(pfn <= q < pfn + pow2(top as nat)) implies #[trigger] self.frames@[q] == start.frames@[q] by {
                    assert(before.frames@[q] == start.frames@[q]);
                }
                assert forall|j: int| current <= j < top implies #[trigger] self.frames@[pfn + pow2(j as nat)] == free_frame(j) by {
                    lemma_pow2_step(j as nat);
                    lemma_pow2_mono((j + 1) as nat, top as nat);
                    lemma_pow2_pos(j as nat);
                    if j > current {
                        lemma_pow2_step(current as nat);
                        lemma_pow2_mono((current + 1) as nat, j as nat);
                        lemma_pow2_mono(j as nat, top as nat);
                        assert(before.frames@[pfn + pow2(j as nat)] == free_frame(j));
                    }
                }
            }
        }
        let n = block_pages(order);
        let used = PageFrame { state: PageState::Used, order: order as u8, ref_count: 1, flags: 0 };
        let ghost before = *self;
        proof {
            lemma_pow2_mono(order as nat, top as nat);
            lemma_align_smaller(pfn as int, top as nat, order as nat);
        }
        mark_pages(&mut self.frames, pfn, n, used, PageState::Free);
        proof {
            self.lemma_mark_unlisted(&before, pfn as int, n as int, used);
            lemma_count_bounds(before.frames@, PageState::Used, MAX_PHYS_PAGES as int);
            lemma_count_total(self.frames@, MAX_PHYS_PAGES as int);
            lemma_count_bounds(self.frames@, PageState::Free, MAX_PHYS_PAGES as int);
            lemma_count_bounds(self.frames@, PageState::Reserved, MAX_PHYS_PAGES as int);
        }
        self.allocated = self.allocated + n;
        self.free = self.free - n;
        let addr = PHYS_MEMORY_START + pfn * PAGE_SIZE;
        let end = addr + n * PAGE_SIZE;
        assert((addr - PHYS_MEMORY_START) / (PAGE_SIZE as int) == pfn) by (nonlinear_arith)
            requires
                addr == PHYS_MEMORY_START + pfn * PAGE_SIZE,
        ;
        if end > self.high_water {
            self.high_water = end;
        }
        proof {
            assert forall|q: int| pfn <= q < pfn + pow2(order as nat) implies (#[trigger] old(self).frames@[q]).state == PageState::Free
                && self.frames@[q] == used_frame(order as int) by {
                assert(start.frames@[q] == old(self).frames@[q]);
                assert(start.block_ok(top as int, pfn as int));
            }
            assert forall|j: int| order <= j < top implies #[trigger] self.frames@[pfn + pow2(j as nat)] == free_frame(j) by {
                lemma_pow2_mono(order as nat, j as nat);
                lemma_pow2_step(j as nat);
                lemma_pow2_mono((j + 1) as nat, top as nat);
                lemma_pow2_pos(j as nat);
                assert(before.frames@[pfn + pow2(j as nat)] == free_frame(j));
            }
            assert forall|q: int| 0 <= q < MAX_PHYS_PAGES && !(pfn <= q < pfn + pow2(top as nat)) implies #[trigger] self.frames@[q] == old(self).frames@[q] by {
                lemma_pow2_mono(order as nat, top as nat);
                assert(before.frames@[q] == start.frames@[q]);
            }
            assert forall|q: int| 0 <= q < MAX_PHYS_PAGES && !(pfn <= q < pfn + pow2(order as nat)) implies (#[trigger] self.frames@[q]).state == old(self).frames@[q].state by {
                if pfn <= q < pfn + pow2(top as nat) {
                    assert(start.frames@[q] == free_frame(top as int));
                    assert(before.frames@[q].state == PageState::Free);
                } else {
                    assert(before.frames@[q] == start.frames@[q]);
                }
            }
        }
        Some(addr)
    }
}

proof fn lemma_buddy(m: int, x: int)
    requires
        x >= 1,
        m >= 0,
        m % x == 0,
    ensures
        (m / x) % 2 == 0 ==> m % (2 * x) == 0,
        (m / x) % 2 == 1 ==> m >= x && (m - x) % (2 * x) == 0,
{
    vstd::arithmetic::div_mod::lemma_fundamental_div_mod(m, x);
    let k = m / x;
    assert(m == x * k);
    assert(k >= 0) by (nonlinear_arith)
        requires
            m == x * k,
            m >= 0,
            x >= 1,
    ;
    if k % 2 == 0 {
        let h = k / 2;
        assert(m == h * (2 * x)) by (nonlinear_arith)
            requires
                m == x * k,
                k == 2 * h,
        ;
        vstd::arithmetic::div_mod::lemma_mod_multiples_basic(h, 2 * x);
    } else {
        let h = k / 2;
        assert(m - x == h * (2 * x) && m >= x) by (nonlinear_arith)
            requires
                m == x * k,
                k == 2 * h + 1,
                x >= 1,
                h >= 0,
        ;
        vstd::arithmetic::div_mod::lemma_mod_multiples_basic(h, 2 * x);
    }
}

/// The block `pages` pages at `addr` is one `free_pages` takes back: page
/// aligned, of a size some order holds, in RAM, aligned to its order, and
/// every page of it allocated.
pub open spec fn freeable(a: PageAllocator, addr: int, pages: int) -> bool {
    let o = order_spec(pages);
    let pfn = (addr - PHYS_MEMORY_START) / (PAGE_SIZE as int);
    &&& addr % (PAGE_SIZE as int) == 0
    &&& has_order(pages)
    &&& PHYS_MEMORY_START <= addr
    &&& addr + pow2(o as nat) * PAGE_SIZE <= PHYS_MEMORY_END
    &&& pfn % (pow2(o as nat) as int) == 0
    &&& forall|q: int| pfn <= q < pfn + pow2(o as nat) ==> (#[trigger] a.frames@[q]).state == PageState::Used
}

impl PageAllocator {
    /// Whether `free_pages(addr, pages)` may be called: nothing to free, or
    /// a block it takes back.
    pub fn can_free(&self, addr: usize, pages: usize) -> (r: bool)
        requires
            self.wf(),
        ensures
            r == (addr == 0 || pages == 0 || freeable(*self, addr as int, pages as int)),
    {
        if addr == 0 || pages == 0 {
            return true;
        }
        if addr % PAGE_SIZE != 0 {
            return false;
        }
        let order = match order_for_pages(pages) {
            Some(o) => o,
            None => {
                proof {
                    assert forall|o: int| !#[trigger] fits_order(pages as int, o) by {
                        if fits_order(pages as int, o) {
                            assert(pow2(o as nat) < pages);
                        }
                    }
                }
                return false;
            },
        };
        proof {
            assert forall|o: int| fits_order(pages as int, o) implies o == order by {
                if o < order {
                    lemma_pow2_mono(o as nat, (order - 1) as nat);
                } else if o > order {
                    lemma_pow2_mono(order as nat, (o - 1) as nat);
                }
            }
            assert(fits_order(pages as int, order as int));
            assert(order_spec(pages as int) == order);
        }
        let n = block_pages(order);
        if !range_in_ram(addr, n) {
            return false;
        }
        let pfn = (addr - PHYS_MEMORY_START) / PAGE_SIZE;
        if pfn % n != 0 {
            return false;
        }
        assert(pfn + n <= MAX_PHYS_PAGES) by (nonlinear_arith)
            requires
                addr + n * 4096 <= PHYS_MEMORY_END,
                pfn == (addr - PHYS_MEMORY_START) / 4096,
                addr % 4096 == 0,
                PHYS_MEMORY_START <= addr,
                PHYS_MEMORY_START == 0x4000_0000,
                PHYS_MEMORY_END == 0x4800_0000,
        ;
        let mut q = pfn;
        while q < pfn + n
            invariant
                self.wf(),
                addr != 0 && pages != 0,
                pfn <= q <= pfn + n <= MAX_PHYS_PAGES,
                pfn == (addr - PHYS_MEMORY_START) / (PAGE_SIZE as int),
                n == pow2(order_spec(pages as int) as nat),
                addr % PAGE_SIZE == 0,
                has_order(pages as int),
                PHYS_MEMORY_START <= addr,
                addr + n * PAGE_SIZE <= PHYS_MEMORY_END,
                (pfn as int) % (n as int) == 0,
                forall|j: int| pfn <= j < q ==> (#[trigger] self.frames@[j]).state == PageState::Used,
            decreases pfn + n - q,
        {
            if self.frames[q].state != PageState::Used {
                assert(!freeable(*self, addr as int, pages as int)) by {
                    assert(pfn <= q < pfn + pow2(order_spec(pages as int) as nat));
                    assert(self.frames@[q as int].state != PageState::Used);
                }
                return false;
            }
            q += 1;
        }
        true
    }

    /// Takes back the block of `pages` pages at `addr` that `alloc_pages`
    /// gave, joining it with its free buddy blocks as far as they go; a null
    /// address or no pages does nothing.
    pub fn free_pages(&mut self, addr: usize, pages: usize)
        requires
            old(self).wf(),
            addr == 0 || pages == 0 || freeable(*old(self), addr as int, pages as int),
        ensures
            final(self).wf(),
            final(self).heap_start == old(self).heap_start && final(self).high_water == old(self).high_water,
            (addr == 0 || pages == 0) ==> *final(self) == *old(self),
            !(addr == 0 || pages == 0) ==> freed_block(*old(self), *final(self), addr as int, pages as int),
            !(addr == 0 || pages == 0) ==> merged_lists(
                *old(self),
                *final(self),
                (addr - PHYS_MEMORY_START) / (PAGE_SIZE as int),
                order_spec(pages as int),
            ),
    {
        if addr == 0 || pages == 0 {
            return;
        }
        let order = order_for_pages(pages).unwrap();
        proof {
            assert forall|o: int| fits_order(pages as int, o) implies o == order by {
                if o < order {
                    lemma_pow2_mono(o as nat, (order - 1) as nat);
                } else if o > order {
                    lemma_pow2_mono(order as nat, (o - 1) as nat);
                }
            }
            assert(fits_order(pages as int, order as int));
            assert(order_spec(pages as int) == order);
        }
        let n = block_pages(order);
        let pfn = (addr - PHYS_MEMORY_START) / PAGE_SIZE;
        assert(pfn + n <= MAX_PHYS_PAGES) by (nonlinear_arith)
            requires
                addr + n * 4096 <= PHYS_MEMORY_END,
                pfn == (addr - PHYS_MEMORY_START) / 4096,
                addr % 4096 == 0,
                PHYS_MEMORY_START <= addr,
                PHYS_MEMORY_START == 0x4000_0000,
                PHYS_MEMORY_END == 0x4800_0000,
        ;
        let ghost start = *self;
        let freed = PageFrame { state: PageState::Free, order: order as u8, ref_count: 0, flags: 0 };
        mark_pages(&mut self.frames, pfn, n, freed, PageState::Used);
        proof {
            assert forall|q: int| pfn <= q < pfn + n implies !(#[trigger] start.covered(q)) by {
                if start.covered(q) {
                    start.lemma_covered(q);
                }
            }
            self.lemma_mark_unlisted(&start, pfn as int, n as int, freed);
            lemma_count_bounds(start.frames@, PageState::Free, MAX_PHYS_PAGES as int);
            lemma_count_total(self.frames@, MAX_PHYS_PAGES as int);
            lemma_count_bounds(self.frames@, PageState::Used, MAX_PHYS_PAGES as int);
        }
        self.allocated = self.allocated - n;
        self.free = self.free + n;
        let ghost premarked = self.frames@;
        let mut merged_pfn = pfn;
        let mut merged_order = order;
        assert(start == *old(self));
        proof {
            lemma_pow2_pos(order as nat);
            assert forall|q: int| merged_pfn <= q < merged_pfn + pow2(merged_order as nat) implies !(#[trigger] self.covered(q)) by {
                assert(!start.covered(q));
                if self.covered(q) {
                    let (o, k) = choose|o: int, k: int|
                        0 <= o < MAX_ORDER && 0 <= k < self.free_areas@[o]@.len() && #[trigger] self.free_areas@[o]@[k] <= q < self.free_areas@[o]@[k] + pow2(o as nat);
                    assert(start.free_areas@[o]@[k] == self.free_areas@[o]@[k]);
                }
            }
        }
        while merged_order + 1 < MAX_ORDER
            invariant
                self.wf(),
                self.heap_start == start.heap_start && self.high_water == start.high_water,
                self.allocated == start.allocated - n && self.free == start.free + n && self.reserved == start.reserved,
                self.frames@ == premarked,
                merged_order < MAX_ORDER,
                order <= merged_order,
                n == pow2(order as nat),
                (merged_pfn as int) % (pow2(merged_order as nat) as int) == 0,
                merged_pfn + pow2(merged_order as nat) <= MAX_PHYS_PAGES,
                merged_pfn <= pfn,
                pfn + n <= merged_pfn + pow2(merged_order as nat),
                forall|q: int| merged_pfn <= q < merged_pfn + pow2(merged_order as nat) ==> (#[trigger] self.frames@[q]).state == PageState::Free,
                forall|q: int| merged_pfn <= q < merged_pfn + pow2(merged_order as nat) ==> !(#[trigger] self.covered(q)),
                start == *old(self),
                premarked == marked(start.frames@, pfn as int, n as int, freed),
                merge_result(start, pfn as int, order as int) == merge_result(start, merged_pfn as int, merged_order as int),
                forall|k: int| merged_order <= k < MAX_ORDER ==> #[trigger] merge_buddy(pfn as int, order as int, k) == merge_buddy(merged_pfn as int, merged_order as int, k),
                forall|k: int| 0 <= k < MAX_ORDER && (k < order || k >= merged_order) ==> #[trigger] self.free_areas@[k]@ == start.free_areas@[k]@,
                forall|k: int|
                    order <= k < merged_order ==> #[trigger] lost_one(self.free_areas@[k]@, start.free_areas@[k]@, merge_buddy(pfn as int, order as int, k)),
            ensures
                merged_order + 1 >= MAX_ORDER || merge_result(start, merged_pfn as int, merged_order as int) == (
                    merged_pfn as int,
                    merged_order as int,
                ),
            decreases MAX_ORDER - merged_order,
        {
            let size = block_pages(merged_order);
            proof {
                lemma_buddy(merged_pfn as int, size as int);
            }
            let buddy = if (merged_pfn / size) % 2 == 0 {
                merged_pfn + size
            } else {
                merged_pfn - size
            };
            assert(buddy == buddy_of(merged_pfn as int, merged_order as int));
            if buddy >= MAX_PHYS_PAGES {
                break;
            }
            let frame = self.frames[buddy];
            assert(!(pfn <= buddy < pfn + n));
            assert(frame == start.frames@[buddy as int]);
            if frame.state != PageState::Free || frame.order as usize != merged_order || frame.ref_count != 0 {
                break;
            }
            let ghost before = *self;
            if !self.remove_block(buddy, merged_order) {
                proof {
                    assert forall|k: int| 0 <= k < MAX_ORDER implies #[trigger] self.free_areas@[k]@ == before.free_areas@[k]@ by {
                    }
                    assert forall|k: int|
                        order <= k < merged_order implies #[trigger] lost_one(self.free_areas@[k]@, start.free_areas@[k]@, merge_buddy(pfn as int, order as int, k)) by {
                        assert(self.free_areas@[k]@ == before.free_areas@[k]@);
                        assert(lost_one(before.free_areas@[k]@, start.free_areas@[k]@, merge_buddy(pfn as int, order as int, k)));
                    }
                    assert forall|q: int| merged_pfn <= q < merged_pfn + pow2(merged_order as nat) implies !(#[trigger] self.covered(q)) by {
                        assert(!before.covered(q));
                        if self.covered(q) {
                            let (o, k) = choose|o: int, k: int|
                                0 <= o < MAX_ORDER && 0 <= k < self.free_areas@[o]@.len() && #[trigger] self.free_areas@[o]@[k] <= q < self.free_areas@[o]@[k] + pow2(o as nat);
                            assert(self.free_areas@[o]@ == before.free_areas@[o]@);
                            assert(before.free_areas@[o]@[k] <= q < before.free_areas@[o]@[k] + pow2(o as nat));
                        }
                    }
                }
                break;
            }
            proof {
                lemma_pow2_step(merged_order as nat);
                let lo = if buddy < merged_pfn { buddy as int } else { merged_pfn as int };
                assert forall|q: int| lo <= q < lo + 2 * size implies !(#[trigger] self.covered(q)) by {
                    if merged_pfn <= q < merged_pfn + size {
                        assert(!before.covered(q));
                        if self.covered(q) {
                            let (o, k) = choose|o: int, k: int|
                                0 <= o < MAX_ORDER && 0 <= k < self.free_areas@[o]@.len() && #[trigger] self.free_areas@[o]@[k] <= q < self.free_areas@[o]@[k] + pow2(o as nat);
                            let x = self.free_areas@[o]@[k];
                            assert(self.free_areas@[o]@.contains(x));
                            assert(before.free_areas@[o]@.contains(x));
                            let k2 = choose|k2: int| 0 <= k2 < before.free_areas@[o]@.len() && before.free_areas@[o]@[k2] == x;
                            assert(before.free_areas@[o]@[k2] <= q < before.free_areas@[o]@[k2] + pow2(o as nat));
                        }
                    }
                }
                assert forall|q: int| lo <= q < lo + 2 * size implies (#[trigger] self.frames@[q]).state == PageState::Free by {
                    if merged_pfn <= q < merged_pfn + size {
                        assert(before.frames@[q].state == PageState::Free);
                    } else {
                        assert(buddy <= q < buddy + size);
                        assert(before.block_ok(merged_order as int, buddy as int));
                        assert(before.frames@[q] == free_frame(merged_order as int));
                    }
                }
            }
            proof {
                let mo = merged_order as int;
                let next = if buddy < merged_pfn { buddy as int } else { merged_pfn as int };
                assert(buddy_free(start, buddy as int, mo));
                assert(merge_result(start, merged_pfn as int, mo) == merge_result(start, next, mo + 1));
                assert forall|k: int| mo + 1 <= k < MAX_ORDER implies #[trigger] merge_buddy(pfn as int, order as int, k)
                    == merge_buddy(next, mo + 1, k) by {
                    assert(merge_buddy(pfn as int, order as int, k) == merge_buddy(merged_pfn as int, mo, k));
                }
                assert(merge_buddy(pfn as int, order as int, mo) == buddy as int) by {
                    assert(merge_buddy(pfn as int, order as int, mo) == merge_buddy(merged_pfn as int, mo, mo));
                }
                assert forall|k: int| 0 <= k < MAX_ORDER && (k < order || k >= mo + 1) implies #[trigger] self.free_areas@[k]@
                    == start.free_areas@[k]@ by {
                    assert(self.free_areas@[k] == before.free_areas@[k]);
                }
                assert forall|k: int|
                    order <= k < mo + 1 implies #[trigger] lost_one(self.free_areas@[k]@, start.free_areas@[k]@, merge_buddy(pfn as int, order as int, k)) by {
                    if k < mo {
                        assert(self.free_areas@[k] == before.free_areas@[k]);
                        assert(lost_one(before.free_areas@[k]@, start.free_areas@[k]@, merge_buddy(pfn as int, order as int, k)));
                    } else {
                        assert(before.free_areas@[k]@ == start.free_areas@[k]@);
                    }
                }
            }
            if buddy < merged_pfn {
                merged_pfn = buddy;
            }
            merged_order = merged_order + 1;
        }
        proof {
            assert(merge_result(start, pfn as int, order as int) == (merged_pfn as int, merged_order as int));
        }
        proof {
            lemma_pow2_small(merged_order as nat);
        }
        let ghost before_insert = *self;
        self.insert_block(merged_pfn, merged_order, PageState::Free);
        proof {
            assert forall|q: int| pfn <= q < pfn + pow2(order as nat) implies (#[trigger] self.frames@[q]).state == PageState::Free by {
            }
            assert forall|q: int| 0 <= q < MAX_PHYS_PAGES && !(pfn <= q < pfn + pow2(order as nat)) implies (#[trigger] self.frames@[q]).state == old(self).frames@[q].state by {
                if merged_pfn <= q < merged_pfn + pow2(merged_order as nat) {
                    assert(before_insert.frames@[q].state == PageState::Free);
                    assert(premarked[q] == start.frames@[q]);
                } else {
                    assert(premarked[q] == start.frames@[q]);
                }
            }
        }
    }
}

/// The first order at or above `o` that lists a block is at least `o`, and
/// lists one when it is below `MAX_ORDER`.
proof fn lemma_first_listed(a: PageAllocator, o: int)
    requires
        0 <= o <= MAX_ORDER,
    ensures
        o <= first_listed_order(a, o),
        first_listed_order(a, o) < MAX_ORDER ==> a.free_areas@[first_listed_order(a, o)]@.len() > 0,
    decreases MAX_ORDER - o,
{
    if o < MAX_ORDER && a.free_areas@[o]@.len() == 0 {
        lemma_first_listed(a, o + 1);
    }
}

/// A block aligned to order `top` is the lower half at every smaller order.
proof fn lemma_lower_half(p: int, o: int, top: int)
    requires
        0 <= o < top,
        p >= 0,
        p % (pow2(top as nat) as int) == 0,
    ensures
        buddy_of(p, o) == p + pow2(o as nat),
{
    lemma_align_smaller(p, top as nat, (o + 1) as nat);
    lemma_pow2_step(o as nat);
    lemma_pow2_pos(o as nat);
    let x = pow2(o as nat) as int;
    let c = p / (2 * x);
    vstd::arithmetic::div_mod::lemma_fundamental_div_mod(p, 2 * x);
    assert(p == x * (2 * c)) by (nonlinear_arith)
        requires
            p == (2 * x) * c + p % (2 * x),
            p % (2 * x) == 0,
    ;
    vstd::arithmetic::div_mod::lemma_div_multiples_vanish(2 * c, x);
}

/// Merging upwards from the block of order `o` at `p`, aligned to order
/// `top`, meets the upper halves `p + 2^k`.
proof fn lemma_merge_buddy_aligned(p: int, o: int, k: int, top: int)
    requires
        0 <= o <= k < top,
        p >= 0,
        p % (pow2(top as nat) as int) == 0,
    ensures
        merge_buddy(p, o, k) == p + pow2(k as nat),
    decreases k - o,
{
    lemma_lower_half(p, o, top);
    lemma_pow2_pos(o as nat);
    if o < k {
        lemma_merge_buddy_aligned(p, o + 1, k, top);
    }
}

/// Merging upwards from the block of order `o` at `p` reaches order `top`
/// when every upper half below it is free.
proof fn lemma_merge_result_up(a: PageAllocator, p: int, o: int, top: int)
    requires
        0 <= o <= top < MAX_ORDER,
        p >= 0,
        p % (pow2(top as nat) as int) == 0,
        forall|j: int| o <= j < top ==> #[trigger] buddy_free(a, p + pow2(j as nat), j),
    ensures
        merge_result(a, p, o) == merge_result(a, p, top),
    decreases top - o,
{
    if o < top {
        lemma_lower_half(p, o, top);
        lemma_pow2_pos(o as nat);
        assert(buddy_free(a, buddy_of(p, o), o));
        lemma_merge_result_up(a, p, o + 1, top);
    }
}

/// Freeing the block that an allocation just handed out gives every order
/// back the free blocks it had, as long as the block the allocation split
/// does not merge on with a free buddy of its own order.
pub proof fn lemma_free_undoes_alloc(a: PageAllocator, b: PageAllocator, c: PageAllocator, pages: int, addr: int)
    requires
        a.wf(),
        c.wf(),
        split_outcome(a, b, pages, addr),
        merged_lists(b, c, (addr - PHYS_MEMORY_START) / (PAGE_SIZE as int), order_spec(pages)),
        ({
            let top = first_listed_order(a, order_spec(pages));
            let p = a.free_areas@[top]@.last() as int;
            top + 1 >= MAX_ORDER || !buddy_free(a, buddy_of(p, top), top)
        }),
    ensures
        forall|k: int| 0 <= k < MAX_ORDER ==> (#[trigger] c.free_areas@[k]@).to_set() == a.free_areas@[k]@.to_set(),
        forall|k: int| 0 <= k < MAX_ORDER ==> (#[trigger] c.free_areas@[k]@).len() == a.free_areas@[k]@.len(),
{
    let o = order_spec(pages);
    let top = first_listed_order(a, o);
    let l = a.free_areas@[top]@;
    let p = l.last() as int;
    assert(p == (addr - PHYS_MEMORY_START) / (PAGE_SIZE as int)) by (nonlinear_arith)
        requires
            addr == PHYS_MEMORY_START + p * PAGE_SIZE,
    ;
    lemma_first_listed(a, o);
    assert(a.block_ok(top, l[l.len() - 1] as int));
    lemma_pow2_pos(top as nat);
    // The upper halves below `top` are free in `b`.
    assert forall|j: int| o <= j < top implies #[trigger] buddy_free(b, p + pow2(j as nat), j) by {
        lemma_pow2_step(j as nat);
        lemma_pow2_mono((j + 1) as nat, top as nat);
        lemma_pow2_pos(j as nat);
        assert(b.free_areas@[j]@ == split_list(a.free_areas@[j]@, j, o, top, p));
        assert(b.free_areas@[j]@.last() == (p + pow2(j as nat)) as usize);
        assert(b.free_areas@[j]@.contains((p + pow2(j as nat)) as usize));
    }
    lemma_merge_result_up(b, p, o, top);
    // At `top` merging stops in `b` as it would in `a`.
    if top + 1 < MAX_ORDER {
        let x = buddy_of(p, top);
        assert(x == p + pow2(top as nat) || x == p - pow2(top as nat));
        if buddy_free(b, x, top) {
            assert(b.frames@[x] == a.frames@[x]);
            assert(b.free_areas@[top]@ == l.drop_last());
            let i = choose|i: int| 0 <= i < l.drop_last().len() && l.drop_last()[i] == x as usize;
            assert(l[i] == x as usize);
            assert(a.free_areas@[top]@.contains(x as usize));
            assert(buddy_free(a, x, top));
        }
    }
    assert(merge_result(b, p, top) == (p, top));
    assert forall|k: int| 0 <= k < MAX_ORDER implies (#[trigger] c.free_areas@[k]@).to_set() == a.free_areas@[k]@.to_set()
        && c.free_areas@[k]@.len() == a.free_areas@[k]@.len() by {
        assert(b.free_areas@[k]@ == split_list(a.free_areas@[k]@, k, o, top, p));
        if k < o || k > top {
        } else if k == top {
            assert(c.free_areas@[k]@ =~= a.free_areas@[k]@);
        } else {
            let y = p + pow2(k as nat);
            lemma_merge_buddy_aligned(p, o, k, top);
            assert(lost_one(c.free_areas@[k]@, b.free_areas@[k]@, merge_buddy(p, o, k)));
            lemma_pow2_step(k as nat);
            lemma_pow2_mono((k + 1) as nat, top as nat);
            lemma_pow2_pos(k as nat);
            assert(!a.free_areas@[k]@.contains(y as usize)) by {
                if a.free_areas@[k]@.contains(y as usize) {
                    let i = choose|i: int| 0 <= i < a.free_areas@[k]@.len() && a.free_areas@[k]@[i] == y as usize;
                    assert(a.block_ok(k, a.free_areas@[k]@[i] as int));
                    assert(a.frames@[y] == free_frame(k));
                    assert(a.frames@[y] == free_frame(top));
                }
            }
            let ak = a.free_areas@[k]@;
            let bk = b.free_areas@[k]@;
            assert(bk == ak.push(y as usize));
            assert forall|z: usize| #[trigger] bk.contains(z) <==> (ak.contains(z) || z == y as usize) by {
                if ak.contains(z) {
                    let i = choose|i: int| 0 <= i < ak.len() && ak[i] == z;
                    assert(bk[i] == z);
                }
                if bk.contains(z) {
                    let i = choose|i: int| 0 <= i < bk.len() && bk[i] == z;
                    if i < ak.len() {
                        assert(ak[i] == z);
                    }
                }
                if z == y as usize {
                    assert(bk[ak.len() as int] == z);
                }
            }
            assert(c.free_areas@[k]@.to_set() =~= a.free_areas@[k]@.to_set());
            c.free_areas@[k]@.unique_seq_to_set();
            a.free_areas@[k]@.unique_seq_to_set();
        }
    }
}

impl PageAllocator {
    /// Lists the `pages` pages from `start` as free blocks, each as large as
    /// its alignment and what is left allow; they were pages in state
    /// `from` that no listed block held.
    fn add_free_range(&mut self, start: usize, pages: usize, from: PageState)
        requires
            old(self).shape_ok(),
            start + pages <= MAX_PHYS_PAGES,
            forall|q: int| start <= q < start + pages ==> (#[trigger] old(self).frames@[q]).state == from && !old(self).covered(q),
        ensures
            final(self).shape_ok(),
            forall|q: int| start <= q < start + pages ==> (#[trigger] final(self).frames@[q]).state == PageState::Free,
            forall|q: int| start <= q < start + pages ==> #[trigger] final(self).covered(q),
            forall|q: int| 0 <= q < MAX_PHYS_PAGES && !(start <= q < start + pages) ==> #[trigger] final(self).frames@[q] == old(self).frames@[q],
            forall|st: PageState| #[trigger] count_state(final(self).frames@, st, MAX_PHYS_PAGES as int) == count_state(
                old(self).frames@,
                st,
                MAX_PHYS_PAGES as int,
            ) + (if st == PageState::Free { pages as int } else { 0int }) - (if from == st { pages as int } else { 0int }),
            forall|o: int, x: usize| 0 <= o < MAX_ORDER && #[trigger] old(self).free_areas@[o]@.contains(x) ==> final(self).free_areas@[o]@.contains(x),
            forall|o: int, k: int| 0 <= o < MAX_ORDER && 0 <= k < final(self).free_areas@[o]@.len() && !old(self).free_areas@[o]@.contains(#[trigger] final(self).free_areas@[o]@[k])
                ==> start <= final(self).free_areas@[o]@[k] && final(self).free_areas@[o]@[k] + pow2(o as nat) <= start + pages,
            final(self).heap_start == old(self).heap_start && final(self).high_water == old(self).high_water,
            final(self).allocated == old(self).allocated && final(self).free == old(self).free && final(self).reserved == old(self).reserved,
    {
        let ghost orig = *self;
        let mut at = start;
        let mut left = pages;
        while left != 0
            invariant
                self.shape_ok(),
                start <= at,
                at + left == start + pages <= MAX_PHYS_PAGES,
                forall|q: int| at <= q < at + left ==> (#[trigger] self.frames@[q]).state == from && !self.covered(q),
                forall|q: int| start <= q < at ==> (#[trigger] self.frames@[q]).state == PageState::Free,
                forall|q: int| start <= q < at ==> #[trigger] self.covered(q),
                forall|q: int| 0 <= q < MAX_PHYS_PAGES && !(start <= q < at) ==> #[trigger] self.frames@[q] == orig.frames@[q],
                forall|st: PageState| #[trigger] count_state(self.frames@, st, MAX_PHYS_PAGES as int) == count_state(
                    orig.frames@,
                    st,
                    MAX_PHYS_PAGES as int,
                ) + (if st == PageState::Free { (at - start) as int } else { 0int }) - (if from == st { (at - start) as int } else { 0int }),
                forall|o: int, x: usize| 0 <= o < MAX_ORDER && #[trigger] orig.free_areas@[o]@.contains(x) ==> self.free_areas@[o]@.contains(x),
                forall|o: int, k: int| 0 <= o < MAX_ORDER && 0 <= k < self.free_areas@[o]@.len() && !orig.free_areas@[o]@.contains(#[trigger] self.free_areas@[o]@[k])
                    ==> start <= self.free_areas@[o]@[k] && self.free_areas@[o]@[k] + pow2(o as nat) <= at,
                self.heap_start == orig.heap_start && self.high_water == orig.high_water,
                self.allocated == orig.allocated && self.free == orig.free && self.reserved == orig.reserved,
            decreases left,
        {
            let mut order: usize = MAX_ORDER - 1;
            while order > 0 && !(at % block_pages(order) == 0 && block_pages(order) <= left)
                invariant
                    order < MAX_ORDER,
                decreases order,
            {
                order -= 1;
            }
            let size = block_pages(order);
            proof {
                if order == 0 {
                    assert(pow2(0) == 1) by {
                        reveal_with_fuel(pow2, 1);
                    }
                }
            }
            let ghost before = *self;
            self.insert_block(at, order, from);
            proof {
                assert forall|q: int| at + size <= q < at + left implies (#[trigger] self.frames@[q]).state == from && !self.covered(q) by {
                    assert(before.frames@[q].state == from && !before.covered(q));
                    if self.covered(q) {
                        let (o, k) = choose|o: int, k: int|
                            0 <= o < MAX_ORDER && 0 <= k < self.free_areas@[o]@.len() && #[trigger] self.free_areas@[o]@[k] <= q < self.free_areas@[o]@[k] + pow2(o as nat);
                        if o == order && k == self.free_areas@[o]@.len() - 1 {
                            assert(self.free_areas@[o]@[k] == at);
                        } else {
                            assert(self.free_areas@[o]@[k] == before.free_areas@[o]@[k]);
                        }
                    }
                }
                assert forall|o: int, x: usize| 0 <= o < MAX_ORDER && #[trigger] orig.free_areas@[o]@.contains(x) implies self.free_areas@[o]@.contains(x) by {
                    assert(before.free_areas@[o]@.contains(x));
                    let j = choose|j: int| 0 <= j < before.free_areas@[o]@.len() && before.free_areas@[o]@[j] == x;
                    if o == order {
                        assert(self.free_areas@[o]@[j] == x);
                    } else {
                        assert(self.free_areas@[o] == before.free_areas@[o]);
                    }
                }
                assert forall|o: int, k: int| 0 <= o < MAX_ORDER && 0 <= k < self.free_areas@[o]@.len() && !orig.free_areas@[o]@.contains(#[trigger] self.free_areas@[o]@[k])
                    implies start <= self.free_areas@[o]@[k] && self.free_areas@[o]@[k] + pow2(o as nat) <= at + size by {
                    if o == order && k == self.free_areas@[o]@.len() - 1 {
                    } else {
                        assert(self.free_areas@[o]@[k] == before.free_areas@[o]@[k]);
                    }
                }
                assert forall|q: int| 0 <= q < MAX_PHYS_PAGES && !(start <= q < at + size) implies #[trigger] self.frames@[q] == orig.frames@[q] by {
                    assert(before.frames@[q] == orig.frames@[q]);
                }
                assert forall|q: int| start <= q < at + size implies (#[trigger] self.frames@[q]).state == PageState::Free by {
                    if q < at {
                        assert(before.frames@[q].state == PageState::Free);
                    }
                }
                assert forall|q: int| start <= q < at + size implies #[trigger] self.covered(q) by {
                    if q < at {
                        assert(before.covered(q));
                        let (o, k) = choose|o: int, k: int|
                            0 <= o < MAX_ORDER && 0 <= k < before.free_areas@[o]@.len() && #[trigger] before.free_areas@[o]@[k] <= q < before.free_areas@[o]@[k] + pow2(o as nat);
                        if o == order {
                            assert(self.free_areas@[o]@[k] == before.free_areas@[o]@[k]);
                        } else {
                            assert(self.free_areas@[o] == before.free_areas@[o]);
                        }
                        assert(self.free_areas@[o]@[k] <= q < self.free_areas@[o]@[k] + pow2(o as nat));
                    } else {
                        let k = self.free_areas@[order as int]@.len() - 1;
                        assert(self.free_areas@[order as int]@[k] == at);
                        assert(self.free_areas@[order as int]@[k] <= q < self.free_areas@[order as int]@[k] + pow2(order as nat));
                    }
                }
            }
            at = at + size;
            left = left - size;
        }
    }

    /// The allocator for RAM with the kernel image ending at `kernel_end`:
    /// the pages up to the first page boundary after it reserved, the rest
    /// free.
    pub fn init(kernel_end: usize) -> (r: Self)
        requires
            kernel_end + PAGE_SIZE - 1 <= usize::MAX,
            PHYS_MEMORY_START <= page_end_of(kernel_end as int) <= PHYS_MEMORY_END,
        ensures
            r.wf(),
            r.heap_start == page_end_of(kernel_end as int) && r.high_water == r.heap_start,
            r.allocated == 0,
            r.reserved == (r.heap_start - PHYS_MEMORY_START) / (PAGE_SIZE as int),
            r.free == MAX_PHYS_PAGES - r.reserved,
            forall|q: int| 0 <= q < r.reserved ==> (#[trigger] r.frames@[q]).state == PageState::Reserved,
            forall|q: int| r.reserved <= q < MAX_PHYS_PAGES ==> (#[trigger] r.frames@[q]).state == PageState::Free,
    {
        let heap_start = align_up(kernel_end, PAGE_SIZE);
        assert(heap_start == page_end_of(kernel_end as int)) by (nonlinear_arith)
            requires
                heap_start % 4096 == 0,
                kernel_end <= heap_start < kernel_end + 4096,
        ;
        let reserved_pages = (heap_start - PHYS_MEMORY_START) / PAGE_SIZE;
        let free_pages = MAX_PHYS_PAGES - reserved_pages;
        let mut frames: Vec<PageFrame> = Vec::new();
        while frames.len() < MAX_PHYS_PAGES
            invariant
                frames@.len() <= MAX_PHYS_PAGES,
                forall|q: int| 0 <= q < frames@.len() ==> (#[trigger] frames@[q]).state == PageState::Reserved,
            decreases MAX_PHYS_PAGES - frames@.len(),
        {
            frames.push(PageFrame::reserved());
        }
        let mut free_areas: Vec<Vec<usize>> = Vec::new();
        while free_areas.len() < MAX_ORDER
            invariant
                free_areas@.len() <= MAX_ORDER,
                forall|o: int| 0 <= o < free_areas@.len() ==> (#[trigger] free_areas@[o])@.len() == 0,
            decreases MAX_ORDER - free_areas@.len(),
        {
            free_areas.push(Vec::new());
        }
        let mut a = PageAllocator {
            frames,
            free_areas,
            heap_start,
            high_water: heap_start,
            allocated: 0,
            free: 0,
            reserved: MAX_PHYS_PAGES,
        };
        proof {
            assert forall|o: int| 0 <= o < MAX_ORDER implies (#[trigger] a.free_areas@[o])@.no_duplicates() by {
                assert(a.free_areas@[o]@.len() == 0);
            }
            assert forall|q: int| reserved_pages <= q < reserved_pages + free_pages implies (#[trigger] a.frames@[q]).state == PageState::Reserved && !a.covered(q) by {
                if a.covered(q) {
                    let (o, k) = choose|o: int, k: int|
                        0 <= o < MAX_ORDER && 0 <= k < a.free_areas@[o]@.len() && #[trigger] a.free_areas@[o]@[k] <= q < a.free_areas@[o]@[k] + pow2(o as nat);
                    assert(a.free_areas@[o]@.len() == 0);
                }
            }
            lemma_count_reserved(a.frames@, MAX_PHYS_PAGES as int);
        }
        a.add_free_range(reserved_pages, free_pages, PageState::Reserved);
        a.free = free_pages;
        a.reserved = reserved_pages;
        proof {
            assert forall|q: int| 0 <= q < reserved_pages implies (#[trigger] a.frames@[q]).state == PageState::Reserved by {
            }
        }
        a
    }
}

proof fn lemma_count_reserved(s: Seq<PageFrame>, n: int)
    requires
        0 <= n <= s.len(),
        forall|q: int| 0 <= q < s.len() ==> (#[trigger] s[q]).state == PageState::Reserved,
    ensures
        count_state(s, PageState::Reserved, n) == n,
        count_state(s, PageState::Free, n) == 0,
        count_state(s, PageState::Used, n) == 0,
    decreases n,
{
    if n > 0 {
        lemma_count_reserved(s, n - 1);
    }
}

/// `v` rounded up to a whole page.
pub open spec fn page_end_of(v: int) -> int {
    ((v + 4095) / 4096) * 4096
}

/// The range of `size` bytes at `start` can be reserved: its whole pages
/// lie in RAM and none of them is allocated.
pub open spec fn reservable(a: PageAllocator, start: int, size: int) -> bool {
    let first = start - start % 4096;
    let end = page_end_of(start + size);
    &&& start + size + 4095 <= usize::MAX
    &&& PHYS_MEMORY_START <= first
    &&& end <= PHYS_MEMORY_END
    &&& forall|q: int| (first - PHYS_MEMORY_START) / 4096 <= q < (end - PHYS_MEMORY_START) / 4096 ==> (#[trigger] a.frames@[q]).state != PageState::Used
}

impl PageAllocator {
    /// Lists every run of free pages anew, each cut into the largest
    /// aligned blocks.
    fn rebuild_free_areas(&mut self)
        requires
            old(self).frames@.len() == MAX_PHYS_PAGES,
            old(self).free_areas@.len() == MAX_ORDER,
            forall|o: int| 0 <= o < MAX_ORDER ==> (#[trigger] old(self).free_areas@[o])@.len() == 0,
        ensures
            final(self).shape_ok(),
            forall|q: int| 0 <= q < MAX_PHYS_PAGES ==> (#[trigger] final(self).frames@[q]).state == old(self).frames@[q].state,
            forall|q: int| 0 <= q < MAX_PHYS_PAGES && (#[trigger] final(self).frames@[q]).state == PageState::Free ==> final(self).covered(q),
            forall|st: PageState| #[trigger] count_state(final(self).frames@, st, MAX_PHYS_PAGES as int) == count_state(old(self).frames@, st, MAX_PHYS_PAGES as int),
            final(self).heap_start == old(self).heap_start && final(self).high_water == old(self).high_water,
            final(self).allocated == old(self).allocated && final(self).free == old(self).free && final(self).reserved == old(self).reserved,
    {
        let ghost orig = *self;
        proof {
            assert forall|o: int| 0 <= o < MAX_ORDER implies (#[trigger] self.free_areas@[o])@.no_duplicates() by {
                assert(self.free_areas@[o]@.len() == 0);
            }
        }
        let mut pfn: usize = 0;
        while pfn < MAX_PHYS_PAGES
            invariant
                self.shape_ok(),
                pfn <= MAX_PHYS_PAGES,
                forall|o: int, k: int| 0 <= o < MAX_ORDER && 0 <= k < self.free_areas@[o]@.len() ==> #[trigger] self.free_areas@[o]@[k] + pow2(o as nat) <= pfn,
                forall|q: int| 0 <= q < MAX_PHYS_PAGES ==> (#[trigger] self.frames@[q]).state == orig.frames@[q].state,
                forall|q: int| 0 <= q < pfn && (#[trigger] self.frames@[q]).state == PageState::Free ==> self.covered(q),
                forall|st: PageState| #[trigger] count_state(self.frames@, st, MAX_PHYS_PAGES as int) == count_state(orig.frames@, st, MAX_PHYS_PAGES as int),
                self.heap_start == orig.heap_start && self.high_water == orig.high_water,
                self.allocated == orig.allocated && self.free == orig.free && self.reserved == orig.reserved,
            decreases MAX_PHYS_PAGES - pfn,
        {
            if self.frames[pfn].state != PageState::Free {
                pfn += 1;
            } else {
                let start = pfn;
                while pfn < MAX_PHYS_PAGES && self.frames[pfn].state == PageState::Free
                    invariant
                        self.shape_ok(),
                        start <= pfn <= MAX_PHYS_PAGES,
                        forall|q: int| start <= q < pfn ==> (#[trigger] self.frames@[q]).state == PageState::Free,
                    decreases MAX_PHYS_PAGES - pfn,
                {
                    pfn += 1;
                }
                let ghost before = *self;
                proof {
                    assert forall|q: int| start <= q < start + (pfn - start) implies (#[trigger] self.frames@[q]).state == PageState::Free && !self.covered(q) by {
                        if self.covered(q) {
                            let (o, k) = choose|o: int, k: int|
                                0 <= o < MAX_ORDER && 0 <= k < self.free_areas@[o]@.len() && #[trigger] self.free_areas@[o]@[k] <= q < self.free_areas@[o]@[k] + pow2(o as nat);
                        }
                    }
                }
                self.add_free_range(start, pfn - start, PageState::Free);
                proof {
                    assert forall|o: int, k: int| 0 <= o < MAX_ORDER && 0 <= k < self.free_areas@[o]@.len() implies #[trigger] self.free_areas@[o]@[k] + pow2(o as nat) <= pfn by {
                        let x = self.free_areas@[o]@[k];
                        if before.free_areas@[o]@.contains(x) {
                            let j = choose|j: int| 0 <= j < before.free_areas@[o]@.len() && before.free_areas@[o]@[j] == x;
                            assert(before.free_areas@[o]@[j] + pow2(o as nat) <= start);
                        }
                    }
                    assert forall|q: int| 0 <= q < MAX_PHYS_PAGES implies (#[trigger] self.frames@[q]).state == orig.frames@[q].state by {
                        assert(before.frames@[q].state == orig.frames@[q].state);
                    }
                    assert forall|q: int| 0 <= q < pfn && (#[trigger] self.frames@[q]).state == PageState::Free implies self.covered(q) by {
                        if q < start {
                            assert(before.frames@[q].state == PageState::Free);
                            assert(before.covered(q));
                            let (o, k) = choose|o: int, k: int|
                                0 <= o < MAX_ORDER && 0 <= k < before.free_areas@[o]@.len() && #[trigger] before.free_areas@[o]@[k] <= q < before.free_areas@[o]@[k] + pow2(o as nat);
                            let x = before.free_areas@[o]@[k];
                            assert(before.free_areas@[o]@.contains(x));
                            assert(self.free_areas@[o]@.contains(x));
                            let j = choose|j: int| 0 <= j < self.free_areas@[o]@.len() && self.free_areas@[o]@[j] == x;
                            assert(self.free_areas@[o]@[j] <= q < self.free_areas@[o]@[j] + pow2(o as nat));
                        }
                    }
                }
            }
        }
    }

    /// Whether `reserve_range(start, size)` may be called.
    pub fn can_reserve(&self, start: usize, size: usize) -> (r: bool)
        requires
            self.wf(),
        ensures
            r == (size == 0 || reservable(*self, start as int, size as int)),
    {
        if size == 0 {
            return true;
        }
        if start > usize::MAX - 4095 || size > usize::MAX - 4095 - start {
            return false;
        }
        let first = align_down_page(start);
        let end = align_up(start + size, PAGE_SIZE);
        assert(end == page_end_of(start + size)) by (nonlinear_arith)
            requires
                end % 4096 == 0,
                start + size <= end < start + size + 4096,
        ;
        if first < PHYS_MEMORY_START || end > PHYS_MEMORY_END {
            return false;
        }
        let lo = (first - PHYS_MEMORY_START) / PAGE_SIZE;
        let hi = (end - PHYS_MEMORY_START) / PAGE_SIZE;
        assert(hi <= MAX_PHYS_PAGES);
        let mut q = lo;
        while q < hi
            invariant
                self.wf(),
                lo <= q <= hi <= MAX_PHYS_PAGES,
                size != 0,
                start + size + 4095 <= usize::MAX,
                first == start - start % 4096,
                end == page_end_of(start + size),
                PHYS_MEMORY_START <= first,
                end <= PHYS_MEMORY_END,
                lo == (first - PHYS_MEMORY_START) / 4096,
                hi == (end - PHYS_MEMORY_START) / 4096,
                forall|j: int| lo <= j < q ==> (#[trigger] self.frames@[j]).state != PageState::Used,
            decreases hi - q,
        {
            if self.frames[q].state == PageState::Used {
                return false;
            }
            q += 1;
        }
        true
    }

    /// Keeps the whole pages the `size` bytes at `start` touch from ever
    /// being handed out: free ones become reserved.
    pub fn reserve_range(&mut self, start: usize, size: usize)
        requires
            old(self).wf(),
            size == 0 || reservable(*old(self), start as int, size as int),
        ensures
            final(self).wf(),
            final(self).heap_start == old(self).heap_start && final(self).high_water == old(self).high_water,
            size == 0 ==> *final(self) == *old(self),
            size != 0 ==> {
                let lo = ((start - start % 4096) - PHYS_MEMORY_START) / 4096;
                let hi = (page_end_of(start + size) - PHYS_MEMORY_START) / 4096;
                &&& forall|q: int| lo <= q < hi ==> (#[trigger] final(self).frames@[q]).state == PageState::Reserved
                &&& forall|q: int| 0 <= q < MAX_PHYS_PAGES && !(lo <= q < hi) ==> (#[trigger] final(self).frames@[q]).state == old(self).frames@[q].state
            },
    {
        if size == 0 {
            return;
        }
        let first = align_down_page(start);
        let end = align_up(start + size, PAGE_SIZE);
        assert(end == page_end_of(start + size)) by (nonlinear_arith)
            requires
                end % 4096 == 0,
                start + size <= end < start + size + 4096,
        ;
        let lo = (first - PHYS_MEMORY_START) / PAGE_SIZE;
        let hi = (end - PHYS_MEMORY_START) / PAGE_SIZE;
        let ghost orig = *self;
        let mut lists: Vec<Vec<usize>> = Vec::new();
        while lists.len() < MAX_ORDER
            invariant
                lists@.len() <= MAX_ORDER,
                forall|o: int| 0 <= o < lists@.len() ==> (#[trigger] lists@[o])@.len() == 0,
            decreases MAX_ORDER - lists@.len(),
        {
            lists.push(Vec::new());
        }
        self.free_areas = lists;
        let mut q = lo;
        while q < hi
            invariant
                lo <= q <= hi <= MAX_PHYS_PAGES,
                self.frames@.len() == MAX_PHYS_PAGES,
                self.free_areas@.len() == MAX_ORDER,
                forall|o: int| 0 <= o < MAX_ORDER ==> (#[trigger] self.free_areas@[o])@.len() == 0,
                forall|j: int| lo <= j < hi ==> (#[trigger] orig.frames@[j]).state != PageState::Used,
                forall|j: int| lo <= j < q ==> (#[trigger] self.frames@[j]).state == PageState::Reserved,
                forall|j: int| 0 <= j < MAX_PHYS_PAGES && !(lo <= j < q) ==> #[trigger] self.frames@[j] == orig.frames@[j],
                self.free == count_state(self.frames@, PageState::Free, MAX_PHYS_PAGES as int),
                self.allocated == count_state(self.frames@, PageState::Used, MAX_PHYS_PAGES as int),
                self.reserved == count_state(self.frames@, PageState::Reserved, MAX_PHYS_PAGES as int),
                self.heap_start == orig.heap_start && self.high_water == orig.high_water,
            decreases hi - q,
        {
            if self.frames[q].state == PageState::Free {
                let ghost before = self.frames@;
                proof {
                    lemma_count_update(before, PageState::Free, MAX_PHYS_PAGES as int, q as int, PageFrame { state: PageState::Reserved, order: 0, ref_count: 0, flags: 0 });
                    lemma_count_update(before, PageState::Reserved, MAX_PHYS_PAGES as int, q as int, PageFrame { state: PageState::Reserved, order: 0, ref_count: 0, flags: 0 });
                    lemma_count_update(before, PageState::Used, MAX_PHYS_PAGES as int, q as int, PageFrame { state: PageState::Reserved, order: 0, ref_count: 0, flags: 0 });
                    lemma_count_total(before, MAX_PHYS_PAGES as int);
                    lemma_count_bounds(before, PageState::Reserved, MAX_PHYS_PAGES as int);
                    lemma_count_bounds(before.update(q as int, PageFrame { state: PageState::Reserved, order: 0, ref_count: 0, flags: 0 }), PageState::Free, MAX_PHYS_PAGES as int);
                }
                self.frames.set(q, PageFrame::reserved());
                self.reserved = self.reserved + 1;
                self.free = self.free - 1;
            }
            q += 1;
        }
        self.rebuild_free_areas();
    }
}

/// `v` rounded down to a page.
fn align_down_page(v: usize) -> (r: usize)
    ensures
        r == v - v % 4096,
{
    v - v % PAGE_SIZE
}

impl PageAllocator {
    pub fn heap_start(&self) -> (r: usize)
        ensures
            r == self.heap_start,
    {
        self.heap_start
    }

    pub fn allocated_pages(&self) -> (r: usize)
        ensures
            r == self.allocated,
    {
        self.allocated
    }

    pub fn free_page_count(&self) -> (r: usize)
        ensures
            r == self.free,
    {
        self.free
    }

    pub fn reserved_pages(&self) -> (r: usize)
        ensures
            r == self.reserved,
    {
        self.reserved
    }

    /// The end of the highest block handed out so far.
    pub fn next_free(&self) -> (r: usize)
        ensures
            r == self.high_water,
    {
        self.high_water
    }

    /// How many free blocks of order `order` are listed; none past the
    /// largest order.
    pub fn buddy_order_count(&self, order: usize) -> (r: usize)
        requires
            self.wf(),
        ensures
            order >= MAX_ORDER ==> r == 0,
            order < MAX_ORDER ==> r == self.free_areas@[order as int]@.len(),
    {
        if order >= MAX_ORDER {
            return 0;
        }
        self.free_areas[order].len()
    }

    /// The number of free blocks listed over all orders (at most
    /// `usize::MAX`).
    pub fn free_ranges(&self) -> (r: usize)
        requires
            self.wf(),
        ensures
            r == (if listed_blocks(self.free_areas@, MAX_ORDER as int) > usize::MAX { usize::MAX as int } else { listed_blocks(self.free_areas@, MAX_ORDER as int) }),
    {
        let mut total: usize = 0;
        let mut o: usize = 0;
        while o < MAX_ORDER
            invariant
                self.wf(),
                o <= MAX_ORDER,
                total == (if listed_blocks(self.free_areas@, o as int) > usize::MAX { usize::MAX as int } else { listed_blocks(self.free_areas@, o as int) }),
            decreases MAX_ORDER - o,
        {
            proof {
                lemma_listed_blocks_mono(self.free_areas@, o as int);
            }
            total = total.saturating_add(self.free_areas[o].len());
            o += 1;
        }
        total
    }

    /// The largest order with a free block listed.
    pub fn largest_free_order(&self) -> (r: Option<usize>)
        requires
            self.wf(),
        ensures
            r matches Some(o) ==> o < MAX_ORDER && self.free_areas@[o as int]@.len() > 0 && forall|c: int| o < c < MAX_ORDER ==> (#[trigger] self.free_areas@[c])@.len() == 0,
            r is None ==> forall|c: int| 0 <= c < MAX_ORDER ==> (#[trigger] self.free_areas@[c])@.len() == 0,
    {
        let mut o: usize = MAX_ORDER;
        while o > 0
            invariant
                self.wf(),
                o <= MAX_ORDER,
                forall|c: int| o <= c < MAX_ORDER ==> (#[trigger] self.free_areas@[c])@.len() == 0,
            decreases o,
        {
            if self.free_areas[o - 1].len() != 0 {
                return Some(o - 1);
            }
            o -= 1;
        }
        None
    }

    /// The state of the page holding `addr`, when it is in RAM.
    pub fn page_state(&self, addr: usize) -> (r: Option<PageState>)
        requires
            self.wf(),
        ensures
            match pfn_of(addr as int) {
                Some(p) => r == Some(self.frames@[p].state),
                None => r is None,
            },
    {
        match addr_to_pfn(addr) {
            Some(p) => Some(self.frames[p].state),
            None => None,
        }
    }

    /// What the allocator knows of the page holding `addr`, when it is in RAM.
    pub fn page_frame(&self, addr: usize) -> (r: Option<PageFrame>)
        requires
            self.wf(),
        ensures
            match pfn_of(addr as int) {
                Some(p) => r == Some(self.frames@[p]),
                None => r is None,
            },
    {
        match addr_to_pfn(addr) {
            Some(p) => Some(self.frames[p]),
            None => None,
        }
    }
}

/// The number of blocks on the first `n` lists.
pub open spec fn listed_blocks(lists: Seq<Vec<usize>>, n: int) -> int
    decreases n,
{
    if n <= 0 {
        0
    } else {
        listed_blocks(lists, n - 1) + lists[n - 1]@.len()
    }
}

proof fn lemma_listed_blocks_mono(lists: Seq<Vec<usize>>, n: int)
    requires
        0 <= n,
    ensures
        0 <= listed_blocks(lists, n),
    decreases n,
{
    if n > 0 {
        lemma_listed_blocks_mono(lists, n - 1);
    }
}

/// Every page is free, allocated or reserved, so the three counts always
/// add up to the pages of RAM.
pub proof fn lemma_pages_accounted(a: PageAllocator)
    requires
        a.wf(),
    ensures
        a.allocated + a.free + a.reserved == MAX_PHYS_PAGES,
{
    lemma_count_total(a.frames@, MAX_PHYS_PAGES as int);
}

/// A block just allocated can be freed again, and freeing it brings every
/// page state and every count back to what they were before the
/// allocation.
pub proof fn lemma_alloc_free_round_trip(a0: PageAllocator, a1: PageAllocator, a2: PageAllocator, pages: int, addr: int)
    requires
        a0.wf(),
        a1.wf(),
        allocated_block(a0, a1, pages, addr),
        freed_block(a1, a2, addr, pages),
    ensures
        freeable(a1, addr, pages),
        forall|q: int| 0 <= q < MAX_PHYS_PAGES ==> (#[trigger] a2.frames@[q]).state == a0.frames@[q].state,
        a2.allocated == a0.allocated && a2.free == a0.free && a2.reserved == a0.reserved,
{
    let o = order_spec(pages);
    let pfn = (addr - PHYS_MEMORY_START) / (PAGE_SIZE as int);
    assert(has_order(pages));
    assert forall|q: int| pfn <= q < pfn + pow2(o as nat) implies (#[trigger] a1.frames@[q]).state == PageState::Used by {
        assert(a0.frames@[q].state == PageState::Free);
    }
    assert(addr % (PAGE_SIZE as int) == 0) by (nonlinear_arith)
        requires
            addr == PHYS_MEMORY_START + pfn * PAGE_SIZE,
            PHYS_MEMORY_START == 0x4000_0000,
    ;
    assert(addr + pow2(o as nat) * PAGE_SIZE <= PHYS_MEMORY_END) by (nonlinear_arith)
        requires
            addr == PHYS_MEMORY_START + pfn * PAGE_SIZE,
            pfn + pow2(o as nat) <= MAX_PHYS_PAGES,
            PHYS_MEMORY_START == 0x4000_0000,
            PHYS_MEMORY_END == 0x4800_0000,
            MAX_PHYS_PAGES == 32768,
    ;
    assert forall|q: int| 0 <= q < MAX_PHYS_PAGES implies (#[trigger] a2.frames@[q]).state == a0.frames@[q].state by {
        if pfn <= q < pfn + pow2(o as nat) {
            assert(a0.frames@[q].state == PageState::Free);
        } else {
            assert(a1.frames@[q].state == a0.frames@[q].state);
        }
    }
}

} // verus!
