use vstd::prelude::*;

use crate::kernel::address::{align_down, align_up, DEVICE_HIGH_BASE, KERNEL_HIGH_BASE};
use crate::platform::fdt::BootInfo;
use crate::platform::initrd::page_end;

use crate::arch::aarch32::mmu::{AP_USER_RO, AP_USER_RW, L1_DESC_PAGE_TABLE, SMALL_PAGE_AP0_SHIFT, SMALL_PAGE_AP2_SHIFT, SMALL_PAGE_DESC, UserMapping};

verus! {

pub const L1_ENTRIES: usize = 4096;
pub const L2_ENTRIES: usize = 256;
pub const L2_TABLES: usize = 384;
pub const SMALL_PAGE_B: u32 = 4;
pub const SMALL_PAGE_C: u32 = 8;
pub const SMALL_PAGE_TEX_SHIFT: u32 = 6;
pub const SMALL_PAGE_SHAREABLE: u32 = 1024;
pub const SMALL_PAGE_NG: u32 = 2048;
pub const SMALL_PAGE_XN: u32 = 1;
pub const SMALL_PAGE_BASE_MASK: u32 = 0xffff_f000;
pub const L2_TABLE_MASK: u32 = 0xffff_fc00;
pub const AP_PRIV_RW: u32 = 0b01;
pub const AP_PRIV_RO: u32 = 0b101;

/// The size of the address space the tables describe.
pub open spec fn space_end() -> int {
    0x1_0000_0000
}

/// The access permission field `ap` placed in a small page descriptor.
pub open spec fn ap_bits(ap: u32) -> u32 {
    ((ap & 0b11) << SMALL_PAGE_AP0_SHIFT) | (((ap >> 2u32) & 1) << SMALL_PAGE_AP2_SHIFT)
}

/// The attribute bits of a small page descriptor: type, access, memory
/// type and sharing.
#[derive(Clone, Copy, PartialEq, Eq, Structural, Debug)]
pub struct PageAttrs {
    pub bits: u32,
}

/// Write-back cacheable normal memory (TEX 001, C, B).
pub open spec fn normal_memory() -> u32 {
    (0b001u32 << SMALL_PAGE_TEX_SHIFT) | SMALL_PAGE_C | SMALL_PAGE_B
}

impl PageAttrs {
    pub fn normal_rw_xn() -> (r: Self)
        ensures
            r.bits == SMALL_PAGE_DESC | SMALL_PAGE_XN | ap_bits(AP_PRIV_RW) | normal_memory() | SMALL_PAGE_SHAREABLE,
    {
        PageAttrs {
            bits: SMALL_PAGE_DESC | SMALL_PAGE_XN | (((AP_PRIV_RW & 0b11) << SMALL_PAGE_AP0_SHIFT) | (((AP_PRIV_RW
                >> 2u32) & 1) << SMALL_PAGE_AP2_SHIFT)) | ((0b001u32 << SMALL_PAGE_TEX_SHIFT) | SMALL_PAGE_C
                | SMALL_PAGE_B) | SMALL_PAGE_SHAREABLE,
        }
    }

    pub fn normal_rx() -> (r: Self)
        ensures
            r.bits == SMALL_PAGE_DESC | ap_bits(AP_PRIV_RO) | normal_memory() | SMALL_PAGE_SHAREABLE,
    {
        PageAttrs {
            bits: SMALL_PAGE_DESC | (((AP_PRIV_RO & 0b11) << SMALL_PAGE_AP0_SHIFT) | (((AP_PRIV_RO >> 2u32) & 1)
                << SMALL_PAGE_AP2_SHIFT)) | ((0b001u32 << SMALL_PAGE_TEX_SHIFT) | SMALL_PAGE_C | SMALL_PAGE_B)
                | SMALL_PAGE_SHAREABLE,
        }
    }

    pub fn normal_ro_xn() -> (r: Self)
        ensures
            r.bits == SMALL_PAGE_DESC | SMALL_PAGE_XN | ap_bits(AP_PRIV_RO) | normal_memory() | SMALL_PAGE_SHAREABLE,
    {
        PageAttrs {
            bits: SMALL_PAGE_DESC | SMALL_PAGE_XN | (((AP_PRIV_RO & 0b11) << SMALL_PAGE_AP0_SHIFT) | (((AP_PRIV_RO
                >> 2u32) & 1) << SMALL_PAGE_AP2_SHIFT)) | ((0b001u32 << SMALL_PAGE_TEX_SHIFT) | SMALL_PAGE_C
                | SMALL_PAGE_B) | SMALL_PAGE_SHAREABLE,
        }
    }

    pub fn device_rw_xn() -> (r: Self)
        ensures
            r.bits == SMALL_PAGE_DESC | SMALL_PAGE_XN | ap_bits(AP_PRIV_RW) | SMALL_PAGE_B | SMALL_PAGE_SHAREABLE
                | SMALL_PAGE_NG,
    {
        PageAttrs {
            bits: SMALL_PAGE_DESC | SMALL_PAGE_XN | (((AP_PRIV_RW & 0b11) << SMALL_PAGE_AP0_SHIFT) | (((AP_PRIV_RW
                >> 2u32) & 1) << SMALL_PAGE_AP2_SHIFT)) | SMALL_PAGE_B | SMALL_PAGE_SHAREABLE | SMALL_PAGE_NG,
        }
    }

    pub fn user_rx() -> (r: Self)
        ensures
            r.bits == SMALL_PAGE_DESC | ap_bits(AP_USER_RO) | normal_memory() | SMALL_PAGE_SHAREABLE | SMALL_PAGE_NG,
    {
        PageAttrs {
            bits: SMALL_PAGE_DESC | (((AP_USER_RO & 0b11) << SMALL_PAGE_AP0_SHIFT) | (((AP_USER_RO >> 2u32) & 1)
                << SMALL_PAGE_AP2_SHIFT)) | ((0b001u32 << SMALL_PAGE_TEX_SHIFT) | SMALL_PAGE_C | SMALL_PAGE_B)
                | SMALL_PAGE_SHAREABLE | SMALL_PAGE_NG,
        }
    }

    pub fn user_ro_xn() -> (r: Self)
        ensures
            r.bits == SMALL_PAGE_DESC | SMALL_PAGE_XN | ap_bits(AP_USER_RO) | normal_memory() | SMALL_PAGE_SHAREABLE
                | SMALL_PAGE_NG,
    {
        PageAttrs {
            bits: SMALL_PAGE_DESC | SMALL_PAGE_XN | (((AP_USER_RO & 0b11) << SMALL_PAGE_AP0_SHIFT) | (((AP_USER_RO
                >> 2u32) & 1) << SMALL_PAGE_AP2_SHIFT)) | ((0b001u32 << SMALL_PAGE_TEX_SHIFT) | SMALL_PAGE_C
                | SMALL_PAGE_B) | SMALL_PAGE_SHAREABLE | SMALL_PAGE_NG,
        }
    }

    pub fn user_rw_xn() -> (r: Self)
        ensures
            r.bits == SMALL_PAGE_DESC | SMALL_PAGE_XN | ap_bits(AP_USER_RW) | normal_memory() | SMALL_PAGE_SHAREABLE
                | SMALL_PAGE_NG,
    {
        PageAttrs {
            bits: SMALL_PAGE_DESC | SMALL_PAGE_XN | (((AP_USER_RW & 0b11) << SMALL_PAGE_AP0_SHIFT) | (((AP_USER_RW
                >> 2u32) & 1) << SMALL_PAGE_AP2_SHIFT)) | ((0b001u32 << SMALL_PAGE_TEX_SHIFT) | SMALL_PAGE_C
                | SMALL_PAGE_B) | SMALL_PAGE_SHAREABLE | SMALL_PAGE_NG,
        }
    }
}

/// The attributes user pages of each kind get.
pub fn user_attrs(mapping: UserMapping) -> (r: PageAttrs)
    ensures
        mapping == UserMapping::Rx ==> r.bits == SMALL_PAGE_DESC | ap_bits(AP_USER_RO) | normal_memory()
            | SMALL_PAGE_SHAREABLE | SMALL_PAGE_NG,
        mapping == UserMapping::RoData ==> r.bits == SMALL_PAGE_DESC | SMALL_PAGE_XN | ap_bits(AP_USER_RO)
            | normal_memory() | SMALL_PAGE_SHAREABLE | SMALL_PAGE_NG,
        (mapping == UserMapping::RwData || mapping == UserMapping::Stack) ==> r.bits == SMALL_PAGE_DESC
            | SMALL_PAGE_XN | ap_bits(AP_USER_RW) | normal_memory() | SMALL_PAGE_SHAREABLE | SMALL_PAGE_NG,
{
    match mapping {
        UserMapping::Rx => PageAttrs::user_rx(),
        UserMapping::RoData => PageAttrs::user_ro_xn(),
        UserMapping::RwData | UserMapping::Stack => PageAttrs::user_rw_xn(),
    }
}

/// The small page descriptor that maps the page at physical `phys`.
pub open spec fn page_desc(phys: int, attrs: PageAttrs) -> u32 {
    ((phys as u32) & SMALL_PAGE_BASE_MASK) | attrs.bits
}

/// The level-1 descriptor of level-2 table `t` of a store at `base`.
pub open spec fn table_desc(base: u32, t: int) -> u32 {
    (((base + t * 1024) as u32) & L2_TABLE_MASK) | L1_DESC_PAGE_TABLE
}

proof fn lemma_table_desc(base: u32, t: int)
    requires
        base % 1024 == 0,
        0 <= t < L2_TABLES,
        base + L2_TABLES * 1024 <= space_end(),
    ensures
        table_desc(base, t) & 0b11 == L1_DESC_PAGE_TABLE,
        (table_desc(base, t) & L2_TABLE_MASK) == base + t * 1024,
{
    let a: u32 = (base + t * 1024) as u32;
    assert(a == base + t * 1024);
    assert(a % 1024 == 0) by (nonlinear_arith)
        requires
            a == base + t * 1024,
            base % 1024 == 0,
    ;
    assert((((a & 0xffff_fc00u32) | 1u32) & 3u32) == 1u32 && (((a & 0xffff_fc00u32) | 1u32) & 0xffff_fc00u32) == a)
        by (bit_vector)
        requires
            a % 1024 == 0,
    ;
}

/// A page number splits into its level-1 index and its place in the
/// level-2 table.
proof fn lemma_page_index(v: int)
    requires
        0 <= v,
    ensures
        v / 4096 == (v / 0x10_0000) * 256 + (v / 4096) % 256,
        0 <= (v / 4096) % 256 < 256,
{
    assert(v / 4096 == (v / 0x10_0000) * 256 + (v / 4096) % 256) by (nonlinear_arith)
        requires
            0 <= v,
    {
        assert(v / 0x10_0000 == (v / 4096) / 256) by (nonlinear_arith)
            requires
                0 <= v,
        ;
    }
}

/// The kernel's translation tables: the level-1 table and a fixed store
/// of level-2 tables, the first of which lies at physical `l2_base`.
pub struct PageTables {
    pub l1: Vec<u32>,
    pub l2: Vec<Vec<u32>>,
    pub l2_used: Vec<bool>,
    pub l2_base: u32,
}

impl PageTables {
    /// The level-2 table that level-1 entry `i` points to.
    pub open spec fn table_of(&self, i: int) -> Option<int> {
        let e = self.l1@[i];
        if e & 0b11 == L1_DESC_PAGE_TABLE {
            Some((((e & L2_TABLE_MASK) - self.l2_base) / 1024) as int)
        } else {
            None
        }
    }

    /// Every level-1 entry that points to a table names a distinct table
    /// in use; unused tables are blank.
    pub open spec fn wf(&self) -> bool {
        &&& self.l1@.len() == L1_ENTRIES
        &&& self.l2@.len() == L2_TABLES
        &&& self.l2_used@.len() == L2_TABLES
        &&& self.l2_base % 1024 == 0
        &&& self.l2_base + L2_TABLES * 1024 <= space_end()
        &&& forall|t: int| 0 <= t < L2_TABLES ==> (#[trigger] self.l2@[t])@.len() == L2_ENTRIES
        &&& forall|t: int, k: int|
            0 <= t < L2_TABLES && !self.l2_used@[t] && 0 <= k < L2_ENTRIES ==> (#[trigger] self.l2@[t]@[k]) == 0
        &&& forall|i: int|
            0 <= i < L1_ENTRIES && (#[trigger] self.table_of(i)) is Some ==> {
                let t = self.table_of(i)->Some_0;
                &&& 0 <= t < L2_TABLES
                &&& self.l2_used@[t]
                &&& self.l1@[i] == table_desc(self.l2_base, t)
            }
        &&& forall|i: int, j: int|
            0 <= i < L1_ENTRIES && 0 <= j < L1_ENTRIES && i != j && (#[trigger] self.table_of(i)) is Some
                && (#[trigger] self.table_of(j)) is Some ==> self.table_of(i) != self.table_of(j)
    }

    /// The level-2 table that covers address `v`.
    pub open spec fn table_for(&self, v: int) -> Option<int> {
        self.table_of(v / 0x10_0000)
    }

    /// Every level-2 table of the store is in use.
    pub open spec fn tables_exhausted(&self) -> bool {
        forall|t: int| 0 <= t < L2_TABLES ==> #[trigger] self.l2_used@[t]
    }

    /// The level-2 entry that translates the page holding `virt`; zero
    /// (a fault) where no table covers it.
    pub open spec fn entry(&self, virt: int) -> u32 {
        match self.table_of(virt / 0x10_0000) {
            Some(t) => self.l2@[t]@[(virt / 4096) % 256],
            None => 0,
        }
    }


    /// Blank tables whose level-2 store starts at `l2_base`.
    pub fn new(l2_base: u32) -> (r: Self)
        requires
            l2_base % 1024 == 0,
            l2_base + L2_TABLES * 1024 <= space_end(),
        ensures
            r.wf(),
            r.l2_base == l2_base,
            forall|v: int| 0 <= v < space_end() ==> #[trigger] r.entry(v) == 0,
            forall|t: int| 0 <= t < L2_TABLES ==> !(#[trigger] r.l2_used@[t]),
    {
        let mut l1: Vec<u32> = Vec::new();
        while l1.len() < L1_ENTRIES
            invariant
                l1@.len() <= L1_ENTRIES,
                forall|i: int| 0 <= i < l1@.len() ==> #[trigger] l1@[i] == 0,
            decreases L1_ENTRIES - l1@.len(),
        {
            l1.push(0);
        }
        let mut l2: Vec<Vec<u32>> = Vec::new();
        let mut l2_used: Vec<bool> = Vec::new();
        while l2.len() < L2_TABLES
            invariant
                l2@.len() == l2_used@.len(),
                l2@.len() <= L2_TABLES,
                forall|t: int| 0 <= t < l2@.len() ==> (#[trigger] l2@[t])@.len() == L2_ENTRIES,
                forall|t: int, k: int| 0 <= t < l2@.len() && 0 <= k < L2_ENTRIES ==> (#[trigger] l2@[t]@[k]) == 0,
                forall|t: int| 0 <= t < l2_used@.len() ==> !(#[trigger] l2_used@[t]),
            decreases L2_TABLES - l2@.len(),
        {
            let mut table: Vec<u32> = Vec::new();
            while table.len() < L2_ENTRIES
                invariant
                    table@.len() <= L2_ENTRIES,
                    forall|k: int| 0 <= k < table@.len() ==> #[trigger] table@[k] == 0,
                decreases L2_ENTRIES - table@.len(),
            {
                table.push(0);
            }
            l2.push(table);
            l2_used.push(false);
        }
        let r = PageTables { l1, l2, l2_used, l2_base };
        assert forall|i: int| 0 <= i < L1_ENTRIES implies (#[trigger] r.table_of(i)) is None by {
            assert(r.l1@[i] == 0);
            assert((0u32 & 3u32) == 0u32) by (bit_vector);
        }
        r
    }

    /// The first level-2 table not in use.
    fn free_table(&self) -> (r: Option<usize>)
        requires
            self.wf(),
        ensures
            r matches Some(t) ==> t < L2_TABLES && !self.l2_used@[t as int],
            r is None ==> forall|t: int| 0 <= t < L2_TABLES ==> #[trigger] self.l2_used@[t],
    {
        let mut t: usize = 0;
        while t < L2_TABLES
            invariant
                self.wf(),
                t <= L2_TABLES,
                forall|u: int| 0 <= u < t ==> #[trigger] self.l2_used@[u],
            decreases L2_TABLES - t,
        {
            if !self.l2_used[t] {
                return Some(t);
            }
            t += 1;
        }
        None
    }

    /// The level-2 table behind level-1 entry `index`, set up blank when
    /// there is none; none when every table is in use.
    fn ensure_l2(&mut self, index: usize) -> (r: Option<usize>)
        requires
            old(self).wf(),
            index < L1_ENTRIES,
        ensures
            final(self).wf(),
            final(self).l2_base == old(self).l2_base,
            forall|v: int| 0 <= v < space_end() ==> #[trigger] final(self).entry(v) == old(self).entry(v),
            r matches Some(t) ==> t < L2_TABLES && final(self).table_of(index as int) == Some(t as int),
            r is None ==> *final(self) == *old(self),
            r is None ==> old(self).table_of(index as int) is None && forall|t: int| 0 <= t < L2_TABLES ==> #[trigger] old(self).l2_used@[t],
    {
        let current = self.l1[index];
        if current & 0b11 == L1_DESC_PAGE_TABLE {
            let t = ((current & L2_TABLE_MASK) - self.l2_base) / 1024;
            assert(self.table_of(index as int) == Some(t as int));
            return Some(t as usize);
        }
        let t = match self.free_table() {
            Some(t) => t,
            None => {
                return None;
            },
        };
        let ghost before = *self;
        proof {
            lemma_table_desc(self.l2_base, t as int);
        }
        let addr: u32 = self.l2_base + (t as u32) * 1024;
        let entry = (addr & L2_TABLE_MASK) | L1_DESC_PAGE_TABLE;
        assert(entry == table_desc(self.l2_base, t as int));
        self.l2_used.set(t, true);
        self.l1.set(index, entry);
        proof {
            assert(self.table_of(index as int) == Some(t as int));
            assert forall|i: int| 0 <= i < L1_ENTRIES && i != index implies #[trigger] self.table_of(i)
                == before.table_of(i) by {
                assert(self.l1@[i] == before.l1@[i]);
            }
            assert forall|i: int, j: int|
                0 <= i < L1_ENTRIES && 0 <= j < L1_ENTRIES && i != j && (#[trigger] self.table_of(i)) is Some
                    && (#[trigger] self.table_of(j)) is Some implies self.table_of(i) != self.table_of(j) by {
                if i == index {
                    assert(before.table_of(j) is Some);
                    assert(before.l2_used@[before.table_of(j)->Some_0]);
                } else if j == index {
                    assert(before.table_of(i) is Some);
                    assert(before.l2_used@[before.table_of(i)->Some_0]);
                } else {
                    assert(before.table_of(i) != before.table_of(j));
                }
            }
            assert forall|v: int| 0 <= v < space_end() implies #[trigger] self.entry(v) == before.entry(v) by {
                let i = v / 0x10_0000;
                assert(0 <= i < L1_ENTRIES);
                if i == index {
                    assert(before.table_of(i) is None);
                    assert(0 <= (v / 4096) % 256 < L2_ENTRIES);
                    assert(self.l2@[t as int]@[(v / 4096) % 256] == 0);
                } else {
                    assert(self.table_of(i) == before.table_of(i));
                }
            }
        }
        Some(t)
    }

    /// Maps the page at `virt` to the physical page at `phys`; `Err` when a
    /// level-2 table is needed and none is left, leaving the tables as they
    /// were.
    pub fn map_page(&mut self, virt: usize, phys: usize, attrs: PageAttrs) -> (r: Result<(), ()>)
        requires
            old(self).wf(),
            virt % 4096 == 0,
            phys % 4096 == 0,
            virt < space_end(),
        ensures
            final(self).wf(),
            final(self).l2_base == old(self).l2_base,
            r is Ok ==> final(self).entry(virt as int) == page_desc(phys as int, attrs),
            r is Ok ==> forall|v: int|
                0 <= v < space_end() && v / 4096 != virt / 4096 ==> #[trigger] final(self).entry(v) == old(
                    self,
                ).entry(v),
            r is Err ==> *final(self) == *old(self),
            r is Err ==> old(self).table_for(virt as int) is None && forall|t: int| 0 <= t < L2_TABLES ==> #[trigger] old(self).l2_used@[t],
    {
        let l1_index = virt / 0x10_0000;
        let l2_index = (virt / 4096) % 256;
        let ghost before = *self;
        let t = match self.ensure_l2(l1_index) {
            Some(t) => t,
            None => {
                return Err(());
            },
        };
        let ghost mid = *self;
        let entry = ((phys as u32) & SMALL_PAGE_BASE_MASK) | attrs.bits;
        proof {
            lemma_page_index(virt as int);
        }
        self.l2[t].set(l2_index, entry);
        proof {
            assert forall|i: int| 0 <= i < L1_ENTRIES implies #[trigger] self.table_of(i) == mid.table_of(i) by {
                assert(self.l1@[i] == mid.l1@[i]);
            }
            assert forall|v: int|
                0 <= v < space_end() && v / 4096 != virt / 4096 implies #[trigger] self.entry(v) == before.entry(
                v,
            ) by {
                lemma_page_index(v);
                assert(self.entry(v) == mid.entry(v));
            }
        }
        Ok(())
    }
}

/// The access permission field (AP[2] and AP[1:0]) of a small page
/// descriptor.
pub open spec fn entry_ap(e: u32) -> u32 {
    (((e >> SMALL_PAGE_AP2_SHIFT) & 1) << 2u32) | ((e >> SMALL_PAGE_AP0_SHIFT) & 0b11)
}

/// Whether user code may read through the level-2 entry `e`, or write when
/// `write`: it is a small page whose permissions let user mode in.
pub open spec fn user_may(e: u32, write: bool) -> bool {
    &&& e & SMALL_PAGE_DESC == SMALL_PAGE_DESC
    &&& if write {
        entry_ap(e) == AP_USER_RW
    } else {
        entry_ap(e) == AP_USER_RW || entry_ap(e) == AP_USER_RO
    }
}

/// Whether user code may read, or write when `write`, through `e`.
pub fn user_may_access(e: u32, write: bool) -> (r: bool)
    ensures
        r == user_may(e, write),
{
    if e & SMALL_PAGE_DESC != SMALL_PAGE_DESC {
        return false;
    }
    let ap = (((e >> SMALL_PAGE_AP2_SHIFT) & 1) << 2u32) | ((e >> SMALL_PAGE_AP0_SHIFT) & 0b11);
    if write {
        ap == AP_USER_RW
    } else {
        ap == AP_USER_RW || ap == AP_USER_RO
    }
}

/// Two addresses in the same page are translated by the same entry.
pub proof fn lemma_same_page_entry(pt: PageTables, v: int, w: int)
    requires
        0 <= v,
        0 <= w,
        v / 4096 == w / 4096,
    ensures
        pt.entry(v) == pt.entry(w),
{
    assert(v / 0x10_0000 == (v / 4096) / 256) by (nonlinear_arith)
        requires
            0 <= v,
    ;
    assert(w / 0x10_0000 == (w / 4096) / 256) by (nonlinear_arith)
        requires
            0 <= w,
    ;
}

impl PageTables {
    /// The level-2 entry that translates `virt`; zero where no table
    /// covers it.
    pub fn entry_at(&self, virt: usize) -> (r: u32)
        requires
            self.wf(),
            virt < space_end(),
        ensures
            r == self.entry(virt as int),
    {
        let i = virt / 0x10_0000;
        let e = self.l1[i];
        if e & 0b11 == L1_DESC_PAGE_TABLE {
            let ghost t0 = self.table_of(i as int)->Some_0;
            proof {
                assert(self.table_of(i as int) is Some);
                lemma_table_desc(self.l2_base, t0);
            }
            let t = ((e & L2_TABLE_MASK) - self.l2_base) / 1024;
            assert(t == t0) by (nonlinear_arith)
                requires
                    (e & L2_TABLE_MASK) == self.l2_base + t0 * 1024,
                    t == ((e & L2_TABLE_MASK) - self.l2_base) / 1024,
            ;
            self.l2[t as usize][(virt / 4096) % 256]
        } else {
            0
        }
    }
}

/// The number of `true` among the first `n` of `s`.
pub open spec fn count_true(s: Seq<bool>, n: int) -> int
    decreases n,
{
    if n <= 0 {
        0
    } else {
        count_true(s, n - 1) + if s[n - 1] { 1int } else { 0int }
    }
}

proof fn lemma_count_true_bound(s: Seq<bool>, n: int)
    requires
        0 <= n,
    ensures
        0 <= count_true(s, n) <= n,
    decreases n,
{
    if n > 0 {
        lemma_count_true_bound(s, n - 1);
    }
}

/// A page-aligned address `a` moved on by `k` pages is `k` page numbers on.
proof fn lemma_page_step(a: int, k: int)
    requires
        a % 4096 == 0,
        0 <= a,
        0 <= k,
    ensures
        (a + k * 4096) / 4096 == a / 4096 + k,
        (a + k * 4096) % 4096 == 0,
{
    assert((a + k * 4096) / 4096 == a / 4096 + k && (a + k * 4096) % 4096 == 0) by (nonlinear_arith)
        requires
            a % 4096 == 0,
            0 <= a,
            0 <= k,
    ;
}

impl PageTables {
    /// How many level-2 tables are in use.
    pub fn used_l2_tables(&self) -> (r: usize)
        requires
            self.wf(),
        ensures
            r == count_true(self.l2_used@, L2_TABLES as int),
    {
        let mut count: usize = 0;
        let mut t: usize = 0;
        while t < L2_TABLES
            invariant
                self.wf(),
                t <= L2_TABLES,
                count == count_true(self.l2_used@, t as int),
            decreases L2_TABLES - t,
        {
            proof {
                lemma_count_true_bound(self.l2_used@, t as int);
            }
            if self.l2_used[t] {
                count = count + 1;
            }
            t += 1;
        }
        count
    }

    /// Maps `size` bytes from `virt_start` to the physical range from
    /// `phys_start`, page by page, and returns the number of pages; `Err`
    /// when level-2 tables run out part way.
    pub fn map_range_to(&mut self, virt_start: usize, phys_start: usize, size: usize, attrs: PageAttrs) -> (r: Result<usize, ()>)
        requires
            old(self).wf(),
            virt_start % 4096 == 0,
            phys_start % 4096 == 0,
            virt_start + size + 4095 < space_end(),
            phys_start + size + 4095 <= usize::MAX,
        ensures
            final(self).wf(),
            final(self).l2_base == old(self).l2_base,
            r matches Ok(n) ==> {
                &&& n == (size + 4095) / 4096
                &&& forall|k: int| 0 <= k < n ==> #[trigger] final(self).entry(virt_start + k * 4096) == page_desc(phys_start + k * 4096, attrs)
                &&& forall|v: int| 0 <= v < space_end() && !(virt_start <= v < virt_start + n * 4096) ==> #[trigger] final(self).entry(v) == old(self).entry(v)
            },
            r is Err ==> final(self).tables_exhausted() && exists|v: int| virt_start <= v < virt_start + size && #[trigger] final(self).table_for(v) is None,
    {
        if size == 0 {
            return Ok(0);
        }
        let end = align_up(virt_start + size, 4096);
        let mut addr = virt_start;
        let mut phys = phys_start;
        let mut pages: usize = 0;
        let ghost before = *self;
        assert(end == ((virt_start + size + 4095) / 4096) * 4096) by (nonlinear_arith)
            requires
                end % 4096 == 0,
                virt_start + size <= end < virt_start + size + 4096,
        ;
        while addr < end
            invariant
                self.wf(),
                self.l2_base == before.l2_base,
                before.l2_base == old(self).l2_base,
                virt_start % 4096 == 0,
                phys_start % 4096 == 0,
                end % 4096 == 0,
                end == ((virt_start + size + 4095) / 4096) * 4096,
                virt_start + size + 4095 < space_end(),
                phys_start + size + 4095 <= usize::MAX,
                addr == virt_start + pages * 4096,
                phys == phys_start + pages * 4096,
                addr <= end,
                forall|k: int| 0 <= k < pages ==> #[trigger] self.entry(virt_start + k * 4096) == page_desc(phys_start + k * 4096, attrs),
                forall|v: int| 0 <= v < space_end() && !(virt_start <= v < addr) ==> #[trigger] self.entry(v) == before.entry(v),
            decreases end - addr,
        {
            proof {
                lemma_page_step(virt_start as int, pages as int);
                lemma_page_step(phys_start as int, pages as int);
            }
            let ghost prev = *self;
            match self.map_page(addr, phys, attrs) {
                Ok(()) => {},
                Err(()) => {
                    proof {
                        assert(addr < virt_start + size) by (nonlinear_arith)
                            requires
                                addr < end,
                                end == ((virt_start + size + 4095) / 4096) * 4096,
                                addr % 4096 == 0,
                                virt_start % 4096 == 0,
                                addr == virt_start + pages * 4096,
                        ;
                        assert(self.table_for(addr as int) is None);
                    }
                    return Err(());
                },
            }
            proof {
                assert forall|k: int| 0 <= k < pages + 1 implies #[trigger] self.entry(virt_start + k * 4096) == page_desc(phys_start + k * 4096, attrs) by {
                    if k < pages {
                        lemma_page_step(virt_start as int, k);
                        assert(prev.entry(virt_start + k * 4096) == page_desc(phys_start + k * 4096, attrs));
                    }
                }
                assert forall|v: int| 0 <= v < space_end() && !(virt_start <= v < addr + 4096) implies #[trigger] self.entry(v) == before.entry(v) by {
                    assert(v / 4096 != addr / 4096) by (nonlinear_arith)
                        requires
                            addr % 4096 == 0,
                            !(addr <= v < addr + 4096),
                            0 <= v,
                    ;
                    assert(prev.entry(v) == before.entry(v));
                }
            }
            pages = pages + 1;
            addr = addr + 4096;
            phys = phys + 4096;
        }
        assert(pages == (size + 4095) / 4096) by (nonlinear_arith)
            requires
                virt_start + pages * 4096 == ((virt_start + size + 4095) / 4096) * 4096,
                virt_start % 4096 == 0,
                size > 0,
        ;
        Ok(pages)
    }

    /// Maps the range from `start` to `end` onto itself.
    pub fn map_range(&mut self, start: usize, end: usize, attrs: PageAttrs) -> (r: Result<usize, ()>)
        requires
            old(self).wf(),
            start % 4096 == 0,
            start <= end,
            end + 4095 < space_end(),
        ensures
            final(self).wf(),
            final(self).l2_base == old(self).l2_base,
            r matches Ok(n) ==> {
                &&& n == (end - start + 4095) / 4096
                &&& forall|k: int| 0 <= k < n ==> #[trigger] final(self).entry(start + k * 4096) == page_desc(start + k * 4096, attrs)
                &&& forall|v: int| 0 <= v < space_end() && !(start <= v < start + n * 4096) ==> #[trigger] final(self).entry(v) == old(self).entry(v)
            },
            r is Err ==> final(self).tables_exhausted(),
    {
        self.map_range_to(start, start, end - start, attrs)
    }
}

/// Where the linker put the kernel's sections; every start is page
/// aligned and no end comes before its start.
#[derive(Clone, Copy, PartialEq, Eq, Structural, Debug)]
pub struct KernelLayout {
    pub kernel_start: usize,
    pub kernel_end: usize,
    pub text_start: usize,
    pub text_end: usize,
    pub rodata_start: usize,
    pub rodata_end: usize,
    pub user_text_start: usize,
    pub user_text_end: usize,
    pub user_rodata_start: usize,
    pub user_rodata_end: usize,
    pub data_start: usize,
    pub data_end: usize,
    pub bss_start: usize,
    pub bss_end: usize,
}

/// How many pages each part of the kernel's address space took.
#[derive(Clone, Copy, PartialEq, Eq, Structural, Debug)]
pub struct KernelMapping {
    pub ram_pages: usize,
    pub device_pages: usize,
    pub high_linear_pages: usize,
    pub high_device_pages: usize,
    pub kernel_text_pages: usize,
    pub kernel_rodata_pages: usize,
    pub user_text_pages: usize,
    pub user_rodata_pages: usize,
    pub kernel_data_pages: usize,
}

/// The pages a range from page-aligned `start` to `end` takes.
pub open spec fn pages_between(start: int, end: int) -> int {
    (end - start + 4095) / 4096
}

/// A section from `start` to `end` that lies in RAM from `ram_start` and
/// can also be seen at its high alias.
pub open spec fn section_ok(start: usize, end: usize, ram_start: int) -> bool {
    &&& start % 4096 == 0
    &&& start <= end
    &&& end + 4095 < space_end()
    &&& ram_start <= start
    &&& KERNEL_HIGH_BASE + (end - ram_start) + 4095 < space_end()
}

/// `v` rounded down to a page.
pub open spec fn page_floor(v: int) -> int {
    v - v % 4096
}

/// What the kernel needs mapped for the board `boot` and the image laid
/// out as `layout` fits the tables.
pub open spec fn kernel_fits(boot: BootInfo, layout: KernelLayout) -> bool {
    let ram_start = page_floor(boot.ram_start as int);
    let ram_end = page_end(boot.ram_end as int);
    let mmio_start = page_floor(boot.mmio_start as int);
    let mmio_end = page_end(boot.mmio_end as int);
    &&& boot.ram_end + 4095 <= usize::MAX
    &&& boot.mmio_end + 4095 <= usize::MAX
    &&& ram_start <= ram_end && ram_end + 4095 < space_end()
    &&& mmio_start <= mmio_end && mmio_end + 4095 < space_end()
    &&& KERNEL_HIGH_BASE + (ram_end - ram_start) + 4095 < space_end()
    &&& DEVICE_HIGH_BASE + (mmio_end - mmio_start) + 4095 < space_end()
    &&& section_ok(layout.text_start, layout.text_end, ram_start)
    &&& section_ok(layout.rodata_start, layout.rodata_end, ram_start)
    &&& section_ok(layout.data_start, layout.data_end, ram_start)
    &&& section_ok(layout.bss_start, layout.bss_end, ram_start)
    &&& layout.user_text_start % 4096 == 0 && layout.user_text_start <= layout.user_text_end
    &&& layout.user_text_end + 4095 < space_end()
    &&& layout.user_rodata_start % 4096 == 0 && layout.user_rodata_start <= layout.user_rodata_end
    &&& layout.user_rodata_end + 4095 < space_end()
}

/// Kernel data: privileged read-write, never executed, cacheable.
pub open spec fn kernel_rw() -> PageAttrs {
    PageAttrs { bits: SMALL_PAGE_DESC | SMALL_PAGE_XN | ap_bits(AP_PRIV_RW) | normal_memory() | SMALL_PAGE_SHAREABLE }
}

/// Kernel code: privileged read-only and executable, cacheable.
pub open spec fn kernel_rx() -> PageAttrs {
    PageAttrs { bits: SMALL_PAGE_DESC | ap_bits(AP_PRIV_RO) | normal_memory() | SMALL_PAGE_SHAREABLE }
}

/// Kernel constants: privileged read-only, never executed, cacheable.
pub open spec fn kernel_ro() -> PageAttrs {
    PageAttrs { bits: SMALL_PAGE_DESC | SMALL_PAGE_XN | ap_bits(AP_PRIV_RO) | normal_memory() | SMALL_PAGE_SHAREABLE }
}

/// Device registers: privileged read-write, never executed, uncached.
pub open spec fn device_rw() -> PageAttrs {
    PageAttrs { bits: SMALL_PAGE_DESC | SMALL_PAGE_XN | ap_bits(AP_PRIV_RW) | SMALL_PAGE_B | SMALL_PAGE_SHAREABLE | SMALL_PAGE_NG }
}

/// User code: readable and executable from user mode.
pub open spec fn user_rx_attrs() -> PageAttrs {
    PageAttrs { bits: SMALL_PAGE_DESC | ap_bits(AP_USER_RO) | normal_memory() | SMALL_PAGE_SHAREABLE | SMALL_PAGE_NG }
}

/// User constants: readable from user mode, never executed.
pub open spec fn user_ro_attrs() -> PageAttrs {
    PageAttrs { bits: SMALL_PAGE_DESC | SMALL_PAGE_XN | ap_bits(AP_USER_RO) | normal_memory() | SMALL_PAGE_SHAREABLE | SMALL_PAGE_NG }
}

/// The entry of the page at `v` after the `n` pages from `vs` are mapped
/// onto the frames from `ps` with `attrs`, where it was `prev`.
pub open spec fn over(v: int, vs: int, ps: int, n: int, attrs: PageAttrs, prev: u32) -> u32 {
    if vs <= v < vs + n * 4096 {
        page_desc(ps + (v - vs), attrs)
    } else {
        prev
    }
}

/// The entry of the page at `v` once the kernel is mapped for `boot` and
/// `layout` over tables where it was `e0`: RAM and devices onto themselves
/// and high up, then the image's sections with their access, then the
/// sections' high aliases; a later mapping replaces an earlier one.
pub open spec fn kernel_entry(boot: BootInfo, layout: KernelLayout, v: int, e0: u32) -> u32 {
    let rs = page_floor(boot.ram_start as int);
    let re = page_end(boot.ram_end as int);
    let ms = page_floor(boot.mmio_start as int);
    let me = page_end(boot.mmio_end as int);
    let l = layout;
    let e1 = over(v, rs, rs, pages_between(rs, re), kernel_rw(), e0);
    let e2 = over(v, ms, ms, pages_between(ms, me), device_rw(), e1);
    let e3 = over(v, KERNEL_HIGH_BASE as int, rs, pages_between(rs, re), kernel_rw(), e2);
    let e4 = over(v, DEVICE_HIGH_BASE as int, ms, pages_between(ms, me), device_rw(), e3);
    let e5 = over(v, l.text_start as int, l.text_start as int, pages_between(l.text_start as int, l.text_end as int), kernel_rx(), e4);
    let e6 = over(v, l.rodata_start as int, l.rodata_start as int, pages_between(l.rodata_start as int, l.rodata_end as int), kernel_ro(), e5);
    let e7 = over(v, l.user_text_start as int, l.user_text_start as int, pages_between(l.user_text_start as int, l.user_text_end as int), user_rx_attrs(), e6);
    let e8 = over(v, l.user_rodata_start as int, l.user_rodata_start as int, pages_between(l.user_rodata_start as int, l.user_rodata_end as int), user_ro_attrs(), e7);
    let e9 = over(v, l.data_start as int, l.data_start as int, pages_between(l.data_start as int, l.data_end as int), kernel_rw(), e8);
    let e10 = over(v, l.bss_start as int, l.bss_start as int, pages_between(l.bss_start as int, l.bss_end as int), kernel_rw(), e9);
    let e11 = over(v, KERNEL_HIGH_BASE + (l.text_start - rs), l.text_start as int, pages_between(l.text_start as int, l.text_end as int), kernel_rx(), e10);
    let e12 = over(v, KERNEL_HIGH_BASE + (l.rodata_start - rs), l.rodata_start as int, pages_between(l.rodata_start as int, l.rodata_end as int), kernel_ro(), e11);
    let e13 = over(v, KERNEL_HIGH_BASE + (l.data_start - rs), l.data_start as int, pages_between(l.data_start as int, l.data_end as int), kernel_rw(), e12);
    over(v, KERNEL_HIGH_BASE + (l.bss_start - rs), l.bss_start as int, pages_between(l.bss_start as int, l.bss_end as int), kernel_rw(), e13)
}

/// Mapping the `n` pages from `vs` onto the frames from `ps` gives every
/// page the entry `over` says.
proof fn lemma_range_over(old: PageTables, new: PageTables, vs: int, ps: int, n: int, attrs: PageAttrs)
    requires
        vs % 4096 == 0,
        0 <= vs,
        0 <= n,
        forall|k: int| 0 <= k < n ==> #[trigger] new.entry(vs + k * 4096) == page_desc(ps + k * 4096, attrs),
        forall|v: int| 0 <= v < space_end() && !(vs <= v < vs + n * 4096) ==> #[trigger] new.entry(v) == old.entry(v),
    ensures
        forall|v: int| 0 <= v < space_end() && v % 4096 == 0 ==> #[trigger] new.entry(v) == over(v, vs, ps, n, attrs, old.entry(v)),
{
    assert forall|v: int| 0 <= v < space_end() && v % 4096 == 0 implies #[trigger] new.entry(v) == over(v, vs, ps, n, attrs, old.entry(v)) by {
        if vs <= v < vs + n * 4096 {
            let k = (v - vs) / 4096;
            assert(v == vs + k * 4096 && 0 <= k < n) by (nonlinear_arith)
                requires
                    vs % 4096 == 0,
                    v % 4096 == 0,
                    vs <= v < vs + n * 4096,
                    k == (v - vs) / 4096,
            ;
            assert(new.entry(vs + k * 4096) == page_desc(ps + k * 4096, attrs));
        }
    }
}

/// Whether a section from `start` to `end` lies in RAM from `ram_start` and
/// can also be seen at its high alias.
pub fn section_fits(start: usize, end: usize, ram_start: u128) -> (r: bool)
    requires
        ram_start < 0x1_0000_0000_0000_0000,
    ensures
        r == section_ok(start, end, ram_start as int),
{
    let s = start as u128;
    let e = end as u128;
    s % 4096 == 0 && s <= e && e + 4095 < 0x1_0000_0000 && ram_start <= s && (KERNEL_HIGH_BASE as u128) + (e
        - ram_start) + 4095 < 0x1_0000_0000
}

/// `e` rounded up to a page, computed without overflow.
fn page_end_wide(e: u128) -> (r: u128)
    requires
        e < 0x1_0000_0000_0000_0000,
    ensures
        r == crate::platform::initrd::page_end(e as int),
{
    ((e + 4095) / 4096) * 4096
}

/// Whether what the kernel needs mapped for the board `boot` and the image
/// laid out as `layout` fits the tables.
pub fn kernel_fits_check(boot: &BootInfo, layout: &KernelLayout) -> (r: bool)
    ensures
        r == kernel_fits(*boot, *layout),
{
    let max = usize::MAX as u128;
    if (boot.ram_end as u128) + 4095 > max || (boot.mmio_end as u128) + 4095 > max {
        return false;
    }
    let ram_start = (boot.ram_start as u128) - (boot.ram_start as u128) % 4096;
    let ram_end = page_end_wide(boot.ram_end as u128);
    let mmio_start = (boot.mmio_start as u128) - (boot.mmio_start as u128) % 4096;
    let mmio_end = page_end_wide(boot.mmio_end as u128);
    let limit: u128 = 0x1_0000_0000;
    ram_start <= ram_end && ram_end + 4095 < limit && mmio_start <= mmio_end && mmio_end + 4095 < limit
        && (KERNEL_HIGH_BASE as u128) + (ram_end - ram_start) + 4095 < limit && (DEVICE_HIGH_BASE as u128) + (
    mmio_end - mmio_start) + 4095 < limit && section_fits(layout.text_start, layout.text_end, ram_start)
        && section_fits(layout.rodata_start, layout.rodata_end, ram_start) && section_fits(
        layout.data_start,
        layout.data_end,
        ram_start,
    ) && section_fits(layout.bss_start, layout.bss_end, ram_start) && layout.user_text_start % 4096 == 0
        && layout.user_text_start <= layout.user_text_end && (layout.user_text_end as u128) + 4095 < limit
        && layout.user_rodata_start % 4096 == 0 && layout.user_rodata_start <= layout.user_rodata_end && (
    layout.user_rodata_end as u128) + 4095 < limit
}

/// Maps a section at its high alias, `KERNEL_HIGH_BASE` above its offset
/// in RAM.
fn map_high_alias(pt: &mut PageTables, ram_start: usize, start: usize, end: usize, attrs: PageAttrs) -> (r: Result<usize, ()>)
    requires
        old(pt).wf(),
        section_ok(start, end, ram_start as int),
        ram_start % 4096 == 0,
    ensures
        final(pt).wf(),
        final(pt).l2_base == old(pt).l2_base,
        r matches Ok(n) ==> n == pages_between(start as int, end as int),
        r matches Ok(n) ==> forall|v: int|
            0 <= v < space_end() && v % 4096 == 0 ==> #[trigger] final(pt).entry(v) == over(
                v,
                KERNEL_HIGH_BASE + (start - ram_start),
                start as int,
                n as int,
                attrs,
                old(pt).entry(v),
            ),
        r is Err ==> final(pt).tables_exhausted(),
{
    let ghost before = *pt;
    let r = pt.map_range_to(KERNEL_HIGH_BASE + (start - ram_start), start, end - start, attrs);
    proof {
        if r is Ok {
            lemma_range_over(before, *pt, KERNEL_HIGH_BASE + (start - ram_start), start as int, r->Ok_0 as int, attrs);
        }
    }
    r
}

/// Builds the kernel's address space in `pt`: RAM and the devices mapped
/// onto themselves and again high up, then each section of the image with
/// the access it needs, and its high alias. `Err` when level-2 tables run
/// out.
pub fn map_kernel(pt: &mut PageTables, boot: &BootInfo, layout: &KernelLayout) -> (r: Result<KernelMapping, ()>)
    requires
        old(pt).wf(),
        kernel_fits(*boot, *layout),
    ensures
        final(pt).wf(),
        final(pt).l2_base == old(pt).l2_base,
        r is Err ==> final(pt).tables_exhausted(),
        r is Ok ==> forall|v: int|
            0 <= v < space_end() && v % 4096 == 0 ==> #[trigger] final(pt).entry(v) == kernel_entry(
                *boot,
                *layout,
                v,
                old(pt).entry(v),
            ),
        r matches Ok(m) ==> {
            let ram_start = page_floor(boot.ram_start as int);
            let ram_end = page_end(boot.ram_end as int);
            let mmio_start = page_floor(boot.mmio_start as int);
            let mmio_end = page_end(boot.mmio_end as int);
            &&& m.ram_pages == pages_between(ram_start, ram_end)
            &&& m.device_pages == pages_between(mmio_start, mmio_end)
            &&& m.high_linear_pages == pages_between(ram_start, ram_end)
            &&& m.high_device_pages == pages_between(mmio_start, mmio_end)
            &&& m.kernel_text_pages == pages_between(layout.text_start as int, layout.text_end as int)
            &&& m.kernel_rodata_pages == pages_between(layout.rodata_start as int, layout.rodata_end as int)
            &&& m.user_text_pages == pages_between(layout.user_text_start as int, layout.user_text_end as int)
            &&& m.user_rodata_pages == pages_between(layout.user_rodata_start as int, layout.user_rodata_end as int)
            &&& m.kernel_data_pages == pages_between(layout.data_start as int, layout.data_end as int)
                + pages_between(layout.bss_start as int, layout.bss_end as int)
        },
{
    let ram_start = align_down(boot.ram_start, 4096);
    let ram_end = align_up(boot.ram_end, 4096);
    let mmio_start = align_down(boot.mmio_start, 4096);
    let mmio_end = align_up(boot.mmio_end, 4096);
    proof {
        lemma_page_floor(boot.ram_start as int);
        lemma_page_floor(boot.mmio_start as int);
    }
    assert(ram_end == page_end(boot.ram_end as int)) by (nonlinear_arith)
        requires
            ram_end % 4096 == 0,
            boot.ram_end <= ram_end < boot.ram_end + 4096,
    ;
    assert(mmio_end == page_end(boot.mmio_end as int)) by (nonlinear_arith)
        requires
            mmio_end % 4096 == 0,
            boot.mmio_end <= mmio_end < boot.mmio_end + 4096,
    ;
    let rw = PageAttrs::normal_rw_xn();
    let dev = PageAttrs::device_rw_xn();
    let rx = PageAttrs::normal_rx();
    let ro = PageAttrs::normal_ro_xn();
    let urx = PageAttrs::user_rx();
    let uro = PageAttrs::user_ro_xn();
    assert(rw == kernel_rw() && dev == device_rw() && rx == kernel_rx() && ro == kernel_ro());
    assert(urx == user_rx_attrs() && uro == user_ro_attrs());
    let ghost p0 = *pt;
    let ram_pages = pt.map_range(ram_start, ram_end, rw)?;
    let ghost p1 = *pt;
    proof { lemma_range_over(p0, p1, ram_start as int, ram_start as int, ram_pages as int, rw); }
    let device_pages = pt.map_range(mmio_start, mmio_end, dev)?;
    let ghost p2 = *pt;
    proof { lemma_range_over(p1, p2, mmio_start as int, mmio_start as int, device_pages as int, dev); }
    let high_linear_pages = pt.map_range_to(KERNEL_HIGH_BASE, ram_start, ram_end - ram_start, rw)?;
    let ghost p3 = *pt;
    proof { lemma_range_over(p2, p3, KERNEL_HIGH_BASE as int, ram_start as int, high_linear_pages as int, rw); }
    let high_device_pages = pt.map_range_to(DEVICE_HIGH_BASE, mmio_start, mmio_end - mmio_start, dev)?;
    let ghost p4 = *pt;
    proof { lemma_range_over(p3, p4, DEVICE_HIGH_BASE as int, mmio_start as int, high_device_pages as int, dev); }
    let kernel_text_pages = pt.map_range(layout.text_start, layout.text_end, rx)?;
    let ghost p5 = *pt;
    proof { lemma_range_over(p4, p5, layout.text_start as int, layout.text_start as int, kernel_text_pages as int, rx); }
    let kernel_rodata_pages = pt.map_range(layout.rodata_start, layout.rodata_end, ro)?;
    let ghost p6 = *pt;
    proof { lemma_range_over(p5, p6, layout.rodata_start as int, layout.rodata_start as int, kernel_rodata_pages as int, ro); }
    let user_text_pages = pt.map_range(layout.user_text_start, layout.user_text_end, urx)?;
    let ghost p7 = *pt;
    proof { lemma_range_over(p6, p7, layout.user_text_start as int, layout.user_text_start as int, user_text_pages as int, urx); }
    let user_rodata_pages = pt.map_range(layout.user_rodata_start, layout.user_rodata_end, uro)?;
    let ghost p8 = *pt;
    proof { lemma_range_over(p7, p8, layout.user_rodata_start as int, layout.user_rodata_start as int, user_rodata_pages as int, uro); }
    let data_pages = pt.map_range(layout.data_start, layout.data_end, rw)?;
    let ghost p9 = *pt;
    proof { lemma_range_over(p8, p9, layout.data_start as int, layout.data_start as int, data_pages as int, rw); }
    let bss_pages = pt.map_range(layout.bss_start, layout.bss_end, rw)?;
    let ghost p10 = *pt;
    proof { lemma_range_over(p9, p10, layout.bss_start as int, layout.bss_start as int, bss_pages as int, rw); }
    map_high_alias(pt, ram_start, layout.text_start, layout.text_end, rx)?;
    let ghost p11 = *pt;
    map_high_alias(pt, ram_start, layout.rodata_start, layout.rodata_end, ro)?;
    let ghost p12 = *pt;
    map_high_alias(pt, ram_start, layout.data_start, layout.data_end, rw)?;
    let ghost p13 = *pt;
    map_high_alias(pt, ram_start, layout.bss_start, layout.bss_end, rw)?;
    proof {
        assert forall|v: int| 0 <= v < space_end() && v % 4096 == 0 implies #[trigger] pt.entry(v) == kernel_entry(
            *boot,
            *layout,
            v,
            p0.entry(v),
        ) by {
            assert(p1.entry(v) == over(v, ram_start as int, ram_start as int, ram_pages as int, rw, p0.entry(v)));
            assert(p2.entry(v) == over(v, mmio_start as int, mmio_start as int, device_pages as int, dev, p1.entry(v)));
            assert(p3.entry(v) == over(v, KERNEL_HIGH_BASE as int, ram_start as int, high_linear_pages as int, rw, p2.entry(v)));
            assert(p4.entry(v) == over(v, DEVICE_HIGH_BASE as int, mmio_start as int, high_device_pages as int, dev, p3.entry(v)));
            assert(p5.entry(v) == over(v, layout.text_start as int, layout.text_start as int, kernel_text_pages as int, rx, p4.entry(v)));
        }
    }
    Ok(KernelMapping {
        ram_pages,
        device_pages,
        high_linear_pages,
        high_device_pages,
        kernel_text_pages,
        kernel_rodata_pages,
        user_text_pages,
        user_rodata_pages,
        kernel_data_pages: data_pages + bss_pages,
    })
}

proof fn lemma_page_floor(v: int)
    requires
        0 <= v,
    ensures
        page_floor(v) % 4096 == 0,
        0 <= page_floor(v) <= v,
{
}

} // verus!
