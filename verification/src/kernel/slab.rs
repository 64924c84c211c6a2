use vstd::prelude::*;

use crate::kernel::memory::{allocated_block, PageAllocator, PAGE_SIZE};

verus! {

pub const SLAB_CLASS_COUNT: usize = 8;

/// The size and alignment of the link a free object holds.
pub const FREE_LINK_SIZE: usize = 4;

/// The object size of class `k`: 16 bytes, doubling up to 2048.
pub open spec fn class_size(k: int) -> usize {
    if k == 0 {
        16
    } else if k == 1 {
        32
    } else if k == 2 {
        64
    } else if k == 3 {
        128
    } else if k == 4 {
        256
    } else if k == 5 {
        512
    } else if k == 6 {
        1024
    } else {
        2048
    }
}

/// The first class from `k` on whose objects hold `size` bytes aligned to
/// `align`, the free link's size and alignment at least.
pub open spec fn class_from(size: usize, align: usize, k: int) -> Option<int>
    decreases SLAB_CLASS_COUNT - k,
{
    let s = if size < FREE_LINK_SIZE { FREE_LINK_SIZE } else { size };
    let a = if align < FREE_LINK_SIZE { FREE_LINK_SIZE } else { align };
    if k < 0 || k >= SLAB_CLASS_COUNT {
        None
    } else if class_size(k) >= s && class_size(k) % a == 0 {
        Some(k)
    } else {
        class_from(size, align, k + 1)
    }
}

pub proof fn lemma_class_range(size: usize, align: usize, k: int)
    ensures
        class_from(size, align, k) matches Some(j) ==> k <= j < SLAB_CLASS_COUNT,
    decreases SLAB_CLASS_COUNT - k,
{
    if 0 <= k < SLAB_CLASS_COUNT {
        lemma_class_range(size, align, k + 1);
    }
}

/// The objects a fresh page at `page` is cut into for class size `size`,
/// in the order they are handed out last first.
pub open spec fn cut_page(page: int, size: int) -> Seq<usize> {
    Seq::new((PAGE_SIZE as int / size) as nat, |i: int| (page + i * size) as usize)
}

/// One size class: its object size, the free objects (the last is handed
/// out first), and how many pages, objects and allocations it counts.
pub struct SlabClass {
    pub size: usize,
    pub free: Vec<usize>,
    pub pages: usize,
    pub objects: usize,
    pub allocated: usize,
}

/// The numbers a size class reports.
#[derive(Clone, Copy, PartialEq, Eq, Structural, Debug)]
pub struct SlabStats {
    pub class_size: usize,
    pub pages: usize,
    pub objects: usize,
    pub allocated: usize,
    pub free: usize,
}

/// Small objects carved out of whole pages, one free list per size class.
pub struct SlabAllocator {
    pub classes: Vec<SlabClass>,
}

/// Whether the counters of every class can take one more page.
pub open spec fn room_to_grow(classes: Seq<SlabClass>) -> bool {
    forall|k: int|
        0 <= k < classes.len() ==> (#[trigger] classes[k]).pages < usize::MAX && classes[k].objects + PAGE_SIZE
            <= usize::MAX && classes[k].allocated < usize::MAX
}

fn class_size_of(k: usize) -> (r: usize)
    requires
        k < SLAB_CLASS_COUNT,
    ensures
        r == class_size(k as int),
{
    if k == 0 {
        16
    } else if k == 1 {
        32
    } else if k == 2 {
        64
    } else if k == 3 {
        128
    } else if k == 4 {
        256
    } else if k == 5 {
        512
    } else if k == 6 {
        1024
    } else {
        2048
    }
}

impl SlabAllocator {
    /// The classes in order of size, each with its own object size.
    pub open spec fn wf(&self) -> bool {
        &&& self.classes@.len() == SLAB_CLASS_COUNT
        &&& forall|k: int| 0 <= k < SLAB_CLASS_COUNT ==> (#[trigger] self.classes@[k]).size == class_size(k)
    }

    /// No class holds a page yet.
    pub fn new() -> (r: Self)
        ensures
            r.wf(),
            forall|k: int|
                0 <= k < SLAB_CLASS_COUNT ==> (#[trigger] r.classes@[k]).free@.len() == 0 && r.classes@[k].pages == 0
                    && r.classes@[k].objects == 0 && r.classes@[k].allocated == 0,
    {
        let mut classes: Vec<SlabClass> = Vec::new();
        let mut k: usize = 0;
        while k < SLAB_CLASS_COUNT
            invariant
                k <= SLAB_CLASS_COUNT,
                classes@.len() == k,
                forall|j: int|
                    0 <= j < k ==> (#[trigger] classes@[j]).size == class_size(j) && classes@[j].free@.len() == 0
                        && classes@[j].pages == 0 && classes@[j].objects == 0 && classes@[j].allocated == 0,
            decreases SLAB_CLASS_COUNT - k,
        {
            classes.push(SlabClass { size: class_size_of(k), free: Vec::new(), pages: 0, objects: 0, allocated: 0 });
            k += 1;
        }
        SlabAllocator { classes }
    }

    /// The class that serves objects of `size` bytes aligned to `align`.
    pub fn class_for(&self, size: usize, align: usize) -> (r: Option<usize>)
        requires
            self.wf(),
        ensures
            r == match class_from(size, align, 0) {
                Some(k) => Some(k as usize),
                None => None::<usize>,
            },
            r matches Some(k) ==> k < SLAB_CLASS_COUNT,
    {
        proof {
            lemma_class_range(size, align, 0);
        }
        let s = if size < FREE_LINK_SIZE { FREE_LINK_SIZE } else { size };
        let a = if align < FREE_LINK_SIZE { FREE_LINK_SIZE } else { align };
        let mut k: usize = 0;
        while k < SLAB_CLASS_COUNT
            invariant
                k <= SLAB_CLASS_COUNT,
                self.wf(),
                s == (if size < FREE_LINK_SIZE { FREE_LINK_SIZE } else { size }),
                a == (if align < FREE_LINK_SIZE { FREE_LINK_SIZE } else { align }),
                class_from(size, align, 0) == class_from(size, align, k as int),
            decreases SLAB_CLASS_COUNT - k,
        {
            let c = self.classes[k].size;
            if c >= s && c % a == 0 {
                return Some(k);
            }
            k += 1;
        }
        None
    }

    /// Hands out an object of `size` bytes aligned to `align`: the last
    /// free object of its class, after cutting a fresh page from `pages`
    /// into objects when the class has none free. Nothing when no class
    /// fits or no page is left.
    pub fn allocate(&mut self, pages: &mut PageAllocator, size: usize, align: usize) -> (r: Option<usize>)
        requires
            old(self).wf(),
            old(pages).wf(),
            room_to_grow(old(self).classes@),
        ensures
            final(self).wf(),
            final(pages).wf(),
            match class_from(size, align, 0) {
                None => r is None && final(self).classes@ == old(self).classes@ && *final(pages) == *old(pages),
                Some(k) => {
                    let c = old(self).classes@[k];
                    &&& forall|j: int| 0 <= j < SLAB_CLASS_COUNT && j != k ==> #[trigger] final(self).classes@[j] == old(self).classes@[j]
                    &&& final(self).classes@[k].size == c.size
                    &&& if c.free@.len() > 0 {
                        &&& r == Some(c.free@.last())
                        &&& final(self).classes@[k].free@ == c.free@.drop_last()
                        &&& final(self).classes@[k].allocated == c.allocated + 1
                        &&& final(self).classes@[k].pages == c.pages && final(self).classes@[k].objects == c.objects
                        &&& *final(pages) == *old(pages)
                    } else {
                        match r {
                            None => final(self).classes@ == old(self).classes@ && *final(pages) == *old(pages),
                            Some(a) => {
                                let page = a - (PAGE_SIZE / c.size - 1) * c.size;
                                &&& allocated_block(*old(pages), *final(pages), 1, page)
                                &&& final(self).classes@[k].free@ == cut_page(page, c.size as int).drop_last()
                                &&& a == cut_page(page, c.size as int).last()
                                &&& final(self).classes@[k].pages == c.pages + 1
                                &&& final(self).classes@[k].objects == c.objects + PAGE_SIZE / c.size
                                &&& final(self).classes@[k].allocated == c.allocated + 1
                            },
                        }
                    }
                },
            },
    {
        proof {
            lemma_class_range(size, align, 0);
        }
        let k = match self.class_for(size, align) {
            Some(k) => k,
            None => {
                return None;
            },
        };
        let ghost c = self.classes@[k as int];
        assert(c.pages < usize::MAX && c.objects + PAGE_SIZE <= usize::MAX && c.allocated < usize::MAX);
        let mut class = self.take_class(k);
        if class.free.len() == 0 {
            let page = match pages.alloc_pages(1) {
                Some(p) => p,
                None => {
                    self.put_class(k, class);
                    proof {
                        assert(self.classes@ =~= old(self).classes@);
                    }
                    return None;
                },
            };
            proof {
                assert(page + PAGE_SIZE <= 0x4800_0000) by (nonlinear_arith)
                    requires
                        page == 0x4000_0000 + ((page - 0x4000_0000) / 4096) * 4096,
                        0 <= (page - 0x4000_0000) / 4096,
                        (page - 0x4000_0000) / 4096 + 1 <= 32768,
                        PAGE_SIZE == 4096,
                ;
            }
            let n = PAGE_SIZE / class.size;
            let mut i: usize = 0;
            while i < n
                invariant
                    i <= n,
                    n == PAGE_SIZE / c.size,
                    c.size == class.size,
                    16 <= class.size <= 2048,
                    page + PAGE_SIZE <= 0x4800_0000,
                    class.free@ == cut_page(page as int, c.size as int).take(i as int),
                    class.pages == c.pages && class.objects == c.objects && class.allocated == c.allocated,
                    c.pages < usize::MAX && c.objects + PAGE_SIZE <= usize::MAX && c.allocated < usize::MAX,
                decreases n - i,
            {
                assert(i * class.size < PAGE_SIZE) by (nonlinear_arith)
                    requires
                        i < n,
                        n == PAGE_SIZE / class.size,
                        16 <= class.size,
                ;
                class.free.push(page + i * class.size);
                i += 1;
                assert(class.free@ =~= cut_page(page as int, c.size as int).take(i as int));
            }
            assert(class.free@ =~= cut_page(page as int, c.size as int));
            class.pages = class.pages + 1;
            class.objects = class.objects + n;
        }
        let ghost before = class.free@;
        let object = class.free.pop().unwrap();
        class.allocated = class.allocated + 1;
        let ghost mid = self.classes@;
        self.put_class(k, class);
        proof {
            assert(class.free@ == before.drop_last());
            assert forall|j: int| 0 <= j < SLAB_CLASS_COUNT && j != k implies #[trigger] self.classes@[j] == old(self).classes@[j] by {
                assert(self.classes@[j] == mid[j]);
            }
            assert(self.classes@[k as int] == class);
        }
        Some(object)
    }

    /// Takes class `k` out, leaving an empty class of its size behind.
    fn take_class(&mut self, k: usize) -> (r: SlabClass)
        requires
            old(self).wf(),
            k < SLAB_CLASS_COUNT,
        ensures
            r == old(self).classes@[k as int],
            final(self).classes@.len() == SLAB_CLASS_COUNT,
            forall|j: int| 0 <= j < SLAB_CLASS_COUNT && j != k ==> #[trigger] final(self).classes@[j] == old(self).classes@[j],
    {
        let blank = SlabClass { size: self.classes[k].size, free: Vec::new(), pages: 0, objects: 0, allocated: 0 };
        let mut taken = blank;
        std::mem::swap(&mut taken, &mut self.classes[k]);
        taken
    }

    /// Puts class `c` back as class `k`.
    fn put_class(&mut self, k: usize, c: SlabClass)
        requires
            old(self).classes@.len() == SLAB_CLASS_COUNT,
            k < SLAB_CLASS_COUNT,
        ensures
            final(self).classes@ == old(self).classes@.update(k as int, c),
    {
        self.classes.set(k, c);
    }

    /// Takes back the object at `ptr` of `size` bytes aligned to `align`:
    /// it becomes the next object its class hands out.
    pub fn dealloc(&mut self, ptr: usize, size: usize, align: usize)
        requires
            old(self).wf(),
            class_from(size, align, 0) is Some,
        ensures
            final(self).wf(),
            ({
                let k = class_from(size, align, 0)->Some_0;
                let c = old(self).classes@[k];
                &&& forall|j: int| 0 <= j < SLAB_CLASS_COUNT && j != k ==> #[trigger] final(self).classes@[j] == old(self).classes@[j]
                &&& final(self).classes@[k].size == c.size
                &&& final(self).classes@[k].free@ == c.free@.push(ptr)
                &&& final(self).classes@[k].allocated == if c.allocated == 0 { 0 } else { (c.allocated - 1) as usize }
                &&& final(self).classes@[k].pages == c.pages && final(self).classes@[k].objects == c.objects
            }),
    {
        proof {
            lemma_class_range(size, align, 0);
        }
        let k = self.class_for(size, align).unwrap();
        let mut class = self.take_class(k);
        let ghost mid = self.classes@;
        class.free.push(ptr);
        class.allocated = if class.allocated == 0 { 0 } else { class.allocated - 1 };
        self.put_class(k, class);
        proof {
            assert forall|j: int| 0 <= j < SLAB_CLASS_COUNT && j != k implies #[trigger] self.classes@[j] == old(self).classes@[j] by {
                assert(self.classes@[j] == mid[j]);
            }
            assert(self.classes@[k as int] == class);
        }
    }

    /// The numbers of class `index`; nothing past the last class.
    pub fn stats(&self, index: usize) -> (r: Option<SlabStats>)
        requires
            self.wf(),
        ensures
            index >= SLAB_CLASS_COUNT ==> r is None,
            index < SLAB_CLASS_COUNT ==> {
                let c = self.classes@[index as int];
                r == Some(SlabStats {
                    class_size: c.size,
                    pages: c.pages,
                    objects: c.objects,
                    allocated: c.allocated,
                    free: if c.objects >= c.allocated { (c.objects - c.allocated) as usize } else { 0 },
                })
            },
    {
        if index >= SLAB_CLASS_COUNT {
            return None;
        }
        let c = &self.classes[index];
        Some(SlabStats {
            class_size: c.size,
            pages: c.pages,
            objects: c.objects,
            allocated: c.allocated,
            free: if c.objects >= c.allocated { c.objects - c.allocated } else { 0 },
        })
    }
}

} // verus!
