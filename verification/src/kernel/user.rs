use vstd::prelude::*;

use crate::kernel::address::{VirtAddr, USER_TOP};
use crate::kernel::syscall::EFAULT;
use crate::arch::aarch32::page_table::{lemma_same_page_entry, user_may, user_may_access, PageTables};

verus! {

#[derive(Clone, Copy, PartialEq, Eq, Structural, Debug)]
pub enum UserAccess {
    Read,
    Write,
}

/// An address handed in from user space.
#[derive(Clone, Copy, PartialEq, Eq, Structural, Debug)]
pub struct UserPtr {
    pub addr: VirtAddr,
}

impl UserPtr {
    pub fn new(addr: usize) -> (r: Self)
        ensures
            r.addr.0 == addr,
    {
        UserPtr { addr: VirtAddr::new(addr) }
    }

    pub fn addr(self) -> (r: usize)
        ensures
            r == self.addr.0,
    {
        self.addr.as_usize()
    }

    /// Whether user code may touch every byte of `[start, start + len)`
    /// through `tables`: reading, or writing when `write`.
    pub open spec fn accessible(tables: PageTables, start: int, len: int, write: bool) -> bool {
        forall|v: int| start <= v < start + len ==> user_may(#[trigger] tables.entry(v), write)
    }

    /// Whether `[addr, addr + len)` lies below the top of user space and
    /// every page it touches is mapped for user `access` in `tables`.
    pub fn check(self, len: usize, access: UserAccess, tables: &PageTables) -> (r: Result<(), u32>)
        requires
            tables.wf(),
        ensures
            r == if self.addr.0 + len <= USER_TOP && self.addr.0 < USER_TOP && Self::accessible(
                *tables,
                self.addr.0 as int,
                len as int,
                access == UserAccess::Write,
            ) {
                Ok::<(), u32>(())
            } else {
                Err(EFAULT)
            },
    {
        let start = self.addr.as_usize();
        let end = match start.checked_add(len) {
            Some(end) => end,
            None => {
                return Err(EFAULT);
            },
        };
        if start >= USER_TOP || end > USER_TOP {
            return Err(EFAULT);
        }
        if len == 0 {
            assert(Self::accessible(*tables, start as int, len as int, access == UserAccess::Write));
            return Ok(());
        }
        let write = match access {
            UserAccess::Write => true,
            UserAccess::Read => false,
        };
        let mut virt: usize = start - start % 4096;
        while virt < end
            invariant
                virt % 4096 == 0,
                start - 4096 < virt,
                virt <= end + 4096,
                end == start + len,
                start < end,
                start == self.addr.0,
                end <= USER_TOP,
                tables.wf(),
                write == (access == UserAccess::Write),
                forall|v: int| start <= v < virt ==> user_may(#[trigger] tables.entry(v), write),
            decreases end + 4096 - virt,
        {
            let e = tables.entry_at(virt);
            if !user_may_access(e, write) {
                proof {
                    let w: int = if virt < start { start as int } else { virt as int };
                    assert(w / 4096 == virt / 4096);
                    lemma_same_page_entry(*tables, w, virt as int);
                    assert(!user_may(tables.entry(w), write));
                    assert(!Self::accessible(*tables, start as int, len as int, write));
                }
                return Err(EFAULT);
            }
            proof {
                assert forall|v: int| start <= v < virt + 4096 implies user_may(#[trigger] tables.entry(v), write) by {
                    if v >= virt {
                        assert(v / 4096 == virt / 4096);
                        lemma_same_page_entry(*tables, v, virt as int);
                    }
                }
            }
            virt = virt + 4096;
        }
        assert(Self::accessible(*tables, start as int, len as int, write));
        Ok(())
    }
}

} // verus!
