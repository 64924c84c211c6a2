use vstd::prelude::*;
use vstd::string::StringSliceAdditionalSpecFns;

use crate::fs::archive::ArchiveEntry;
use crate::fs::vfs::{entry_for, DirEntry, FileSystemId, FileType, FileView, InodeRef, Metadata};
use crate::kernel::net::interface::utf8_text;
use crate::kernel::memory::{MAX_PHYS_PAGES, PAGE_SIZE};
use crate::kernel::syscall::{EEXIST, EINVAL, EISDIR, ENOENT, ENOMEM, ENOSPC, ENOTEMPTY, EPERM};

verus! {

pub const MAX_INODES: usize = 2048;
pub const NAME_LEN: usize = 128;
pub const ROOT_INO: usize = 0;
pub const FIRST_INO: usize = 1;

/// One slot of the node table. A hard link is a node of its own whose
/// `link_target` names the node that holds the data.
pub struct RamNode {
    pub used: bool,
    pub parent: usize,
    pub name: Vec<u8>,
    pub file_type: FileType,
    pub mode: u16,
    pub capacity: usize,
    pub data: Vec<u8>,
    pub link_target: usize,
    pub nlink: u32,
}

/// A free slot of the node table.
pub open spec fn free_node(n: RamNode) -> bool {
    &&& !n.used
    &&& n.parent == ROOT_INO
    &&& n.name@.len() == 0
    &&& n.file_type == FileType::Regular
    &&& n.mode == 0
    &&& n.capacity == 0
    &&& n.data@.len() == 0
    &&& n.link_target == 0
    &&& n.nlink == 0
}

impl RamNode {
    pub fn empty() -> (r: Self)
        ensures
            free_node(r),
    {
        RamNode {
            used: false,
            parent: ROOT_INO,
            name: Vec::new(),
            file_type: FileType::Regular,
            mode: 0,
            capacity: 0,
            data: Vec::new(),
            link_target: 0,
            nlink: 0,
        }
    }
}

/// The in-memory file system: a table of nodes, each naming its parent
/// directory; slot 0 is the root.
pub struct RamFs {
    pub nodes: Vec<RamNode>,
    pub regular_count: usize,
}

/// Where `path` starts its first component and where the rest begins.
pub open spec fn slash_index(path: Seq<u8>) -> int
    decreases path.len(),
{
    if path.len() == 0 {
        0
    } else if path[0] == 0x2f {
        0
    } else {
        1 + slash_index(path.drop_first())
    }
}

pub proof fn lemma_slash_index(path: Seq<u8>)
    ensures
        0 <= slash_index(path) <= path.len(),
        forall|k: int| 0 <= k < slash_index(path) ==> path[k] != 0x2f,
        slash_index(path) < path.len() ==> path[slash_index(path)] == 0x2f,
    decreases path.len(),
{
    if path.len() > 0 && path[0] != 0x2f {
        lemma_slash_index(path.drop_first());
        assert forall|k: int| 0 <= k < slash_index(path) implies path[k] != 0x2f by {
            if k > 0 {
                assert(path[k] == path.drop_first()[k - 1]);
            }
        }
    }
}

/// The first component of `path`.
pub open spec fn first_component(path: Seq<u8>) -> Seq<u8> {
    path.take(slash_index(path))
}

/// What follows the first component and its slash.
pub open spec fn after_component(path: Seq<u8>) -> Seq<u8> {
    if slash_index(path) < path.len() {
        path.skip(slash_index(path) + 1)
    } else {
        Seq::empty()
    }
}

pub open spec fn dot() -> Seq<u8> {
    seq![0x2eu8]
}

pub open spec fn dot_dot() -> Seq<u8> {
    seq![0x2eu8, 0x2e]
}

/// In a table whose slots past the root are all free, no name is found.
pub proof fn lemma_no_child_in_fresh(nodes: Seq<RamNode>, name: Seq<u8>, i: int)
    requires
        nodes.len() <= MAX_INODES,
        forall|k: int| FIRST_INO <= k < nodes.len() ==> !(#[trigger] nodes[k]).used,
    ensures
        child_from(nodes, 0, name, i) is None,
    decreases nodes.len() - i,
{
    if FIRST_INO <= i < nodes.len() {
        lemma_no_child_in_fresh(nodes, name, i + 1);
    }
}

/// The first used slot at or after `i` (never the root) that lies in
/// `parent` under `name`.
pub open spec fn child_from(nodes: Seq<RamNode>, parent: usize, name: Seq<u8>, i: int) -> Option<usize>
    decreases nodes.len() - i,
{
    if i < FIRST_INO || i >= nodes.len() {
        None
    } else if nodes[i].used && nodes[i].parent == parent && nodes[i].name@ == name {
        Some(i as usize)
    } else {
        child_from(nodes, parent, name, i + 1)
    }
}

pub open spec fn child_of(nodes: Seq<RamNode>, parent: usize, name: Seq<u8>) -> Option<usize> {
    child_from(nodes, parent, name, FIRST_INO as int)
}

/// Walks `path` from node `current`: empty components and `.` stay, `..`
/// goes to the parent, any other name goes to the child of that name.
pub open spec fn walk(nodes: Seq<RamNode>, current: usize, path: Seq<u8>) -> Option<usize>
    decreases path.len(),
{
    if path.len() == 0 {
        Some(current)
    } else {
        let c = first_component(path);
        let rest = after_component(path);
        if rest.len() >= path.len() {
            None
        } else if c.len() == 0 || c == dot() {
            walk(nodes, current, rest)
        } else if c == dot_dot() {
            if current < nodes.len() {
                walk(nodes, nodes[current as int].parent, rest)
            } else {
                None
            }
        } else {
            match child_of(nodes, current, c) {
                Some(n) => walk(nodes, n, rest),
                None => None,
            }
        }
    }
}

pub proof fn lemma_after_shorter(path: Seq<u8>)
    requires
        path.len() > 0,
    ensures
        after_component(path).len() < path.len(),
{
    lemma_slash_index(path);
}

/// A path with its trailing NUL cut and a leading `/` and `./` removed.
pub open spec fn normalized(path: Seq<u8>) -> Seq<u8> {
    let p = path.take(crate::fs::vfs::nul_end(path));
    let q = if p.len() >= 1 && p[0] == 0x2f { p.skip(1) } else { p };
    if q.len() >= 2 && q[0] == 0x2e && q[1] == 0x2f { q.skip(2) } else { q }
}

/// The slot that holds the data of slot `idx`.
pub open spec fn data_slot(nodes: Seq<RamNode>, idx: int) -> int {
    let t = nodes[idx].link_target;
    if t < MAX_INODES && t < nodes.len() && nodes[t as int].used {
        t as int
    } else {
        idx
    }
}

pub open spec fn ram_inode(ino: usize) -> InodeRef {
    InodeRef { fs: FileSystemId::Ramfs, ino }
}

pub open spec fn node_ok(n: RamNode) -> bool {
    &&& n.parent < MAX_INODES
    &&& n.name@.len() <= NAME_LEN
    &&& n.capacity <= MAX_PHYS_PAGES * PAGE_SIZE
    &&& n.data@.len() <= n.capacity
}

/// The node table is well formed: full size, a root directory in slot 0,
/// every slot within bounds.
pub open spec fn table_ok(nodes: Seq<RamNode>) -> bool {
    &&& nodes.len() == MAX_INODES
    &&& nodes[ROOT_INO as int].used
    &&& nodes[ROOT_INO as int].file_type == FileType::Directory
    &&& nodes[ROOT_INO as int].link_target == ROOT_INO
    &&& nodes[ROOT_INO as int].parent == ROOT_INO
    &&& forall|i: int| 0 <= i < MAX_INODES ==> node_ok(#[trigger] nodes[i])
    &&& forall|i: int| 0 <= i < MAX_INODES && #[trigger] nodes[i].used ==> parent_dir_ok(nodes, nodes[i].parent as int)
}

/// Slot `p` is a directory in use.
pub open spec fn parent_dir_ok(nodes: Seq<RamNode>, p: int) -> bool {
    0 <= p < nodes.len() && nodes[p].used && nodes[p].file_type == FileType::Directory
}

/// Putting `x` in slot `j` leaves every node in use under a directory in
/// use.
pub open spec fn parents_kept(nodes: Seq<RamNode>, j: int, x: RamNode) -> bool {
    &&& x.used ==> parent_dir_ok(nodes.update(j, x), x.parent as int)
    &&& (nodes[j].used && nodes[j].file_type == FileType::Directory && !(x.used && x.file_type == FileType::Directory))
        ==> forall|i: int| 0 <= i < MAX_INODES && i != j && #[trigger] nodes[i].used ==> nodes[i].parent != j
}

pub proof fn lemma_table_update(nodes: Seq<RamNode>, j: int, x: RamNode)
    requires
        table_ok(nodes),
        0 <= j < MAX_INODES,
        node_ok(x),
        j == ROOT_INO ==> x.used && x.file_type == FileType::Directory && x.link_target == ROOT_INO && x.parent == ROOT_INO,
        parents_kept(nodes, j, x),
    ensures
        table_ok(nodes.update(j, x)),
{
    let n2 = nodes.update(j, x);
    assert forall|i: int| 0 <= i < MAX_INODES implies node_ok(#[trigger] n2[i]) by {
        if i != j {
            assert(n2[i] == nodes[i]);
        }
    }
    assert forall|i: int| 0 <= i < MAX_INODES && #[trigger] n2[i].used implies parent_dir_ok(n2, n2[i].parent as int) by {
        if i != j {
            assert(n2[i] == nodes[i]);
            assert(parent_dir_ok(nodes, nodes[i].parent as int));
            if nodes[i].parent != j {
                assert(n2[nodes[i].parent as int] == nodes[nodes[i].parent as int]);
            }
        }
    }
}

/// Replacing slot `j` by a node in the same place, of the same kind and
/// use, keeps the table well formed.
pub proof fn lemma_table_same_shape(nodes: Seq<RamNode>, j: int, x: RamNode)
    requires
        table_ok(nodes),
        0 <= j < MAX_INODES,
        node_ok(x),
        x.used == nodes[j].used,
        x.file_type == nodes[j].file_type,
        x.parent == nodes[j].parent,
        j == ROOT_INO ==> x.link_target == ROOT_INO,
    ensures
        table_ok(nodes.update(j, x)),
{
    if x.used {
        assert(parent_dir_ok(nodes, nodes[j].parent as int));
        if x.parent == j {
            assert(nodes.update(j, x)[j] == x);
        } else {
            assert(nodes.update(j, x)[x.parent as int] == nodes[x.parent as int]);
        }
    }
    lemma_table_update(nodes, j, x);
}

/// Emptying slot `j`, when no node in use lies under it, keeps the table
/// well formed.
pub proof fn lemma_table_clear(nodes: Seq<RamNode>, j: int, x: RamNode)
    requires
        table_ok(nodes),
        FIRST_INO <= j < MAX_INODES,
        free_node(x),
        nodes[j].file_type == FileType::Directory ==> forall|i: int| FIRST_INO <= i < MAX_INODES && #[trigger] nodes[i].used ==> nodes[i].parent != j,
    ensures
        table_ok(nodes.update(j, x)),
{
    if nodes[j].used && nodes[j].file_type == FileType::Directory {
        assert forall|i: int| 0 <= i < MAX_INODES && i != j && #[trigger] nodes[i].used implies nodes[i].parent != j by {
            if i == 0 {
                assert(nodes[0].parent == ROOT_INO);
            }
        }
    }
    if !(nodes[j].used && nodes[j].file_type == FileType::Directory) {
        assert forall|i: int| 0 <= i < MAX_INODES && i != j && #[trigger] nodes[i].used implies nodes[i].parent != j by {
            assert(parent_dir_ok(nodes, nodes[i].parent as int));
        }
    }
    lemma_table_update(nodes, j, x);
}

pub proof fn lemma_walk_used(nodes: Seq<RamNode>, cur: usize, path: Seq<u8>)
    requires
        table_ok(nodes),
        cur < MAX_INODES,
        nodes[cur as int].used,
    ensures
        walk(nodes, cur, path) matches Some(k) ==> k < MAX_INODES && nodes[k as int].used,
    decreases path.len(),
{
    if path.len() > 0 {
        let c = first_component(path);
        let rest = after_component(path);
        lemma_after_shorter(path);
        if c.len() == 0 || c == dot() {
            lemma_walk_used(nodes, cur, rest);
        } else if c == dot_dot() {
            assert(parent_dir_ok(nodes, nodes[cur as int].parent as int));
            lemma_walk_used(nodes, nodes[cur as int].parent, rest);
        } else {
            lemma_child_from_range(nodes, cur, c, FIRST_INO as int);
            match child_of(nodes, cur, c) {
                Some(n) => {
                    lemma_walk_used(nodes, n, rest);
                },
                None => {},
            }
        }
    }
}

/// Only slot `d` changed, and in it only the bytes and the room.
pub open spec fn only_data_changed(old: Seq<RamNode>, new: Seq<RamNode>, d: int) -> bool {
    &&& new.len() == old.len()
    &&& forall|i: int| 0 <= i < old.len() && i != d ==> #[trigger] new[i] == old[i]
    &&& new[d].used == old[d].used
    &&& new[d].parent == old[d].parent
    &&& new[d].name@ == old[d].name@
    &&& new[d].file_type == old[d].file_type
    &&& new[d].mode == old[d].mode
    &&& new[d].link_target == old[d].link_target
    &&& new[d].nlink == old[d].nlink
}

impl RamFs {
    pub open spec fn wf(&self) -> bool {
        table_ok(self.nodes@)
    }

    /// The slot that `inode` names, when it is a used ramfs slot.
    pub open spec fn slot_of(&self, inode: InodeRef) -> Option<int> {
        if inode.fs == FileSystemId::Ramfs && inode.ino < MAX_INODES && inode.ino < self.nodes@.len()
            && self.nodes@[inode.ino as int].used {
            Some(inode.ino as int)
        } else {
            None
        }
    }

    /// The bytes of the file that `inode` names.
    pub open spec fn contents(&self, inode: InodeRef) -> Seq<u8> {
        self.nodes@[data_slot(self.nodes@, inode.ino as int)].data@
    }

    pub open spec fn resolve(&self, path: Seq<u8>) -> Option<usize> {
        walk(self.nodes@, ROOT_INO, normalized(path))
    }

    /// An empty file system: the root directory alone.
    pub fn new() -> (r: Self)
        ensures
            r.wf(),
            r.regular_count == 0,
            r.nodes@[ROOT_INO as int].parent == ROOT_INO,
            r.nodes@[ROOT_INO as int].mode == 0o755,
            r.nodes@[ROOT_INO as int].nlink == 2,
            r.nodes@[ROOT_INO as int].name@.len() == 0,
            r.nodes@[ROOT_INO as int].data@.len() == 0,
            forall|i: int| FIRST_INO <= i < MAX_INODES ==> free_node(#[trigger] r.nodes@[i]),
    {
        let mut nodes: Vec<RamNode> = Vec::new();
        nodes.push(RamNode {
            used: true,
            parent: ROOT_INO,
            name: Vec::new(),
            file_type: FileType::Directory,
            mode: 0o755,
            capacity: 0,
            data: Vec::new(),
            link_target: ROOT_INO,
            nlink: 2,
        });
        while nodes.len() < MAX_INODES
            invariant
                1 <= nodes@.len() <= MAX_INODES,
                nodes@[0].used && nodes@[0].file_type == FileType::Directory,
                nodes@[0].parent == ROOT_INO && nodes@[0].mode == 0o755 && nodes@[0].nlink == 2,
                nodes@[0].name@.len() == 0 && nodes@[0].data@.len() == 0 && nodes@[0].capacity == 0,
                nodes@[0].link_target == ROOT_INO,
                forall|i: int| FIRST_INO <= i < nodes@.len() ==> free_node(#[trigger] nodes@[i]),
            decreases MAX_INODES - nodes@.len(),
        {
            nodes.push(RamNode::empty());
        }
        let r = RamFs { nodes, regular_count: 0 };
        assert forall|i: int| 0 <= i < MAX_INODES implies node_ok(#[trigger] r.nodes@[i]) by {
            if i > 0 {
                assert(free_node(r.nodes@[i]));
            }
        }
        r
    }

    pub fn regular_count(&self) -> (r: usize)
        ensures
            r == self.regular_count,
    {
        self.regular_count
    }
}

/// Whether two byte strings are equal.
pub fn bytes_equal(a: &[u8], b: &[u8]) -> (r: bool)
    ensures
        r == (a@ == b@),
{
    if a.len() != b.len() {
        return false;
    }
    let mut i: usize = 0;
    while i < a.len()
        invariant
            a@.len() == b@.len(),
            i <= a@.len(),
            forall|k: int| 0 <= k < i ==> a@[k] == b@[k],
        decreases a@.len() - i,
    {
        if a[i] != b[i] {
            return false;
        }
        i += 1;
    }
    assert(a@ =~= b@);
    true
}

/// Splits off the first component of `path`.
pub fn split_component(path: &[u8]) -> (r: (&[u8], &[u8]))
    ensures
        r.0@ == first_component(path@),
        r.1@ == after_component(path@),
{
    proof {
        lemma_slash_index(path@);
        assert(path@.skip(0) =~= path@);
    }
    let mut i: usize = 0;
    while i < path.len() && path[i] != 0x2f
        invariant
            i <= path@.len(),
            slash_index(path@) == i + slash_index(path@.skip(i as int)),
        decreases path@.len() - i,
    {
        assert(path@.skip(i as int).drop_first() =~= path@.skip(i + 1));
        i += 1;
    }
    proof {
        if i < path@.len() {
            assert(path@.skip(i as int)[0] == 0x2f);
        }
    }
    let head = vstd::slice::slice_subrange(path, 0, i);
    if i < path.len() {
        let tail = vstd::slice::slice_subrange(path, i + 1, path.len());
        assert(tail@ =~= path@.skip(i + 1));
        (head, tail)
    } else {
        let tail = vstd::slice::slice_subrange(path, i, i);
        assert(tail@ =~= Seq::<u8>::empty());
        (head, tail)
    }
}

pub fn trim_nul(bytes: &[u8]) -> (r: &[u8])
    ensures
        r@ == bytes@.take(crate::fs::vfs::nul_end(bytes@)),
{
    proof {
        assert(bytes@.skip(0) =~= bytes@);
    }
    let mut i: usize = 0;
    while i < bytes.len() && bytes[i] != 0
        invariant
            i <= bytes@.len(),
            crate::fs::vfs::nul_end(bytes@) == i + crate::fs::vfs::nul_end(bytes@.skip(i as int)),
        decreases bytes@.len() - i,
    {
        assert(bytes@.skip(i as int).drop_first() =~= bytes@.skip(i + 1));
        i += 1;
    }
    proof {
        if i == bytes@.len() {
            assert(bytes@.skip(i as int).len() == 0);
        } else {
            assert(bytes@.skip(i as int)[0] == 0);
        }
    }
    vstd::slice::slice_subrange(bytes, 0, i)
}

pub fn normalize_path(path: &[u8]) -> (r: &[u8])
    ensures
        r@ == normalized(path@),
{
    let p = trim_nul(path);
    let q = if p.len() >= 1 && p[0] == 0x2f {
        let t = vstd::slice::slice_subrange(p, 1, p.len());
        assert(t@ =~= p@.skip(1));
        t
    } else {
        p
    };
    if q.len() >= 2 && q[0] == 0x2e && q[1] == 0x2f {
        let t = vstd::slice::slice_subrange(q, 2, q.len());
        assert(t@ =~= q@.skip(2));
        t
    } else {
        q
    }
}

pub fn inode(ino: usize) -> (r: InodeRef)
    ensures
        r == ram_inode(ino),
{
    InodeRef { fs: FileSystemId::Ramfs, ino }
}

/// The bytes a file of `size` bytes has room for: whole pages, at least one.
pub open spec fn rounded(size: int) -> int {
    if size == 0 {
        PAGE_SIZE as int
    } else {
        ((size + PAGE_SIZE - 1) / (PAGE_SIZE as int)) * PAGE_SIZE
    }
}

pub fn round_capacity(size: usize) -> (r: usize)
    requires
        size <= MAX_PHYS_PAGES * PAGE_SIZE,
    ensures
        r == rounded(size as int),
        size <= r <= MAX_PHYS_PAGES * PAGE_SIZE,
        r % PAGE_SIZE == 0,
{
    if size == 0 {
        PAGE_SIZE
    } else {
        let pages = (size + (PAGE_SIZE - 1)) / PAGE_SIZE;
        assert(pages <= MAX_PHYS_PAGES);
        assert(pages * PAGE_SIZE >= size) by (nonlinear_arith)
            requires
                pages == (size + 4095) / 4096,
        ;
        assert(pages * PAGE_SIZE <= MAX_PHYS_PAGES * PAGE_SIZE) by (nonlinear_arith)
            requires
                pages <= MAX_PHYS_PAGES,
        ;
        assert(((pages as int) * 4096) % 4096 == 0) by (nonlinear_arith);
        pages * PAGE_SIZE
    }
}

/// The first slot at or after `i` (not `target`) that is used and links to
/// `target`.
pub open spec fn alias_from(nodes: Seq<RamNode>, target: usize, i: int) -> Option<usize>
    decreases nodes.len() - i,
{
    if i < FIRST_INO || i >= nodes.len() {
        None
    } else if i != target && nodes[i].used && nodes[i].link_target == target {
        Some(i as usize)
    } else {
        alias_from(nodes, target, i + 1)
    }
}

/// The first free slot at or after `i`, the root excluded.
pub open spec fn free_from(nodes: Seq<RamNode>, i: int) -> Option<usize>
    decreases nodes.len() - i,
{
    if i < FIRST_INO || i >= nodes.len() {
        None
    } else if !nodes[i].used {
        Some(i as usize)
    } else {
        free_from(nodes, i + 1)
    }
}

pub open spec fn has_child(nodes: Seq<RamNode>, parent: usize) -> bool {
    exists|i: int| FIRST_INO <= i < nodes.len() && #[trigger] nodes[i].used && nodes[i].parent == parent
}

pub proof fn lemma_child_from_range(nodes: Seq<RamNode>, parent: usize, name: Seq<u8>, i: int)
    requires
        nodes.len() <= MAX_INODES,
    ensures
        child_from(nodes, parent, name, i) matches Some(k) ==> FIRST_INO <= i <= k < nodes.len()
            && nodes[k as int].used && nodes[k as int].parent == parent && nodes[k as int].name@ == name,
    decreases nodes.len() - i,
{
    if FIRST_INO <= i < nodes.len() {
        lemma_child_from_range(nodes, parent, name, i + 1);
    }
}

pub proof fn lemma_alias_from_range(nodes: Seq<RamNode>, target: usize, i: int)
    requires
        nodes.len() <= MAX_INODES,
    ensures
        alias_from(nodes, target, i) matches Some(k) ==> FIRST_INO <= i <= k < nodes.len() && k != target
            && nodes[k as int].used && nodes[k as int].link_target == target,
    decreases nodes.len() - i,
{
    if FIRST_INO <= i < nodes.len() {
        lemma_alias_from_range(nodes, target, i + 1);
    }
}

pub proof fn lemma_free_from_range(nodes: Seq<RamNode>, i: int)
    requires
        nodes.len() <= MAX_INODES,
    ensures
        free_from(nodes, i) matches Some(k) ==> FIRST_INO <= i <= k < nodes.len() && !nodes[k as int].used,
    decreases nodes.len() - i,
{
    if FIRST_INO <= i < nodes.len() {
        lemma_free_from_range(nodes, i + 1);
    }
}

impl RamFs {
    pub fn lookup_child(&self, parent: usize, name: &[u8]) -> (r: Option<usize>)
        requires
            self.wf(),
        ensures
            r == child_of(self.nodes@, parent, name@),
            r matches Some(i) ==> FIRST_INO <= i < MAX_INODES,
    {
        proof {
            lemma_child_from_range(self.nodes@, parent, name@, FIRST_INO as int);
        }
        let mut idx: usize = FIRST_INO;
        while idx < MAX_INODES
            invariant
                self.wf(),
                FIRST_INO <= idx <= MAX_INODES,
                child_of(self.nodes@, parent, name@) == child_from(self.nodes@, parent, name@, idx as int),
            decreases MAX_INODES - idx,
        {
            let node = &self.nodes[idx];
            if node.used && node.parent == parent && bytes_equal(node.name.as_slice(), name) {
                return Some(idx);
            }
            idx += 1;
        }
        None
    }

    pub fn has_children(&self, parent: usize) -> (r: bool)
        requires
            self.wf(),
        ensures
            r == has_child(self.nodes@, parent),
    {
        let mut idx: usize = FIRST_INO;
        while idx < MAX_INODES
            invariant
                self.wf(),
                FIRST_INO <= idx <= MAX_INODES,
                forall|j: int| FIRST_INO <= j < idx ==> !(#[trigger] self.nodes@[j].used && self.nodes@[j].parent == parent),
            decreases MAX_INODES - idx,
        {
            if self.nodes[idx].used && self.nodes[idx].parent == parent {
                return true;
            }
            idx += 1;
        }
        false
    }

    /// The slot that `path` names, walking from the root.
    pub fn lookup_path(&self, path: &[u8]) -> (r: Option<usize>)
        requires
            self.wf(),
        ensures
            r == walk(self.nodes@, ROOT_INO, path@),
            r matches Some(i) ==> i < MAX_INODES,
    {
        let mut current: usize = ROOT_INO;
        let mut rest: &[u8] = path;
        while rest.len() > 0
            invariant
                self.wf(),
                current < MAX_INODES,
                walk(self.nodes@, ROOT_INO, path@) == walk(self.nodes@, current, rest@),
            decreases rest@.len(),
        {
            proof {
                lemma_after_shorter(rest@);
            }
            let (component, tail) = split_component(rest);
            if component.len() == 0 || (component.len() == 1 && component[0] == 0x2e) {
                assert(component@.len() == 1 ==> component@ =~= dot());
                rest = tail;
            } else if component.len() == 2 && component[0] == 0x2e && component[1] == 0x2e {
                assert(component@ =~= dot_dot());
                assert(component@ != dot());
                current = self.nodes[current].parent;
                rest = tail;
            } else {
                proof {
                    if component@ == dot() {
                        assert(component@.len() == 1 && component@[0] == 0x2e);
                    }
                    if component@ == dot_dot() {
                        assert(component@.len() == 2 && component@[0] == 0x2e && component@[1] == 0x2e);
                    }
                }
                match self.lookup_child(current, component) {
                    Some(next) => {
                        current = next;
                        rest = tail;
                    },
                    None => {
                        return None;
                    },
                }
            }
        }
        Some(current)
    }

    /// The slot that `path` names.
    pub fn lookup(&self, path: &[u8]) -> (r: Option<InodeRef>)
        requires
            self.wf(),
        ensures
            r == (match self.resolve(path@) {
                Some(i) => Some(ram_inode(i)),
                None => None::<InodeRef>,
            }),
    {
        let p = normalize_path(path);
        match self.lookup_path(p) {
            Some(i) => Some(inode(i)),
            None => None,
        }
    }

    /// The slot `inode` names; `ENOENT` unless it is a used ramfs slot.
    pub fn index(&self, inode: InodeRef) -> (r: Result<usize, u32>)
        requires
            self.wf(),
        ensures
            match self.slot_of(inode) {
                Some(i) => r == Ok::<usize, u32>(i as usize),
                None => r == Err::<usize, u32>(ENOENT),
            },
    {
        if inode.fs != FileSystemId::Ramfs || inode.ino >= MAX_INODES {
            return Err(ENOENT);
        }
        if !self.nodes[inode.ino].used {
            return Err(ENOENT);
        }
        Ok(inode.ino)
    }

    /// The slot that holds the data of slot `idx`.
    pub fn data_index(&self, idx: usize) -> (r: usize)
        requires
            self.wf(),
            idx < MAX_INODES,
        ensures
            r == data_slot(self.nodes@, idx as int),
            r < MAX_INODES,
    {
        let target = self.nodes[idx].link_target;
        if target < MAX_INODES && self.nodes[target].used {
            target
        } else {
            idx
        }
    }

    /// Another slot that links to `target`, the first in table order.
    pub fn find_alias(&self, target: usize) -> (r: Option<usize>)
        requires
            self.wf(),
        ensures
            r == alias_from(self.nodes@, target, FIRST_INO as int),
            r matches Some(i) ==> FIRST_INO <= i < MAX_INODES,
    {
        proof {
            lemma_alias_from_range(self.nodes@, target, FIRST_INO as int);
        }
        let mut idx: usize = FIRST_INO;
        while idx < MAX_INODES
            invariant
                self.wf(),
                FIRST_INO <= idx <= MAX_INODES,
                alias_from(self.nodes@, target, FIRST_INO as int) == alias_from(self.nodes@, target, idx as int),
            decreases MAX_INODES - idx,
        {
            if idx != target && self.nodes[idx].used && self.nodes[idx].link_target == target {
                return Some(idx);
            }
            idx += 1;
        }
        None
    }

    /// The first free slot, the root excluded.
    fn free_slot(&self) -> (r: Option<usize>)
        requires
            self.wf(),
        ensures
            r == free_from(self.nodes@, FIRST_INO as int),
            r matches Some(i) ==> FIRST_INO <= i < MAX_INODES,
    {
        proof {
            lemma_free_from_range(self.nodes@, FIRST_INO as int);
        }
        let mut idx: usize = FIRST_INO;
        while idx < MAX_INODES
            invariant
                self.wf(),
                FIRST_INO <= idx <= MAX_INODES,
                free_from(self.nodes@, FIRST_INO as int) == free_from(self.nodes@, idx as int),
            decreases MAX_INODES - idx,
        {
            if !self.nodes[idx].used {
                return Some(idx);
            }
            idx += 1;
        }
        None
    }

    /// The node `inode` names.
    pub fn node(&self, inode: InodeRef) -> (r: Option<&RamNode>)
        requires
            self.wf(),
        ensures
            match self.slot_of(inode) {
                Some(i) => r == Some(&self.nodes@[i]),
                None => r is None,
            },
    {
        match self.index(inode) {
            Ok(i) => Some(&self.nodes[i]),
            Err(_) => None,
        }
    }

    /// The node that holds the data of `node`: its link target when that
    /// slot is in use, else the node itself.
    pub fn data_node_ref<'a>(&'a self, node: &'a RamNode) -> (r: &'a RamNode)
        requires
            self.wf(),
        ensures
            (node.link_target < MAX_INODES && self.nodes@[node.link_target as int].used) ==> r == &self.nodes@[node.link_target as int],
            !(node.link_target < MAX_INODES && self.nodes@[node.link_target as int].used) ==> r == node,
    {
        let t = node.link_target;
        if t < MAX_INODES && self.nodes[t].used {
            &self.nodes[t]
        } else {
            node
        }
    }

    pub open spec fn meta_of(&self, inode: InodeRef) -> Metadata {
        let n = self.nodes@[inode.ino as int];
        let d = self.nodes@[data_slot(self.nodes@, inode.ino as int)];
        Metadata {
            inode,
            file_type: n.file_type,
            size: d.data@.len() as usize,
            mode: n.mode,
            nlink: if d.nlink > 1 { d.nlink } else { 1 },
            uid: 0,
            gid: 0,
            atime: 0,
            mtime: 0,
            ctime: 0,
        }
    }

    pub fn metadata(&self, inode: InodeRef) -> (r: Option<Metadata>)
        requires
            self.wf(),
        ensures
            match self.slot_of(inode) {
                Some(i) => r == Some(self.meta_of(inode)),
                None => r is None,
            },
    {
        let node = match self.node(inode) {
            Some(n) => n,
            None => {
                return None;
            },
        };
        let data_node = self.data_node_ref(node);
        let mut meta = Metadata::new(inode, node.file_type, data_node.data.len(), node.mode);
        meta.nlink = if data_node.nlink > 1 { data_node.nlink } else { 1 };
        Some(meta)
    }
}

/// The bytes of a file after `src` is written at `off`: a gap before `off`
/// reads as zeros.
pub open spec fn written(old: Seq<u8>, off: int, src: Seq<u8>) -> Seq<u8> {
    let len = if old.len() > off + src.len() { old.len() as int } else { off + src.len() };
    Seq::new(len as nat, |i: int| if off <= i < off + src.len() {
        src[i - off]
    } else if i < old.len() {
        old[i]
    } else {
        0u8
    })
}

/// The bytes of a file cut or zero-extended to `size`.
pub open spec fn resized(old: Seq<u8>, size: int) -> Seq<u8> {
    Seq::new(size as nat, |i: int| if i < old.len() { old[i] } else { 0u8 })
}

fn write_into(data: &mut Vec<u8>, offset: usize, src: &[u8])
    requires
        offset + src@.len() <= usize::MAX,
    ensures
        final(data)@ == written(old(data)@, offset as int, src@),
{
    let ghost old_data = data@;
    while data.len() < offset
        invariant
            old_data.len() <= data@.len() <= offset || data@.len() == old_data.len(),
            offset + src@.len() <= usize::MAX,
            data@.len() >= old_data.len(),
            forall|k: int| 0 <= k < data@.len() ==> data@[k] == if k < old_data.len() { old_data[k] } else { 0u8 },
        decreases offset - data@.len(),
    {
        data.push(0);
    }
    let mut i: usize = 0;
    while i < src.len()
        invariant
            i <= src@.len(),
            offset + src@.len() <= usize::MAX,
            data@.len() >= offset,
            data@ == written(old_data, offset as int, src@.take(i as int)),
        decreases src@.len() - i,
    {
        let pos = offset + i;
        if pos < data.len() {
            data.set(pos, src[i]);
        } else {
            data.push(src[i]);
        }
        assert(data@ =~= written(old_data, offset as int, src@.take(i + 1)));
        i += 1;
    }
    assert(src@.take(src@.len() as int) =~= src@);
    assert(data@ =~= written(old_data, offset as int, src@));
}

fn resize_to(data: &mut Vec<u8>, size: usize)
    ensures
        final(data)@ == resized(old(data)@, size as int),
{
    let ghost old_data = data@;
    if size <= data.len() {
        data.truncate(size);
        assert(data@ =~= resized(old_data, size as int));
        return;
    }
    while data.len() < size
        invariant
            old_data.len() <= data@.len() <= size,
            forall|k: int| 0 <= k < data@.len() ==> data@[k] == if k < old_data.len() { old_data[k] } else { 0u8 },
        decreases size - data@.len(),
    {
        data.push(0);
    }
    assert(data@ =~= resized(old_data, size as int));
}

/// The last `/` in `path`, or -1.
pub open spec fn last_slash(path: Seq<u8>) -> int
    decreases path.len(),
{
    if path.len() == 0 {
        -1
    } else if path.last() == 0x2f {
        path.len() - 1
    } else {
        last_slash(path.drop_last())
    }
}

pub proof fn lemma_last_slash(path: Seq<u8>)
    ensures
        -1 <= last_slash(path) < path.len(),
        last_slash(path) >= 0 ==> path[last_slash(path)] == 0x2f,
        forall|k: int| last_slash(path) < k < path.len() ==> path[k] != 0x2f,
    decreases path.len(),
{
    if path.len() > 0 && path.last() != 0x2f {
        lemma_last_slash(path.drop_last());
        assert forall|k: int| last_slash(path) < k < path.len() implies path[k] != 0x2f by {
            if k < path.len() - 1 {
                assert(path[k] == path.drop_last()[k]);
            }
        }
    }
}

fn last_slash_index(path: &[u8]) -> (r: Option<usize>)
    ensures
        match r {
            Some(k) => k == last_slash(path@) && k < path@.len(),
            None => last_slash(path@) == -1,
        },
{
    proof {
        lemma_last_slash(path@);
        assert(path@.take(path@.len() as int) =~= path@);
    }
    let mut i: usize = path.len();
    while i > 0
        invariant
            i <= path@.len(),
            last_slash(path@) == last_slash(path@.take(i as int)),
        decreases i,
    {
        assert(path@.take(i as int).last() == path@[i - 1]);
        if path[i - 1] == 0x2f {
            return Some(i - 1);
        }
        assert(path@.take(i as int).drop_last() =~= path@.take(i - 1));
        i -= 1;
    }
    None
}

impl RamFs {
    /// Where `path` would be created: its parent directory and last
    /// component.
    pub open spec fn split_parent(&self, path: Seq<u8>) -> Result<(usize, Seq<u8>), u32> {
        let k = last_slash(path);
        if k < 0 {
            Ok((ROOT_INO, path))
        } else {
            let base = path.skip(k + 1);
            if base.len() == 0 || base.len() > NAME_LEN {
                Err(EINVAL)
            } else {
                match walk(self.nodes@, ROOT_INO, path.take(k)) {
                    None => Err(ENOENT),
                    Some(p) => if self.nodes@[p as int].file_type != FileType::Directory {
                        Err(EINVAL)
                    } else {
                        Ok((p, base))
                    },
                }
            }
        }
    }

    pub fn parent_and_basename<'a>(&self, path: &'a [u8]) -> (r: Result<(usize, &'a [u8]), u32>)
        requires
            self.wf(),
        ensures
            match self.split_parent(path@) {
                Ok((p, b)) => r matches Ok((rp, rb)) && rp == p && rb@ == b,
                Err(e) => r == Err::<(usize, &[u8]), u32>(e),
            },
            r matches Ok((rp, rb)) ==> rp < MAX_INODES && parent_dir_ok(self.nodes@, rp as int),
    {
        proof {
            lemma_walk_used(self.nodes@, ROOT_INO, path@.take(last_slash(path@)));
        }
        let split = match last_slash_index(path) {
            Some(k) => k,
            None => {
                return Ok((ROOT_INO, path));
            },
        };
        let n = path.len();
        assert(split < n);
        let parent_path = vstd::slice::slice_subrange(path, 0, split);
        let basename = vstd::slice::slice_subrange(path, split + 1, n);
        assert(basename@ =~= path@.skip(split + 1));
        assert(parent_path@ =~= path@.take(split as int));
        if basename.len() == 0 || basename.len() > NAME_LEN {
            return Err(EINVAL);
        }
        let parent = match self.lookup_path(parent_path) {
            Some(p) => p,
            None => {
                return Err(ENOENT);
            },
        };
        if self.nodes[parent].file_type != FileType::Directory {
            return Err(EINVAL);
        }
        Ok((parent, basename))
    }

    /// Grows the room of slot `idx` to at least `needed` bytes, in whole
    /// pages; `ENOMEM` when that is more than physical memory holds.
    pub fn ensure_capacity(&mut self, idx: usize, needed: usize) -> (r: Result<(), u32>)
        requires
            old(self).wf(),
            idx < MAX_INODES,
        ensures
            final(self).wf(),
            final(self).regular_count == old(self).regular_count,
            r is Ok <==> needed <= old(self).nodes@[idx as int].capacity || needed <= MAX_PHYS_PAGES * PAGE_SIZE,
            r is Err ==> r == Err::<(), u32>(ENOMEM) && final(self).nodes@ == old(self).nodes@,
            r is Ok ==> final(self).nodes@[idx as int].capacity >= needed,
            final(self).nodes@.len() == old(self).nodes@.len(),
            forall|i: int| 0 <= i < MAX_INODES && i != idx ==> #[trigger] final(self).nodes@[i] == old(self).nodes@[i],
            ({
                let o = old(self).nodes@[idx as int];
                let n = final(self).nodes@[idx as int];
                n.used == o.used && n.parent == o.parent && n.name@ == o.name@ && n.file_type == o.file_type
                    && n.mode == o.mode && n.data@ == o.data@ && n.link_target == o.link_target && n.nlink == o.nlink
            }),
    {
        if needed <= self.nodes[idx].capacity {
            return Ok(());
        }
        if needed > MAX_PHYS_PAGES * PAGE_SIZE {
            return Err(ENOMEM);
        }
        let new_capacity = round_capacity(needed);
        let ghost before = self.nodes@;
        self.nodes[idx].capacity = new_capacity;
        proof {
            assert(self.nodes@ =~= before.update(idx as int, self.nodes@[idx as int]));
            lemma_table_update(before, idx as int, self.nodes@[idx as int]);
        }
        Ok(())
    }
}

pub open spec fn write_spec(old: RamFs, new: RamFs, inode: InodeRef, offset: usize, src: Seq<u8>, r: Result<usize, u32>) -> bool {
    match old.slot_of(inode) {
        None => r == Err::<usize, u32>(ENOENT) && new.nodes@ == old.nodes@,
        Some(i) => {
            let t = old.nodes@[i].file_type;
            let d = data_slot(old.nodes@, i);
            let end = offset + src.len();
            if t != FileType::Regular && t != FileType::Symlink {
                r == Err::<usize, u32>(EINVAL) && new.nodes@ == old.nodes@
            } else if end > usize::MAX || (end > old.nodes@[d].capacity && end > MAX_PHYS_PAGES * PAGE_SIZE) {
                r == Err::<usize, u32>(ENOMEM) && new.nodes@ == old.nodes@
            } else {
                &&& r == Ok::<usize, u32>(src.len() as usize)
                &&& only_data_changed(old.nodes@, new.nodes@, d)
                &&& new.nodes@[d].data@ == written(old.nodes@[d].data@, offset as int, src)
            }
        },
    }
}

pub open spec fn truncate_spec(old: RamFs, new: RamFs, inode: InodeRef, size: usize, r: Result<(), u32>) -> bool {
    match old.slot_of(inode) {
        None => r == Err::<(), u32>(ENOENT) && new.nodes@ == old.nodes@,
        Some(i) => {
            let d = data_slot(old.nodes@, i);
            if old.nodes@[i].file_type == FileType::Directory {
                r == Err::<(), u32>(EISDIR) && new.nodes@ == old.nodes@
            } else if size > old.nodes@[d].capacity && size > MAX_PHYS_PAGES * PAGE_SIZE {
                r == Err::<(), u32>(ENOMEM) && new.nodes@ == old.nodes@
            } else {
                &&& r is Ok
                &&& only_data_changed(old.nodes@, new.nodes@, d)
                &&& new.nodes@[d].data@ == resized(old.nodes@[d].data@, size as int)
            }
        },
    }
}

pub open spec fn create_spec(old: RamFs, new: RamFs, path: Seq<u8>, file_type: FileType, mode: u16, fail_if_exists: bool, r: Result<InodeRef, u32>) -> bool {
    match old.create_outcome(path, fail_if_exists) {
        Err(e) => r == Err::<InodeRef, u32>(e) && new.nodes@ == old.nodes@
            && new.regular_count == old.regular_count,
        Ok(s) => {
            &&& r == Ok::<InodeRef, u32>(ram_inode(s))
            &&& if old.resolve(normalized(path)) is Some {
                new.nodes@ == old.nodes@ && new.regular_count == old.regular_count
            } else {
                let (parent, base) = old.split_parent(normalized(path))->Ok_0;
                &&& RamFs::placed(old.nodes@, new.nodes@, s as int, parent, base, file_type, mode)
                &&& new.regular_count == (if file_type == FileType::Regular { old.regular_count.wrapping_add(1) } else { old.regular_count })
            }
        },
    }
}

impl RamFs {
    /// Writes `src` at `offset` into the file `inode` names, growing it
    /// (the gap reads as zeros); the count written is all of `src`.
    pub fn write(&mut self, inode: InodeRef, offset: usize, src: &[u8]) -> (r: Result<usize, u32>)
        requires
            old(self).wf(),
        ensures
            final(self).wf(),
            final(self).regular_count == old(self).regular_count,
            write_spec(*old(self), *final(self), inode, offset, src@, r),
    {
        let idx = match self.index(inode) {
            Ok(i) => i,
            Err(e) => {
                return Err(e);
            },
        };
        if self.nodes[idx].file_type != FileType::Regular && self.nodes[idx].file_type != FileType::Symlink {
            return Err(EINVAL);
        }
        let d = self.data_index(idx);
        let end = match offset.checked_add(src.len()) {
            Some(e) => e,
            None => {
                return Err(ENOMEM);
            },
        };
        match self.ensure_capacity(d, end) {
            Ok(()) => {},
            Err(e) => {
                return Err(e);
            },
        }
        let ghost mid = self.nodes@;
        let ghost count = self.regular_count;
        write_into(&mut self.nodes[d].data, offset, src);
        proof {
            let x = self.nodes@[d as int];
            assert(self.nodes@ =~= mid.update(d as int, x));
            assert(node_ok(x));
            lemma_table_update(mid, d as int, x);
        }
        Ok(src.len())
    }

    /// Cuts or zero-extends the file `inode` names to `size` bytes.
    pub fn truncate(&mut self, inode: InodeRef, size: usize) -> (r: Result<(), u32>)
        requires
            old(self).wf(),
        ensures
            final(self).wf(),
            final(self).regular_count == old(self).regular_count,
            truncate_spec(*old(self), *final(self), inode, size, r),
    {
        let idx = match self.index(inode) {
            Ok(i) => i,
            Err(e) => {
                return Err(e);
            },
        };
        if self.nodes[idx].file_type == FileType::Directory {
            return Err(EISDIR);
        }
        let d = self.data_index(idx);
        match self.ensure_capacity(d, size) {
            Ok(()) => {},
            Err(e) => {
                return Err(e);
            },
        }
        let ghost mid = self.nodes@;
        let ghost count = self.regular_count;
        resize_to(&mut self.nodes[d].data, size);
        proof {
            let x = self.nodes@[d as int];
            assert(self.nodes@ =~= mid.update(d as int, x));
            assert(node_ok(x));
            lemma_table_update(mid, d as int, x);
        }
        Ok(())
    }

    /// The result of creating `path`: the slot of what already stands
    /// there, or the free slot the new node takes.
    pub open spec fn create_outcome(&self, path: Seq<u8>, fail_if_exists: bool) -> Result<usize, u32> {
        let p = normalized(path);
        if p.len() == 0 || p.len() > NAME_LEN {
            Err(EINVAL)
        } else {
            match self.resolve(p) {
                Some(e) => if fail_if_exists { Err(EEXIST) } else { Ok(e) },
                None => match self.split_parent(p) {
                    Err(e) => Err(e),
                    Ok(_) => match free_from(self.nodes@, FIRST_INO as int) {
                        None => Err(ENOSPC),
                        Some(s) => Ok(s),
                    },
                },
            }
        }
    }

    /// A new node was placed in `slot` under `parent` with name `base`.
    pub open spec fn placed(old: Seq<RamNode>, new: Seq<RamNode>, slot: int, parent: usize, base: Seq<u8>, file_type: FileType, mode: u16) -> bool {
        &&& new.len() == old.len()
        &&& forall|i: int| 0 <= i < old.len() && i != slot ==> #[trigger] new[i] == old[i]
        &&& new[slot].used
        &&& new[slot].parent == parent
        &&& new[slot].name@ == base
        &&& new[slot].file_type == file_type
        &&& new[slot].mode == mode
        &&& new[slot].capacity == 0
        &&& new[slot].data@.len() == 0
        &&& new[slot].link_target == slot
        &&& new[slot].nlink == (if file_type == FileType::Directory { 2u32 } else { 1u32 })
    }

    /// Creates a node of `file_type` at `path`. An existing node there is
    /// `EEXIST` when `fail_if_exists`, else it is returned as it is.
    pub fn create_node(&mut self, path: &[u8], file_type: FileType, mode: u16, fail_if_exists: bool) -> (r: Result<InodeRef, u32>)
        requires
            old(self).wf(),
        ensures
            final(self).wf(),
            create_spec(*old(self), *final(self), path@, file_type, mode, fail_if_exists, r),
    {
        let p = normalize_path(path);
        if p.len() == 0 || p.len() > NAME_LEN {
            return Err(EINVAL);
        }
        match self.lookup(p) {
            Some(existing) => {
                return if fail_if_exists {
                    Err(EEXIST)
                } else {
                    Ok(existing)
                };
            },
            None => {},
        }
        let (parent, basename) = match self.parent_and_basename(p) {
            Ok(pb) => pb,
            Err(e) => {
                return Err(e);
            },
        };
        let slot = match self.free_slot() {
            Some(s) => s,
            None => {
                return Err(ENOSPC);
            },
        };
        let node = RamNode {
            used: true,
            parent,
            name: vstd::slice::slice_to_vec(basename),
            file_type,
            mode,
            capacity: 0,
            data: Vec::new(),
            link_target: slot,
            nlink: match file_type {
                FileType::Directory => 2,
                _ => 1,
            },
        };
        let ghost before = self.nodes@;
        let ghost count = self.regular_count;
        proof {
            lemma_free_from_range(before, FIRST_INO as int);
            lemma_table_update(before, slot as int, node);
        }
        self.nodes.set(slot, node);
        if file_type == FileType::Regular {
            self.regular_count = self.regular_count.wrapping_add(1);
        }
        Ok(inode(slot))
    }

    pub fn create_file(&mut self, path: &[u8], mode: u16) -> (r: Result<InodeRef, u32>)
        requires
            old(self).wf(),
        ensures
            final(self).wf(),
            match old(self).create_outcome(path@, true) {
                Err(e) => r == Err::<InodeRef, u32>(e) && final(self).nodes@ == old(self).nodes@
                    && final(self).regular_count == old(self).regular_count,
                Ok(s) => {
                    let (parent, base) = old(self).split_parent(normalized(path@))->Ok_0;
                    &&& r == Ok::<InodeRef, u32>(ram_inode(s))
                    &&& RamFs::placed(old(self).nodes@, final(self).nodes@, s as int, parent, base, FileType::Regular, mode)
                    &&& final(self).regular_count == old(self).regular_count.wrapping_add(1)
                },
            },
    {
        self.create_node(path, FileType::Regular, mode, true)
    }

    pub fn mkdir(&mut self, path: &[u8], mode: u16) -> (r: Result<InodeRef, u32>)
        requires
            old(self).wf(),
        ensures
            final(self).wf(),
            final(self).regular_count == old(self).regular_count,
            match old(self).create_outcome(path@, false) {
                Err(e) => r == Err::<InodeRef, u32>(e) && final(self).nodes@ == old(self).nodes@,
                Ok(s) => {
                    &&& r == Ok::<InodeRef, u32>(ram_inode(s))
                    &&& if old(self).resolve(normalized(path@)) is Some {
                        final(self).nodes@ == old(self).nodes@
                    } else {
                        let (parent, base) = old(self).split_parent(normalized(path@))->Ok_0;
                        RamFs::placed(old(self).nodes@, final(self).nodes@, s as int, parent, base, FileType::Directory, mode)
                    }
                },
            },
    {
        self.create_node(path, FileType::Directory, mode, false)
    }
}

/// Two nodes agree in everything but where they link.
pub open spec fn same_but_link(a: RamNode, b: RamNode) -> bool {
    &&& a.used == b.used
    &&& a.parent == b.parent
    &&& a.name@ == b.name@
    &&& a.file_type == b.file_type
    &&& a.mode == b.mode
    &&& a.capacity == b.capacity
    &&& a.data@ == b.data@
    &&& a.nlink == b.nlink
}

pub open spec fn sat_dec(x: u32) -> u32 {
    if x == 0 { 0 } else { (x - 1) as u32 }
}

/// What `unlink(path)` does to the file system `old`, giving `new` and `r`.
pub open spec fn unlink_spec(old: RamFs, new: RamFs, path: Seq<u8>, r: Result<(), u32>) -> bool {
    new.nodes@.len() == old.nodes@.len() &&
        match old.unlink_target(path) {
            Err(e) => r == Err::<(), u32>(e) && new.nodes@ == old.nodes@
                && new.regular_count == old.regular_count,
            Ok(i) => {
                let o = old.nodes@;
                let f = new.nodes@;
                &&& r is Ok
                &&& f.len() == o.len()
                &&& free_node(f[i as int])
                &&& if o[i as int].file_type == FileType::Directory {
                    &&& forall|j: int| 0 <= j < o.len() && j != i ==> #[trigger] f[j] == o[j]
                    &&& new.regular_count == old.regular_count
                } else if data_slot(o, i as int) != i {
                    let w = data_slot(o, i as int);
                    &&& forall|j: int| 0 <= j < o.len() && j != i && j != w ==> #[trigger] f[j] == o[j]
                    &&& same_but_link(f[w], RamNode { nlink: sat_dec(o[w].nlink), ..o[w] }) && f[w].link_target == o[w].link_target
                    &&& new.regular_count == old.regular_count
                } else if o[i as int].nlink > 1 && alias_from(o, i, FIRST_INO as int) is Some {
                    let a = alias_from(o, i, FIRST_INO as int)->Some_0 as int;
                    &&& f[a].data@ == o[i as int].data@
                    &&& f[a].capacity == o[i as int].capacity
                    &&& f[a].nlink == o[i as int].nlink - 1
                    &&& f[a].link_target == a
                    &&& f[a].used == o[a].used && f[a].parent == o[a].parent && f[a].name@ == o[a].name@
                    &&& f[a].file_type == o[a].file_type && f[a].mode == o[a].mode
                    &&& forall|j: int| 0 <= j < o.len() && j != i && j != a ==> {
                        &&& same_but_link(#[trigger] f[j], o[j])
                        &&& f[j].link_target == if o[j].used && o[j].link_target == i { a as usize } else { o[j].link_target }
                    }
                    &&& new.regular_count == old.regular_count
                } else {
                    &&& forall|j: int| 0 <= j < o.len() && j != i ==> #[trigger] f[j] == o[j]
                    &&& new.regular_count == if o[i as int].file_type == FileType::Regular && old.regular_count > 0 {
                        (old.regular_count - 1) as usize
                    } else {
                        old.regular_count
                    }
                }
            },
        }
}

impl RamFs {
    /// The slot `unlink(path)` removes, or its error.
    pub open spec fn unlink_target(&self, path: Seq<u8>) -> Result<usize, u32> {
        match self.resolve(path) {
            None => Err(ENOENT),
            Some(i) => if i == ROOT_INO {
                Err(EINVAL)
            } else if self.nodes@[i as int].file_type == FileType::Directory && has_child(self.nodes@, i) {
                Err(ENOTEMPTY)
            } else {
                Ok(i)
            },
        }
    }

    /// Removes the name `path`. A directory must be empty. A hard link drops
    /// one count of the node it links to; the last name of a file that has
    /// other names hands its data to the first of them, which every other
    /// name then links to.
    #[verifier::rlimit(50)]
    #[verifier::spinoff_prover]
    pub fn unlink(&mut self, path: &[u8]) -> (r: Result<(), u32>)
        requires
            old(self).wf(),
        ensures
            final(self).wf(),
            unlink_spec(*old(self), *final(self), path@, r),
    {
        let p = normalize_path(path);
        let idx = match self.lookup_path(p) {
            Some(i) => i,
            None => {
                return Err(ENOENT);
            },
        };
        if idx == ROOT_INO {
            return Err(EINVAL);
        }
        let is_dir = self.nodes[idx].file_type == FileType::Directory;
        if is_dir && self.has_children(idx) {
            return Err(ENOTEMPTY);
        }
        let ghost o = self.nodes@;
        let ghost count = self.regular_count;
        if is_dir {
            let e = RamNode::empty();
            proof {
                lemma_table_clear(o, idx as int, e);
            }
            self.nodes.set(idx, e);
            return Ok(());
        }
        let owner = self.data_index(idx);
        if owner != idx {
            let n = self.nodes[owner].nlink;
            let dec = if n == 0 { 0 } else { n - 1 };
            self.nodes[owner].nlink = dec;
            let ghost mid = self.nodes@;
            proof {
                let x = mid[owner as int];
                assert(mid =~= o.update(owner as int, x));
                lemma_table_same_shape(o, owner as int, x);
            }
            let e = RamNode::empty();
            proof {
                lemma_table_clear(mid, idx as int, e);
            }
            self.nodes.set(idx, e);
            return Ok(());
        }
        if self.nodes[idx].nlink > 1 {
            match self.find_alias(idx) {
                Some(new_owner) => {
                    proof {
                        lemma_alias_from_range(o, idx, FIRST_INO as int);
                    }
                    let mut data: Vec<u8> = Vec::new();
                    std::mem::swap(&mut data, &mut self.nodes[idx].data);
                    let ghost s1 = self.nodes@;
                    proof {
                        let x = s1[idx as int];
                        assert(s1 =~= o.update(idx as int, x));
                        lemma_table_same_shape(o, idx as int, x);
                    }
                    let cap = self.nodes[idx].capacity;
                    let links = self.nodes[idx].nlink - 1;
                    self.nodes[new_owner].data = data;
                    self.nodes[new_owner].capacity = cap;
                    self.nodes[new_owner].nlink = links;
                    self.nodes[new_owner].link_target = new_owner;
                    let ghost s2 = self.nodes@;
                    proof {
                        let x = s2[new_owner as int];
                        assert(s2 =~= s1.update(new_owner as int, x));
                        assert(node_ok(x));
                        lemma_table_same_shape(s1, new_owner as int, x);
                    }
                    let mut alias: usize = FIRST_INO;
                    while alias < MAX_INODES
                        invariant
                            table_ok(self.nodes@),
                            self.regular_count == count,
                            FIRST_INO <= alias <= MAX_INODES,
                            idx < MAX_INODES && new_owner < MAX_INODES && idx != new_owner,
                            self.nodes@[idx as int] == s2[idx as int],
                            self.nodes@[new_owner as int] == s2[new_owner as int],
                            s2.len() == MAX_INODES,
                            forall|j: int| 0 <= j < MAX_INODES && j != idx && j != new_owner ==> {
                                &&& same_but_link(#[trigger] self.nodes@[j], s2[j])
                                &&& self.nodes@[j].link_target == if FIRST_INO <= j < alias && s2[j].used && s2[j].link_target == idx {
                                    new_owner
                                } else {
                                    s2[j].link_target
                                }
                            },
                        decreases MAX_INODES - alias,
                    {
                        if alias != idx && alias != new_owner && self.nodes[alias].used && self.nodes[alias].link_target == idx {
                            let ghost before = self.nodes@;
                            self.nodes[alias].link_target = new_owner;
                            proof {
                                let x = self.nodes@[alias as int];
                                assert(self.nodes@ =~= before.update(alias as int, x));
                                lemma_table_same_shape(before, alias as int, x);
                            }
                        }
                        alias += 1;
                    }
                    let ghost s3 = self.nodes@;
                    let e = RamNode::empty();
                    proof {
                        lemma_table_clear(s3, idx as int, e);
                        lemma_alias_from_range(o, idx, FIRST_INO as int);
                    }
                    self.nodes.set(idx, e);
                    return Ok(());
                },
                None => {},
            }
        }
        if self.nodes[idx].file_type == FileType::Regular {
            self.regular_count = if self.regular_count == 0 { 0 } else { self.regular_count - 1 };
        }
        let e = RamNode::empty();
        proof {
            lemma_table_clear(o, idx as int, e);
        }
        self.nodes.set(idx, e);
        Ok(())
    }
}

/// Everything of slot `idx` stayed but its parent and name.
pub open spec fn moved(old: Seq<RamNode>, new: Seq<RamNode>, idx: int, parent: usize, base: Seq<u8>) -> bool {
    &&& new.len() == old.len()
    &&& forall|i: int| 0 <= i < old.len() && i != idx ==> #[trigger] new[i] == old[i]
    &&& new[idx].parent == parent
    &&& new[idx].name@ == base
    &&& new[idx].used == old[idx].used
    &&& new[idx].file_type == old[idx].file_type
    &&& new[idx].mode == old[idx].mode
    &&& new[idx].capacity == old[idx].capacity
    &&& new[idx].data@ == old[idx].data@
    &&& new[idx].link_target == old[idx].link_target
    &&& new[idx].nlink == old[idx].nlink
}

pub open spec fn sat_inc(x: u32) -> u32 {
    if x == u32::MAX { x } else { (x + 1) as u32 }
}

/// Slot `c` shows in the listing of directory `idx`: its children, and the
/// root (as `.`) in every listing.
pub open spec fn listed(nodes: Seq<RamNode>, idx: usize, c: int) -> bool {
    &&& nodes[c].used
    &&& (c == ROOT_INO || nodes[c].parent == idx)
    &&& !(idx != ROOT_INO && c == idx)
}

/// The slots below `c` that the listing of `idx` shows, in table order.
pub open spec fn listed_below(nodes: Seq<RamNode>, idx: usize, c: int) -> Seq<usize>
    decreases c,
{
    if c <= 0 {
        Seq::empty()
    } else if listed(nodes, idx, c - 1) {
        listed_below(nodes, idx, c - 1).push((c - 1) as usize)
    } else {
        listed_below(nodes, idx, c - 1)
    }
}

pub proof fn lemma_listed_prefix(nodes: Seq<RamNode>, idx: usize, c: int, d: int)
    requires
        0 <= c <= d,
    ensures
        listed_below(nodes, idx, c).len() <= listed_below(nodes, idx, d).len(),
        listed_below(nodes, idx, c) == listed_below(nodes, idx, d).take(listed_below(nodes, idx, c).len() as int),
    decreases d - c,
{
    if c < d {
        lemma_listed_prefix(nodes, idx, c, d - 1);
        let a = listed_below(nodes, idx, d - 1);
        assert(listed_below(nodes, idx, d).take(a.len() as int) =~= a) by {
            if listed(nodes, idx, d - 1) {
                assert(listed_below(nodes, idx, d) == a.push((d - 1) as usize));
            }
        }
    } else {
        assert(listed_below(nodes, idx, c).take(listed_below(nodes, idx, c).len() as int) =~= listed_below(nodes, idx, c));
    }
}

pub proof fn lemma_listed_bound(nodes: Seq<RamNode>, idx: usize, c: int)
    requires
        0 <= c <= MAX_INODES,
    ensures
        listed_below(nodes, idx, c).len() <= c,
        forall|k: int| 0 <= k < listed_below(nodes, idx, c).len() ==> #[trigger] listed_below(nodes, idx, c)[k] < c,
    decreases c,
{
    if c > 0 {
        lemma_listed_bound(nodes, idx, c - 1);
    }
}

/// The name a listing shows for slot `c`.
pub open spec fn listed_name(nodes: Seq<RamNode>, c: usize) -> Seq<u8> {
    if c == ROOT_INO { dot() } else { nodes[c as int].name@ }
}

pub open spec fn link_spec(old: RamFs, new: RamFs, old_path: Seq<u8>, new_path: Seq<u8>, r: Result<(), u32>) -> bool {
    match old.link_outcome(old_path, new_path) {
        Err(e) => r == Err::<(), u32>(e) && new.nodes@ == old.nodes@,
        Ok((old_idx, slot)) => {
            let o = old.nodes@;
            let f = new.nodes@;
            let w = data_slot(o, old_idx as int);
            let (parent, base) = old.split_parent(normalized(new_path))->Ok_0;
            &&& r is Ok
            &&& f.len() == o.len()
            &&& forall|j: int| 0 <= j < o.len() && j != w && j != slot ==> #[trigger] f[j] == o[j]
            &&& same_but_link(f[w], RamNode { nlink: sat_inc(o[w].nlink), ..o[w] }) && f[w].link_target == o[w].link_target
            &&& f[slot as int].used && f[slot as int].parent == parent && f[slot as int].name@ == base
            &&& f[slot as int].file_type == o[old_idx as int].file_type
            &&& f[slot as int].mode == o[old_idx as int].mode
            &&& f[slot as int].link_target == w
            &&& f[slot as int].capacity == 0 && f[slot as int].data@.len() == 0 && f[slot as int].nlink == 0
        },
    }
}

pub open spec fn rename_spec(old: RamFs, new: RamFs, old_path: Seq<u8>, new_path: Seq<u8>, r: Result<(), u32>) -> bool {
    match old.rename_source(old_path, new_path) {
        Err(e) => r == Err::<(), u32>(e) && new.nodes@ == old.nodes@
            && new.regular_count == old.regular_count,
        Ok(idx) => {
            let n = normalized(new_path);
            match walk(old.nodes@, ROOT_INO, n) {
                Some(e) if e != idx => {
                    match old.unlink_target(n) {
                        Err(ue) => r == Err::<(), u32>(ue) && new.nodes@ == old.nodes@
                            && new.regular_count == old.regular_count,
                        Ok(_) => exists|mid: RamFs| {
                            &&& #[trigger] unlink_spec(old, mid, n, Ok(()))
                            &&& RamFs::move_spec(mid, new, n, idx, r)
                        },
                    }
                },
                _ => RamFs::move_spec(old, new, n, idx, r),
            }
        },
    }
}

impl RamFs {
    /// The slot that `link(old_path, new_path)` fills, or its error.
    pub open spec fn link_outcome(&self, old_path: Seq<u8>, new_path: Seq<u8>) -> Result<(usize, usize), u32> {
        let o = normalized(old_path);
        let n = normalized(new_path);
        if o.len() == 0 || n.len() == 0 || n.len() > NAME_LEN {
            Err(EINVAL)
        } else if walk(self.nodes@, ROOT_INO, n) is Some {
            Err(EEXIST)
        } else {
            match walk(self.nodes@, ROOT_INO, o) {
                None => Err(ENOENT),
                Some(old_idx) => if self.nodes@[old_idx as int].file_type == FileType::Directory {
                    Err(EPERM)
                } else {
                    match self.split_parent(n) {
                        Err(e) => Err(e),
                        Ok(_) => match free_from(self.nodes@, FIRST_INO as int) {
                            None => Err(ENOSPC),
                            Some(s) => Ok((old_idx, s)),
                        },
                    }
                },
            }
        }
    }

    /// Gives the file at `old_path` the further name `new_path`: a new slot
    /// that links to the slot holding the data, whose link count grows.
    #[verifier::rlimit(50)]
    #[verifier::spinoff_prover]
    pub fn link(&mut self, old_path: &[u8], new_path: &[u8]) -> (r: Result<(), u32>)
        requires
            old(self).wf(),
        ensures
            final(self).wf(),
            final(self).regular_count == old(self).regular_count,
            link_spec(*old(self), *final(self), old_path@, new_path@, r),
    {
        let old_p = normalize_path(old_path);
        let new_p = normalize_path(new_path);
        if old_p.len() == 0 || new_p.len() == 0 || new_p.len() > NAME_LEN {
            return Err(EINVAL);
        }
        if self.lookup_path(new_p).is_some() {
            return Err(EEXIST);
        }
        let old_idx = match self.lookup_path(old_p) {
            Some(i) => i,
            None => {
                return Err(ENOENT);
            },
        };
        if self.nodes[old_idx].file_type == FileType::Directory {
            return Err(EPERM);
        }
        let (parent, basename) = match self.parent_and_basename(new_p) {
            Ok(pb) => pb,
            Err(e) => {
                return Err(e);
            },
        };
        let slot = match self.free_slot() {
            Some(s) => s,
            None => {
                return Err(ENOSPC);
            },
        };
        proof {
            lemma_free_from_range(self.nodes@, FIRST_INO as int);
        }
        let owner = self.data_index(old_idx);
        let ghost o = self.nodes@;
        let n = self.nodes[owner].nlink;
        self.nodes[owner].nlink = if n == u32::MAX { n } else { n + 1 };
        proof {
            let x = self.nodes@[owner as int];
            assert(self.nodes@ =~= o.update(owner as int, x));
            lemma_table_same_shape(o, owner as int, x);
            lemma_walk_used(o, ROOT_INO, old_p@);
            assert(owner != slot);
        }
        let file_type = self.nodes[old_idx].file_type;
        let mode = self.nodes[old_idx].mode;
        let node = RamNode {
            used: true,
            parent,
            name: vstd::slice::slice_to_vec(basename),
            file_type,
            mode,
            capacity: 0,
            data: Vec::new(),
            link_target: owner,
            nlink: 0,
        };
        proof {
            lemma_table_update(self.nodes@, slot as int, node);
        }
        self.nodes.set(slot, node);
        Ok(())
    }

    /// The slot `rename(old_path, new_path)` moves, or its error before
    /// anything changes.
    pub open spec fn rename_source(&self, old_path: Seq<u8>, new_path: Seq<u8>) -> Result<usize, u32> {
        let o = normalized(old_path);
        let n = normalized(new_path);
        if o.len() == 0 || n.len() == 0 || n.len() > NAME_LEN {
            Err(EINVAL)
        } else {
            match walk(self.nodes@, ROOT_INO, o) {
                None => Err(ENOENT),
                Some(i) => if i == ROOT_INO { Err(EINVAL) } else { Ok(i) },
            }
        }
    }

    /// The move itself, from the table `mid` left after any existing
    /// target was removed.
    pub open spec fn move_spec(mid: RamFs, new: RamFs, n: Seq<u8>, idx: usize, r: Result<(), u32>) -> bool {
        &&& new.regular_count == mid.regular_count
        &&& match mid.split_parent(n) {
            Err(e) => r == Err::<(), u32>(e) && new.nodes@ == mid.nodes@,
            Ok((p, b)) => r is Ok && moved(mid.nodes@, new.nodes@, idx as int, p, b),
        }
    }

    /// Moves the file at `old_path` to `new_path`; a different file there is
    /// removed first, as `unlink` does.
    pub fn rename(&mut self, old_path: &[u8], new_path: &[u8]) -> (r: Result<(), u32>)
        requires
            old(self).wf(),
        ensures
            final(self).wf(),
            rename_spec(*old(self), *final(self), old_path@, new_path@, r),
    {
        let old_p = normalize_path(old_path);
        let new_p = normalize_path(new_path);
        if old_p.len() == 0 || new_p.len() == 0 || new_p.len() > NAME_LEN {
            return Err(EINVAL);
        }
        let idx = match self.lookup_path(old_p) {
            Some(i) => i,
            None => {
                return Err(ENOENT);
            },
        };
        if idx == ROOT_INO {
            return Err(EINVAL);
        }
        let ghost o = *self;
        let ghost did_unlink = false;
        match self.lookup_path(new_p) {
            Some(existing) => {
                if existing != idx {
                    match self.unlink(new_p) {
                        Ok(()) => {
                            proof {
                                did_unlink = true;
                            }
                        },
                        Err(e) => {
                            return Err(e);
                        },
                    }
                }
            },
            None => {},
        }
        let ghost mid = *self;
        proof {
            if did_unlink {
                assert(unlink_spec(o, mid, new_p@, Ok(())));
            }
            lemma_walk_used(o.nodes@, ROOT_INO, old_p@);
        }
        let (parent, basename) = match self.parent_and_basename(new_p) {
            Ok(pb) => pb,
            Err(e) => {
                assert(RamFs::move_spec(mid, *self, new_p@, idx, Err(e)));
                return Err(e);
            },
        };
        proof {
            assert(idx < MAX_INODES);
        }
        self.nodes[idx].parent = parent;
        self.nodes[idx].name = vstd::slice::slice_to_vec(basename);
        proof {
            let x = self.nodes@[idx as int];
            assert(self.nodes@ =~= mid.nodes@.update(idx as int, x));
            lemma_table_update(mid.nodes@, idx as int, x);
            assert(RamFs::move_spec(mid, *self, new_p@, idx, Ok(())));
        }
        Ok(())
    }

    /// A view of the file `inode` names: its name and bytes. Only regular
    /// files and links have one, and only when the name is UTF-8.
    pub fn open(&self, inode: InodeRef) -> (r: Option<FileView<'_>>)
        requires
            self.wf(),
        ensures
            match self.slot_of(inode) {
                None => r is None,
                Some(i) => {
                    let n = self.nodes@[i];
                    if (n.file_type != FileType::Regular && n.file_type != FileType::Symlink) || !vstd::utf8::valid_utf8(n.name@) {
                        r is None
                    } else {
                        r matches Some(v) && v.inode == inode && v.name.spec_bytes() == n.name@
                            && v.data@ == self.contents(inode)
                    }
                },
            },
    {
        let idx = match self.index(inode) {
            Ok(i) => i,
            Err(_) => {
                return None;
            },
        };
        let node = &self.nodes[idx];
        if node.file_type != FileType::Regular && node.file_type != FileType::Symlink {
            return None;
        }
        let data_node = self.data_node_ref(node);
        let name = match utf8_text(node.name.as_slice()) {
            Some(n) => n,
            None => {
                return None;
            },
        };
        Some(FileView { inode, name, data: data_node.data.as_slice() })
    }

    /// Fills `dst` with the listing of directory `inode`, skipping the first
    /// `offset` entries, and returns how many it wrote.
    pub fn read_dir(&self, inode_ref: InodeRef, offset: usize, dst: &mut [DirEntry]) -> (r: Result<usize, u32>)
        requires
            self.wf(),
        ensures
            match self.slot_of(inode_ref) {
                None => r == Err::<usize, u32>(ENOENT) && final(dst)@ == old(dst)@,
                Some(i) => if self.nodes@[i].file_type != FileType::Directory {
                    r == Err::<usize, u32>(EINVAL) && final(dst)@ == old(dst)@
                } else {
                    let all = listed_below(self.nodes@, i as usize, MAX_INODES as int);
                    let avail = if all.len() > offset { all.len() - offset } else { 0 };
                    let w = if avail < old(dst)@.len() { avail } else { old(dst)@.len() as int };
                    &&& r == Ok::<usize, u32>(w as usize)
                    &&& final(dst)@.len() == old(dst)@.len()
                    &&& forall|k: int| 0 <= k < w ==> {
                        let c = all[offset + k];
                        entry_for(#[trigger] final(dst)@[k], ram_inode(c), self.nodes@[c as int].file_type, listed_name(self.nodes@, c))
                    }
                    &&& forall|k: int| w <= k < old(dst)@.len() ==> #[trigger] final(dst)@[k] == old(dst)@[k]
                },
            },
    {
        let idx = match self.index(inode_ref) {
            Ok(i) => i,
            Err(e) => {
                return Err(e);
            },
        };
        if self.nodes[idx].file_type != FileType::Directory {
            return Err(EINVAL);
        }
        let ghost nodes = self.nodes@;
        let ghost d0 = dst@;
        let mut seen: usize = 0;
        let mut written: usize = 0;
        let mut child: usize = 0;
        while child < MAX_INODES
            invariant_except_break
                self.wf(),
                nodes == self.nodes@,
                idx < MAX_INODES,
                child <= MAX_INODES,
                dst@.len() == d0.len(),
                seen == listed_below(nodes, idx, child as int).len(),
                written == if seen > offset { seen - offset } else { 0 },
                written <= dst@.len(),
                forall|k: int| 0 <= k < written ==> {
                    let c = listed_below(nodes, idx, child as int)[offset + k];
                    entry_for(#[trigger] dst@[k], ram_inode(c), nodes[c as int].file_type, listed_name(nodes, c))
                },
                forall|k: int| written <= k < d0.len() ==> #[trigger] dst@[k] == d0[k],
            ensures
                self.wf(),
                nodes == self.nodes@,
                dst@.len() == d0.len(),
                seen == listed_below(nodes, idx, child as int).len(),
                written == if seen > offset { seen - offset } else { 0 },
                written <= dst@.len(),
                child <= MAX_INODES,
                child < MAX_INODES ==> written == dst@.len(),
                forall|k: int| 0 <= k < written ==> {
                    let c = listed_below(nodes, idx, child as int)[offset + k];
                    entry_for(#[trigger] dst@[k], ram_inode(c), nodes[c as int].file_type, listed_name(nodes, c))
                },
                forall|k: int| written <= k < d0.len() ==> #[trigger] dst@[k] == d0[k],
            decreases MAX_INODES - child,
        {
            proof {
                lemma_listed_bound(nodes, idx, child as int);
            }
            let node = &self.nodes[child];
            if !node.used || (child != ROOT_INO && node.parent != idx) || (idx != ROOT_INO && child == idx) {
                assert(!listed(nodes, idx, child as int));
                assert(listed_below(nodes, idx, child + 1) == listed_below(nodes, idx, child as int));
                child += 1;
            } else if seen < offset {
                assert(listed(nodes, idx, child as int));
                seen += 1;
                child += 1;
            } else {
                if written >= dst.len() {
                    break;
                }
                assert(listed(nodes, idx, child as int));
                let ghost before = listed_below(nodes, idx, child as int);
                let entry = if child == ROOT_INO {
                    let dot_name: [u8; 1] = [0x2e];
                    assert(dot_name@ =~= dot());
                    DirEntry::new(inode(child), node.file_type, &dot_name)
                } else {
                    DirEntry::new(inode(child), node.file_type, node.name.as_slice())
                };
                dst[written] = entry;
                proof {
                    let after = listed_below(nodes, idx, child + 1);
                    assert(after == before.push(child));
                    assert(after[offset + written] == child);
                    assert forall|k: int| 0 <= k < written implies #[trigger] after[offset + k] == before[offset + k] by {}
                }
                written += 1;
                seen += 1;
                child += 1;
            }
        }
        proof {
            lemma_listed_prefix(nodes, idx, child as int, MAX_INODES as int);
            lemma_listed_bound(nodes, idx, MAX_INODES as int);
        }
        Ok(written)
    }
}

/// The errors that creating files can give.
pub open spec fn create_error(e: u32) -> bool {
    e == EINVAL || e == ENOENT || e == ENOSPC || e == EEXIST || e == ENOMEM
}


/// No byte of `s` is zero.
pub open spec fn no_nul(s: Seq<u8>) -> bool {
    forall|i: int| 0 <= i < s.len() ==> s[i] != 0
}

proof fn lemma_nul_end_full(s: Seq<u8>)
    requires
        no_nul(s),
    ensures
        crate::fs::vfs::nul_end(s) == s.len(),
    decreases s.len(),
{
    if s.len() > 0 {
        assert(no_nul(s.drop_first())) by {
            assert forall|i: int| 0 <= i < s.drop_first().len() implies s.drop_first()[i] != 0 by {
                assert(s.drop_first()[i] == s[i + 1]);
            }
        }
        lemma_nul_end_full(s.drop_first());
    }
}

proof fn lemma_normalized_nul_free(s: Seq<u8>)
    ensures
        no_nul(normalized(s)),
{
    let p = s.take(crate::fs::vfs::nul_end(s));
    crate::fs::vfs::lemma_nul_end_bounds(s);
    assert forall|i: int| 0 <= i < p.len() implies p[i] != 0 by {
        lemma_nul_before(s, i);
    }
}

proof fn lemma_nul_before(s: Seq<u8>, i: int)
    requires
        0 <= i < crate::fs::vfs::nul_end(s),
    ensures
        s[i] != 0,
    decreases s.len(),
{
    crate::fs::vfs::lemma_nul_end_bounds(s);
    if i > 0 {
        lemma_nul_before(s.drop_first(), i - 1);
    }
}

/// Walking a path without zero bytes goes where walking it normalized goes:
/// a leading `/` and `./` only add components that are passed over.
proof fn lemma_walk_normalized(nodes: Seq<RamNode>, cur: usize, y: Seq<u8>)
    requires
        no_nul(y),
    ensures
        walk(nodes, cur, normalized(y)) == walk(nodes, cur, y),
        no_nul(normalized(y)),
{
    lemma_nul_end_full(y);
    lemma_normalized_nul_free(y);
    assert(y.take(y.len() as int) =~= y);
    let q = if y.len() >= 1 && y[0] == 0x2f { y.skip(1) } else { y };
    if y.len() >= 1 && y[0] == 0x2f {
        assert(slash_index(y) == 0);
        assert(first_component(y) =~= Seq::<u8>::empty());
        assert(after_component(y) =~= y.skip(1));
        assert(walk(nodes, cur, y) == walk(nodes, cur, q));
    }
    assert(walk(nodes, cur, y) == walk(nodes, cur, q));
    if q.len() >= 2 && q[0] == 0x2e && q[1] == 0x2f {
        assert(q.drop_first()[0] == 0x2f);
        assert(slash_index(q.drop_first()) == 0);
        assert(slash_index(q) == 1);
        assert(first_component(q) =~= dot());
        assert(after_component(q) =~= q.skip(2));
        assert(walk(nodes, cur, q) == walk(nodes, cur, q.skip(2)));
        assert(normalized(y) =~= q.skip(2));
    } else {
        assert(normalized(y) =~= q);
    }
}

/// Placing a new node in the free slot `s` under `parent` with name `base`,
/// where no such child was, finds it for that name and changes no other
/// lookup of a child.
proof fn lemma_child_after_place(old: Seq<RamNode>, new: Seq<RamNode>, s: int, parent: usize, base: Seq<u8>, c: usize, name: Seq<u8>, i: int, ft: FileType, mode: u16)
    requires
        old.len() == MAX_INODES,
        FIRST_INO <= s < old.len(),
        !old[s].used,
        RamFs::placed(old, new, s, parent, base, ft, mode),
        child_from(old, parent, base, FIRST_INO as int) is None,
        FIRST_INO <= i,
    ensures
        (c != parent || name != base) ==> child_from(new, c, name, i) == child_from(old, c, name, i),
        (c == parent && name == base) ==> child_from(new, c, name, i) == (if i <= s { Some(s as usize) } else { None::<usize> }),
    decreases old.len() - i,
{
    if i < old.len() {
        lemma_child_after_place(old, new, s, parent, base, c, name, i + 1, ft, mode);
        if c == parent && name == base {
            lemma_child_none_from(old, parent, base, FIRST_INO as int, i);
        }
    }
}

proof fn lemma_child_none_from(nodes: Seq<RamNode>, parent: usize, name: Seq<u8>, i: int, j: int)
    requires
        FIRST_INO <= i <= j,
        child_from(nodes, parent, name, i) is None,
    ensures
        child_from(nodes, parent, name, j) is None,
    decreases j - i,
{
    if i < j && i < nodes.len() {
        lemma_child_none_from(nodes, parent, name, i + 1, j);
    }
}

/// Such a placement leaves every walk that got somewhere where it got.
proof fn lemma_walk_after_place(old: Seq<RamNode>, new: Seq<RamNode>, s: int, parent: usize, base: Seq<u8>, cur: usize, path: Seq<u8>, ft: FileType, mode: u16)
    requires
        table_ok(old),
        FIRST_INO <= s < old.len(),
        !old[s].used,
        RamFs::placed(old, new, s, parent, base, ft, mode),
        child_from(old, parent, base, FIRST_INO as int) is None,
        cur < MAX_INODES,
        old[cur as int].used,
        walk(old, cur, path) is Some,
    ensures
        walk(new, cur, path) == walk(old, cur, path),
    decreases path.len(),
{
    if path.len() > 0 {
        let c = first_component(path);
        let rest = after_component(path);
        lemma_after_shorter(path);
        if c.len() == 0 || c == dot() {
            lemma_walk_after_place(old, new, s, parent, base, cur, rest, ft, mode);
        } else if c == dot_dot() {
            assert(new[cur as int] == old[cur as int]);
            assert(parent_dir_ok(old, old[cur as int].parent as int));
            lemma_walk_after_place(old, new, s, parent, base, old[cur as int].parent, rest, ft, mode);
        } else {
            lemma_child_from_range(old, cur, c, FIRST_INO as int);
            let m = child_of(old, cur, c)->Some_0;
            lemma_child_after_place(old, new, s, parent, base, cur, c, FIRST_INO as int, ft, mode);
            lemma_walk_after_place(old, new, s, parent, base, m, rest, ft, mode);
        }
    }
}

/// Walking to the last slash, then the last component, is walking the
/// whole path.
proof fn lemma_walk_split(nodes: Seq<RamNode>, cur: usize, p: Seq<u8>)
    requires
        last_slash(p) >= 0,
    ensures
        walk(nodes, cur, p) == match walk(nodes, cur, p.take(last_slash(p))) {
            Some(x) => walk(nodes, x, p.skip(last_slash(p) + 1)),
            None => None,
        },
    decreases p.len(),
{
    let k = last_slash(p);
    lemma_last_slash(p);
    lemma_slash_index(p);
    lemma_after_shorter(p);
    let i = slash_index(p);
    let c = first_component(p);
    let rest = after_component(p);
    assert(i <= k) by {
        if i > k {
            assert(p[k] != 0x2f);
        }
    }
    let t = p.take(k);
    let tail = p.skip(k + 1);
    if i == k {
        assert(forall|j: int| 0 <= j < t.len() ==> t[j] != 0x2f);
        lemma_no_slash_index(t);
        assert(rest =~= tail);
        assert(c =~= t);
        let e = Seq::<u8>::empty();
        if t.len() == 0 {
            assert(walk(nodes, cur, t) == Some(cur));
            assert(walk(nodes, cur, p) == walk(nodes, cur, tail));
        } else {
            lemma_after_shorter(t);
            assert(first_component(t) =~= t);
            assert(after_component(t) =~= e);
            if c == dot() {
                assert(walk(nodes, cur, e) == Some(cur));
                assert(walk(nodes, cur, t) == Some(cur));
                assert(walk(nodes, cur, p) == walk(nodes, cur, tail));
            } else if c == dot_dot() {
                if cur < nodes.len() {
                    let up = nodes[cur as int].parent;
                    assert(walk(nodes, up, e) == Some(up));
                    assert(walk(nodes, cur, t) == Some(up));
                    assert(walk(nodes, cur, p) == walk(nodes, up, tail));
                } else {
                    assert(walk(nodes, cur, t) is None);
                    assert(walk(nodes, cur, p) is None);
                }
            } else {
                match child_of(nodes, cur, c) {
                    Some(n) => {
                        assert(walk(nodes, n, e) == Some(n));
                        assert(walk(nodes, cur, t) == Some(n));
                        assert(walk(nodes, cur, p) == walk(nodes, n, tail));
                    },
                    None => {
                        assert(walk(nodes, cur, t) is None);
                        assert(walk(nodes, cur, p) is None);
                    },
                }
            }
        }
    } else {
        assert(slash_index(t) == i) by {
            lemma_slash_prefix(p, t);
        }
        lemma_after_shorter(t);
        let r2 = p.skip(i + 1);
        assert(rest =~= r2);
        assert(first_component(t) =~= c);
        assert(after_component(t) =~= r2.take(k - i - 1));
        assert(last_slash(r2) == k - i - 1) by {
            assert(r2[k - i - 1] == p[k]);
            assert forall|j: int| k - i - 1 < j < r2.len() implies r2[j] != 0x2f by {
                assert(r2[j] == p[j + i + 1]);
            }
            lemma_last_slash_at(r2, k - i - 1);
        }
        assert(r2.take(k - i - 1) =~= t.skip(i + 1));
        assert(r2.skip(k - i) =~= tail);
        lemma_walk_split(nodes, cur, r2);
        if cur < nodes.len() {
            lemma_walk_split(nodes, nodes[cur as int].parent, r2);
        }
        match child_of(nodes, cur, c) {
            Some(n) => {
                lemma_walk_split(nodes, n, r2);
            },
            None => {},
        }
    }
}

proof fn lemma_no_slash_index(p: Seq<u8>)
    requires
        forall|j: int| 0 <= j < p.len() ==> p[j] != 0x2f,
    ensures
        slash_index(p) == p.len(),
    decreases p.len(),
{
    if p.len() > 0 {
        assert forall|j: int| 0 <= j < p.drop_first().len() implies p.drop_first()[j] != 0x2f by {
            assert(p.drop_first()[j] == p[j + 1]);
        }
        lemma_no_slash_index(p.drop_first());
    }
}

proof fn lemma_slash_prefix(p: Seq<u8>, t: Seq<u8>)
    requires
        t.len() <= p.len(),
        forall|j: int| 0 <= j < t.len() ==> t[j] == p[j],
        slash_index(p) < t.len(),
    ensures
        slash_index(t) == slash_index(p),
    decreases p.len(),
{
    lemma_slash_index(p);
    if p.len() > 0 && p[0] != 0x2f {
        lemma_slash_index(p.drop_first());
        assert(t.len() > 0);
        assert forall|j: int| 0 <= j < t.drop_first().len() implies t.drop_first()[j] == p.drop_first()[j] by {
            assert(t.drop_first()[j] == t[j + 1]);
        }
        lemma_slash_prefix(p.drop_first(), t.drop_first());
    } else if p.len() > 0 {
        assert(t[0] == 0x2f);
    }
}

proof fn lemma_last_slash_at(p: Seq<u8>, j: int)
    requires
        0 <= j < p.len(),
        p[j] == 0x2f,
        forall|k: int| j < k < p.len() ==> p[k] != 0x2f,
    ensures
        last_slash(p) == j,
    decreases p.len(),
{
    if p.last() != 0x2f {
        assert(p.len() - 1 > j);
        lemma_last_slash_at(p.drop_last(), j);
    }
}

/// A single name without a slash is walked in one step.
proof fn lemma_walk_name(nodes: Seq<RamNode>, cur: usize, b: Seq<u8>)
    requires
        b.len() > 0,
        forall|j: int| 0 <= j < b.len() ==> b[j] != 0x2f,
    ensures
        walk(nodes, cur, b) == (if b == dot() {
            Some(cur)
        } else if b == dot_dot() {
            if cur < nodes.len() { Some(nodes[cur as int].parent) } else { None }
        } else {
            child_of(nodes, cur, b)
        }),
{
    lemma_no_slash_index(b);
    lemma_after_shorter(b);
    let e = Seq::<u8>::empty();
    assert(first_component(b) =~= b);
    assert(after_component(b) =~= e);
    if b == dot() {
        assert(walk(nodes, cur, e) == Some(cur));
    } else if b == dot_dot() {
        if cur < nodes.len() {
            let up = nodes[cur as int].parent;
            assert(walk(nodes, up, e) == Some(up));
        }
    } else {
        match child_of(nodes, cur, b) {
            Some(n) => {
                assert(walk(nodes, n, e) == Some(n));
            },
            None => {},
        }
    }
}

/// After creating a directory at `q` succeeded, walking `q` finds a node.
proof fn lemma_created_resolves(old: RamFs, new: RamFs, q: Seq<u8>, r: Result<InodeRef, u32>)
    requires
        old.wf(),
        no_nul(q),
        create_spec(old, new, q, FileType::Directory, 0o755, false, r),
        r is Ok,
    ensures
        walk(new.nodes@, ROOT_INO, q) is Some,
{
    let z = normalized(q);
    lemma_walk_normalized(old.nodes@, ROOT_INO, q);
    lemma_walk_normalized(new.nodes@, ROOT_INO, q);
    lemma_walk_normalized(old.nodes@, ROOT_INO, z);
    let s = old.create_outcome(q, false)->Ok_0;
    if old.resolve(z) is Some {
        assert(new.nodes@ == old.nodes@);
    } else {
        let (parent, base) = old.split_parent(z)->Ok_0;
        lemma_free_from_range(old.nodes@, FIRST_INO as int);
        assert(free_from(old.nodes@, FIRST_INO as int) == Some(s));
        let k = last_slash(z);
        lemma_last_slash(z);
        assert(walk(old.nodes@, ROOT_INO, z) is None);
        if k < 0 {
            assert(base == z && parent == ROOT_INO);
            assert forall|j: int| 0 <= j < z.len() implies z[j] != 0x2f by {}
            lemma_walk_name(old.nodes@, ROOT_INO, z);
            lemma_walk_name(new.nodes@, ROOT_INO, z);
            assert(child_of(old.nodes@, parent, base) is None);
            lemma_child_after_place(old.nodes@, new.nodes@, s as int, parent, base, parent, base, FIRST_INO as int, FileType::Directory, 0o755);
        } else {
            let t = z.take(k);
            assert(base =~= z.skip(k + 1));
            assert forall|j: int| 0 <= j < base.len() implies base[j] != 0x2f by {
                assert(base[j] == z[k + 1 + j]);
            }
            lemma_walk_split(old.nodes@, ROOT_INO, z);
            lemma_walk_split(new.nodes@, ROOT_INO, z);
            assert(walk(old.nodes@, ROOT_INO, t) == Some(parent));
            lemma_walk_used(old.nodes@, ROOT_INO, t);
            lemma_walk_name(old.nodes@, parent, base);
            lemma_walk_name(new.nodes@, parent, base);
            assert(child_of(old.nodes@, parent, base) is None);
            lemma_walk_after_place(old.nodes@, new.nodes@, s as int, parent, base, ROOT_INO, t, FileType::Directory, 0o755);
            lemma_child_after_place(old.nodes@, new.nodes@, s as int, parent, base, parent, base, FIRST_INO as int, FileType::Directory, 0o755);
        }
    }
}

impl RamFs {
    /// Creates, as directories, the parents of `path` that do not exist
    /// yet, from the outermost in.
    pub fn ensure_parent_dirs(&mut self, path: &[u8]) -> (r: Result<(), u32>)
        requires
            old(self).wf(),
        ensures
            final(self).wf(),
            r matches Err(e) ==> create_error(e),
            last_slash(normalized(path@)) < 0 ==> r is Ok && final(self).nodes@ == old(self).nodes@
                && final(self).regular_count == old(self).regular_count,
            r is Ok && last_slash(normalized(path@)) >= 0 ==> walk(
                final(self).nodes@,
                ROOT_INO,
                normalized(path@).take(last_slash(normalized(path@))),
            ) is Some,
    {
        let p = normalize_path(path);
        let last = match last_slash_index(p) {
            Some(k) => k,
            None => {
                return Ok(());
            },
        };
        proof {
            lemma_normalized_nul_free(path@);
            lemma_last_slash(p@);
        }
        let mut offset: usize = 0;
        while offset <= last
            invariant
                self.wf(),
                last < p@.len(),
                last == last_slash(p@),
                p@ == normalized(path@),
                no_nul(p@),
                p@[last as int] == 0x2f,
                offset > last ==> walk(self.nodes@, ROOT_INO, p@.take(last as int)) is Some,
            ensures
                self.wf(),
                walk(self.nodes@, ROOT_INO, p@.take(last as int)) is Some,
            decreases p@.len() - offset,
        {
            let mut end: usize = offset;
            while end <= last && p[end] != 0x2f
                invariant
                    offset <= end <= last + 1,
                    last < p@.len(),
                    p@[last as int] == 0x2f,
                    forall|j: int| offset <= j < end ==> p@[j] != 0x2f,
                decreases last + 1 - end,
            {
                end += 1;
            }
            if end > last {
                break;
            }
            if end != 0 {
                let component_path = vstd::slice::slice_subrange(p, 0, end);
                assert(component_path@ =~= p@.take(end as int));
                if self.lookup_path(component_path).is_none() {
                    let ghost before = *self;
                    let created = self.create_node(component_path, FileType::Directory, 0o755, false);
                    match created {
                        Ok(_) => {},
                        Err(e) => {
                            return Err(e);
                        },
                    }
                    proof {
                        assert(no_nul(p@.take(end as int)));
                        lemma_created_resolves(before, *self, p@.take(end as int), created);
                    }
                }
            } else {
                assert(walk(self.nodes@, ROOT_INO, p@.take(0)) == Some(ROOT_INO));
            }
            offset = end + 1;
        }
        Ok(())
    }

    /// Fills the file system from the entries of the initrd archive, parent
    /// directories first, and returns how many entries it took in.
    pub fn unpack_archive(&mut self, entries: &[ArchiveEntry]) -> (r: Result<usize, u32>)
        requires
            old(self).wf(),
        ensures
            final(self).wf(),
            r matches Ok(n) ==> n == entries@.len(),
            r matches Err(e) ==> create_error(e),
    {
        let mut unpacked: usize = 0;
        while unpacked < entries.len()
            invariant
                self.wf(),
                unpacked <= entries@.len(),
            decreases entries@.len() - unpacked,
        {
            let entry = entries[unpacked];
            let path = entry.name().as_bytes();
            match self.ensure_parent_dirs(path) {
                Ok(()) => {},
                Err(e) => {
                    return Err(e);
                },
            }
            match entry.file_type {
                FileType::Directory => {
                    let _ = self.mkdir(path, entry.mode);
                },
                _ => {
                    let inode = match self.create_node(path, entry.file_type, entry.mode, false) {
                        Ok(i) => i,
                        Err(e) => {
                            if e == EEXIST {
                                match self.lookup(path) {
                                    Some(i) => i,
                                    None => {
                                        return Err(EEXIST);
                                    },
                                }
                            } else {
                                return Err(e);
                            }
                        },
                    };
                    if entry.file_type == FileType::Regular || entry.file_type == FileType::Symlink {
                        match self.write(inode, 0, entry.data) {
                            Ok(_) => {},
                            Err(e) => {
                                return Err(e);
                            },
                        }
                    }
                },
            }
            unpacked += 1;
        }
        Ok(unpacked)
    }
}

} // verus!
