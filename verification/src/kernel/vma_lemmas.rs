//! The model of a table of virtual memory areas: which area covers an address,
//! and how cutting, splitting, relabelling and merging areas change it.
use vstd::prelude::*;

use crate::fs::vfs::InodeRef;
use crate::kernel::address::VirtAddr;
use crate::kernel::process::VmArea;

verus! {

/// Areas are non-empty, sorted by start and pairwise disjoint.
pub open spec fn vmas_wf(s: Seq<VmArea>) -> bool {
    &&& forall|i: int| 0 <= i < s.len() ==> (#[trigger] s[i]).start.0 < s[i].end.0
    &&& forall|i: int, j: int| 0 <= i < j < s.len() ==> (#[trigger] s[i]).end.0 <= (#[trigger] s[j]).start.0
}

/// The first area of `s` that covers `a`.
pub open spec fn vma_at(s: Seq<VmArea>, a: int) -> Option<VmArea>
    decreases s.len(),
{
    if s.len() == 0 {
        None
    } else {
        match vma_at(s.drop_last(), a) {
            Some(v) => Some(v),
            None => if s.last().covers(a) {
                Some(s.last())
            } else {
                None
            },
        }
    }
}

/// The protection and backing file that `s` gives to address `a`.
pub open spec fn vm_attrs(s: Seq<VmArea>, a: int) -> Option<(u32, Option<InodeRef>)> {
    match vma_at(s, a) {
        Some(v) => Some((v.flags, v.file)),
        None => None,
    }
}

/// Every address of `[start, end)` is covered by some area.
pub open spec fn covered(s: Seq<VmArea>, start: int, end: int) -> bool {
    forall|a: int| start <= a < end ==> (#[trigger] vma_at(s, a)).is_some()
}

/// Area `v` overlaps `[start, end)`.
pub open spec fn overlaps(v: VmArea, start: int, end: int) -> bool {
    start < v.end.0 && end > v.start.0
}

/// What is left of `v` after `[start, end)` is taken out of it.
pub open spec fn pieces(v: VmArea, start: int, end: int) -> Seq<VmArea> {
    if !overlaps(v, start, end) {
        seq![v]
    } else {
        let left = if start > v.start.0 {
            seq![VmArea { end: VirtAddr(start as usize), ..v }]
        } else {
            Seq::empty()
        };
        let right = if end < v.end.0 {
            seq![VmArea { start: VirtAddr(end as usize), ..v }]
        } else {
            Seq::empty()
        };
        left + right
    }
}

/// The areas of `s` with `[start, end)` taken out, in order.
pub open spec fn cut(s: Seq<VmArea>, start: int, end: int) -> Seq<VmArea>
    decreases s.len(),
{
    if s.len() == 0 {
        Seq::empty()
    } else {
        cut(s.drop_last(), start, end) + pieces(s.last(), start, end)
    }
}

/// Area `v` strictly surrounds `[start, end)`.
pub open spec fn surrounds(v: VmArea, start: int, end: int) -> bool {
    v.start.0 < start && end < v.end.0
}

/// `vma_at` over a concatenation looks in the first part, then in the second.
pub proof fn lemma_vma_at_append(s1: Seq<VmArea>, s2: Seq<VmArea>, a: int)
    ensures
        vma_at(s1 + s2, a) == match vma_at(s1, a) {
            Some(v) => Some(v),
            None => vma_at(s2, a),
        },
    decreases s2.len(),
{
    if s2.len() == 0 {
        assert(s1 + s2 =~= s1);
    } else {
        lemma_vma_at_append(s1, s2.drop_last(), a);
        assert((s1 + s2).drop_last() =~= s1 + s2.drop_last());
        assert((s1 + s2).last() == s2.last());
    }
}

/// `vma_at` finds a covering area of the sequence, and only finds nothing when none covers.
pub proof fn lemma_vma_at_some(s: Seq<VmArea>, a: int)
    ensures
        vma_at(s, a) matches Some(v) ==> v.covers(a) && s.contains(v),
        vma_at(s, a) is None <==> forall|i: int| 0 <= i < s.len() ==> !(#[trigger] s[i]).covers(a),
    decreases s.len(),
{
    if s.len() > 0 {
        lemma_vma_at_some(s.drop_last(), a);
        if vma_at(s.drop_last(), a) is Some {
            let v = vma_at(s.drop_last(), a).unwrap();
            let k = choose|k: int| 0 <= k < s.drop_last().len() && s.drop_last()[k] == v;
            assert(s[k] == v);
            assert(!(forall|i: int| 0 <= i < s.len() ==> !(#[trigger] s[i]).covers(a))) by {
                assert(s[k].covers(a));
            }
        } else {
            assert(s.last() == s[s.len() - 1]);
            if forall|i: int| 0 <= i < s.len() ==> !(#[trigger] s[i]).covers(a) {
                assert(!s[s.len() - 1].covers(a));
            } else {
                let i = choose|i: int| 0 <= i < s.len() && (#[trigger] s[i]).covers(a);
                if i < s.len() - 1 {
                    assert(s.drop_last()[i] == s[i]);
                }
            }
        }
    }
}

/// In a well-formed table, an area covering `a` is the one `vma_at` finds.
pub proof fn lemma_vma_at_unique(s: Seq<VmArea>, i: int, a: int)
    requires
        vmas_wf(s),
        0 <= i < s.len(),
        s[i].covers(a),
    ensures
        vma_at(s, a) == Some(s[i]),
{
    lemma_vma_at_some(s, a);
    let v = vma_at(s, a).unwrap();
    let k = choose|k: int| 0 <= k < s.len() && s[k] == v;
    if k < i {
        assert(s[k].end.0 <= s[i].start.0);
    } else if k > i {
        assert(s[i].end.0 <= s[k].start.0);
    }
}

/// A single area covers exactly its own range.
pub proof fn lemma_vma_at_single(v: VmArea, a: int)
    ensures
        vma_at(seq![v], a) == if v.covers(a) {
            Some(v)
        } else {
            None::<VmArea>
        },
{
    let s = seq![v];
    assert(s.drop_last() =~= Seq::<VmArea>::empty());
    assert(vma_at(Seq::<VmArea>::empty(), a) is None);
    assert(s.last() == v);
}

/// Cutting `[start, end)` out of the table unmaps exactly that range.
pub proof fn lemma_cut_attrs(s: Seq<VmArea>, start: int, end: int, a: int)
    ensures
        vm_attrs(cut(s, start, end), a) == if start <= a < end {
            None
        } else {
            vm_attrs(s, a)
        },
    decreases s.len(),
{
    if s.len() > 0 {
        let init = s.drop_last();
        let v = s.last();
        lemma_cut_attrs(init, start, end, a);
        lemma_vma_at_append(cut(init, start, end), pieces(v, start, end), a);
        lemma_pieces_at(v, start, end, a);
    }
}

/// What `vma_at` finds among the pieces of one area.
pub proof fn lemma_pieces_at(v: VmArea, start: int, end: int, a: int)
    ensures
        match vma_at(pieces(v, start, end), a) {
            Some(p) => v.covers(a) && !(start <= a < end) && p.flags == v.flags && p.file == v.file
                && p.covers(a),
            None => !v.covers(a) || (start <= a < end),
        },
{
    if !overlaps(v, start, end) {
        lemma_vma_at_single(v, a);
    } else {
        let left = if start > v.start.0 {
            seq![VmArea { end: VirtAddr(start as usize), ..v }]
        } else {
            Seq::empty()
        };
        let right = if end < v.end.0 {
            seq![VmArea { start: VirtAddr(end as usize), ..v }]
        } else {
            Seq::empty()
        };
        lemma_vma_at_append(left, right, a);
        if start > v.start.0 {
            lemma_vma_at_single(VmArea { end: VirtAddr(start as usize), ..v }, a);
        } else {
            assert(left.len() == 0);
        }
        if end < v.end.0 {
            lemma_vma_at_single(VmArea { start: VirtAddr(end as usize), ..v }, a);
        } else {
            assert(right.len() == 0);
        }
    }
}

/// Every area left by a cut lies inside one area of the table it was cut from and avoids the range.
pub proof fn lemma_cut_within(s: Seq<VmArea>, start: int, end: int, k: int)
    requires
        vmas_wf(s),
        0 <= start < end,
        end <= usize::MAX,
        0 <= k < cut(s, start, end).len(),
    ensures
        exists|i: int|
            0 <= i < s.len() && (#[trigger] s[i]).start.0 <= cut(s, start, end)[k].start.0
                && cut(s, start, end)[k].end.0 <= s[i].end.0,
        cut(s, start, end)[k].start.0 < cut(s, start, end)[k].end.0,
        !overlaps(cut(s, start, end)[k], start, end),
    decreases s.len(),
{
    let init = s.drop_last();
    let v = s.last();
    let c = cut(init, start, end);
    let p = pieces(v, start, end);
    assert(vmas_wf(init)) by {
        assert forall|i: int, j: int| 0 <= i < j < init.len() implies (#[trigger] init[i]).end.0 <= (
        #[trigger] init[j]).start.0 by {
            assert(init[i] == s[i] && init[j] == s[j]);
        }
        assert forall|i: int| 0 <= i < init.len() implies (#[trigger] init[i]).start.0 < init[i].end.0 by {
            assert(init[i] == s[i]);
        }
    }
    if k < c.len() {
        lemma_cut_within(init, start, end, k);
        assert(cut(s, start, end)[k] == c[k]);
        let i = choose|i: int|
            0 <= i < init.len() && (#[trigger] init[i]).start.0 <= c[k].start.0 && c[k].end.0 <= init[i].end.0;
        assert(s[i] == init[i]);
    } else {
        assert(cut(s, start, end)[k] == p[k - c.len()]);
        assert(s[s.len() - 1] == v);
        assert(v.start.0 < v.end.0);
    }
}

/// Cutting keeps a table well formed.
pub proof fn lemma_cut_wf(s: Seq<VmArea>, start: int, end: int)
    requires
        vmas_wf(s),
        0 <= start < end,
        end <= usize::MAX,
    ensures
        vmas_wf(cut(s, start, end)),
    decreases s.len(),
{
    if s.len() > 0 {
        let init = s.drop_last();
        let v = s.last();
        let c = cut(init, start, end);
        let p = pieces(v, start, end);
        assert(vmas_wf(init)) by {
            assert forall|i: int, j: int| 0 <= i < j < init.len() implies (#[trigger] init[i]).end.0 <= (
            #[trigger] init[j]).start.0 by {
                assert(init[i] == s[i] && init[j] == s[j]);
            }
            assert forall|i: int| 0 <= i < init.len() implies (#[trigger] init[i]).start.0 < init[i].end.0 by {
                assert(init[i] == s[i]);
            }
        }
        lemma_cut_wf(init, start, end);
        let r = cut(s, start, end);
        assert(r == c + p);
        assert forall|k: int| 0 <= k < r.len() implies (#[trigger] r[k]).start.0 < r[k].end.0 by {
            lemma_cut_within(s, start, end, k);
        }
        assert forall|i: int, j: int| 0 <= i < j < r.len() implies (#[trigger] r[i]).end.0 <= (
        #[trigger] r[j]).start.0 by {
            if j < c.len() {
                assert(r[i] == c[i] && r[j] == c[j]);
            } else if i >= c.len() {
                assert(r[i] == p[i - c.len()] && r[j] == p[j - c.len()]);
            } else {
                assert(r[i] == c[i]);
                lemma_cut_within(init, start, end, i);
                let m = choose|m: int|
                    0 <= m < init.len() && (#[trigger] init[m]).start.0 <= c[i].start.0 && c[i].end.0
                        <= init[m].end.0;
                assert(init[m] == s[m]);
                assert(s[m].end.0 <= s[s.len() - 1].start.0);
                assert(r[j] == p[j - c.len()]);
            }
        }
    }
}

/// At most one area of a well-formed table surrounds a non-empty range, so a
/// cut adds at most one area.
pub proof fn lemma_cut_len(s: Seq<VmArea>, start: int, end: int)
    requires
        vmas_wf(s),
        start < end,
    ensures
        cut(s, start, end).len() <= s.len() + if exists|i: int|
            0 <= i < s.len() && surrounds(#[trigger] s[i], start, end) {
            1int
        } else {
            0int
        },
        !(exists|i: int| 0 <= i < s.len() && surrounds(#[trigger] s[i], start, end)) ==> cut(
            s,
            start,
            end,
        ).len() <= s.len(),
    decreases s.len(),
{
    if s.len() > 0 {
        let init = s.drop_last();
        assert(vmas_wf(init)) by {
            assert forall|i: int, j: int| 0 <= i < j < init.len() implies (#[trigger] init[i]).end.0 <= (
            #[trigger] init[j]).start.0 by {
                assert(init[i] == s[i] && init[j] == s[j]);
            }
            assert forall|i: int| 0 <= i < init.len() implies (#[trigger] init[i]).start.0 < init[i].end.0 by {
                assert(init[i] == s[i]);
            }
        }
        lemma_cut_len(init, start, end);
        let v = s.last();
        assert(s[s.len() - 1] == v);
        if surrounds(v, start, end) {
            assert forall|i: int| 0 <= i < init.len() implies !surrounds(#[trigger] init[i], start, end) by {
                assert(init[i] == s[i]);
                assert(s[i].end.0 <= v.start.0);
            }
        } else {
            if exists|i: int| 0 <= i < init.len() && surrounds(#[trigger] init[i], start, end) {
                let i = choose|i: int| 0 <= i < init.len() && surrounds(#[trigger] init[i], start, end);
                assert(s[i] == init[i]);
            }
            if exists|i: int| 0 <= i < s.len() && surrounds(#[trigger] s[i], start, end) {
                let i = choose|i: int| 0 <= i < s.len() && surrounds(#[trigger] s[i], start, end);
                assert(i != s.len() - 1);
                assert(init[i] == s[i]);
            }
        }
    }
}

} // verus!

verus! {

/// `v` straddles `x`: it covers addresses on both sides of `x`.
pub open spec fn straddles(v: VmArea, x: int) -> bool {
    v.start.0 < x < v.end.0
}

/// The table with area `i` split in two at `x`.
pub open spec fn split_at(s: Seq<VmArea>, i: int, x: int) -> Seq<VmArea> {
    s.update(i, VmArea { end: VirtAddr(x as usize), ..s[i] }).insert(
        i + 1,
        VmArea { start: VirtAddr(x as usize), ..s[i] },
    )
}

/// The protection that `protect` gives an area: its access bits replaced by `prot`, marked user.
pub open spec fn prot_flags(flags: u32, prot: u32) -> u32 {
    (flags & 0xffff_fff8u32) | prot | 8u32
}

/// An area lying inside `[start, end)` relabelled with `prot`.
pub open spec fn relabel(v: VmArea, start: int, end: int, prot: u32) -> VmArea {
    if start <= v.start.0 && v.end.0 <= end {
        VmArea { flags: prot_flags(v.flags, prot), ..v }
    } else {
        v
    }
}

/// The table with the areas inside `[start, end)` relabelled with `prot`.
pub open spec fn relabel_all(s: Seq<VmArea>, start: int, end: int, prot: u32) -> Seq<VmArea> {
    Seq::new(s.len(), |i: int| relabel(s[i], start, end, prot))
}

/// Areas `i` and `i + 1` joined into one.
pub open spec fn merge_at(s: Seq<VmArea>, i: int) -> Seq<VmArea> {
    s.update(i, VmArea { end: s[i + 1].end, ..s[i] }).remove(i + 1)
}

/// The attributes of the table after `protect` with `prot` over `[start, end)`.
pub open spec fn protected_attrs(
    old_attrs: Option<(u32, Option<InodeRef>)>,
    a: int,
    start: int,
    end: int,
    prot: u32,
) -> Option<(u32, Option<InodeRef>)> {
    if start <= a < end {
        match old_attrs {
            Some((f, file)) => Some((prot_flags(f, prot), file)),
            None => None,
        }
    } else {
        old_attrs
    }
}

proof fn lemma_decompose(s: Seq<VmArea>, i: int)
    requires
        0 <= i < s.len(),
    ensures
        s =~= s.subrange(0, i) + seq![s[i]] + s.subrange(i + 1, s.len() as int),
{
}

/// Splitting an area keeps every address's attributes and keeps the table well formed.
pub proof fn lemma_split(s: Seq<VmArea>, i: int, x: int)
    requires
        vmas_wf(s),
        0 <= i < s.len(),
        straddles(s[i], x),
    ensures
        forall|a: int| #[trigger] vm_attrs(split_at(s, i, x), a) == vm_attrs(s, a),
        vmas_wf(split_at(s, i, x)),
        split_at(s, i, x).len() == s.len() + 1,
{
    let v = s[i];
    let l = VmArea { end: VirtAddr(x as usize), ..v };
    let r = VmArea { start: VirtAddr(x as usize), ..v };
    let pre = s.subrange(0, i);
    let post = s.subrange(i + 1, s.len() as int);
    let n = split_at(s, i, x);
    lemma_decompose(s, i);
    assert(n =~= pre + seq![l, r] + post);
    assert forall|a: int| #[trigger] vm_attrs(n, a) == vm_attrs(s, a) by {
        lemma_vma_at_append(pre + seq![l, r], post, a);
        lemma_vma_at_append(pre, seq![l, r], a);
        lemma_vma_at_append(pre + seq![v], post, a);
        lemma_vma_at_append(pre, seq![v], a);
        lemma_vma_at_single(v, a);
        lemma_vma_at_append(seq![l], seq![r], a);
        assert(seq![l] + seq![r] =~= seq![l, r]);
        lemma_vma_at_single(l, a);
        lemma_vma_at_single(r, a);
    }
    assert forall|p: int, q: int| 0 <= p < q < n.len() implies (#[trigger] n[p]).end.0 <= (#[trigger] n[q]).start.0 by {
        if p < i {
            if q <= i + 1 {
                assert(s[p].end.0 <= s[i].start.0);
            } else {
                assert(n[q] == s[q - 1]);
            }
        } else if p == i {
            if q > i + 1 {
                assert(n[q] == s[q - 1]);
                assert(s[i].end.0 <= s[q - 1].start.0);
            }
        } else if p == i + 1 {
            assert(n[q] == s[q - 1]);
            assert(s[i].end.0 <= s[q - 1].start.0);
        } else {
            assert(n[p] == s[p - 1] && n[q] == s[q - 1]);
        }
    }
    assert forall|p: int| 0 <= p < n.len() implies (#[trigger] n[p]).start.0 < n[p].end.0 by {
        if p > i + 1 {
            assert(n[p] == s[p - 1]);
        }
    }
}

/// Relabelling keeps coverage and changes exactly the areas inside the range.
pub proof fn lemma_relabel_at(s: Seq<VmArea>, start: int, end: int, prot: u32, a: int)
    ensures
        vma_at(relabel_all(s, start, end, prot), a) == match vma_at(s, a) {
            Some(v) => Some(relabel(v, start, end, prot)),
            None => None,
        },
    decreases s.len(),
{
    if s.len() > 0 {
        let r = relabel_all(s, start, end, prot);
        assert(r.drop_last() =~= relabel_all(s.drop_last(), start, end, prot));
        lemma_relabel_at(s.drop_last(), start, end, prot, a);
        assert(r.last() == relabel(s.last(), start, end, prot));
    }
}

/// Relabelling keeps a table well formed.
pub proof fn lemma_relabel_wf(s: Seq<VmArea>, start: int, end: int, prot: u32)
    requires
        vmas_wf(s),
    ensures
        vmas_wf(relabel_all(s, start, end, prot)),
{
    let r = relabel_all(s, start, end, prot);
    assert forall|i: int, j: int| 0 <= i < j < r.len() implies (#[trigger] r[i]).end.0 <= (#[trigger] r[j]).start.0 by {
        assert(s[i].end.0 <= s[j].start.0);
    }
}

/// Joining two touching areas with equal attributes keeps every address's attributes.
pub proof fn lemma_merge(s: Seq<VmArea>, i: int)
    requires
        vmas_wf(s),
        0 <= i,
        i + 1 < s.len(),
        s[i].end == s[i + 1].start,
        s[i].flags == s[i + 1].flags,
        s[i].file == s[i + 1].file,
    ensures
        forall|a: int| #[trigger] vm_attrs(merge_at(s, i), a) == vm_attrs(s, a),
        vmas_wf(merge_at(s, i)),
        merge_at(s, i).len() + 1 == s.len(),
{
    let v = s[i];
    let w = s[i + 1];
    let m = VmArea { end: w.end, ..v };
    let pre = s.subrange(0, i);
    let post = s.subrange(i + 2, s.len() as int);
    let n = merge_at(s, i);
    assert(s =~= pre + seq![v, w] + post);
    assert(n =~= pre + seq![m] + post);
    assert forall|a: int| #[trigger] vm_attrs(n, a) == vm_attrs(s, a) by {
        lemma_vma_at_append(pre + seq![m], post, a);
        lemma_vma_at_append(pre, seq![m], a);
        lemma_vma_at_append(pre + seq![v, w], post, a);
        lemma_vma_at_append(pre, seq![v, w], a);
        lemma_vma_at_single(m, a);
        lemma_vma_at_append(seq![v], seq![w], a);
        assert(seq![v] + seq![w] =~= seq![v, w]);
        lemma_vma_at_single(v, a);
        lemma_vma_at_single(w, a);
    }
    assert forall|p: int, q: int| 0 <= p < q < n.len() implies (#[trigger] n[p]).end.0 <= (#[trigger] n[q]).start.0 by {
        if p < i {
            if q == i {
                assert(s[p].end.0 <= s[i].start.0);
            } else if q < i {
                assert(n[q] == s[q] && n[p] == s[p]);
            } else {
                assert(n[q] == s[q + 1]);
            }
        } else if p == i {
            assert(n[q] == s[q + 1]);
            assert(s[i + 1].end.0 <= s[q + 1].start.0);
        } else {
            assert(n[p] == s[p + 1] && n[q] == s[q + 1]);
        }
    }
    assert forall|p: int| 0 <= p < n.len() implies (#[trigger] n[p]).start.0 < n[p].end.0 by {
        if p > i {
            assert(n[p] == s[p + 1]);
        } else if p == i {
            assert(s[i].start.0 < s[i + 1].end.0);
        }
    }
}

/// Splitting at `x` leaves the straddling of any other point as it was.
pub proof fn lemma_split_straddle(s: Seq<VmArea>, i: int, x: int, y: int)
    requires
        vmas_wf(s),
        0 <= i < s.len(),
        straddles(s[i], x),
        y != x,
    ensures
        crate::kernel::process::no_straddle(split_at(s, i, x), y) == crate::kernel::process::no_straddle(s, y),
{
    let n = split_at(s, i, x);
    if crate::kernel::process::no_straddle(s, y) {
        assert forall|j: int| 0 <= j < n.len() implies !straddles(#[trigger] n[j], y) by {
            if j < i {
                assert(n[j] == s[j]);
            } else if j > i + 1 {
                assert(n[j] == s[j - 1]);
            } else {
                assert(!straddles(s[i], y));
            }
        }
    } else {
        let k = choose|k: int| 0 <= k < s.len() && straddles(#[trigger] s[k], y);
        if k < i {
            assert(n[k] == s[k]);
            assert(straddles(n[k], y));
        } else if k > i {
            assert(n[k + 1] == s[k]);
            assert(straddles(n[k + 1], y));
        } else {
            if y < x {
                assert(straddles(n[i], y));
            } else {
                assert(straddles(n[i + 1], y));
            }
        }
    }
}

/// Inserting a disjoint area at its sorted position keeps a table well formed.
pub proof fn lemma_insert_sorted(s: Seq<VmArea>, pos: int, v: VmArea)
    requires
        vmas_wf(s),
        0 <= pos <= s.len(),
        v.start.0 < v.end.0,
        forall|j: int| 0 <= j < s.len() ==> !overlaps(#[trigger] s[j], v.start.0 as int, v.end.0 as int),
        forall|j: int| 0 <= j < pos ==> (#[trigger] s[j]).start.0 <= v.start.0,
        forall|j: int| pos <= j < s.len() ==> (#[trigger] s[j]).start.0 > v.start.0,
    ensures
        vmas_wf(s.insert(pos, v)),
{
    let n = s.insert(pos, v);
    assert forall|p: int, q: int| 0 <= p < q < n.len() implies (#[trigger] n[p]).end.0 <= (#[trigger] n[q]).start.0 by {
        if q < pos {
            assert(n[p] == s[p] && n[q] == s[q]);
        } else if q == pos {
            assert(n[p] == s[p]);
            assert(!overlaps(s[p], v.start.0 as int, v.end.0 as int));
        } else if p == pos {
            assert(n[q] == s[q - 1]);
            assert(!overlaps(s[q - 1], v.start.0 as int, v.end.0 as int));
        } else if p < pos {
            assert(n[p] == s[p] && n[q] == s[q - 1]);
        } else {
            assert(n[p] == s[p - 1] && n[q] == s[q - 1]);
        }
    }
    assert forall|p: int| 0 <= p < n.len() implies (#[trigger] n[p]).start.0 < n[p].end.0 by {
        if p < pos {
            assert(n[p] == s[p]);
        } else if p > pos {
            assert(n[p] == s[p - 1]);
        }
    }
}

/// Looking an address up after an area was added: the new area answers
/// for the addresses it covers, and every other address gets the answer it
/// had before.
pub proof fn lemma_lookup_after_insert(s: Seq<VmArea>, p: int, v: VmArea, a: int)
    requires
        0 <= p <= s.len(),
        vmas_wf(s),
        vmas_wf(s.insert(p, v)),
    ensures
        vma_at(s.insert(p, v), a) == if v.covers(a) {
            Some(v)
        } else {
            vma_at(s, a)
        },
{
    let t = s.insert(p, v);
    assert(t[p] == v);
    if v.covers(a) {
        lemma_vma_at_unique(t, p, a);
    } else {
        lemma_vma_at_some(s, a);
        lemma_vma_at_some(t, a);
        if vma_at(s, a) is Some {
            let i = choose|i: int| 0 <= i < s.len() && (#[trigger] s[i]).covers(a);
            let j = if i < p { i } else { i + 1 };
            assert(t[j] == s[i]);
            lemma_vma_at_unique(s, i, a);
            lemma_vma_at_unique(t, j, a);
        } else {
            assert forall|k: int| 0 <= k < t.len() implies !(#[trigger] t[k]).covers(a) by {
                if k < p {
                    assert(t[k] == s[k]);
                } else if k > p {
                    assert(t[k] == s[k - 1]);
                }
            }
        }
    }
}

} // verus!
