//! Path handling of the ext4 root file system: a path is resolved to the
//! components it names, `.` and `..` taken into account, before the
//! directories are walked.
use vstd::prelude::*;

use crate::fs::vfs::{strip_absolute, stripped};

verus! {

/// At most this many components are kept of a path.
pub const MAX_PATH_COMPONENTS: usize = 32;

/// The index of the first `/` at or after `i`, or the length of `s`.
pub open spec fn piece_end(s: Seq<u8>, i: int) -> int
    decreases s.len() - i,
{
    if i < 0 || i >= s.len() || s[i] == 0x2f {
        if i < 0 { 0 } else if i > s.len() { s.len() as int } else { i }
    } else {
        piece_end(s, i + 1)
    }
}

/// The non-empty `/`-separated pieces of `s` from `i` on, in order.
pub open spec fn pieces_from(s: Seq<u8>, i: int) -> Seq<Seq<u8>>
    decreases s.len() - i,
{
    if i < 0 || i >= s.len() {
        seq![]
    } else if s[i] == 0x2f {
        pieces_from(s, i + 1)
    } else {
        let e = piece_end(s, i);
        proof {
            lemma_piece_end(s, i);
        }
        if e <= i {
            seq![]
        } else {
            seq![s.subrange(i, e)] + pieces_from(s, e)
        }
    }
}

/// The components kept after `c`: `.` changes nothing, `..` drops the last
/// one, and any other joins them while fewer than the limit are kept.
pub open spec fn resolve_step(kept: Seq<Seq<u8>>, c: Seq<u8>) -> Seq<Seq<u8>> {
    if c == seq![0x2eu8] {
        kept
    } else if c == seq![0x2eu8, 0x2e] {
        if kept.len() > 0 {
            kept.drop_last()
        } else {
            kept
        }
    } else if kept.len() < MAX_PATH_COMPONENTS {
        kept.push(c)
    } else {
        kept
    }
}

/// The components kept after the pieces `cs`, from `kept` on.
pub open spec fn resolve_all(kept: Seq<Seq<u8>>, cs: Seq<Seq<u8>>) -> Seq<Seq<u8>>
    decreases cs.len(),
{
    if cs.len() == 0 {
        kept
    } else {
        resolve_all(resolve_step(kept, cs[0]), cs.drop_first())
    }
}

/// The components joined by `/`.
pub open spec fn join_components(cs: Seq<Seq<u8>>) -> Seq<u8>
    decreases cs.len(),
{
    if cs.len() == 0 {
        seq![]
    } else if cs.len() == 1 {
        cs[0]
    } else {
        join_components(cs.drop_last()) + seq![0x2fu8] + cs.last()
    }
}

/// The resolved form of `path`: cut at its first NUL, without its leading
/// `/`, its components resolved and joined by `/`.
pub open spec fn normalized_path(path: Seq<u8>) -> Seq<u8> {
    join_components(resolve_all(seq![], pieces_from(stripped(path), 0)))
}

pub proof fn lemma_piece_end(s: Seq<u8>, i: int)
    requires
        0 <= i <= s.len(),
    ensures
        i <= piece_end(s, i) <= s.len(),
        forall|j: int| i <= j < piece_end(s, i) ==> s[j] != 0x2f,
        piece_end(s, i) < s.len() ==> s[piece_end(s, i)] == 0x2f,
    decreases s.len() - i,
{
    if i < s.len() && s[i] != 0x2f {
        lemma_piece_end(s, i + 1);
    }
}

/// Writes the resolved form of `path` into `out`, as much as fits, and
/// gives its length.
pub fn normalize_components(path: &[u8], out: &mut [u8]) -> (r: usize)
    ensures
        r == if normalized_path(path@).len() < old(out)@.len() {
            normalized_path(path@).len()
        } else {
            old(out)@.len()
        },
        final(out)@ == normalized_path(path@).take(r as int) + old(out)@.skip(r as int),
{
    let p = strip_absolute(path);
    let ghost s = p@;
    let mut kept: Vec<Vec<u8>> = Vec::new();
    let mut cursor: usize = 0;
    proof {
        lemma_piece_end(s, 0);
        assert(kept@.map_values(|v: Vec<u8>| v@) =~= Seq::<Seq<u8>>::empty());
    }
    while cursor < p.len()
        invariant
            s == p@,
            s == stripped(path@),
            cursor <= s.len(),
            kept@.len() <= MAX_PATH_COMPONENTS,
            forall|j: int| 0 <= j < kept@.len() ==> (#[trigger] kept@[j])@.len() > 0,
            resolve_all(kept@.map_values(|v: Vec<u8>| v@), pieces_from(s, cursor as int)) == resolve_all(
                seq![],
                pieces_from(s, 0),
            ),
        decreases s.len() - cursor,
    {
        if p[cursor] == 0x2f {
            cursor += 1;
            continue;
        }
        let start = cursor;
        proof {
            lemma_piece_end(s, start as int);
        }
        while cursor < p.len() && p[cursor] != 0x2f
            invariant
                s == p@,
                start <= cursor <= s.len(),
                piece_end(s, start as int) == piece_end(s, cursor as int),
            decreases s.len() - cursor,
        {
            cursor += 1;
        }
        let ghost view = kept@.map_values(|v: Vec<u8>| v@);
        let piece = vstd::slice::slice_subrange(p, start, cursor);
        proof {
            lemma_piece_end(s, start as int);
            assert(piece_end(s, start as int) == cursor);
            assert(pieces_from(s, start as int) == seq![s.subrange(start as int, cursor as int)] + pieces_from(
                s,
                cursor as int,
            ));
            let cs = pieces_from(s, start as int);
            assert(cs[0] == piece@);
            assert(cs.drop_first() =~= pieces_from(s, cursor as int));
        }
        let is_dot = piece.len() == 1 && piece[0] == 0x2e;
        let is_dot_dot = piece.len() == 2 && piece[0] == 0x2e && piece[1] == 0x2e;
        proof {
            assert(is_dot == (piece@ == seq![0x2eu8])) by {
                if piece@ == seq![0x2eu8] {
                    assert(piece@[0] == 0x2e);
                }
                if is_dot {
                    assert(piece@ =~= seq![0x2eu8]);
                }
            }
            assert(is_dot_dot == (piece@ == seq![0x2eu8, 0x2e])) by {
                if piece@ == seq![0x2eu8, 0x2e] {
                    assert(piece@[0] == 0x2e && piece@[1] == 0x2e);
                }
                if is_dot_dot {
                    assert(piece@ =~= seq![0x2eu8, 0x2e]);
                }
            }
        }
        if is_dot {
        } else if is_dot_dot {
            if kept.len() > 0 {
                kept.pop();
                proof {
                    assert(kept@.map_values(|v: Vec<u8>| v@) =~= view.drop_last());
                }
            }
        } else if kept.len() < MAX_PATH_COMPONENTS {
            kept.push(vstd::slice::slice_to_vec(piece));
            proof {
                assert(kept@.map_values(|v: Vec<u8>| v@) =~= view.push(piece@));
            }
        }
    }
    proof {
        assert(pieces_from(s, cursor as int) =~= Seq::<Seq<u8>>::empty());
    }
    let ghost all = kept@.map_values(|v: Vec<u8>| v@);
    let ghost joined = join_components(all);
    assert(joined == normalized_path(path@));
    let ghost o = out@;
    let mut len: usize = 0;
    let mut i: usize = 0;
    while i < kept.len()
        invariant
            all == kept@.map_values(|v: Vec<u8>| v@),
            joined == join_components(all),
            i <= all.len(),
            out@.len() == o.len(),
            len == if join_components(all.take(i as int)).len() < o.len() {
                join_components(all.take(i as int)).len()
            } else {
                o.len()
            },
            forall|j: int| 0 <= j < len ==> out@[j] == join_components(all.take(i as int))[j],
            forall|j: int| len <= j < o.len() ==> out@[j] == o[j],
            forall|j: int| 0 <= j < all.len() ==> (#[trigger] all[j]).len() > 0,
        decreases all.len() - i,
    {
        let ghost prev = join_components(all.take(i as int));
        let ghost next = join_components(all.take(i + 1));
        proof {
            assert(all.take(i + 1).drop_last() =~= all.take(i as int));
            assert(next == if i == 0 {
                all[0]
            } else {
                prev + seq![0x2fu8] + all[i as int]
            });
            if i > 0 {
                assert(prev.len() > 0) by {
                    if i == 1 {
                        assert(all.take(1)[0] == all[0]);
                    }
                }
            }
        }
        let c = &kept[i];
        assert(c@ == all[i as int]);
        if len != 0 && len < out.len() {
            out[len] = 0x2f;
            len += 1;
        }
        let room = out.len() - len;
        let count = if c.len() < room {
            c.len()
        } else {
            room
        };
        let base = len;
        let mut k: usize = 0;
        while k < count
            invariant
                k <= count,
                count <= c@.len(),
                base + count <= o.len(),
                out@.len() == o.len(),
                out.len() == o.len(),
                forall|j: int| 0 <= j < base ==> out@[j] == next[j],
                forall|j: int| 0 <= j < k ==> out@[base + j] == c@[j],
                forall|j: int| base + k <= j < o.len() ==> out@[j] == o[j],
            decreases count - k,
        {
            out[base + k] = c[k];
            k += 1;
        }
        len = base + count;
        i += 1;
    }
    proof {
        assert(all.take(i as int) =~= all);
        assert(out@ =~= joined.take(len as int) + o.skip(len as int));
    }
    len
}

} // verus!
