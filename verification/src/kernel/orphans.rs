//! What orphaning the children of a process does to the process table: each
//! child goes to the adopter, a child that is a reaped zombie is freed, and the
//! children of a freed zombie are orphaned in turn.
use vstd::prelude::*;

use crate::kernel::process::{
    holds_pid, lemma_slot_from, reapable, slot_from, ProcessControlBlock, ProcessId, ProcessState,
};

verus! {

/// No used slot holds identifier 0, and no two used slots share one.
pub open spec fn distinct_pids(s: Seq<ProcessControlBlock>) -> bool {
    &&& forall|i: int| 0 <= i < s.len() && (#[trigger] s[i]).state != ProcessState::Empty ==> s[i].pid.0 != 0
    &&& forall|i: int, j: int|
        0 <= i < s.len() && 0 <= j < s.len() && i != j && (#[trigger] s[i]).state != ProcessState::Empty
            && (#[trigger] s[j]).state != ProcessState::Empty ==> s[i].pid != s[j].pid
}

/// Some used slot of `s` holds `p` and is alive.
pub open spec fn alive_holder(s: Seq<ProcessControlBlock>, p: ProcessId) -> bool {
    exists|j: int| 0 <= j < s.len() && holds_pid(#[trigger] s[j], p) && s[j].state == ProcessState::Alive
}

/// Who takes over the children of `old_parent` in `s`: the init process `init`
/// while it is alive and is not `old_parent` itself, else nobody.
pub open spec fn adopter_in(s: Seq<ProcessControlBlock>, init: ProcessId, old_parent: ProcessId) -> ProcessId {
    if init.0 != 0 && init != old_parent && slot_from(s, init, 0) is Some && s[slot_from(
        s,
        init,
        0,
    )->0].state == ProcessState::Alive {
        init
    } else {
        ProcessId(0)
    }
}

/// The children of `x` can be orphaned in `s` with a single outcome: the
/// identifiers are distinct, `x` is valid, and no slot holding `x` is alive or
/// a reaped zombie.
pub open spec fn orphaning_ok(s: Seq<ProcessControlBlock>, x: ProcessId) -> bool {
    &&& distinct_pids(s)
    &&& x.0 != 0
    &&& forall|j: int|
        0 <= j < s.len() && holds_pid(#[trigger] s[j], x) ==> s[j].state != ProcessState::Alive && !reapable(s[j])
}

/// Slot `n` is slot `o` as it was, freed because `o` was a reaped zombie, or
/// `o` with `a` as its parent.
pub open spec fn orphan_step(o: ProcessControlBlock, n: ProcessControlBlock, a: ProcessId) -> bool {
    ||| n == o
    ||| (reapable(o) && n.state == ProcessState::Empty && n.pid.0 == 0)
    ||| (o.state != ProcessState::Empty && !reapable(o) && n == ProcessControlBlock { parent: a, ..o })
}

/// Slot `i` was used in `o` and is free in `n`.
pub open spec fn freed_in(o: Seq<ProcessControlBlock>, n: Seq<ProcessControlBlock>, i: int) -> bool {
    o[i].state != ProcessState::Empty && n[i].state == ProcessState::Empty
}

/// Slot `j` of `o` holds a child of `x` or of a process whose slot was freed.
pub open spec fn orphan_of(o: Seq<ProcessControlBlock>, n: Seq<ProcessControlBlock>, x: ProcessId, j: int) -> bool {
    &&& o[j].state != ProcessState::Empty
    &&& (o[j].parent == x || exists|i: int| 0 <= i < o.len() && #[trigger] freed_in(o, n, i) && o[i].pid == o[j].parent)
}

/// `n` is `o` after the children of `x` were orphaned to `a`: exactly the
/// children of `x` and of the freed zombies changed, each one freed if it was a
/// reaped zombie and given `a` as its parent otherwise.
pub open spec fn orphaned(o: Seq<ProcessControlBlock>, n: Seq<ProcessControlBlock>, x: ProcessId, a: ProcessId) -> bool {
    &&& o.len() == n.len()
    &&& forall|j: int| 0 <= j < o.len() ==> orphan_step(o[j], #[trigger] n[j], a)
    &&& forall|j: int| 0 <= j < o.len() ==> (#[trigger] n[j] != o[j] <==> orphan_of(o, n, x, j))
}

/// Partway through orphaning the children of `x` in `t0`: the slots before
/// `slot` were visited.
#[verifier::opaque]
pub open spec fn orphan_progress(
    t0: Seq<ProcessControlBlock>,
    cur: Seq<ProcessControlBlock>,
    x: ProcessId,
    a: ProcessId,
    slot: int,
) -> bool {
    &&& t0.len() == cur.len()
    &&& forall|j: int| 0 <= j < t0.len() ==> orphan_step(t0[j], #[trigger] cur[j], a)
    &&& forall|j: int|
        0 <= j < t0.len() && #[trigger] cur[j] != t0[j] ==> t0[j].state != ProcessState::Empty && ((t0[j].parent
            == x && j < slot) || exists|i: int|
            0 <= i < t0.len() && #[trigger] freed_in(t0, cur, i) && t0[i].pid == t0[j].parent)
    &&& forall|j: int|
        0 <= j < slot && t0[j].state != ProcessState::Empty && t0[j].parent == x ==> #[trigger] cur[j] != t0[j]
    &&& forall|i: int, j: int|
        0 <= i < t0.len() && 0 <= j < t0.len() && #[trigger] freed_in(t0, cur, i) && t0[j].state
            != ProcessState::Empty && t0[j].parent == t0[i].pid ==> #[trigger] cur[j] != t0[j]
}

/// Under distinct identifiers the adopter is the init process exactly when it
/// is valid, is not `p`, and some slot holds it alive.
pub proof fn lemma_adopter_char(s: Seq<ProcessControlBlock>, init: ProcessId, p: ProcessId)
    requires
        distinct_pids(s),
    ensures
        adopter_in(s, init, p) == (if init.0 != 0 && init != p && alive_holder(s, init) {
            init
        } else {
            ProcessId(0)
        }),
{
    lemma_slot_from(s, init, 0);
    match slot_from(s, init, 0) {
        Some(k) => {
            if alive_holder(s, init) {
                let j = choose|j: int|
                    0 <= j < s.len() && holds_pid(#[trigger] s[j], init) && s[j].state == ProcessState::Alive;
                if j != k {
                    assert(s[j].pid != s[k].pid);
                }
            }
        },
        None => {
            if alive_holder(s, init) {
                let j = choose|j: int|
                    0 <= j < s.len() && holds_pid(#[trigger] s[j], init) && s[j].state == ProcessState::Alive;
                assert(!holds_pid(s[j], init));
            }
        },
    }
}

/// The adopter is not `x`, and any slot holding it is alive.
pub proof fn lemma_adopter_safe(s: Seq<ProcessControlBlock>, init: ProcessId, x: ProcessId)
    requires
        orphaning_ok(s, x),
    ensures
        adopter_in(s, init, x) != x,
        adopter_in(s, init, x).0 == 0 || forall|j: int|
            0 <= j < s.len() && holds_pid(#[trigger] s[j], adopter_in(s, init, x)) ==> s[j].state == ProcessState::Alive,
{
    lemma_adopter_char(s, init, x);
    if adopter_in(s, init, x).0 != 0 {
        let k = choose|j: int| 0 <= j < s.len() && holds_pid(#[trigger] s[j], init) && s[j].state == ProcessState::Alive;
        assert forall|j: int| 0 <= j < s.len() && holds_pid(#[trigger] s[j], init) implies s[j].state
            == ProcessState::Alive by {
            if j != k {
                assert(s[j].pid != s[k].pid);
            }
        }
    }
}

/// Freeing the used slot `k` leaves its process no slot, keeps identifiers
/// distinct, and leaves the adopter of its children as it was.
pub proof fn lemma_free_slot(s: Seq<ProcessControlBlock>, k: int, e: ProcessControlBlock, init: ProcessId)
    requires
        distinct_pids(s),
        0 <= k < s.len(),
        s[k].state != ProcessState::Empty,
        e.state == ProcessState::Empty,
        e.pid.0 == 0,
    ensures
        orphaning_ok(s.update(k, e), s[k].pid),
        adopter_in(s.update(k, e), init, s[k].pid) == adopter_in(s, init, s[k].pid),
{
    let n = s.update(k, e);
    let p = s[k].pid;
    assert forall|i: int, j: int|
        0 <= i < n.len() && 0 <= j < n.len() && i != j && (#[trigger] n[i]).state != ProcessState::Empty
            && (#[trigger] n[j]).state != ProcessState::Empty implies n[i].pid != n[j].pid by {
        assert(n[i] == s[i] && n[j] == s[j]);
    }
    assert forall|i: int| 0 <= i < n.len() && (#[trigger] n[i]).state != ProcessState::Empty implies n[i].pid.0
        != 0 by {
        assert(n[i] == s[i]);
    }
    assert forall|j: int| 0 <= j < n.len() && holds_pid(#[trigger] n[j], p) implies n[j].state
        != ProcessState::Alive && !reapable(n[j]) by {
        assert(n[j] == s[j]);
        assert(s[j].pid != s[k].pid);
    }
    lemma_adopter_char(s, init, p);
    lemma_adopter_char(n, init, p);
    if init != p {
        if alive_holder(s, init) {
            let j = choose|j: int| 0 <= j < s.len() && holds_pid(#[trigger] s[j], init) && s[j].state == ProcessState::Alive;
            assert(n[j] == s[j]);
            assert(holds_pid(n[j], init));
        }
        if alive_holder(n, init) {
            let j = choose|j: int| 0 <= j < n.len() && holds_pid(#[trigger] n[j], init) && n[j].state == ProcessState::Alive;
            assert(n[j] == s[j]);
            assert(holds_pid(s[j], init));
        }
    }
}

/// Orphaning steps keep identifiers distinct and keep who is alive.
pub proof fn lemma_steps_keep(o: Seq<ProcessControlBlock>, n: Seq<ProcessControlBlock>, a: ProcessId)
    requires
        o.len() == n.len(),
        forall|j: int| 0 <= j < o.len() ==> orphan_step(o[j], #[trigger] n[j], a),
        distinct_pids(o),
    ensures
        distinct_pids(n),
        forall|p: ProcessId| #[trigger] alive_holder(n, p) == alive_holder(o, p),
        forall|j: int|
            0 <= j < o.len() && (#[trigger] n[j]).state != ProcessState::Empty ==> o[j].state == n[j].state
                && o[j].pid == n[j].pid,
{
    assert forall|j: int| 0 <= j < o.len() && (#[trigger] n[j]).state != ProcessState::Empty implies o[j].state
        == n[j].state && o[j].pid == n[j].pid by {
        assert(orphan_step(o[j], n[j], a));
    }
    assert forall|i: int, j: int|
        0 <= i < n.len() && 0 <= j < n.len() && i != j && (#[trigger] n[i]).state != ProcessState::Empty
            && (#[trigger] n[j]).state != ProcessState::Empty implies n[i].pid != n[j].pid by {
        assert(o[i].state != ProcessState::Empty && o[j].state != ProcessState::Empty);
    }
    assert forall|i: int| 0 <= i < n.len() && (#[trigger] n[i]).state != ProcessState::Empty implies n[i].pid.0
        != 0 by {
        assert(o[i].state != ProcessState::Empty);
    }
    assert forall|p: ProcessId| #[trigger] alive_holder(n, p) == alive_holder(o, p) by {
        if alive_holder(o, p) {
            let j = choose|j: int|
                0 <= j < o.len() && holds_pid(#[trigger] o[j], p) && o[j].state == ProcessState::Alive;
            assert(orphan_step(o[j], n[j], a));
            assert(holds_pid(n[j], p) && n[j].state == ProcessState::Alive);
        }
        if alive_holder(n, p) {
            let j = choose|j: int|
                0 <= j < n.len() && holds_pid(#[trigger] n[j], p) && n[j].state == ProcessState::Alive;
            assert(holds_pid(o[j], p) && o[j].state == ProcessState::Alive);
        }
    }
}

/// Nothing has been visited yet.
pub proof fn lemma_progress_start(t0: Seq<ProcessControlBlock>, x: ProcessId, a: ProcessId)
    ensures
        orphan_progress(t0, t0, x, a, 0),
{
    reveal(orphan_progress);
}

/// Every slot has been visited.
pub proof fn lemma_progress_end(t0: Seq<ProcessControlBlock>, cur: Seq<ProcessControlBlock>, x: ProcessId, a: ProcessId)
    requires
        orphan_progress(t0, cur, x, a, t0.len() as int),
    ensures
        orphaned(t0, cur, x, a),
{
    reveal(orphan_progress);
    assert forall|j: int| 0 <= j < t0.len() implies (#[trigger] cur[j] != t0[j] <==> orphan_of(t0, cur, x, j)) by {
        if orphan_of(t0, cur, x, j) && t0[j].parent != x {
            let i = choose|i: int| 0 <= i < t0.len() && #[trigger] freed_in(t0, cur, i) && t0[i].pid == t0[j].parent;
            assert(cur[j] != t0[j]);
        }
    }
}

/// A slot of `cur` that holds a child of `x` is as it was.
pub proof fn lemma_child_unchanged(
    t0: Seq<ProcessControlBlock>,
    cur: Seq<ProcessControlBlock>,
    x: ProcessId,
    a: ProcessId,
    slot: int,
    s: int,
)
    requires
        orphan_progress(t0, cur, x, a, slot),
        a != x,
        0 <= s < t0.len(),
        cur[s].state != ProcessState::Empty,
        cur[s].parent == x,
    ensures
        cur[s] == t0[s],
{
    reveal(orphan_progress);
    assert(orphan_step(t0[s], cur[s], a));
}

/// Slot `s`, which holds no child of `x`, is passed over.
pub proof fn lemma_progress_skip(
    t0: Seq<ProcessControlBlock>,
    cur: Seq<ProcessControlBlock>,
    x: ProcessId,
    a: ProcessId,
    s: int,
)
    requires
        orphan_progress(t0, cur, x, a, s),
        0 <= s < t0.len(),
        cur[s].state == ProcessState::Empty || cur[s].parent != x,
    ensures
        orphan_progress(t0, cur, x, a, s + 1),
{
    reveal(orphan_progress);
}

/// Slot `s`, a child of `x` that is no reaped zombie, is given `a` as parent.
pub proof fn lemma_progress_reparent(
    t0: Seq<ProcessControlBlock>,
    cur: Seq<ProcessControlBlock>,
    next: Seq<ProcessControlBlock>,
    x: ProcessId,
    a: ProcessId,
    s: int,
)
    requires
        orphan_progress(t0, cur, x, a, s),
        a != x,
        0 <= s < t0.len(),
        cur[s] == t0[s],
        t0[s].state != ProcessState::Empty,
        t0[s].parent == x,
        !reapable(t0[s]),
        next == cur.update(s, ProcessControlBlock { parent: a, ..cur[s] }),
    ensures
        orphan_progress(t0, next, x, a, s + 1),
{
    reveal(orphan_progress);
    assert(!freed_in(t0, cur, s) && !freed_in(t0, next, s));
    assert forall|i: int| 0 <= i < t0.len() implies #[trigger] freed_in(t0, next, i) == freed_in(t0, cur, i) by {
        if i != s {
            assert(next[i] == cur[i]);
        }
    }
    assert forall|j: int| 0 <= j < t0.len() implies orphan_step(t0[j], #[trigger] next[j], a) by {
        if j != s {
            assert(next[j] == cur[j]);
        }
    }
    assert forall|j: int|
        0 <= j < t0.len() && #[trigger] next[j] != t0[j] implies t0[j].state != ProcessState::Empty && ((t0[j].parent
            == x && j < s + 1) || exists|i: int|
            0 <= i < t0.len() && #[trigger] freed_in(t0, next, i) && t0[i].pid == t0[j].parent) by {
        if j != s {
            assert(next[j] == cur[j]);
            if !(t0[j].parent == x && j < s) {
                let i = choose|i: int| 0 <= i < t0.len() && #[trigger] freed_in(t0, cur, i) && t0[i].pid == t0[j].parent;
                assert(freed_in(t0, next, i));
            }
        }
    }
    assert forall|j: int|
        0 <= j < s + 1 && t0[j].state != ProcessState::Empty && t0[j].parent == x implies #[trigger] next[j] != t0[j] by {
        if j != s {
            assert(next[j] == cur[j]);
        } else {
            assert(next[j].parent == a);
        }
    }
    assert forall|i: int, j: int|
        0 <= i < t0.len() && 0 <= j < t0.len() && #[trigger] freed_in(t0, next, i) && t0[j].state
            != ProcessState::Empty && t0[j].parent == t0[i].pid implies #[trigger] next[j] != t0[j] by {
        assert(freed_in(t0, cur, i));
        if j != s {
            assert(next[j] == cur[j]);
        } else {
            assert(next[j].parent == a);
        }
    }
}

/// The slots of `t0` taken to `mid` by orphaning steps, with `s` freed.
proof fn lemma_mid_steps(
    t0: Seq<ProcessControlBlock>,
    cur: Seq<ProcessControlBlock>,
    mid: Seq<ProcessControlBlock>,
    x: ProcessId,
    a: ProcessId,
    s: int,
)
    requires
        orphan_progress(t0, cur, x, a, s),
        distinct_pids(t0),
        0 <= s < t0.len(),
        reapable(t0[s]),
        mid.len() == t0.len(),
        mid[s].state == ProcessState::Empty,
        mid[s].pid.0 == 0,
        forall|j: int| 0 <= j < t0.len() && j != s ==> mid[j] == cur[j],
    ensures
        forall|j: int| 0 <= j < t0.len() ==> orphan_step(t0[j], #[trigger] mid[j], a),
        distinct_pids(mid),
        forall|p: ProcessId| #[trigger] alive_holder(mid, p) == alive_holder(t0, p),
        forall|j: int|
            0 <= j < t0.len() && (#[trigger] mid[j]).state != ProcessState::Empty ==> t0[j].state == mid[j].state
                && t0[j].pid == mid[j].pid,
{
    reveal(orphan_progress);
    assert forall|j: int| 0 <= j < t0.len() implies orphan_step(t0[j], #[trigger] mid[j], a) by {
        if j != s {
            assert(mid[j] == cur[j]);
        }
    }
    lemma_steps_keep(t0, mid, a);
}

/// Before the zombie in slot `s` is freed and its own children orphaned: the
/// table then allows it, and the adopter stays the same.
pub proof fn lemma_free_ready(
    t0: Seq<ProcessControlBlock>,
    cur: Seq<ProcessControlBlock>,
    mid: Seq<ProcessControlBlock>,
    x: ProcessId,
    a: ProcessId,
    init: ProcessId,
    s: int,
)
    requires
        orphan_progress(t0, cur, x, a, s),
        orphaning_ok(t0, x),
        a == adopter_in(t0, init, x),
        0 <= s < t0.len(),
        t0[s].state != ProcessState::Empty,
        reapable(t0[s]),
        mid.len() == t0.len(),
        mid[s].state == ProcessState::Empty,
        mid[s].pid.0 == 0,
        forall|j: int| 0 <= j < t0.len() && j != s ==> mid[j] == cur[j],
    ensures
        orphaning_ok(mid, t0[s].pid),
        adopter_in(mid, init, t0[s].pid) == a,
{
    let z = t0[s].pid;
    lemma_mid_steps(t0, cur, mid, x, a, s);
    assert forall|j: int| 0 <= j < mid.len() && holds_pid(#[trigger] mid[j], z) implies mid[j].state
        != ProcessState::Alive && !reapable(mid[j]) by {
        if j != s {
            assert(t0[j].pid != t0[s].pid);
        }
    }
    lemma_adopter_char(t0, init, x);
    lemma_adopter_char(mid, init, z);
    if alive_holder(t0, init) {
        let j = choose|j: int| 0 <= j < t0.len() && holds_pid(#[trigger] t0[j], init) && t0[j].state == ProcessState::Alive;
        assert(init != x);
        if init == z {
            assert(j != s);
            assert(t0[j].pid != t0[s].pid);
        }
    }
}

/// The zombie in slot `s`, a child of `x`, was freed and its own children
/// orphaned, taking `mid` to `t1`.
pub proof fn lemma_progress_free(
    t0: Seq<ProcessControlBlock>,
    cur: Seq<ProcessControlBlock>,
    mid: Seq<ProcessControlBlock>,
    t1: Seq<ProcessControlBlock>,
    x: ProcessId,
    a: ProcessId,
    s: int,
)
    requires
        orphan_progress(t0, cur, x, a, s),
        orphaning_ok(t0, x),
        a != x,
        a.0 == 0 || forall|j: int| 0 <= j < t0.len() && holds_pid(#[trigger] t0[j], a) ==> t0[j].state == ProcessState::Alive,
        0 <= s < t0.len(),
        cur[s] == t0[s],
        t0[s].state != ProcessState::Empty,
        t0[s].parent == x,
        reapable(t0[s]),
        mid.len() == t0.len(),
        mid[s].state == ProcessState::Empty,
        mid[s].pid.0 == 0,
        forall|j: int| 0 <= j < t0.len() && j != s ==> mid[j] == cur[j],
        orphaned(mid, t1, t0[s].pid, a),
    ensures
        orphan_progress(t0, t1, x, a, s + 1),
{
    let z = t0[s].pid;
    lemma_mid_steps(t0, cur, mid, x, a, s);
    reveal(orphan_progress);
    assert(t1[s] == mid[s]) by {
        assert(orphan_step(mid[s], t1[s], a));
    }
    assert(freed_in(t0, t1, s));
    // A slot changed before the zombie was freed stays as it is.
    assert forall|j: int| 0 <= j < t0.len() && mid[j] != t0[j] implies #[trigger] t1[j] == mid[j] by {
        if t1[j] != mid[j] {
            assert(orphan_of(mid, t1, z, j));
            assert(j != s);
            assert(cur[j] == mid[j]);
            assert(orphan_step(t0[j], cur[j], a));
            assert(mid[j].parent == a);
            if a == z {
                assert(holds_pid(t0[s], a));
            } else {
                let i = choose|i: int| 0 <= i < mid.len() && #[trigger] freed_in(mid, t1, i) && mid[i].pid == mid[j].parent;
                assert(t0[i].state != ProcessState::Empty && t0[i].pid == mid[i].pid);
                if a.0 != 0 {
                    assert(holds_pid(t0[i], a));
                    assert(orphan_step(mid[i], t1[i], a));
                }
            }
        }
    }
    assert forall|i: int| 0 <= i < t0.len() && #[trigger] freed_in(t0, mid, i) implies freed_in(t0, t1, i) by {
        assert(orphan_step(mid[i], t1[i], a));
    }
    assert forall|i: int| 0 <= i < t0.len() && #[trigger] freed_in(mid, t1, i) implies freed_in(t0, t1, i) && t0[i].pid
        == mid[i].pid by {
    }
    assert forall|j: int| 0 <= j < t0.len() implies orphan_step(t0[j], #[trigger] t1[j], a) by {
        if t1[j] != mid[j] {
            assert(mid[j] == t0[j]);
        }
    }
    assert forall|j: int|
        0 <= j < t0.len() && #[trigger] t1[j] != t0[j] implies t0[j].state != ProcessState::Empty && ((t0[j].parent
            == x && j < s + 1) || exists|i: int|
            0 <= i < t0.len() && #[trigger] freed_in(t0, t1, i) && t0[i].pid == t0[j].parent) by {
        if t1[j] == mid[j] {
            if j != s {
                assert(cur[j] == mid[j]);
                if !(t0[j].parent == x && j < s) {
                    let i = choose|i: int| 0 <= i < t0.len() && #[trigger] freed_in(t0, cur, i) && t0[i].pid == t0[j].parent;
                    assert(i != s);
                    assert(mid[i] == cur[i]);
                    assert(freed_in(t0, mid, i));
                    assert(freed_in(t0, t1, i));
                }
            }
        } else {
            assert(mid[j] == t0[j]);
            assert(orphan_of(mid, t1, z, j));
            if mid[j].parent != z {
                let i = choose|i: int| 0 <= i < mid.len() && #[trigger] freed_in(mid, t1, i) && mid[i].pid == mid[j].parent;
                assert(freed_in(t0, t1, i));
            }
        }
    }
    assert forall|j: int|
        0 <= j < s + 1 && t0[j].state != ProcessState::Empty && t0[j].parent == x implies #[trigger] t1[j] != t0[j] by {
        if j != s {
            assert(cur[j] != t0[j]);
            assert(mid[j] == cur[j]);
        }
    }
    assert forall|i: int, j: int|
        0 <= i < t0.len() && 0 <= j < t0.len() && #[trigger] freed_in(t0, t1, i) && t0[j].state
            != ProcessState::Empty && t0[j].parent == t0[i].pid implies #[trigger] t1[j] != t0[j] by {
        if mid[j] == t0[j] {
            if freed_in(t0, mid, i) {
                if i == s {
                    assert(orphan_of(mid, t1, z, j));
                } else {
                    assert(mid[i] == cur[i]);
                    assert(freed_in(t0, cur, i));
                    assert(cur[j] != t0[j]);
                    assert(j != s);
                    assert(mid[j] == cur[j]);
                }
            } else {
                assert(mid[i].state != ProcessState::Empty);
                assert(freed_in(mid, t1, i));
                assert(orphan_of(mid, t1, z, j));
            }
        }
    }
}

} // verus!
