//! `CapSpace`: a task's flat table of capability slots, and the derivation tree that makes a
//! grant withdrawable.
//!
//! Slots are linked by index — `parent`, `first_child`, `next_sibling` — never by reference, and
//! `NO_LINK` (`u32::MAX`) marks "no link": a real table never holds that many slots.
//!
//! `revoke` and `delete` walk a subtree with an explicit stack, never with recursion: a
//! derivation tree's depth is bounded only by how often a capability gets re-delegated.
//!
//! A generation mismatch is `StaleHandle` even once the slot underneath is empty again: both
//! mean "the thing you had is gone". `BadHandle` is reserved for a handle that could never have
//! named anything — an out-of-range index, or a guess at a never-occupied slot.

use vstd::prelude::*;
use vstd::set_lib::{lemma_int_range, lemma_len_subset, set_int_range};

use crate::cap::handle::Handle;
use crate::cap::object::Object;
use crate::cap::rights::{Rights, intersection_never_widens};

verus! {

/// Why a capability-space operation failed.
#[derive(Debug, Clone, Copy, PartialEq, Eq, Structural)]
pub enum CapError {
    /// The table is full: no free slot for a new capability.
    OutOfSlots,
    /// The index names no slot a live handle could refer to.
    BadHandle,
    /// The slot has been freed, and possibly reused, since the handle was issued.
    StaleHandle,
    /// The operation needs a right the source capability does not hold.
    InsufficientRights,
}

/// The "no link" sentinel for tree links.
pub const NO_LINK: u32 = 0xFFFF_FFFF;

/// One slot of a capability space as the contracts see it: what it refers to, what its holder
/// may do, the generation a handle to it must carry, and the slot it was derived from
/// (`NO_LINK` for a root capability or a free slot).
pub struct CapSlot {
    pub object: Object,
    pub rights: Rights,
    pub generation: u32,
    pub parent: u32,
}

/// One entry in the table, with its place in the derivation tree.
#[derive(Clone, Copy)]
struct Slot {
    object: Object,
    rights: Rights,
    /// Bumped, wrapping, every time this slot is freed.
    generation: u32,
    parent: u32,
    first_child: u32,
    next_sibling: u32,
}

impl Slot {
    spec fn abs(self) -> CapSlot {
        CapSlot {
            object: self.object,
            rights: self.rights,
            generation: self.generation,
            parent: self.parent,
        }
    }

    spec fn vacant() -> Slot {
        Slot {
            object: Object::Null,
            rights: Rights(0),
            generation: 0,
            parent: NO_LINK,
            first_child: NO_LINK,
            next_sibling: NO_LINK,
        }
    }

    /// This slot after it is freed.
    spec fn cleared(self) -> Slot {
        Slot {
            object: Object::Null,
            rights: Rights(0),
            generation: next_generation(self.generation),
            parent: NO_LINK,
            first_child: NO_LINK,
            next_sibling: NO_LINK,
        }
    }

    fn free() -> (s: Slot)
        ensures
            s == Slot::vacant(),
    {
        Slot {
            object: Object::Null,
            rights: Rights::NONE(),
            generation: 0,
            parent: NO_LINK,
            first_child: NO_LINK,
            next_sibling: NO_LINK,
        }
    }
}

/// The generation a slot carries after it is freed once more.
pub open spec fn next_generation(g: u32) -> u32 {
    if g == 0xFFFF_FFFFu32 {
        0
    } else {
        (g + 1) as u32
    }
}

/// Whether slot `i` is free.
pub open spec fn is_free(v: Seq<CapSlot>, i: int) -> bool {
    v[i].object == Object::Null
}

/// The occupied slots.
pub open spec fn occupied(v: Seq<CapSlot>) -> Set<int> {
    Set::new(|i: int| 0 <= i < v.len() && !is_free(v, i))
}

/// Whether `i` is the lowest free slot.
pub open spec fn is_lowest_free(v: Seq<CapSlot>, i: int) -> bool {
    &&& 0 <= i < v.len()
    &&& is_free(v, i)
    &&& forall|j: int| 0 <= j < i ==> !#[trigger] is_free(v, j)
}

/// Whether every slot is occupied.
pub open spec fn is_full(v: Seq<CapSlot>) -> bool {
    forall|j: int| 0 <= j < v.len() ==> !#[trigger] is_free(v, j)
}

/// The slot `k` derivation steps above `i`, if the chain is that long.
pub open spec fn ancestor(v: Seq<CapSlot>, i: int, k: nat) -> Option<int>
    decreases k,
{
    if k == 0 {
        Some(i)
    } else if 0 <= i < v.len() && v[i].parent != NO_LINK {
        ancestor(v, v[i].parent as int, (k - 1) as nat)
    } else {
        None
    }
}

/// Whether `i` was derived, directly or through intermediaries, from `r`.
pub open spec fn descends_from(v: Seq<CapSlot>, i: int, r: int) -> bool {
    exists|k: nat| k > 0 && #[trigger] ancestor(v, i, k) == Some(r)
}

/// Every slot derived, directly or not, from `r`: what revoking `r` withdraws.
pub open spec fn subtree(v: Seq<CapSlot>, r: int) -> Set<int> {
    Set::new(|i: int| 0 <= i < v.len() && descends_from(v, i, r))
}

/// What `get` answers for `handle`: an out-of-range index is `BadHandle`; a generation other
/// than the slot's is `StaleHandle`; a matching generation on a free slot is `BadHandle`.
pub open spec fn lookup(v: Seq<CapSlot>, handle: Handle) -> Result<(Object, Rights), CapError> {
    let i = handle.slot() as int;
    if i >= v.len() {
        Err(CapError::BadHandle)
    } else if v[i].generation != handle.gen() {
        Err(CapError::StaleHandle)
    } else if v[i].object == Object::Null {
        Err(CapError::BadHandle)
    } else {
        Ok((v[i].object, v[i].rights))
    }
}

/// A slot after it is freed: nothing, no rights, no parent, the next generation.
pub open spec fn freed(s: CapSlot) -> CapSlot {
    CapSlot {
        object: Object::Null,
        rights: Rights(0),
        generation: next_generation(s.generation),
        parent: NO_LINK,
    }
}

/// A newly occupied slot.
pub open spec fn fresh(object: Object, rights: Rights, generation: u32, parent: u32) -> CapSlot {
    CapSlot { object, rights, generation, parent }
}

/// The occupied slots form a set no larger than the table.
pub proof fn lemma_occupied_bounded(v: Seq<CapSlot>)
    ensures
        occupied(v).finite(),
        occupied(v).len() <= v.len(),
{
    lemma_int_range(0, v.len() as int);
    lemma_len_subset(occupied(v), set_int_range(0, v.len() as int));
}

/// One derivation step: `i` descends from `r` exactly when its parent is `r` or descends
/// from `r`.
pub proof fn lemma_descends_step(v: Seq<CapSlot>, i: int, r: int)
    requires
        0 <= i < v.len(),
    ensures
        descends_from(v, i, r) <==> (v[i].parent != NO_LINK && (v[i].parent as int == r
            || descends_from(v, v[i].parent as int, r))),
{
    let p = v[i].parent as int;
    if descends_from(v, i, r) {
        let k = choose|k: nat| k > 0 && #[trigger] ancestor(v, i, k) == Some(r);
        if (k - 1) as nat > 0 {
            assert(ancestor(v, p, (k - 1) as nat) == Some(r));
        }
    }
    if v[i].parent != NO_LINK {
        if p == r {
            assert(ancestor(v, p, 0) == Some(p));
            assert(ancestor(v, i, 1) == Some(r));
        } else if descends_from(v, p, r) {
            let k = choose|k: nat| k > 0 && #[trigger] ancestor(v, p, k) == Some(r);
            assert(ancestor(v, i, k + 1) == Some(r));
        }
    }
}

/// Walking `a` steps up, then `b` more, is walking `a + b` steps up.
proof fn lemma_ancestor_add(v: Seq<CapSlot>, i: int, a: nat, b: nat)
    requires
        ancestor(v, i, a) is Some,
    ensures
        ancestor(v, i, a + b) == ancestor(v, ancestor(v, i, a)->0, b),
    decreases a,
{
    if a > 0 {
        lemma_ancestor_add(v, v[i].parent as int, (a - 1) as nat, b);
        assert((a + b - 1) as nat == (a - 1) as nat + b);
    }
}

/// Derivation is transitive.
pub proof fn lemma_descends_transitive(v: Seq<CapSlot>, a: int, b: int, c: int)
    requires
        descends_from(v, a, b),
        descends_from(v, b, c),
    ensures
        descends_from(v, a, c),
{
    let k1 = choose|k: nat| k > 0 && #[trigger] ancestor(v, a, k) == Some(b);
    let k2 = choose|k: nat| k > 0 && #[trigger] ancestor(v, b, k) == Some(c);
    lemma_ancestor_add(v, a, k1, k2);
    assert(ancestor(v, a, k1 + k2) == Some(c));
}

/// On the path from `x` up to `n` there is a child of `n`: `x` itself or an ancestor of it.
proof fn lemma_child_on_path(v: Seq<CapSlot>, x: int, n: int, k: nat) -> (c: int)
    requires
        k > 0,
        ancestor(v, x, k) == Some(n),
    ensures
        0 <= c < v.len(),
        v[c].parent != NO_LINK,
        v[c].parent as int == n,
        c == x || descends_from(v, x, c),
    decreases k,
{
    let p = v[x].parent as int;
    if k == 1 {
        x
    } else {
        let c = lemma_child_on_path(v, p, n, (k - 1) as nat);
        lemma_descends_step(v, x, c);
        c
    }
}

/// A handle that resolved before its slot was freed is stale afterwards: freeing moves the
/// slot to the next generation, so the old handle's generation no longer matches.
pub proof fn freed_handles_are_stale(before: Seq<CapSlot>, after: Seq<CapSlot>, h: Handle)
    requires
        lookup(before, h) is Ok,
        h.slot() < after.len(),
        after[h.slot() as int] == freed(before[h.slot() as int]),
    ensures
        lookup(after, h) == Err::<(Object, Rights), CapError>(CapError::StaleHandle),
{
}

/// A handle issued for a slot after it was freed differs from every handle issued for the
/// slot's previous occupant.
pub proof fn reissued_handles_differ(old_handle: Handle, new_handle: Handle)
    requires
        old_handle.slot() == new_handle.slot(),
        new_handle.gen() == next_generation(old_handle.gen()),
    ensures
        old_handle != new_handle,
{
}

/// Removing the entry at `pos` from a list without duplicates leaves a list without duplicates
/// holding exactly the other entries.
proof fn lemma_list_remove(l: Seq<u32>, pos: int)
    requires
        l.no_duplicates(),
        0 <= pos < l.len(),
    ensures
        l.remove(pos).no_duplicates(),
        forall|x: u32| #[trigger] l.remove(pos).contains(x) <==> l.contains(x) && x != l[pos],
{
    let l2 = l.remove(pos);
    assert forall|a: int, b: int| 0 <= a < l2.len() && 0 <= b < l2.len() && a != b implies l2[a]
        != l2[b] by {
        let a0 = if a < pos {
            a
        } else {
            a + 1
        };
        let b0 = if b < pos {
            b
        } else {
            b + 1
        };
        assert(l2[a] == l[a0] && l2[b] == l[b0]);
    }
    assert forall|x: u32| #[trigger] l2.contains(x) <==> l.contains(x) && x != l[pos] by {
        if l2.contains(x) {
            let a = choose|a: int| 0 <= a < l2.len() && l2[a] == x;
            let a0 = if a < pos {
                a
            } else {
                a + 1
            };
            assert(l[a0] == x);
            assert(a0 != pos);
        }
        if l.contains(x) && x != l[pos] {
            let a0 = choose|a0: int| 0 <= a0 < l.len() && l[a0] == x;
            let a = if a0 < pos {
                a0
            } else {
                a0 - 1
            };
            assert(l2[a] == x);
        }
    }
}

/// The slot links and the ghost child lists agree at slot `i`.
spec fn slot_ok(s: Seq<Slot>, ch: Seq<Seq<u32>>, d: Seq<nat>, i: int) -> bool {
    let sl = s[i];
    if sl.object == Object::Null {
        &&& sl.parent == NO_LINK
        &&& sl.first_child == NO_LINK
        &&& sl.next_sibling == NO_LINK
        &&& ch[i].len() == 0
    } else {
        &&& (sl.parent != NO_LINK ==> {
            let p = sl.parent as int;
            &&& p < s.len()
            &&& s[p].object != Object::Null
            &&& ch[p].contains(i as u32)
            &&& d[p] < d[i]
        })
        &&& ch[i].no_duplicates()
        &&& sl.first_child == (if ch[i].len() == 0 {
            NO_LINK
        } else {
            ch[i][0]
        })
        &&& forall|k: int|
            0 <= k < ch[i].len() ==> {
                let c = #[trigger] ch[i][k] as int;
                &&& c < s.len()
                &&& s[c].object != Object::Null
                &&& s[c].parent == i as u32
                &&& s[c].next_sibling == (if k + 1 < ch[i].len() {
                    ch[i][k + 1]
                } else {
                    NO_LINK
                })
            }
    }
}

/// Linking a newly occupied slot `c` in as the first child of `p` keeps every slot consistent.
proof fn lemma_linked_slot_ok(
    s0: Seq<Slot>,
    ch0: Seq<Seq<u32>>,
    d0: Seq<nat>,
    s1: Seq<Slot>,
    ch1: Seq<Seq<u32>>,
    d1: Seq<nat>,
    p: int,
    c: int,
    j: int,
)
    requires
        s0.len() == ch0.len() == d0.len() < NO_LINK,
        forall|i: int| 0 <= i < s0.len() ==> #[trigger] slot_ok(s0, ch0, d0, i),
        0 <= p < s0.len(),
        0 <= c < s0.len(),
        0 <= j < s0.len(),
        s0[p].object != Object::Null,
        s0[c].object == Object::Null,
        s1[c].object != Object::Null,
        s1[c].parent == p as u32,
        s1[c].first_child == NO_LINK,
        s1[c].next_sibling == s0[p].first_child,
        s1[p] == (Slot { first_child: c as u32, ..s0[p] }),
        s1 == s0.update(c, s1[c]).update(p, s1[p]),
        ch1 == ch0.update(p, seq![c as u32] + ch0[p]),
        d1 == d0.update(c, d0[p] + 1),
    ensures
        slot_ok(s1, ch1, d1, j),
{
    assert(slot_ok(s0, ch0, d0, j));
    assert(slot_ok(s0, ch0, d0, p));
    assert(slot_ok(s0, ch0, d0, c));
    assert(p != c);
    let sl = s0[j];
    if j == c {
        assert(ch1[c] == ch0[c]);
        assert(ch1[p].contains(c as u32)) by {
            assert(ch1[p][0] == c as u32);
        }
    } else if j == p {
        if sl.parent != NO_LINK {
            let pp = sl.parent as int;
            assert(slot_ok(s0, ch0, d0, pp));
            assert(pp != c);
            assert(pp != p);
        }
        assert(!ch0[p].contains(c as u32)) by {
            if ch0[p].contains(c as u32) {
                let k = choose|k: int| 0 <= k < ch0[p].len() && ch0[p][k] == c as u32;
                assert(s0[ch0[p][k] as int].object != Object::Null);
            }
        }
        assert forall|k: int| 0 <= k < ch1[j].len() implies {
            let x = #[trigger] ch1[j][k] as int;
            &&& x < s1.len()
            &&& s1[x].object != Object::Null
            &&& s1[x].parent == j as u32
            &&& s1[x].next_sibling == (if k + 1 < ch1[j].len() {
                ch1[j][k + 1]
            } else {
                NO_LINK
            })
        } by {
            if k > 0 {
                assert(ch1[j][k] == ch0[j][k - 1]);
                let x = ch0[j][k - 1] as int;
                assert(slot_ok(s0, ch0, d0, x));
                assert(x != c);
                assert(x != p);
                if k + 1 < ch1[j].len() {
                    assert(ch1[j][k + 1] == ch0[j][k]);
                }
            } else {
                if ch1[j].len() > 1 {
                    assert(ch1[j][1] == ch0[j][0]);
                }
            }
        }
    } else if sl.object != Object::Null {
        assert(ch1[j] == ch0[j]);
        if sl.parent != NO_LINK {
            let pj = sl.parent as int;
            assert(slot_ok(s0, ch0, d0, pj));
            assert(pj != c);
            if pj == p {
                assert(ch0[p].contains(j as u32));
                let k = choose|k: int| 0 <= k < ch0[p].len() && ch0[p][k] == j as u32;
                assert(ch1[p][k + 1] == j as u32);
            }
        }
        assert forall|k: int| 0 <= k < ch1[j].len() implies {
            let x = #[trigger] ch1[j][k] as int;
            &&& x < s1.len()
            &&& s1[x].object != Object::Null
            &&& s1[x].parent == j as u32
            &&& s1[x].next_sibling == (if k + 1 < ch1[j].len() {
                ch1[j][k + 1]
            } else {
                NO_LINK
            })
        } by {
            let x = ch0[j][k] as int;
            assert(x != c);
        }
    } else {
        assert(ch1[j] == ch0[j]);
    }
}

/// What the walk has freed lies in the subtree being freed.
#[verifier::opaque]
spec fn walk_sets(dd: Set<int>, fset: Set<int>) -> bool {
    &&& fset.finite()
    &&& forall|i: int| #[trigger] fset.contains(i) ==> dd.contains(i)
}

/// Pending entries are distinct, in the subtree, and not yet freed.
#[verifier::opaque]
spec fn walk_pending(dd: Set<int>, fset: Set<int>, st: Seq<u32>) -> bool {
    &&& st.no_duplicates()
    &&& forall|j: int|
        0 <= j < st.len() ==> dd.contains(#[trigger] st[j] as int) && !fset.contains(
            st[j] as int,
        )
}

/// No pending entry lies under another.
#[verifier::opaque]
spec fn walk_disjoint(v: Seq<CapSlot>, st: Seq<u32>) -> bool {
    forall|a: int, b: int|
        #![trigger st[a], st[b]]
        0 <= a < st.len() && 0 <= b < st.len() && a != b ==> !descends_from(
            v,
            st[a] as int,
            st[b] as int,
        )
}

/// Nothing freed lies under a pending entry.
#[verifier::opaque]
spec fn walk_clear(v: Seq<CapSlot>, fset: Set<int>, st: Seq<u32>) -> bool {
    forall|f: int, j: int|
        #![trigger fset.contains(f), st[j]]
        fset.contains(f) && 0 <= j < st.len() ==> !descends_from(v, f, st[j] as int)
}

/// Every slot of the subtree is freed, pending, or under a pending entry.
#[verifier::opaque]
spec fn walk_cover(v: Seq<CapSlot>, dd: Set<int>, fset: Set<int>, st: Seq<u32>) -> bool {
    forall|x: int|
        #[trigger] dd.contains(x) ==> fset.contains(x) || exists|j: int|
            0 <= j < st.len() && (#[trigger] st[j] as int == x || descends_from(
                v,
                x,
                st[j] as int,
            ))
}

/// The bookkeeping of a depth-first walk that frees the subtree `dd`: `fset` is what has been
/// freed, `st` the pending stack.
spec fn walk_inv(v: Seq<CapSlot>, dd: Set<int>, fset: Set<int>, st: Seq<u32>) -> bool {
    &&& walk_sets(dd, fset)
    &&& walk_pending(dd, fset, st)
    &&& walk_disjoint(v, st)
    &&& walk_clear(v, fset, st)
    &&& walk_cover(v, dd, fset, st)
}

/// The head of a child list, as `first_child` records it.
spec fn list_head(l: Seq<u32>) -> u32 {
    if l.len() == 0 {
        NO_LINK
    } else {
        l[0]
    }
}

/// The entry after position `k` of a child list, as `next_sibling` records it.
spec fn list_next(l: Seq<u32>, k: int) -> u32 {
    if k + 1 < l.len() {
        l[k + 1]
    } else {
        NO_LINK
    }
}

/// How slot `i` fares when the slots in `rr` are freed: a member is cleared with no children
/// left; a free slot is untouched; a surviving slot keeps its object and parent (which is not
/// in `rr`), and its child list is the old one without `rr`, relinked to match.
spec fn pruned_at(
    s0: Seq<Slot>,
    ch0: Seq<Seq<u32>>,
    s1: Seq<Slot>,
    ch1: Seq<Seq<u32>>,
    rr: Set<int>,
    i: int,
) -> bool {
    if rr.contains(i) {
        s1[i] == s0[i].cleared() && ch1[i].len() == 0
    } else if s0[i].object == Object::Null {
        s1[i] == s0[i] && ch1[i] == ch0[i]
    } else {
        &&& s1[i].object == s0[i].object
        &&& s1[i].parent == s0[i].parent
        &&& (s0[i].parent != NO_LINK ==> !rr.contains(s0[i].parent as int))
        &&& ch1[i].no_duplicates()
        &&& forall|x: u32| #[trigger]
            ch1[i].contains(x) <==> ch0[i].contains(x) && !rr.contains(x as int)
        &&& s1[i].first_child == list_head(ch1[i])
        &&& forall|k: int|
            0 <= k < ch1[i].len() ==> s1[#[trigger] ch1[i][k] as int].next_sibling == list_next(
                ch1[i],
                k,
            )
    }
}

/// Freeing a set of slots, with every slot faring as `pruned_at` says, keeps every slot
/// consistent.
proof fn lemma_pruned_slot_ok(
    s0: Seq<Slot>,
    ch0: Seq<Seq<u32>>,
    d0: Seq<nat>,
    s1: Seq<Slot>,
    ch1: Seq<Seq<u32>>,
    rr: Set<int>,
    j: int,
)
    requires
        s0.len() == ch0.len() == d0.len() == s1.len() == ch1.len() < NO_LINK,
        forall|i: int| 0 <= i < s0.len() ==> #[trigger] slot_ok(s0, ch0, d0, i),
        forall|i: int| 0 <= i < s0.len() ==> #[trigger] pruned_at(s0, ch0, s1, ch1, rr, i),
        0 <= j < s0.len(),
    ensures
        slot_ok(s1, ch1, d0, j),
{
    assert(slot_ok(s0, ch0, d0, j));
    assert(pruned_at(s0, ch0, s1, ch1, rr, j));
    if !rr.contains(j) && s0[j].object != Object::Null {
        let sl = s0[j];
        if sl.parent != NO_LINK {
            let pj = sl.parent as int;
            assert(slot_ok(s0, ch0, d0, pj));
            assert(pruned_at(s0, ch0, s1, ch1, rr, pj));
            assert(ch1[pj].contains(j as u32));
        }
        assert forall|k: int| 0 <= k < ch1[j].len() implies {
            let c = #[trigger] ch1[j][k] as int;
            &&& c < s1.len()
            &&& s1[c].object != Object::Null
            &&& s1[c].parent == j as u32
            &&& s1[c].next_sibling == (if k + 1 < ch1[j].len() {
                ch1[j][k + 1]
            } else {
                NO_LINK
            })
        } by {
            let x = ch1[j][k];
            assert(ch1[j].contains(x));
            assert(ch0[j].contains(x));
            let m = choose|m: int| 0 <= m < ch0[j].len() && ch0[j][m] == x;
            assert(ch0[j][m] == x);
            assert(pruned_at(s0, ch0, s1, ch1, rr, x as int));
        }
    }
}

/// Slot `i` after `delete` frees `root` and the subtree `dd` under it: those are cleared, and
/// `root`'s place in its parent's child list (at `pos`) is bridged.
spec fn unlinked_slot(
    s: Seq<Slot>,
    ch: Seq<Seq<u32>>,
    dd: Set<int>,
    root: int,
    pos: int,
    i: int,
) -> Slot {
    let p = s[root].parent as int;
    let after = s[root].next_sibling;
    if dd.contains(i) || i == root {
        s[i].cleared()
    } else if s[root].parent != NO_LINK && pos == 0 && i == p {
        Slot { first_child: after, ..s[i] }
    } else if s[root].parent != NO_LINK && pos > 0 && i == ch[p][pos - 1] as int {
        Slot { next_sibling: after, ..s[i] }
    } else {
        s[i]
    }
}

/// A task's capability table: `N` slots.
pub struct CapSpace<const N: usize> {
    slots: Vec<Slot>,
    /// Occupied slot count, kept up to date by every path that occupies or frees a slot.
    live: usize,
    /// Each slot's children, in link order.
    children: Ghost<Seq<Seq<u32>>>,
    /// A measure that strictly grows from parent to child: the tree has no cycle.
    depth: Ghost<Seq<nat>>,
}

impl<const N: usize> CapSpace<N> {
    /// The slots, as the contracts see them.
    pub closed spec fn view(&self) -> Seq<CapSlot> {
        self.slots@.map_values(|s: Slot| s.abs())
    }

    /// The links, the live count and the child lists agree, and the tree is acyclic.
    pub closed spec fn wf(&self) -> bool {
        &&& N < NO_LINK
        &&& self.slots@.len() == N
        &&& self.children@.len() == N
        &&& self.depth@.len() == N
        &&& self.live == occupied(self@).len()
        &&& forall|i: int|
            0 <= i < N ==> #[trigger] slot_ok(self.slots@, self.children@, self.depth@, i)
    }

    /// An empty table: every slot free, every generation at zero.
    pub fn new() -> (s: Self)
        requires
            N < NO_LINK,
        ensures
            s.wf(),
            s@.len() == N,
            forall|i: int|
                0 <= i < N ==> #[trigger] s@[i] == fresh(Object::Null, Rights(0), 0, NO_LINK),
    {
        let mut slots: Vec<Slot> = Vec::new();
        let mut i: usize = 0;
        while i < N
            invariant
                i <= N,
                slots@.len() == i,
                forall|j: int| 0 <= j < i ==> #[trigger] slots@[j] == Slot::vacant(),
            decreases N - i,
        {
            slots.push(Slot::free());
            i = i + 1;
        }
        let ghost ch = Seq::new(N as nat, |j: int| Seq::<u32>::empty());
        let ghost d = Seq::new(N as nat, |j: int| 0nat);
        let s = CapSpace { slots, live: 0, children: Ghost(ch), depth: Ghost(d) };
        proof {
            assert(occupied(s@) =~= Set::<int>::empty());
            assert forall|j: int| 0 <= j < N implies #[trigger] slot_ok(
                s.slots@,
                s.children@,
                s.depth@,
                j,
            ) by {}
        }
        s
    }

    /// Live (occupied) slot count.
    pub fn count(&self) -> (n: usize)
        requires
            self.wf(),
        ensures
            n == occupied(self@).len(),
    {
        self.live
    }

    /// Inserts a fresh root capability with no parent, in the lowest free slot.
    ///
    /// The object is never `Object::Null`: a null object is what marks a slot free, so a slot
    /// "holding" one would be counted as live while `lookup` refuses it and the next insert
    /// takes it over. Every caller names a real object.
    pub fn insert(&mut self, object: Object, rights: Rights) -> (r: Result<Handle, CapError>)
        requires
            old(self).wf(),
            object != Object::Null,
        ensures
            final(self).wf(),
            match r {
                Ok(h) => {
                    &&& is_lowest_free(old(self)@, h.slot() as int)
                    &&& h.gen() == old(self)@[h.slot() as int].generation
                    &&& final(self)@ == old(self)@.update(
                        h.slot() as int,
                        fresh(object, rights, h.gen(), NO_LINK),
                    )
                    &&& lookup(final(self)@, h) == Ok::<(Object, Rights), CapError>((object, rights))
                },
                Err(e) => {
                    &&& e == CapError::OutOfSlots
                    &&& is_full(old(self)@)
                    &&& final(self)@ == old(self)@
                },
            },
    {
        let index = match self.find_free() {
            Ok(i) => i,
            Err(e) => return Err(e),
        };
        let ghost before = *self;
        proof {
            lemma_occupied_bounded(self@);
            assert(!occupied(self@).contains(index as int));
            assert(occupied(self@).insert(index as int).len() == occupied(self@).len() + 1);
            lemma_int_range(0, N as int);
            lemma_len_subset(occupied(self@).insert(index as int), set_int_range(0, N as int));
        }
        let generation = self.occupy(index, object, rights, NO_LINK);
        proof {
            self.lemma_view_update(before, index as int);
            assert(occupied(self@) =~= occupied(before@).insert(index as int));
            assert forall|j: int| 0 <= j < N implies #[trigger] slot_ok(
                self.slots@,
                self.children@,
                self.depth@,
                j,
            ) by {
                assert(slot_ok(before.slots@, before.children@, before.depth@, j));
                assert(slot_ok(before.slots@, before.children@, before.depth@, index as int));
                if j != index {
                    let sl = before.slots@[j];
                    if sl.object != Object::Null && sl.parent != NO_LINK {
                        assert(slot_ok(
                            before.slots@,
                            before.children@,
                            before.depth@,
                            sl.parent as int,
                        ));
                    }
                }
            }
        }
        let h = Handle::new(index as u32, generation);
        Ok(h)
    }

    /// Reads back what a handle currently names.
    pub fn get(&self, handle: Handle) -> (r: Result<(Object, Rights), CapError>)
        requires
            self.wf(),
        ensures
            r == lookup(self@, handle),
    {
        let index = self.slot_for(handle)?;
        let slot = self.slots[index];
        Ok((slot.object, slot.rights))
    }

    /// What a handle lets its holder do.
    pub fn rights(&self, handle: Handle) -> (r: Result<Rights, CapError>)
        requires
            self.wf(),
        ensures
            match lookup(self@, handle) {
                Ok(p) => r == Ok::<Rights, CapError>(p.1),
                Err(e) => r == Err::<Rights, CapError>(e),
            },
    {
        let index = self.slot_for(handle)?;
        Ok(self.slots[index].rights)
    }

    /// What a handle refers to.
    pub fn object(&self, handle: Handle) -> (r: Result<Object, CapError>)
        requires
            self.wf(),
        ensures
            match lookup(self@, handle) {
                Ok(p) => r == Ok::<Object, CapError>(p.0),
                Err(e) => r == Err::<Object, CapError>(e),
            },
    {
        let index = self.slot_for(handle)?;
        Ok(self.slots[index].object)
    }

    /// Derives a child capability from `from`, in the lowest free slot of this same table.
    ///
    /// The child's rights are `from`'s rights narrowed by `rights` — never wider. Requires
    /// `GRANT` on `from`.
    pub fn delegate(&mut self, from: Handle, rights: Rights) -> (r: Result<Handle, CapError>)
        requires
            old(self).wf(),
        ensures
            final(self).wf(),
            match lookup(old(self)@, from) {
                Err(e) => r == Err::<Handle, CapError>(e) && final(self)@ == old(self)@,
                Ok(held) => if !held.1.has(Rights(4)) {
                    &&& r == Err::<Handle, CapError>(CapError::InsufficientRights)
                    &&& final(self)@ == old(self)@
                } else {
                    match r {
                        Ok(h) => {
                            let narrowed = Rights(held.1.0 & rights.0);
                            &&& held.1.has(narrowed)
                            &&& is_lowest_free(old(self)@, h.slot() as int)
                            &&& h.gen() == old(self)@[h.slot() as int].generation
                            &&& final(self)@ == old(self)@.update(
                                h.slot() as int,
                                fresh(held.0, narrowed, h.gen(), from.slot()),
                            )
                            &&& lookup(final(self)@, h) == Ok::<(Object, Rights), CapError>(
                                (held.0, narrowed),
                            )
                        },
                        Err(e) => {
                            &&& e == CapError::OutOfSlots
                            &&& is_full(old(self)@)
                            &&& final(self)@ == old(self)@
                        },
                    }
                },
            },
    {
        let index = self.slot_for(from)?;
        let slot = self.slots[index];
        if !slot.rights.contains(Rights::GRANT()) {
            return Err(CapError::InsufficientRights);
        }
        let narrowed = slot.rights.intersection(rights);
        proof {
            intersection_never_widens(slot.rights, rights);
        }
        self.insert_derived(slot.object, narrowed, index as u32)
    }

    /// Links a new capability, in the lowest free slot, as a child of slot `parent`, with no
    /// rights check of its own: the primitive `delegate` builds on. As with `insert`, the object
    /// is never `Object::Null`, which would mark the new slot free while counting it as live;
    /// `delegate` passes on the parent's own object, which is live.
    pub fn insert_derived(&mut self, object: Object, rights: Rights, parent: u32) -> (r: Result<
        Handle,
        CapError,
    >)
        requires
            old(self).wf(),
            object != Object::Null,
        ensures
            final(self).wf(),
            parent >= N || is_free(old(self)@, parent as int) ==> {
                &&& r == Err::<Handle, CapError>(CapError::BadHandle)
                &&& final(self)@ == old(self)@
            },
            parent < N && !is_free(old(self)@, parent as int) ==> match r {
                Ok(h) => {
                    &&& is_lowest_free(old(self)@, h.slot() as int)
                    &&& h.gen() == old(self)@[h.slot() as int].generation
                    &&& final(self)@ == old(self)@.update(
                        h.slot() as int,
                        fresh(object, rights, h.gen(), parent),
                    )
                    &&& lookup(final(self)@, h) == Ok::<(Object, Rights), CapError>((object, rights))
                },
                Err(e) => {
                    &&& e == CapError::OutOfSlots
                    &&& is_full(old(self)@)
                    &&& final(self)@ == old(self)@
                },
            },
    {
        if parent as usize >= self.slots.len() || self.slots[parent as usize].object.is_null() {
            return Err(CapError::BadHandle);
        }
        let index = match self.find_free() {
            Ok(i) => i,
            Err(e) => return Err(e),
        };
        let ghost before = *self;
        let ghost p = parent as int;
        let ghost c = index as int;
        proof {
            lemma_occupied_bounded(self@);
            assert(!occupied(self@).contains(c));
            lemma_int_range(0, N as int);
            lemma_len_subset(occupied(self@).insert(c), set_int_range(0, N as int));
            assert(slot_ok(self.slots@, self.children@, self.depth@, p));
            assert(slot_ok(self.slots@, self.children@, self.depth@, c));
        }
        let generation = self.occupy(index, object, rights, parent);
        self.link_child(parent, index as u32);
        proof {
            self.depth@ = self.depth@.update(c, before.depth@[p] + 1);
            let new_slot = self.slots@[c];
            assert(self.slots@ == before.slots@.update(c, new_slot).update(p, self.slots@[p]));
            assert(self@ =~= before@.update(c, new_slot.abs()));
            assert(occupied(self@) =~= occupied(before@).insert(c));
            assert forall|j: int| 0 <= j < N implies #[trigger] slot_ok(
                self.slots@,
                self.children@,
                self.depth@,
                j,
            ) by {
                lemma_linked_slot_ok(
                    before.slots@,
                    before.children@,
                    before.depth@,
                    self.slots@,
                    self.children@,
                    self.depth@,
                    p,
                    c,
                    j,
                );
            }
        }
        Ok(Handle::new(index as u32, generation))
    }

    /// Frees every descendant of `handle`'s slot, leaving the slot itself live. Returns how
    /// many slots were freed. Requires `REVOKE` on the slot.
    pub fn revoke(&mut self, handle: Handle) -> (r: Result<usize, CapError>)
        requires
            old(self).wf(),
        ensures
            final(self).wf(),
            match lookup(old(self)@, handle) {
                Err(e) => r == Err::<usize, CapError>(e) && final(self)@ == old(self)@,
                Ok(held) => if !held.1.has(Rights(8)) {
                    &&& r == Err::<usize, CapError>(CapError::InsufficientRights)
                    &&& final(self)@ == old(self)@
                } else {
                    let gone = subtree(old(self)@, handle.slot() as int);
                    &&& r matches Ok(n) && n == gone.len()
                    &&& final(self)@.len() == N
                    &&& forall|i: int|
                        0 <= i < N ==> #[trigger] final(self)@[i] == (if gone.contains(i) {
                            freed(old(self)@[i])
                        } else {
                            old(self)@[i]
                        })
                },
            },
    {
        let index = self.slot_for(handle)?;
        if !self.slots[index].rights.contains(Rights::REVOKE()) {
            return Err(CapError::InsufficientRights);
        }
        let ghost s0 = *self;
        let ghost root = index as int;
        let ghost dd = subtree(s0@, root);
        proof {
            s0.lemma_subtree_bounded(root);
            assert(s0@[root] == s0.slots@[root].abs());
        }
        let freed = self.free_descendants(index as u32);
        let mut slot = self.slots[index];
        slot.first_child = NO_LINK;
        self.slots.set(index, slot);
        proof {
            let ch2 = Seq::new(
                N as nat,
                |i: int|
                    if dd.contains(i) || i == root {
                        Seq::<u32>::empty()
                    } else {
                        s0.children@[i]
                    },
            );
            self.children@ = ch2;
            self.lemma_revoked_consistent(s0, root);
        }
        Ok(freed)
    }

    /// After `revoke` frees the subtree under `root` and empties `root`'s child list, the
    /// table is consistent again and its view is the old one with the subtree freed.
    proof fn lemma_revoked_consistent(&self, s0: Self, root: int)
        requires
            s0.wf(),
            0 <= root < N,
            !is_free(s0@, root),
            self.slots@.len() == N,
            self.depth == s0.depth,
            self.live == s0.live - subtree(s0@, root).len(),
            forall|i: int|
                0 <= i < N && i != root ==> #[trigger] self.slots@[i] == (if subtree(
                    s0@,
                    root,
                ).contains(i) {
                    s0.slots@[i].cleared()
                } else {
                    s0.slots@[i]
                }),
            self.slots@[root] == (Slot { first_child: NO_LINK, ..s0.slots@[root] }),
            self.children@ == Seq::new(
                N as nat,
                |i: int|
                    if subtree(s0@, root).contains(i) || i == root {
                        Seq::<u32>::empty()
                    } else {
                        s0.children@[i]
                    },
            ),
        ensures
            self.wf(),
            forall|i: int|
                0 <= i < N ==> #[trigger] self@[i] == (if subtree(s0@, root).contains(i) {
                    freed(s0@[i])
                } else {
                    s0@[i]
                }),
            self@.len() == N,
    {
        let v0 = s0@;
        let dd = subtree(v0, root);
        let s1 = self.slots@;
        let ch1 = self.children@;
        s0.lemma_subtree_bounded(root);
        assert forall|i: int| 0 <= i < N implies #[trigger] pruned_at(
            s0.slots@,
            s0.children@,
            s1,
            ch1,
            dd,
            i,
        ) by {
            assert(slot_ok(s0.slots@, s0.children@, s0.depth@, i));
            assert(v0[i] == s0.slots@[i].abs());
            if !dd.contains(i) && s0.slots@[i].object != Object::Null {
                lemma_descends_step(v0, i, root);
                if i == root {
                    assert forall|x: u32| #[trigger] s0.children@[root].contains(x) implies dd.contains(
                        x as int,
                    ) by {
                        let m = choose|m: int|
                            0 <= m < s0.children@[root].len() && s0.children@[root][m] == x;
                        s0.lemma_listed_child(root, m);
                    }
                } else {
                    assert forall|x: u32| #[trigger] s0.children@[i].contains(x) implies !dd.contains(
                        x as int,
                    ) by {
                        let m = choose|m: int|
                            0 <= m < s0.children@[i].len() && s0.children@[i][m] == x;
                        s0.lemma_listed_child(i, m);
                        lemma_descends_step(v0, x as int, root);
                    }
                    assert forall|k: int| 0 <= k < ch1[i].len() implies s1[#[trigger] ch1[i][k] as int].next_sibling
                        == list_next(ch1[i], k) by {
                        assert(ch1[i] == s0.children@[i]);
                        s0.lemma_listed_child(i, k);
                        assert(s0.children@[i].contains(ch1[i][k]));
                        assert(!dd.contains(ch1[i][k] as int));
                    }
                }
            }
        }
        assert forall|j: int| 0 <= j < N implies #[trigger] slot_ok(s1, ch1, self.depth@, j) by {
            lemma_pruned_slot_ok(s0.slots@, s0.children@, s0.depth@, s1, ch1, dd, j);
        }
        assert forall|i: int| 0 <= i < N implies #[trigger] self@[i] == (if dd.contains(i) {
            freed(v0[i])
        } else {
            v0[i]
        }) by {
            assert(self@[i] == s1[i].abs());
            assert(v0[i] == s0.slots@[i].abs());
        }
        assert(occupied(self@) =~= occupied(v0).difference(dd)) by {
            assert forall|i: int| 0 <= i < N implies (occupied(self@).contains(i)
                <==> occupied(v0).difference(dd).contains(i)) by {
                assert(self@[i] == s1[i].abs());
                assert(v0[i] == s0.slots@[i].abs());
            }
        }
        lemma_occupied_bounded(v0);
        assert(occupied(v0).intersect(dd) =~= dd);
        vstd::set_lib::lemma_set_difference_len(occupied(v0), dd);
    }

    /// Frees the slot itself and every descendant, and returns how many slots that was. Needs
    /// no right beyond a live handle: deleting discards the caller's own authority.
    pub fn delete(&mut self, handle: Handle) -> (r: Result<usize, CapError>)
        requires
            old(self).wf(),
        ensures
            final(self).wf(),
            match lookup(old(self)@, handle) {
                Err(e) => r == Err::<usize, CapError>(e) && final(self)@ == old(self)@,
                Ok(_) => {
                    let gone = subtree(old(self)@, handle.slot() as int);
                    &&& r matches Ok(n) && n == gone.len() + 1
                    &&& final(self)@.len() == N
                    &&& forall|i: int|
                        0 <= i < N ==> #[trigger] final(self)@[i] == (if gone.contains(i) || i
                            == handle.slot() {
                            freed(old(self)@[i])
                        } else {
                            old(self)@[i]
                        })
                },
            },
    {
        let index = self.slot_for(handle)?;
        let ghost s0 = *self;
        let ghost root = index as int;
        let ghost kids = s0.parent_list(root);
        let ghost pos = s0.lemma_delete_prep(root);
        let mut freed = self.free_descendants(index as u32);
        let ghost s1 = self.slots@;
        proof {
            s0.lemma_unlink_ready(root, pos, s1);
        }
        self.unlink_from_parent(index as u32, Ghost(kids), Ghost(pos));
        let ghost s2 = self.slots@;
        self.free_slot(index as u32);
        freed = freed + 1;
        proof {
            s0.lemma_unlinked(root, pos, s1, s2);
            self.children@ = s0.delete_children(root, pos);
            self.lemma_deleted_consistent(s0, root, pos);
        }
        Ok(freed)
    }

    /// The child list `root` sits in: its parent's, or nothing for a root capability.
    spec fn parent_list(&self, root: int) -> Seq<u32> {
        if self.slots@[root].parent != NO_LINK {
            self.children@[self.slots@[root].parent as int]
        } else {
            Seq::empty()
        }
    }

    /// The child lists after `delete` frees `root` and the subtree under it.
    spec fn delete_children(&self, root: int, pos: int) -> Seq<Seq<u32>> {
        Seq::new(
            N as nat,
            |i: int|
                if subtree(self@, root).contains(i) || i == root {
                    Seq::<u32>::empty()
                } else if self.slots@[root].parent != NO_LINK && i == self.slots@[root].parent as int {
                    self.children@[i].remove(pos)
                } else {
                    self.children@[i]
                },
        )
    }

    /// Where `root` sits in its parent's child list, and that the list and the parent lie
    /// outside the subtree `delete` frees.
    spec fn delete_ready(&self, root: int, pos: int) -> bool {
        let dd = subtree(self@, root);
        self.slots@[root].parent != NO_LINK ==> {
            let p = self.slots@[root].parent as int;
            let l = self.children@[p];
            &&& 0 <= p < N
            &&& p != root
            &&& !dd.contains(p)
            &&& !is_free(self@, p)
            &&& 0 <= pos < l.len()
            &&& l[pos] == root as u32
            &&& l.no_duplicates()
            &&& self.slots@[p].first_child == list_head(l)
            &&& forall|k: int|
                0 <= k < l.len() ==> {
                    &&& !dd.contains(#[trigger] l[k] as int)
                    &&& l[k] < N
                    &&& l[k] as int != p
                    &&& self.slots@[l[k] as int].next_sibling == list_next(l, k)
                }
        }
    }

    /// Before `delete`: where `root` sits in its parent's list, and room for the count.
    proof fn lemma_delete_prep(&self, root: int) -> (pos: int)
        requires
            self.wf(),
            0 <= root < N,
            !is_free(self@, root),
        ensures
            subtree(self@, root).len() + 1 <= self.live,
            subtree(self@, root).len() < N,
            self.delete_ready(root, pos),
    {
        let v0 = self@;
        let dd = subtree(v0, root);
        self.lemma_subtree_bounded(root);
        assert(v0[root] == self.slots@[root].abs());
        assert(slot_ok(self.slots@, self.children@, self.depth@, root));
        lemma_occupied_bounded(v0);
        lemma_len_subset(dd.insert(root), occupied(v0));
        lemma_int_range(0, N as int);
        lemma_len_subset(dd.insert(root), set_int_range(0, N as int));
        if self.slots@[root].parent != NO_LINK {
            let p = self.slots@[root].parent as int;
            let kids = self.children@[p];
            assert(slot_ok(self.slots@, self.children@, self.depth@, p));
            let pos = choose|pos: int| 0 <= pos < kids.len() && kids[pos] == root as u32;
            lemma_descends_step(v0, root, p);
            self.lemma_no_self_descent(root);
            self.lemma_no_self_descent(p);
            if dd.contains(p) {
                lemma_descends_transitive(v0, root, p, root);
            }
            assert(v0[p] == self.slots@[p].abs());
            assert forall|k: int| 0 <= k < kids.len() implies !dd.contains(#[trigger] kids[k] as int)
                && kids[k] as int != p by {
                self.lemma_listed_child(p, k);
                lemma_descends_step(v0, kids[k] as int, root);
                lemma_descends_step(v0, kids[k] as int, kids[k] as int);
            }
            pos
        } else {
            0
        }
    }

    /// After the subtree is freed, `root`, its parent and its siblings are as they were: the
    /// list can be unlinked from.
    proof fn lemma_unlink_ready(&self, root: int, pos: int, s1: Seq<Slot>)
        requires
            self.wf(),
            0 <= root < N,
            !is_free(self@, root),
            self.delete_ready(root, pos),
            s1.len() == N,
            forall|i: int|
                0 <= i < N ==> #[trigger] s1[i] == (if subtree(self@, root).contains(i) {
                    self.slots@[i].cleared()
                } else {
                    self.slots@[i]
                }),
        ensures
            s1[root] == self.slots@[root],
            s1[root].parent != NO_LINK ==> {
                let p = s1[root].parent as int;
                let kids = self.parent_list(root);
                &&& p < s1.len()
                &&& p != root
                &&& kids.no_duplicates()
                &&& 0 <= pos < kids.len()
                &&& kids[pos] == root as u32
                &&& s1[p].first_child == list_head(kids)
                &&& forall|k: int|
                    0 <= k < kids.len() ==> #[trigger] kids[k] < s1.len() && s1[kids[k] as int].next_sibling
                        == list_next(kids, k)
            },
    {
        self.lemma_subtree_bounded(root);
        if self.slots@[root].parent != NO_LINK {
            let p = self.slots@[root].parent as int;
            let kids = self.children@[p];
            assert(kids[pos] == root as u32);
            assert forall|k: int| 0 <= k < kids.len() implies #[trigger] kids[k] < s1.len()
                && s1[kids[k] as int].next_sibling == list_next(kids, k) by {
                assert(!subtree(self@, root).contains(kids[k] as int));
            }
        }
    }

    /// The slots after `delete`'s unlink and final free are `unlinked_slot`.
    proof fn lemma_unlinked(&self, root: int, pos: int, s1: Seq<Slot>, s2: Seq<Slot>)
        requires
            self.wf(),
            0 <= root < N,
            !is_free(self@, root),
            self.delete_ready(root, pos),
            s1.len() == N,
            forall|i: int|
                0 <= i < N ==> #[trigger] s1[i] == (if subtree(self@, root).contains(i) {
                    self.slots@[i].cleared()
                } else {
                    self.slots@[i]
                }),
            ({
                let p = self.slots@[root].parent as int;
                let after = self.slots@[root].next_sibling;
                let l = self.children@[p];
                &&& self.slots@[root].parent == NO_LINK ==> s2 == s1
                &&& self.slots@[root].parent != NO_LINK && pos == 0 ==> s2 == s1.update(
                    p,
                    Slot { first_child: after, ..s1[p] },
                )
                &&& self.slots@[root].parent != NO_LINK && pos > 0 ==> s2 == s1.update(
                    l[pos - 1] as int,
                    Slot { next_sibling: after, ..s1[l[pos - 1] as int] },
                )
            }),
        ensures
            forall|i: int|
                0 <= i < N ==> #[trigger] s2.update(root, s2[root].cleared())[i] == unlinked_slot(
                    self.slots@,
                    self.children@,
                    subtree(self@, root),
                    root,
                    pos,
                    i,
                ),
    {
        self.lemma_subtree_bounded(root);
        let dd = subtree(self@, root);
        let p = self.slots@[root].parent as int;
        let l = self.children@[p];
        if self.slots@[root].parent != NO_LINK && pos > 0 {
            assert(!dd.contains(l[pos - 1] as int));
            assert(l[pos - 1] != l[pos]);
        }
        assert forall|i: int| 0 <= i < N implies #[trigger] s2.update(root, s2[root].cleared())[i]
            == unlinked_slot(self.slots@, self.children@, dd, root, pos, i) by {
            assert(s1[i] == (if dd.contains(i) {
                self.slots@[i].cleared()
            } else {
                self.slots@[i]
            }));
            assert(s1[root] == self.slots@[root]);
        }
    }

    /// After `delete`, the parent's child list is its old one without `root`, and the links
    /// match it.
    proof fn lemma_bridged_list(&self, root: int, pos: int, s1: Seq<Slot>)
        requires
            self.wf(),
            0 <= root < N,
            !is_free(self@, root),
            self.slots@[root].parent != NO_LINK,
            self.delete_ready(root, pos),
            s1.len() == N,
            forall|i: int|
                0 <= i < N ==> #[trigger] s1[i] == unlinked_slot(
                    self.slots@,
                    self.children@,
                    subtree(self@, root),
                    root,
                    pos,
                    i,
                ),
        ensures
            ({
                let p = self.slots@[root].parent as int;
                let l = self.children@[p];
                let l2 = l.remove(pos);
                let rr = subtree(self@, root).insert(root);
                &&& l2.no_duplicates()
                &&& forall|x: u32| #[trigger]
                    l2.contains(x) <==> l.contains(x) && !rr.contains(x as int)
                &&& s1[p].first_child == list_head(l2)
                &&& forall|k: int|
                    0 <= k < l2.len() ==> s1[#[trigger] l2[k] as int].next_sibling == list_next(
                        l2,
                        k,
                    )
            }),
    {
        let dd = subtree(self@, root);
        let rr = dd.insert(root);
        let s = self.slots@;
        let ch = self.children@;
        let p = s[root].parent as int;
        let l = ch[p];
        let l2 = l.remove(pos);
        lemma_list_remove(l, pos);
        assert forall|x: u32| #[trigger] l2.contains(x) <==> l.contains(x) && !rr.contains(x as int) by {
            if l.contains(x) && x != root as u32 {
                let m = choose|m: int| 0 <= m < l.len() && l[m] == x;
                assert(!dd.contains(l[m] as int));
            }
        }
        assert(s1[p] == unlinked_slot(s, ch, dd, root, pos, p));
        if pos > 0 {
            assert(l2[0] == l[0]);
            assert(l[pos - 1] as int != p);
        } else if l2.len() > 0 {
            assert(l2[0] == l[1]);
        }
        assert forall|k: int| 0 <= k < l2.len() implies s1[#[trigger] l2[k] as int].next_sibling
            == list_next(l2, k) by {
            let k0 = if k < pos {
                k
            } else {
                k + 1
            };
            assert(l2[k] == l[k0]);
            let x = l[k0] as int;
            assert(s1[x] == unlinked_slot(s, ch, dd, root, pos, x));
            assert(l[k0] != l[pos]);
            if k + 1 < l2.len() {
                let k1 = if k + 1 < pos {
                    k + 1
                } else {
                    k + 2
                };
                assert(l2[k + 1] == l[k1]);
            }
            if k0 != pos - 1 && pos > 0 {
                assert(l[k0] != l[pos - 1]);
            }
        }
    }

    /// How slot `i` fares in `delete`, in the terms `lemma_pruned_slot_ok` takes.
    proof fn lemma_deleted_pruned_at(&self, root: int, pos: int, s1: Seq<Slot>, i: int)
        requires
            self.wf(),
            0 <= root < N,
            0 <= i < N,
            !is_free(self@, root),
            self.delete_ready(root, pos),
            s1.len() == N,
            forall|j: int|
                0 <= j < N ==> #[trigger] s1[j] == unlinked_slot(
                    self.slots@,
                    self.children@,
                    subtree(self@, root),
                    root,
                    pos,
                    j,
                ),
        ensures
            pruned_at(
                self.slots@,
                self.children@,
                s1,
                self.delete_children(root, pos),
                subtree(self@, root).insert(root),
                i,
            ),
    {
        let v0 = self@;
        let dd = subtree(v0, root);
        let rr = dd.insert(root);
        let s = self.slots@;
        let ch = self.children@;
        let ch1 = self.delete_children(root, pos);
        let has_parent = s[root].parent != NO_LINK;
        let p = s[root].parent as int;
        self.lemma_subtree_bounded(root);
        assert(slot_ok(s, ch, self.depth@, i));
        assert(v0[i] == s[i].abs());
        assert(s1[i] == unlinked_slot(s, ch, dd, root, pos, i));
        if !rr.contains(i) && s[i].object != Object::Null {
            lemma_descends_step(v0, i, root);
            if has_parent && i == p {
                self.lemma_bridged_list(root, pos, s1);
            } else {
                assert(ch1[i] == ch[i]);
                assert forall|x: u32| #[trigger] ch[i].contains(x) implies !rr.contains(x as int) by {
                    let m = choose|m: int| 0 <= m < ch[i].len() && ch[i][m] == x;
                    self.lemma_listed_child(i, m);
                    lemma_descends_step(v0, x as int, root);
                }
                assert forall|k: int| 0 <= k < ch[i].len() implies s1[#[trigger] ch[i][k] as int].next_sibling
                    == list_next(ch[i], k) by {
                    self.lemma_listed_child(i, k);
                    let x = ch[i][k] as int;
                    assert(ch[i].contains(x as u32));
                    assert(s1[x] == unlinked_slot(s, ch, dd, root, pos, x));
                    if has_parent && pos > 0 && x == ch[p][pos - 1] as int {
                        self.lemma_listed_child(p, pos - 1);
                    }
                }
                if has_parent && pos > 0 && i == ch[p][pos - 1] as int {
                    self.lemma_listed_child(p, pos - 1);
                }
            }
        }
    }

    /// After `delete` frees `root` and everything under it and unlinks `root` from its parent's
    /// list, the table is consistent again and its view is the old one with those slots freed.
    proof fn lemma_deleted_consistent(&self, s0: Self, root: int, pos: int)
        requires
            s0.wf(),
            0 <= root < N,
            !is_free(s0@, root),
            s0.delete_ready(root, pos),
            self.slots@.len() == N,
            self.depth == s0.depth,
            self.live == s0.live - subtree(s0@, root).len() - 1,
            forall|i: int|
                0 <= i < N ==> #[trigger] self.slots@[i] == unlinked_slot(
                    s0.slots@,
                    s0.children@,
                    subtree(s0@, root),
                    root,
                    pos,
                    i,
                ),
            self.children@ == s0.delete_children(root, pos),
        ensures
            self.wf(),
            self@.len() == N,
            forall|i: int|
                0 <= i < N ==> #[trigger] self@[i] == (if subtree(s0@, root).contains(i) || i
                    == root {
                    freed(s0@[i])
                } else {
                    s0@[i]
                }),
    {
        let v0 = s0@;
        let dd = subtree(v0, root);
        let rr = dd.insert(root);
        let s = s0.slots@;
        let ch = s0.children@;
        let s1 = self.slots@;
        let ch1 = self.children@;
        s0.lemma_subtree_bounded(root);
        assert forall|i: int| 0 <= i < N implies #[trigger] pruned_at(s, ch, s1, ch1, rr, i) by {
            s0.lemma_deleted_pruned_at(root, pos, s1, i);
        }
        assert forall|j: int| 0 <= j < N implies #[trigger] slot_ok(s1, ch1, self.depth@, j) by {
            lemma_pruned_slot_ok(s, ch, s0.depth@, s1, ch1, rr, j);
        }
        assert forall|i: int| 0 <= i < N implies #[trigger] self@[i] == (if rr.contains(i) {
            freed(v0[i])
        } else {
            v0[i]
        }) by {
            assert(self@[i] == s1[i].abs());
            assert(v0[i] == s[i].abs());
            assert(s1[i] == unlinked_slot(s, ch, dd, root, pos, i));
        }
        assert(occupied(self@) =~= occupied(v0).difference(rr)) by {
            assert forall|i: int| 0 <= i < N implies (occupied(self@).contains(i)
                <==> occupied(v0).difference(rr).contains(i)) by {
                assert(self@[i] == s1[i].abs());
                assert(v0[i] == s[i].abs());
                assert(s1[i] == unlinked_slot(s, ch, dd, root, pos, i));
            }
        }
        lemma_occupied_bounded(v0);
        assert(occupied(v0).intersect(rr) =~= rr);
        vstd::set_lib::lemma_set_difference_len(occupied(v0), rr);
    }

    /// A consistent table has exactly `N` slots.
    pub proof fn lemma_view_len(&self)
        requires
            self.wf(),
        ensures
            self@.len() == N,
    {
    }

    /// The lowest free slot is unique.
    pub proof fn lemma_lowest_free_unique(v: Seq<CapSlot>, i: int, j: int)
        requires
            is_lowest_free(v, i),
            is_lowest_free(v, j),
        ensures
            i == j,
    {
        if i < j {
            assert(!is_free(v, i));
        }
        if j < i {
            assert(!is_free(v, j));
        }
    }

    /// Revoking a capability withdraws what was derived from it, never the capability itself.
    pub proof fn revoke_spares_the_root(&self, root: int)
        requires
            self.wf(),
            0 <= root < N,
        ensures
            !subtree(self@, root).contains(root),
    {
        self.lemma_subtree_bounded(root);
    }

    /// In a consistent table a free slot has no parent link, a live slot's parent is live, and
    /// everything derived from a slot is live: so `revoke`'s count is a count of live
    /// capabilities, each of which it frees.
    pub proof fn lemma_links_are_live(&self)
        requires
            self.wf(),
        ensures
            forall|i: int|
                0 <= i < N && #[trigger] is_free(self@, i) ==> self@[i].parent == NO_LINK,
            forall|i: int|
                0 <= i < N && !is_free(self@, i) && #[trigger] self@[i].parent != NO_LINK ==> {
                    &&& self@[i].parent < N
                    &&& !is_free(self@, self@[i].parent as int)
                },
            forall|r: int, i: int|
                0 <= r < N && #[trigger] subtree(self@, r).contains(i) ==> 0 <= i < N
                    && !is_free(self@, i),
    {
        assert forall|i: int| 0 <= i < N && #[trigger] is_free(self@, i) implies self@[i].parent
            == NO_LINK by {
            assert(slot_ok(self.slots@, self.children@, self.depth@, i));
            assert(self@[i] == self.slots@[i].abs());
        }
        assert forall|i: int|
            0 <= i < N && !is_free(self@, i) && #[trigger] self@[i].parent != NO_LINK implies {
            &&& self@[i].parent < N
            &&& !is_free(self@, self@[i].parent as int)
        } by {
            assert(slot_ok(self.slots@, self.children@, self.depth@, i));
            assert(self@[i] == self.slots@[i].abs());
            assert(self@[self@[i].parent as int] == self.slots@[self@[i].parent as int].abs());
        }
        assert forall|r: int, i: int|
            0 <= r < N && #[trigger] subtree(self@, r).contains(i) implies 0 <= i < N && !is_free(
            self@,
            i,
        ) by {
            self.lemma_subtree_bounded(r);
            assert(occupied(self@).contains(i));
        }
    }

    // -- internals --
    /// The view after one slot changed is the old view with that entry replaced.
    proof fn lemma_view_update(&self, before: Self, index: int)
        requires
            0 <= index < before.slots@.len(),
            self.slots@ == before.slots@.update(index, self.slots@[index]),
        ensures
            self@ == before@.update(index, self.slots@[index].abs()),
    {
        assert(self@ =~= before@.update(index, self.slots@[index].abs()));
    }

    /// Everything above an occupied slot is occupied and strictly shallower.
    proof fn lemma_ancestor_shallower(&self, i: int, k: nat)
        requires
            self.wf(),
            0 <= i < N,
            k > 0,
            ancestor(self@, i, k) is Some,
        ensures
            0 <= ancestor(self@, i, k)->0 < N,
            !is_free(self@, ancestor(self@, i, k)->0),
            !is_free(self@, i),
            self.depth@[ancestor(self@, i, k)->0] < self.depth@[i],
        decreases k,
    {
        assert(slot_ok(self.slots@, self.children@, self.depth@, i));
        let p = self.slots@[i].parent as int;
        assert(self@[i] == self.slots@[i].abs());
        if k > 1 {
            self.lemma_ancestor_shallower(p, (k - 1) as nat);
        }
    }

    /// The derivation tree has no cycle.
    proof fn lemma_no_self_descent(&self, i: int)
        requires
            self.wf(),
            0 <= i < N,
        ensures
            !descends_from(self@, i, i),
    {
        if descends_from(self@, i, i) {
            let k = choose|k: nat| k > 0 && #[trigger] ancestor(self@, i, k) == Some(i);
            self.lemma_ancestor_shallower(i, k);
        }
    }

    /// A subtree holds only occupied slots, never its own root, and is no larger than the
    /// table.
    proof fn lemma_subtree_bounded(&self, root: int)
        requires
            self.wf(),
            0 <= root < N,
        ensures
            subtree(self@, root).finite(),
            subtree(self@, root).len() <= N,
            subtree(self@, root).subset_of(occupied(self@)),
            !subtree(self@, root).contains(root),
    {
        lemma_int_range(0, N as int);
        lemma_len_subset(subtree(self@, root), set_int_range(0, N as int));
        assert forall|i: int| #[trigger] subtree(self@, root).contains(i) implies occupied(
            self@,
        ).contains(i) by {
            let k = choose|k: nat| k > 0 && #[trigger] ancestor(self@, i, k) == Some(root);
            self.lemma_ancestor_shallower(i, k);
        }
        self.lemma_no_self_descent(root);
    }

    /// A child of an occupied slot is listed among its children.
    proof fn lemma_parent_lists_child(&self, c: int)
        requires
            self.wf(),
            0 <= c < N,
            self@[c].parent != NO_LINK,
        ensures
            !is_free(self@, c),
            0 <= self@[c].parent < N,
            self.children@[self@[c].parent as int].contains(c as u32),
    {
        assert(slot_ok(self.slots@, self.children@, self.depth@, c));
        assert(self@[c] == self.slots@[c].abs());
    }

    /// Everything `n` lists as a child has `n` as its parent.
    proof fn lemma_listed_child(&self, n: int, k: int)
        requires
            self.wf(),
            0 <= n < N,
            0 <= k < self.children@[n].len(),
        ensures
            0 <= self.children@[n][k] < N,
            self@[self.children@[n][k] as int].parent == n as u32,
            descends_from(self@, self.children@[n][k] as int, n),
            !is_free(self@, n),
    {
        assert(slot_ok(self.slots@, self.children@, self.depth@, n));
        let c = self.children@[n][k] as int;
        assert(self@[c] == self.slots@[c].abs());
        lemma_descends_step(self@, c, n);
    }

    /// The walk starts with the root's children on the stack and nothing freed.
    proof fn lemma_walk_start(&self, root: int)
        requires
            self.wf(),
            0 <= root < N,
            !is_free(self@, root),
        ensures
            walk_inv(self@, subtree(self@, root), Set::empty(), self.children@[root]),
    {
        reveal(walk_sets);
        reveal(walk_pending);
        reveal(walk_disjoint);
        reveal(walk_clear);
        reveal(walk_cover);
        let v = self@;
        let dd = subtree(v, root);
        let st = self.children@[root];
        assert(slot_ok(self.slots@, self.children@, self.depth@, root));
        assert forall|j: int| 0 <= j < st.len() implies dd.contains(#[trigger] st[j] as int) by {
            self.lemma_listed_child(root, j);
        }
        assert forall|a: int, b: int|
            #![trigger st[a], st[b]]
            0 <= a < st.len() && 0 <= b < st.len() && a != b implies !descends_from(
                v,
                st[a] as int,
                st[b] as int,
            ) by {
            self.lemma_listed_child(root, a);
            self.lemma_listed_child(root, b);
            lemma_descends_step(v, st[a] as int, st[b] as int);
            if descends_from(v, st[a] as int, st[b] as int) {
                lemma_descends_transitive(v, root, st[b] as int, root);
                self.lemma_no_self_descent(root);
            }
        }
        assert forall|x: int| #[trigger] dd.contains(x) implies exists|j: int|
            0 <= j < st.len() && (#[trigger] st[j] as int == x || descends_from(
                v,
                x,
                st[j] as int,
            )) by {
            let k = choose|k: nat| k > 0 && #[trigger] ancestor(v, x, k) == Some(root);
            let c = lemma_child_on_path(v, x, root, k);
            self.lemma_parent_lists_child(c);
            let j = choose|j: int| 0 <= j < st.len() && st[j] == c as u32;
            assert(st[j] as int == c);
        }
    }

    /// What the walk learns about the node it pops: it is pending, occupied, and its children
    /// are unfreed members of the subtree lying under it.
    proof fn lemma_walk_node(&self, root: int, fset: Set<int>, st: Seq<u32>)
        requires
            self.wf(),
            0 <= root < N,
            st.len() > 0,
            walk_pending(subtree(self@, root), fset, st),
            walk_clear(self@, fset, st),
        ensures
            ({
                let node = st.last() as int;
                let kids = self.children@[node];
                &&& 0 <= node < N
                &&& subtree(self@, root).contains(node)
                &&& !fset.contains(node)
                &&& !is_free(self@, node)
                &&& !descends_from(self@, node, node)
                &&& kids.no_duplicates()
                &&& forall|k: int|
                    0 <= k < kids.len() ==> {
                        &&& !fset.contains(#[trigger] kids[k] as int)
                        &&& subtree(self@, root).contains(kids[k] as int)
                        &&& kids[k] as int != node
                        &&& descends_from(self@, kids[k] as int, node)
                        &&& self@[kids[k] as int].parent == node as u32
                    }
            }),
    {
        reveal(walk_pending);
        reveal(walk_clear);
        let v = self@;
        let dd = subtree(v, root);
        let last = st.len() - 1;
        let node = st[last] as int;
        let kids = self.children@[node];
        assert(dd.contains(node));
        self.lemma_subtree_bounded(root);
        assert(occupied(v).contains(node));
        assert(slot_ok(self.slots@, self.children@, self.depth@, node));
        self.lemma_no_self_descent(node);
        assert forall|k: int| 0 <= k < kids.len() implies {
            &&& !fset.contains(#[trigger] kids[k] as int)
            &&& dd.contains(kids[k] as int)
            &&& kids[k] as int != node
            &&& descends_from(v, kids[k] as int, node)
            &&& v[kids[k] as int].parent == node as u32
        } by {
            self.lemma_listed_child(node, k);
            let c = kids[k] as int;
            lemma_descends_step(v, c, root);
            if fset.contains(c) {
                assert(!descends_from(v, c, st[last] as int));
            }
        }
    }

    /// One step of the walk keeps its bookkeeping: pop `node`, push its children, free it.
    proof fn lemma_walk_step(&self, root: int, fset: Set<int>, st: Seq<u32>)
        requires
            self.wf(),
            0 <= root < N,
            st.len() > 0,
            walk_inv(self@, subtree(self@, root), fset, st),
        ensures
            walk_inv(
                self@,
                subtree(self@, root),
                fset.insert(st.last() as int),
                st.drop_last() + self.children@[st.last() as int],
            ),
    {
        self.lemma_walk_node(root, fset, st);
        self.lemma_step_sets(root, fset, st);
        self.lemma_step_pending(root, fset, st);
        self.lemma_step_disjoint(root, fset, st);
        self.lemma_step_clear(root, fset, st);
        self.lemma_step_cover(root, fset, st);
    }

    proof fn lemma_step_sets(&self, root: int, fset: Set<int>, st: Seq<u32>)
        requires
            self.wf(),
            0 <= root < N,
            st.len() > 0,
            walk_sets(subtree(self@, root), fset),
            subtree(self@, root).contains(st.last() as int),
        ensures
            walk_sets(subtree(self@, root), fset.insert(st.last() as int)),
    {
        reveal(walk_sets);
    }

    proof fn lemma_step_pending(&self, root: int, fset: Set<int>, st: Seq<u32>)
        requires
            self.wf(),
            0 <= root < N,
            st.len() > 0,
            walk_pending(subtree(self@, root), fset, st),
            walk_disjoint(self@, st),
            walk_clear(self@, fset, st),
        ensures
            walk_pending(
                subtree(self@, root),
                fset.insert(st.last() as int),
                st.drop_last() + self.children@[st.last() as int],
            ),
    {
        self.lemma_walk_node(root, fset, st);
        reveal(walk_pending);
        reveal(walk_disjoint);
        let v = self@;
        let dd = subtree(v, root);
        let last = st.len() - 1;
        let node = st[last] as int;
        let kids = self.children@[node];
        let rest = st.drop_last();
        let st2 = rest + kids;
        let f2 = fset.insert(node);
        assert(st[last] as int == node);
        assert forall|j: int| 0 <= j < st2.len() implies dd.contains(#[trigger] st2[j] as int)
            && !f2.contains(st2[j] as int) by {
            if j < rest.len() {
                assert(st2[j] == st[j]);
                assert(st[j] != st[last]);
            } else {
                assert(st2[j] == kids[j - rest.len()]);
            }
        }
        assert forall|a: int, b: int| 0 <= a < st2.len() && 0 <= b < st2.len() && a != b
            implies st2[a] != st2[b] by {
            if a < rest.len() && b < rest.len() {
                assert(st2[a] == st[a] && st2[b] == st[b]);
            } else if a >= rest.len() && b >= rest.len() {
                assert(st2[a] == kids[a - rest.len()]);
                assert(st2[b] == kids[b - rest.len()]);
            } else if a < rest.len() {
                assert(st2[a] == st[a]);
                assert(st2[b] == kids[b - rest.len()]);
                assert(!descends_from(v, st[a] as int, st[last] as int));
            } else {
                assert(st2[b] == st[b]);
                assert(st2[a] == kids[a - rest.len()]);
                assert(!descends_from(v, st[b] as int, st[last] as int));
            }
        }
    }

    proof fn lemma_step_disjoint(&self, root: int, fset: Set<int>, st: Seq<u32>)
        requires
            self.wf(),
            0 <= root < N,
            st.len() > 0,
            walk_pending(subtree(self@, root), fset, st),
            walk_disjoint(self@, st),
            walk_clear(self@, fset, st),
        ensures
            walk_disjoint(self@, st.drop_last() + self.children@[st.last() as int]),
    {
        self.lemma_walk_node(root, fset, st);
        reveal(walk_pending);
        reveal(walk_disjoint);
        let v = self@;
        let last = st.len() - 1;
        let node = st[last] as int;
        let kids = self.children@[node];
        let rest = st.drop_last();
        let st2 = rest + kids;
        assert(st[last] as int == node);
        assert forall|a: int, b: int|
            #![trigger st2[a], st2[b]]
            0 <= a < st2.len() && 0 <= b < st2.len() && a != b implies !descends_from(
                v,
                st2[a] as int,
                st2[b] as int,
            ) by {
            let x = st2[a] as int;
            let y = st2[b] as int;
            if a < rest.len() && b < rest.len() {
                assert(st2[a] == st[a] && st2[b] == st[b]);
            } else if a < rest.len() {
                assert(st2[a] == st[a]);
                assert(st2[b] == kids[b - rest.len()]);
                assert(!descends_from(v, st[a] as int, st[last] as int));
                if descends_from(v, x, y) {
                    lemma_descends_transitive(v, x, y, node);
                }
            } else if b < rest.len() {
                assert(st2[b] == st[b]);
                assert(st2[a] == kids[a - rest.len()]);
                assert(!descends_from(v, st[last] as int, st[b] as int));
                assert(st[b] != st[last]);
                lemma_descends_step(v, x, y);
            } else {
                assert(st2[a] == kids[a - rest.len()]);
                assert(st2[b] == kids[b - rest.len()]);
                lemma_descends_step(v, x, y);
                if descends_from(v, x, y) {
                    lemma_descends_transitive(v, node, y, node);
                }
            }
        }
    }

    proof fn lemma_step_clear(&self, root: int, fset: Set<int>, st: Seq<u32>)
        requires
            self.wf(),
            0 <= root < N,
            st.len() > 0,
            walk_pending(subtree(self@, root), fset, st),
            walk_disjoint(self@, st),
            walk_clear(self@, fset, st),
        ensures
            walk_clear(
                self@,
                fset.insert(st.last() as int),
                st.drop_last() + self.children@[st.last() as int],
            ),
    {
        self.lemma_walk_node(root, fset, st);
        reveal(walk_pending);
        reveal(walk_disjoint);
        reveal(walk_clear);
        let v = self@;
        let last = st.len() - 1;
        let node = st[last] as int;
        let kids = self.children@[node];
        let rest = st.drop_last();
        let st2 = rest + kids;
        let f2 = fset.insert(node);
        assert(st[last] as int == node);
        assert forall|f: int, j: int|
            #![trigger f2.contains(f), st2[j]]
            f2.contains(f) && 0 <= j < st2.len() implies !descends_from(v, f, st2[j] as int) by {
            if j < rest.len() {
                assert(st2[j] == st[j]);
                if f == node {
                    assert(st[j] != st[last]);
                }
            } else {
                let y = st2[j] as int;
                assert(st2[j] == kids[j - rest.len()]);
                if descends_from(v, f, y) {
                    lemma_descends_transitive(v, f, y, node);
                    if f != node {
                        assert(fset.contains(f));
                        assert(!descends_from(v, f, st[last] as int));
                    }
                }
            }
        }
    }

    proof fn lemma_step_cover(&self, root: int, fset: Set<int>, st: Seq<u32>)
        requires
            self.wf(),
            0 <= root < N,
            st.len() > 0,
            walk_cover(self@, subtree(self@, root), fset, st),
        ensures
            walk_cover(
                self@,
                subtree(self@, root),
                fset.insert(st.last() as int),
                st.drop_last() + self.children@[st.last() as int],
            ),
    {
        reveal(walk_cover);
        let v = self@;
        let dd = subtree(v, root);
        let last = st.len() - 1;
        let node = st[last] as int;
        let kids = self.children@[node];
        let rest = st.drop_last();
        let st2 = rest + kids;
        let f2 = fset.insert(node);
        assert(st[last] as int == node);
        assert forall|x: int| #[trigger] dd.contains(x) implies f2.contains(x) || exists|j: int|
            0 <= j < st2.len() && (#[trigger] st2[j] as int == x || descends_from(
                v,
                x,
                st2[j] as int,
            )) by {
            if !fset.contains(x) && x != node {
                let j = choose|j: int|
                    0 <= j < st.len() && (#[trigger] st[j] as int == x || descends_from(
                        v,
                        x,
                        st[j] as int,
                    ));
                if j < last {
                    assert(st2[j] == st[j]);
                } else {
                    let k = choose|k: nat| k > 0 && #[trigger] ancestor(v, x, k) == Some(node);
                    let c = lemma_child_on_path(v, x, node, k);
                    self.lemma_parent_lists_child(c);
                    let i = choose|i: int| 0 <= i < kids.len() && kids[i] == c as u32;
                    assert(st2[rest.len() + i] == kids[i]);
                    assert(st2[rest.len() + i] as int == c);
                }
            }
        }
    }

    /// The lowest free slot, or `OutOfSlots`.
    fn find_free(&self) -> (r: Result<usize, CapError>)
        requires
            self.wf(),
        ensures
            match r {
                Ok(i) => is_lowest_free(self@, i as int),
                Err(e) => e == CapError::OutOfSlots && is_full(self@),
            },
    {
        let mut i: usize = 0;
        while i < self.slots.len()
            invariant
                self.wf(),
                i <= N,
                forall|j: int| 0 <= j < i ==> !#[trigger] is_free(self@, j),
            decreases N - i,
        {
            if self.slots[i].object.is_null() {
                return Ok(i);
            }
            i = i + 1;
        }
        Err(CapError::OutOfSlots)
    }

    /// Validates a handle against the slot it names: index in range, generation matching, slot
    /// occupied.
    fn slot_for(&self, handle: Handle) -> (r: Result<usize, CapError>)
        requires
            self.wf(),
        ensures
            match r {
                Ok(i) => i == handle.slot() && i < N && lookup(self@, handle) == Ok::<
                    (Object, Rights),
                    CapError,
                >((self@[i as int].object, self@[i as int].rights)),
                Err(e) => lookup(self@, handle) == Err::<(Object, Rights), CapError>(e),
            },
    {
        let index = handle.index() as usize;
        if index >= self.slots.len() {
            return Err(CapError::BadHandle);
        }
        let slot = self.slots[index];
        if slot.generation != handle.generation() {
            return Err(CapError::StaleHandle);
        }
        if slot.object.is_null() {
            return Err(CapError::BadHandle);
        }
        Ok(index)
    }

    /// Prepends `child` to `parent`'s child list.
    fn link_child(&mut self, parent: u32, child: u32)
        requires
            parent < old(self).slots@.len(),
            child < old(self).slots@.len(),
            parent != child,
            old(self).children@.len() == old(self).slots@.len(),
        ensures
            final(self).slots@ == old(self).slots@.update(
                child as int,
                Slot { next_sibling: old(self).slots@[parent as int].first_child, ..old(self).slots@[child as int] },
            ).update(
                parent as int,
                Slot { first_child: child, ..old(self).slots@[parent as int] },
            ),
            final(self).children@ == old(self).children@.update(
                parent as int,
                seq![child] + old(self).children@[parent as int],
            ),
            final(self).live == old(self).live,
            final(self).depth == old(self).depth,
    {
        let previous_first = self.slots[parent as usize].first_child;
        let mut c = self.slots[child as usize];
        c.next_sibling = previous_first;
        self.slots.set(child as usize, c);
        let mut p = self.slots[parent as usize];
        p.first_child = child;
        self.slots.set(parent as usize, p);
        proof {
            self.children@ = self.children@.update(
                parent as int,
                seq![child] + self.children@[parent as int],
            );
        }
    }

    /// Removes `index` from its parent's child list, leaving the rest of the list intact. A root
    /// capability has no parent, so this does nothing for one.
    fn unlink_from_parent(&mut self, index: u32, Ghost(kids): Ghost<Seq<u32>>, Ghost(pos): Ghost<int>)
        requires
            index < old(self).slots@.len(),
            old(self).slots@.len() < NO_LINK,
            old(self).slots@[index as int].parent != NO_LINK ==> {
                let p = old(self).slots@[index as int].parent as int;
                &&& p < old(self).slots@.len()
                &&& p != index
                &&& kids.no_duplicates()
                &&& 0 <= pos < kids.len()
                &&& kids[pos] == index
                &&& old(self).slots@[p].first_child == list_head(kids)
                &&& forall|k: int|
                    0 <= k < kids.len() ==> #[trigger] kids[k] < old(self).slots@.len()
                        && old(self).slots@[kids[k] as int].next_sibling == list_next(kids, k)
            },
        ensures
            final(self).live == old(self).live,
            final(self).children == old(self).children,
            final(self).depth == old(self).depth,
            old(self).slots@[index as int].parent == NO_LINK ==> final(self).slots@ == old(self).slots@,
            old(self).slots@[index as int].parent != NO_LINK ==> {
                let p = old(self).slots@[index as int].parent as int;
                let after = old(self).slots@[index as int].next_sibling;
                &&& pos == 0 ==> final(self).slots@ == old(self).slots@.update(
                    p,
                    Slot { first_child: after, ..old(self).slots@[p] },
                )
                &&& pos > 0 ==> final(self).slots@ == old(self).slots@.update(
                    kids[pos - 1] as int,
                    Slot { next_sibling: after, ..old(self).slots@[kids[pos - 1] as int] },
                )
            },
    {
        let parent = self.slots[index as usize].parent;
        if parent == NO_LINK {
            return;
        }
        let after = self.slots[index as usize].next_sibling;
        if self.slots[parent as usize].first_child == index {
            let mut p = self.slots[parent as usize];
            p.first_child = after;
            self.slots.set(parent as usize, p);
            proof {
                assert(kids[0] == index);
            }
            return;
        }
        let mut cursor = self.slots[parent as usize].first_child;
        let ghost mut k: int = 0;
        while cursor != NO_LINK
            invariant
                self.slots@ == old(self).slots@,
                self.live == old(self).live,
                self.children == old(self).children,
                self.depth == old(self).depth,
                index < self.slots@.len() < NO_LINK,
                after == old(self).slots@[index as int].next_sibling,
                old(self).slots@[index as int].parent != NO_LINK,
                kids.no_duplicates(),
                0 <= pos < kids.len(),
                kids[pos] == index,
                forall|k: int|
                    0 <= k < kids.len() ==> #[trigger] kids[k] < self.slots@.len()
                        && self.slots@[kids[k] as int].next_sibling == list_next(kids, k),
                0 <= k < kids.len(),
                cursor == kids[k],
                forall|m: int| 0 <= m <= k ==> #[trigger] kids[m] != index,
            decreases kids.len() - k,
        {
            let next = self.slots[cursor as usize].next_sibling;
            if next == index {
                let mut c = self.slots[cursor as usize];
                c.next_sibling = after;
                self.slots.set(cursor as usize, c);
                proof {
                    assert(kids[k + 1] == index);
                }
                return;
            }
            proof {
                assert(pos > k);
            }
            cursor = next;
            proof {
                k = k + 1;
            }
        }
    }

    /// Resets a slot to free: bumps its generation so every outstanding handle to it goes
    /// stale, drops the object and rights, and clears its own links. The parent's child list
    /// is left alone.
    fn free_slot(&mut self, index: u32)
        requires
            index < old(self).slots@.len(),
            old(self).live > 0,
        ensures
            final(self).slots@ == old(self).slots@.update(
                index as int,
                old(self).slots@[index as int].cleared(),
            ),
            final(self).live == old(self).live - 1,
            final(self).children == old(self).children,
            final(self).depth == old(self).depth,
    {
        let mut slot = self.slots[index as usize];
        slot.object = Object::Null;
        slot.rights = Rights::NONE();
        slot.generation = slot.generation.wrapping_add(1);
        slot.parent = NO_LINK;
        slot.first_child = NO_LINK;
        slot.next_sibling = NO_LINK;
        self.slots.set(index as usize, slot);
        self.live = self.live - 1;
    }

    /// Frees every descendant of `root`, depth-first, `root` itself excluded, and returns how
    /// many it freed. Iterative over an explicit stack rather than recursive; the parent links
    /// of what it frees, and `root`'s own child list, are left for the caller to settle.
    fn free_descendants(&mut self, root: u32) -> (freed: usize)
        requires
            old(self).wf(),
            root < N,
            !is_free(old(self)@, root as int),
        ensures
            freed == subtree(old(self)@, root as int).len(),
            final(self).slots@.len() == N,
            forall|i: int|
                0 <= i < N ==> #[trigger] final(self).slots@[i] == (if subtree(
                    old(self)@,
                    root as int,
                ).contains(i) {
                    old(self).slots@[i].cleared()
                } else {
                    old(self).slots@[i]
                }),
            final(self).live == old(self).live - subtree(old(self)@, root as int).len(),
            final(self).children == old(self).children,
            final(self).depth == old(self).depth,
    {
        let ghost s0 = *self;
        let ghost dd = subtree(s0@, root as int);
        proof {
            s0.lemma_subtree_bounded(root as int);
            s0.lemma_walk_start(root as int);
            assert(slot_ok(s0.slots@, s0.children@, s0.depth@, root as int));
        }
        let mut stack: Vec<u32> = Vec::new();
        Self::push_children(&self.slots, &mut stack, root, Ghost(self.children@[root as int]));
        assert(stack@ == s0.children@[root as int]);
        let ghost mut fset: Set<int> = Set::empty();
        let mut freed: usize = 0;
        while stack.len() > 0
            invariant
                s0.wf(),
                root < N,
                dd == subtree(s0@, root as int),
                dd.finite(),
                dd.len() <= N,
                dd.subset_of(occupied(s0@)),
                walk_inv(s0@, dd, fset, stack@),
                self.slots@.len() == N,
                self.children == s0.children,
                self.depth == s0.depth,
                forall|i: int|
                    0 <= i < N && !fset.contains(i) ==> #[trigger] self.slots@[i] == s0.slots@[i],
                forall|i: int|
                    0 <= i < N && fset.contains(i) ==> #[trigger] self.slots@[i]
                        == s0.slots@[i].cleared(),
                freed == fset.len(),
                self.live + fset.len() == s0.live,
                s0.live == occupied(s0@).len(),
            decreases dd.len() - fset.len(),
        {
            let ghost st = stack@;
            let ghost n = st.last() as int;
            proof {
                s0.lemma_walk_node(root as int, fset, st);
                s0.lemma_walk_step(root as int, fset, st);
                reveal(walk_sets);
                lemma_len_subset(fset.insert(n), dd);
                lemma_occupied_bounded(s0@);
                lemma_len_subset(fset.insert(n), occupied(s0@));
                assert(slot_ok(s0.slots@, s0.children@, s0.depth@, n));
                let kids = s0.children@[n];
                assert forall|k: int| 0 <= k < kids.len() implies #[trigger] kids[k]
                    < self.slots@.len() && self.slots@[kids[k] as int].next_sibling == (if k + 1
                    < kids.len() {
                    kids[k + 1]
                } else {
                    NO_LINK
                }) by {
                    assert(self.slots@[kids[k] as int] == s0.slots@[kids[k] as int]);
                }
            }
            let node = stack.pop().unwrap();
            Self::push_children(&self.slots, &mut stack, node, Ghost(self.children@[node as int]));
            self.free_slot(node);
            freed = freed + 1;
            proof {
                fset = fset.insert(node as int);
            }
        }
        proof {
            reveal(walk_cover);
            reveal(walk_sets);
            assert(fset =~= dd);
        }
        freed
    }

    /// Pushes `of`'s children, in list order, onto the traversal stack.
    fn push_children(
        slots: &Vec<Slot>,
        stack: &mut Vec<u32>,
        of: u32,
        Ghost(kids): Ghost<Seq<u32>>,
    )
        requires
            of < slots@.len(),
            slots@.len() < NO_LINK,
            slots@[of as int].first_child == (if kids.len() == 0 {
                NO_LINK
            } else {
                kids[0]
            }),
            forall|k: int|
                0 <= k < kids.len() ==> #[trigger] kids[k] < slots@.len() && slots@[kids[k] as int].next_sibling == (
                if k + 1 < kids.len() {
                    kids[k + 1]
                } else {
                    NO_LINK
                }),
        ensures
            final(stack)@ == old(stack)@ + kids,
    {
        let mut child = slots[of as usize].first_child;
        let ghost mut k: int = 0;
        while child != NO_LINK
            invariant
                0 <= k <= kids.len(),
                child == (if k < kids.len() {
                    kids[k]
                } else {
                    NO_LINK
                }),
                stack@ == old(stack)@ + kids.subrange(0, k),
                slots@.len() < NO_LINK,
                forall|k: int|
                    0 <= k < kids.len() ==> #[trigger] kids[k] < slots@.len()
                        && slots@[kids[k] as int].next_sibling == (if k + 1 < kids.len() {
                        kids[k + 1]
                    } else {
                        NO_LINK
                    }),
            decreases kids.len() - k,
        {
            assert(k < kids.len());
            stack.push(child);
            child = slots[child as usize].next_sibling;
            proof {
                assert(kids.subrange(0, k + 1) == kids.subrange(0, k).push(kids[k]));
                k = k + 1;
            }
        }
        assert(kids.subrange(0, k) == kids);
    }

    /// Writes a slot into occupied state and returns the generation it carries.
    fn occupy(&mut self, index: usize, object: Object, rights: Rights, parent: u32) -> (g: u32)
        requires
            index < old(self).slots@.len(),
            old(self).live < usize::MAX,
        ensures
            g == old(self).slots@[index as int].generation,
            final(self).slots@ == old(self).slots@.update(
                index as int,
                Slot {
                    object,
                    rights,
                    generation: g,
                    parent,
                    first_child: NO_LINK,
                    next_sibling: NO_LINK,
                },
            ),
            final(self).live == old(self).live + 1,
            final(self).children == old(self).children,
            final(self).depth == old(self).depth,
    {
        let mut slot = self.slots[index];
        slot.object = object;
        slot.rights = rights;
        slot.parent = parent;
        slot.first_child = NO_LINK;
        slot.next_sibling = NO_LINK;
        self.slots.set(index, slot);
        self.live = self.live + 1;
        slot.generation
    }
}

} // verus!
