//! A first-fit free-list heap over address ranges.
//!
//! The free list is a sequence of `(start, size)` blocks kept sorted by address and fully
//! coalesced: no two free blocks touch. Allocation takes the first block that can hold an
//! aligned request and gives back the padding in front of it and the remainder behind it
//! whenever those are big enough to be tracked, and records the rest as a live allocation;
//! release gives that whole extent back, inserting it in address order and merging it with
//! whatever it now touches. Every byte the heap was given is either in a free block or in
//! exactly one live allocation.

use vstd::prelude::*;

use vstd::arithmetic::div_mod::{lemma_fundamental_div_mod, lemma_mod_multiples_basic};

verus! {

/// Smallest block worth tracking; anything smaller is absorbed into the allocation beside it.
pub const MIN_BLOCK: usize = 16;

/// Every request is aligned at least this strictly.
pub const MIN_ALIGN: usize = 8;

/// The end of a free block.
pub open spec fn end(b: (usize, usize)) -> int {
    b.0 + b.1
}

/// Whether address `a` lies within one of the blocks of `s`.
pub open spec fn covers(s: Seq<(usize, usize)>, a: int) -> bool {
    exists|i: int| 0 <= i < s.len() && s[i].0 <= a < #[trigger] end(s[i])
}

/// Whether `[start, start + size)` shares no address with any block of `s`.
pub open spec fn disjoint_from(s: Seq<(usize, usize)>, start: int, size: int) -> bool {
    forall|i: int| 0 <= i < s.len() ==> end(#[trigger] s[i]) <= start || start + size <= s[i].0
}

/// A well-formed free list: every block trackable and inside the address space, and the
/// blocks in increasing address order with a gap between each and the next.
pub open spec fn list_ok(s: Seq<(usize, usize)>) -> bool {
    &&& forall|i: int| 0 <= i < s.len() ==> MIN_BLOCK <= (#[trigger] s[i]).1 && end(s[i]) <= usize::MAX
    &&& forall|i: int, j: int| 0 <= i < j < s.len() ==> end(#[trigger] s[i]) < (#[trigger] s[j]).0
}

/// The number of free bytes in `s`.
pub open spec fn total(s: Seq<(usize, usize)>) -> nat
    decreases s.len(),
{
    if s.len() == 0 {
        0
    } else {
        total(s.drop_last()) + s.last().1 as nat
    }
}

/// The padding needed in front of `start` to reach a multiple of `align`.
pub open spec fn pad(start: int, align: int) -> int {
    if start % align == 0 {
        0
    } else {
        align - start % align
    }
}

/// Whether block `b` can hold `need` bytes at an `align`-aligned address.
pub open spec fn fits(b: (usize, usize), need: int, align: int) -> bool {
    pad(b.0 as int, align) + need <= b.1
}

/// Whether block `i` is the first in `s` that fits the request.
pub open spec fn first_fit(s: Seq<(usize, usize)>, i: int, need: int, align: int) -> bool {
    &&& 0 <= i < s.len()
    &&& fits(s[i], need, align)
    &&& forall|k: int| 0 <= k < i ==> !fits(#[trigger] s[k], need, align)
}

/// The part of block `b` left in front of an allocation, if it is big enough to keep.
pub open spec fn front_piece(b: (usize, usize), align: int) -> Seq<(usize, usize)> {
    let p = pad(b.0 as int, align);
    if p >= MIN_BLOCK {
        seq![(b.0, p as usize)]
    } else {
        seq![]
    }
}

/// The part of block `b` left behind an allocation of `need` bytes, if it is big enough to keep.
pub open spec fn tail_piece(b: (usize, usize), need: int, align: int) -> Seq<(usize, usize)> {
    let tail_start = b.0 + pad(b.0 as int, align) + need;
    let tail_size = end(b) - tail_start;
    if tail_size >= MIN_BLOCK {
        seq![(tail_start as usize, tail_size as usize)]
    } else {
        seq![]
    }
}

/// `s` with block `i` replaced by the blocks `mids`.
pub open spec fn replaced(s: Seq<(usize, usize)>, i: int, mids: Seq<(usize, usize)>) -> Seq<(usize, usize)> {
    s.subrange(0, i) + mids + s.subrange(i + 1, s.len() as int)
}

/// The free list after an allocation of `need` bytes is carved out of block `i`: the block is
/// replaced by whichever of its front padding and its tail are big enough to keep.
pub open spec fn carved(s: Seq<(usize, usize)>, i: int, need: int, align: int) -> Seq<(usize, usize)> {
    replaced(s, i, front_piece(s[i], align) + tail_piece(s[i], need, align))
}

/// What carving `need` bytes out of block `b` charges as used: the block less the pieces given
/// back.
pub open spec fn charged(b: (usize, usize), need: int, align: int) -> int {
    b.1 - total(front_piece(b, align)) - total(tail_piece(b, need, align))
}

/// A request rounded to what the free list can represent: at least a block's worth, a whole
/// number of `MIN_ALIGN` units, and aligned at least to `MIN_ALIGN`.
pub open spec fn adjusted(size: int, align: int) -> (int, int) {
    let s = if size < MIN_BLOCK {
        MIN_BLOCK as int
    } else {
        size
    };
    let rounded = if s % (MIN_ALIGN as int) == 0 {
        s
    } else {
        s + (MIN_ALIGN - s % (MIN_ALIGN as int))
    };
    (rounded, if align < MIN_ALIGN {
        MIN_ALIGN as int
    } else {
        align
    })
}

/// What is left of `size` bytes at `start` once the start is rounded up to `MIN_ALIGN` and the
/// length down to whole `MIN_ALIGN` units.
pub open spec fn usable_bytes(start: int, size: int) -> int {
    let rest = size - pad(start, MIN_ALIGN as int);
    rest - rest % (MIN_ALIGN as int)
}

/// Totals add over concatenation.
proof fn lemma_total_concat(a: Seq<(usize, usize)>, b: Seq<(usize, usize)>)
    ensures
        total(a + b) == total(a) + total(b),
    decreases b.len(),
{
    if b.len() == 0 {
        assert(a + b =~= a);
    } else {
        lemma_total_concat(a, b.drop_last());
        assert((a + b).drop_last() =~= a + b.drop_last());
    }
}

/// The total of a one-block list is its size.
proof fn lemma_total_single(b: (usize, usize))
    ensures
        total(seq![b]) == b.1,
{
    assert(seq![b].drop_last() =~= Seq::<(usize, usize)>::empty());
    assert(total(Seq::<(usize, usize)>::empty()) == 0);
    assert(seq![b].last() == b);
}

/// The total of a list is that of its three parts around block `i`.
proof fn lemma_total_split(s: Seq<(usize, usize)>, i: int)
    requires
        0 <= i < s.len(),
    ensures
        total(s) == total(s.subrange(0, i)) + s[i].1 + total(s.subrange(i + 1, s.len() as int)),
{
    let l = s.subrange(0, i);
    let r = s.subrange(i + 1, s.len() as int);
    assert(s =~= l + seq![s[i]] + r);
    lemma_total_concat(l + seq![s[i]], r);
    lemma_total_concat(l, seq![s[i]]);
    lemma_total_single(s[i]);
}

/// Where a block released at `start` goes: after every block that starts at or below it.
pub open spec fn slot_for(s: Seq<(usize, usize)>, pos: int, start: int) -> bool {
    &&& 0 <= pos <= s.len()
    &&& forall|k: int| 0 <= k < pos ==> (#[trigger] s[k]).0 <= start
    &&& forall|k: int| pos <= k < s.len() ==> (#[trigger] s[k]).0 > start
}

/// Where the merged block begins: at the block before, when the range touches it.
pub open spec fn merged_start(s: Seq<(usize, usize)>, pos: int, start: int, prev: bool) -> int {
    if prev {
        s[pos - 1].0 as int
    } else {
        start
    }
}

/// Where the merged block ends: at the end of the block after, when the range touches it.
pub open spec fn merged_end(s: Seq<(usize, usize)>, pos: int, start: int, size: int, next: bool) -> int {
    if next {
        end(s[pos])
    } else {
        start + size
    }
}

/// The free list after `[start, start + size)` is inserted at `pos` and merged with the block
/// before it (`prev`) and the block after it (`next`) where they touch.
pub open spec fn spliced(
    s: Seq<(usize, usize)>,
    pos: int,
    start: int,
    size: int,
    prev: bool,
    next: bool,
) -> Seq<(usize, usize)> {
    let lo = if prev {
        pos - 1
    } else {
        pos
    };
    let hi = if next {
        pos + 1
    } else {
        pos
    };
    let ms = merged_start(s, pos, start, prev);
    let me = merged_end(s, pos, start, size, next);
    s.subrange(0, lo) + seq![(ms as usize, (me - ms) as usize)] + s.subrange(hi, s.len() as int)
}

/// What a release at `pos` may assume.
pub open spec fn splice_ready(
    s: Seq<(usize, usize)>,
    pos: int,
    start: int,
    size: int,
    prev: bool,
    next: bool,
) -> bool {
    &&& list_ok(s)
    &&& slot_for(s, pos, start)
    &&& 0 <= start
    &&& MIN_BLOCK <= size
    &&& start + size <= usize::MAX
    &&& disjoint_from(s, start, size)
    &&& prev == (pos > 0 && end(s[pos - 1]) == start)
    &&& next == (pos < s.len() && start + size == s[pos].0)
}

/// Where the merged block sits among its neighbours, and how `spliced` indexes against `s`.
proof fn lemma_splice_shape(s: Seq<(usize, usize)>, pos: int, start: int, size: int, prev: bool, next: bool)
    requires
        splice_ready(s, pos, start, size, prev, next),
    ensures
        ({
            let lo = if prev {
                pos - 1
            } else {
                pos
            };
            let hi = if next {
                pos + 1
            } else {
                pos
            };
            let ms = merged_start(s, pos, start, prev);
            let me = merged_end(s, pos, start, size, next);
            let r = spliced(s, pos, start, size, prev, next);
            &&& 0 <= lo <= pos <= hi <= s.len()
            &&& ms <= start && start + size <= me && me <= usize::MAX
            &&& forall|k: int| 0 <= k < lo ==> end(#[trigger] s[k]) < ms
            &&& forall|k: int| hi <= k < s.len() ==> me < (#[trigger] s[k]).0
            &&& r.len() == s.len() - (hi - lo) + 1
            &&& forall|k: int| 0 <= k < lo ==> #[trigger] r[k] == s[k]
            &&& forall|k: int| lo < k < r.len() ==> #[trigger] r[k] == s[k - lo - 1 + hi]
            &&& r[lo] == (ms as usize, (me - ms) as usize)
        }),
{
    let lo = if prev {
        pos - 1
    } else {
        pos
    };
    let hi = if next {
        pos + 1
    } else {
        pos
    };
    let ms = merged_start(s, pos, start, prev);
    let me = merged_end(s, pos, start, size, next);
    assert forall|k: int| 0 <= k < pos implies end(#[trigger] s[k]) <= start by {
        assert(s[k].0 <= start);
    }
    assert forall|k: int| pos <= k < s.len() implies start + size <= (#[trigger] s[k]).0 by {
        assert(s[k].0 > start);
    }
    assert forall|k: int| 0 <= k < lo implies end(#[trigger] s[k]) < ms by {
        if prev {
            assert(end(s[k]) < s[pos - 1].0);
        } else if k < pos - 1 {
            assert(end(s[k]) < s[pos - 1].0);
            assert(s[pos - 1].0 <= start);
        } else {
            assert(end(s[k]) != start);
        }
    }
    assert forall|k: int| hi <= k < s.len() implies me < (#[trigger] s[k]).0 by {
        if next {
            assert(end(s[pos]) < s[k].0);
        } else if k > pos {
            assert(end(s[pos]) < s[k].0);
            assert(start + size <= s[pos].0);
        } else {
            assert(start + size != s[pos].0);
        }
    }
    if next {
        assert(end(s[pos]) <= usize::MAX);
    }
}

/// Splicing a released range into a well-formed list keeps it well formed.
proof fn lemma_splice_ok(s: Seq<(usize, usize)>, pos: int, start: int, size: int, prev: bool, next: bool)
    requires
        splice_ready(s, pos, start, size, prev, next),
    ensures
        list_ok(spliced(s, pos, start, size, prev, next)),
{
    lemma_splice_shape(s, pos, start, size, prev, next);
    let r = spliced(s, pos, start, size, prev, next);
    let lo = if prev {
        pos - 1
    } else {
        pos
    };
    let hi = if next {
        pos + 1
    } else {
        pos
    };
    let ms = merged_start(s, pos, start, prev);
    let me = merged_end(s, pos, start, size, next);
    assert forall|i: int| 0 <= i < r.len() implies MIN_BLOCK <= (#[trigger] r[i]).1 && end(r[i])
        <= usize::MAX by {
        if i < lo {
            assert(r[i] == s[i]);
        } else if i > lo {
            assert(r[i] == s[i - lo - 1 + hi]);
        }
    }
    assert forall|i: int, j: int| 0 <= i < j < r.len() implies end(#[trigger] r[i]) < (
    #[trigger] r[j]).0 by {
        if j < lo {
            assert(r[i] == s[i]);
            assert(r[j] == s[j]);
        } else if j == lo {
            assert(r[i] == s[i]);
            assert(end(s[i]) < ms);
        } else if i < lo {
            let jj = j - lo - 1 + hi;
            assert(r[i] == s[i]);
            assert(r[j] == s[jj]);
            assert(end(s[i]) < ms);
            assert(me < s[jj].0);
        } else if i == lo {
            let jj = j - lo - 1 + hi;
            assert(r[j] == s[jj]);
            assert(me < s[jj].0);
        } else {
            let ii = i - lo - 1 + hi;
            let jj = j - lo - 1 + hi;
            assert(r[i] == s[ii]);
            assert(r[j] == s[jj]);
        }
    }
}

/// Splicing a released range adds exactly its bytes to the total.
proof fn lemma_splice_total(s: Seq<(usize, usize)>, pos: int, start: int, size: int, prev: bool, next: bool)
    requires
        splice_ready(s, pos, start, size, prev, next),
    ensures
        total(spliced(s, pos, start, size, prev, next)) == total(s) + size,
{
    let lo = if prev {
        pos - 1
    } else {
        pos
    };
    let hi = if next {
        pos + 1
    } else {
        pos
    };
    let ms = merged_start(s, pos, start, prev);
    let me = merged_end(s, pos, start, size, next);
    let m = (ms as usize, (me - ms) as usize);
    let left = s.subrange(0, lo);
    let mid = s.subrange(lo, hi);
    let right = s.subrange(hi, s.len() as int);
    assert(0 <= lo <= hi <= s.len());
    assert(spliced(s, pos, start, size, prev, next) =~= left + seq![m] + right);
    assert(s =~= left + mid + right);
    lemma_total_concat(left + mid, right);
    lemma_total_concat(left, mid);
    lemma_total_concat(left + seq![m], right);
    lemma_total_concat(left, seq![m]);
    lemma_total_single(m);
    assert(total(mid) + size == me - ms) by {
        if prev && next {
            assert(mid =~= seq![s[pos - 1]] + seq![s[pos]]);
            lemma_total_concat(seq![s[pos - 1]], seq![s[pos]]);
            lemma_total_single(s[pos - 1]);
            lemma_total_single(s[pos]);
        } else if prev {
            assert(mid =~= seq![s[pos - 1]]);
            lemma_total_single(s[pos - 1]);
        } else if next {
            assert(mid =~= seq![s[pos]]);
            lemma_total_single(s[pos]);
        } else {
            assert(mid =~= Seq::<(usize, usize)>::empty());
        }
    }
}

/// Splicing a released range frees exactly its addresses on top of what was free.
#[verifier::spinoff_prover]
#[verifier::rlimit(40)]
proof fn lemma_splice_covers(
    s: Seq<(usize, usize)>,
    pos: int,
    start: int,
    size: int,
    prev: bool,
    next: bool,
)
    requires
        splice_ready(s, pos, start, size, prev, next),
    ensures
        forall|a: int|
            #[trigger] covers(spliced(s, pos, start, size, prev, next), a) <==> (covers(s, a) || (
            start <= a < start + size)),
{
    lemma_splice_shape(s, pos, start, size, prev, next);
    let r = spliced(s, pos, start, size, prev, next);
    let lo = if prev {
        pos - 1
    } else {
        pos
    };
    let hi = if next {
        pos + 1
    } else {
        pos
    };
    assert forall|a: int| covers(r, a) implies covers(s, a) || (start <= a < start + size) by {
        let i = choose|i: int| 0 <= i < r.len() && r[i].0 <= a < #[trigger] end(r[i]);
        if i < lo {
            assert(r[i] == s[i]);
            assert(s[i].0 <= a < end(s[i]));
        } else if i == lo {
            if a < start {
                assert(prev);
                assert(s[pos - 1].0 <= a < end(s[pos - 1]));
            } else if a >= start + size {
                assert(next);
                assert(s[pos].0 <= a < end(s[pos]));
            }
        } else {
            let ii = i - lo - 1 + hi;
            assert(r[i] == s[ii]);
            assert(s[ii].0 <= a < end(s[ii]));
        }
    }
    assert forall|a: int| covers(s, a) || (start <= a < start + size) implies covers(r, a) by {
        if start <= a < start + size {
            assert(r[lo].0 <= a < end(r[lo]));
        } else {
            let k = choose|k: int| 0 <= k < s.len() && s[k].0 <= a < #[trigger] end(s[k]);
            if k < lo {
                assert(r[k] == s[k]);
                assert(r[k].0 <= a < end(r[k]));
            } else if k >= hi {
                let i = k - hi + lo + 1;
                assert(r[i] == s[k]);
                assert(r[i].0 <= a < end(r[i]));
            } else {
                assert(r[lo].0 <= a < end(r[lo]));
            }
        }
    }
}

/// What replacing a block by blocks inside it may assume.
pub open spec fn replace_ready(s: Seq<(usize, usize)>, i: int, mids: Seq<(usize, usize)>) -> bool {
    &&& list_ok(s)
    &&& 0 <= i < s.len()
    &&& list_ok(mids)
    &&& forall|j: int|
        0 <= j < mids.len() ==> s[i].0 <= (#[trigger] mids[j]).0 && end(mids[j]) <= end(s[i])
}

/// How `replaced` indexes against `s` and `mids`.
proof fn lemma_replace_shape(s: Seq<(usize, usize)>, i: int, mids: Seq<(usize, usize)>)
    requires
        replace_ready(s, i, mids),
    ensures
        ({
            let r = replaced(s, i, mids);
            let n = mids.len() as int;
            &&& r.len() == s.len() - 1 + n
            &&& forall|k: int| 0 <= k < i ==> #[trigger] r[k] == s[k]
            &&& forall|k: int| i <= k < i + n ==> #[trigger] r[k] == mids[k - i]
            &&& forall|k: int| i + n <= k < r.len() ==> #[trigger] r[k] == s[k - n + 1]
        }),
{
}

/// Replacing a block by well-ordered blocks inside it keeps the list well formed.
proof fn lemma_replace_ok(s: Seq<(usize, usize)>, i: int, mids: Seq<(usize, usize)>)
    requires
        replace_ready(s, i, mids),
    ensures
        list_ok(replaced(s, i, mids)),
{
    lemma_replace_shape(s, i, mids);
    let r = replaced(s, i, mids);
    let n = mids.len() as int;
    assert forall|x: int| 0 <= x < r.len() implies MIN_BLOCK <= (#[trigger] r[x]).1 && end(r[x])
        <= usize::MAX by {
        if x < i {
            assert(r[x] == s[x]);
        } else if x < i + n {
            assert(r[x] == mids[x - i]);
        } else {
            assert(r[x] == s[x - n + 1]);
        }
    }
    assert forall|x: int, y: int| 0 <= x < y < r.len() implies end(#[trigger] r[x]) < (
    #[trigger] r[y]).0 by {
        if y < i {
            assert(r[x] == s[x] && r[y] == s[y]);
        } else if y < i + n {
            assert(r[y] == mids[y - i]);
            if x < i {
                assert(r[x] == s[x]);
                assert(end(s[x]) < s[i].0);
            } else {
                assert(r[x] == mids[x - i]);
            }
        } else {
            let yy = y - n + 1;
            assert(r[y] == s[yy]);
            assert(end(s[i]) < s[yy].0);
            if x < i {
                assert(r[x] == s[x]);
                assert(end(s[x]) < s[i].0);
            } else if x < i + n {
                assert(r[x] == mids[x - i]);
            } else {
                assert(r[x] == s[x - n + 1]);
            }
        }
    }
}

/// Replacing a block changes the total by the difference.
proof fn lemma_replace_total(s: Seq<(usize, usize)>, i: int, mids: Seq<(usize, usize)>)
    requires
        0 <= i < s.len(),
    ensures
        total(replaced(s, i, mids)) + s[i].1 == total(s) + total(mids),
{
    let left = s.subrange(0, i);
    let right = s.subrange(i + 1, s.len() as int);
    lemma_total_split(s, i);
    lemma_total_concat(left + mids, right);
    lemma_total_concat(left, mids);
}

/// Replacing a block frees nothing new, and of the block's own addresses keeps free only those
/// in `mids`.
proof fn lemma_replace_covers(s: Seq<(usize, usize)>, i: int, mids: Seq<(usize, usize)>)
    requires
        replace_ready(s, i, mids),
    ensures
        forall|a: int| #[trigger] covers(replaced(s, i, mids), a) ==> covers(s, a),
        forall|a: int|
            s[i].0 <= a < end(s[i]) && !covers(mids, a) ==> !#[trigger] covers(
                replaced(s, i, mids),
                a,
            ),
        forall|a: int|
            (covers(mids, a) || (covers(s, a) && !(s[i].0 <= a < end(s[i])))) ==> #[trigger] covers(
                replaced(s, i, mids),
                a,
            ),
{
    lemma_replace_shape(s, i, mids);
    let r = replaced(s, i, mids);
    let n = mids.len() as int;
    assert forall|a: int| (covers(mids, a) || (covers(s, a) && !(s[i].0 <= a < end(s[i]))))
        implies covers(r, a) by {
        if covers(mids, a) {
            let j = choose|j: int| 0 <= j < mids.len() && mids[j].0 <= a < #[trigger] end(mids[j]);
            assert(r[i + j] == mids[j]);
            assert(r[i + j].0 <= a < end(r[i + j]));
        } else {
            let k = choose|k: int| 0 <= k < s.len() && s[k].0 <= a < #[trigger] end(s[k]);
            if k < i {
                assert(r[k] == s[k]);
                assert(r[k].0 <= a < end(r[k]));
            } else {
                assert(k != i);
                assert(r[k + n - 1] == s[k]);
                assert(r[k + n - 1].0 <= a < end(r[k + n - 1]));
            }
        }
    }
    assert forall|a: int| covers(r, a) implies covers(s, a) by {
        let x = choose|x: int| 0 <= x < r.len() && r[x].0 <= a < #[trigger] end(r[x]);
        if x < i {
            assert(r[x] == s[x]);
            assert(s[x].0 <= a < end(s[x]));
        } else if x < i + n {
            assert(r[x] == mids[x - i]);
            assert(s[i].0 <= a < end(s[i]));
        } else {
            assert(r[x] == s[x - n + 1]);
            assert(s[x - n + 1].0 <= a < end(s[x - n + 1]));
        }
    }
    assert forall|a: int| s[i].0 <= a < end(s[i]) && !covers(mids, a) implies !covers(r, a) by {
        if covers(r, a) {
            let x = choose|x: int| 0 <= x < r.len() && r[x].0 <= a < #[trigger] end(r[x]);
            if x < i {
                assert(r[x] == s[x]);
                assert(end(s[x]) < s[i].0);
            } else if x < i + n {
                assert(r[x] == mids[x - i]);
                assert(mids[x - i].0 <= a < end(mids[x - i]));
            } else {
                assert(r[x] == s[x - n + 1]);
                assert(end(s[i]) < s[x - n + 1].0);
            }
        }
    }
}

/// Carving a fitting request out of block `i`: the pieces given back lie inside the block, in
/// order, clear of the allocation, and the allocation starts on an `align` boundary.
proof fn lemma_carve(s: Seq<(usize, usize)>, i: int, need: int, align: int)
    requires
        list_ok(s),
        0 <= i < s.len(),
        0 < align,
        0 < need,
        fits(s[i], need, align),
    ensures
        ({
            let p = s[i].0 + pad(s[i].0 as int, align);
            let mids = front_piece(s[i], align) + tail_piece(s[i], need, align);
            &&& replace_ready(s, i, mids)
            &&& s[i].0 <= p && p + need <= end(s[i])
            &&& p % align == 0
            &&& forall|a: int| p <= a < p + need ==> !#[trigger] covers(mids, a)
            &&& total(mids) + need <= s[i].1
            &&& charged(s[i], need, align) == s[i].1 - total(mids)
        }),
{
    let b = s[i];
    let bs = b.0 as int;
    let p = bs + pad(bs, align);
    let front = front_piece(b, align);
    let tail = tail_piece(b, need, align);
    let mids = front + tail;
    assert(0 <= pad(bs, align) < align);
    if bs % align != 0 {
        let q = bs / align;
        lemma_fundamental_div_mod(bs, align);
        lemma_mod_multiples_basic(q + 1, align);
        assert((q + 1) * align == align * q + align) by (nonlinear_arith);
    }
    assert(end(b) <= usize::MAX);
    lemma_total_concat(front, tail);
    if front.len() == 1 {
        lemma_total_single(front[0]);
    }
    if tail.len() == 1 {
        lemma_total_single(tail[0]);
    }
    assert forall|j: int| 0 <= j < mids.len() implies MIN_BLOCK <= (#[trigger] mids[j]).1 && end(
        mids[j],
    ) <= usize::MAX && b.0 <= mids[j].0 && end(mids[j]) <= end(b) && (end(mids[j]) <= p || p
        + need <= mids[j].0) by {
        if j < front.len() {
            assert(mids[j] == front[j]);
        } else {
            assert(mids[j] == tail[j - front.len()]);
        }
    }
    assert forall|x: int, y: int| 0 <= x < y < mids.len() implies end(#[trigger] mids[x]) < (
    #[trigger] mids[y]).0 by {
        assert(mids[x] == front[0]);
        assert(mids[y] == tail[0]);
    }
    assert forall|a: int| p <= a < p + need implies !#[trigger] covers(mids, a) by {
        if covers(mids, a) {
            let j = choose|j: int| 0 <= j < mids.len() && mids[j].0 <= a < #[trigger] end(mids[j]);
            assert(end(mids[j]) <= p || p + need <= mids[j].0);
        }
    }
}

/// Rounds a request up to what the free list can represent: at least a block's worth, a whole
/// number of `MIN_ALIGN` units, and aligned at least to `MIN_ALIGN`, so that whatever is freed
/// can be tracked again.
fn adjust(size: usize, align: usize) -> (r: (usize, usize))
    requires
        size <= isize::MAX,
    ensures
        r.0 == adjusted(size as int, align as int).0,
        r.1 == adjusted(size as int, align as int).1,
        MIN_BLOCK <= r.0 <= size + MIN_BLOCK,
        MIN_ALIGN <= r.1,
{
    let s = if size < MIN_BLOCK {
        MIN_BLOCK
    } else {
        size
    };
    let rounded = if s % MIN_ALIGN == 0 {
        s
    } else {
        s + (MIN_ALIGN - s % MIN_ALIGN)
    };
    let a = if align < MIN_ALIGN {
        MIN_ALIGN
    } else {
        align
    };
    (rounded, a)
}

/// Carving a fitting request out of block `i` leaves a well-formed list whose total is the old
/// one less what the carve charges.
proof fn lemma_carve_total(s: Seq<(usize, usize)>, i: int, need: int, align: int)
    requires
        list_ok(s),
        0 <= i < s.len(),
        0 < align,
        0 < need,
        fits(s[i], need, align),
    ensures
        list_ok(carved(s, i, need, align)),
        total(carved(s, i, need, align)) + charged(s[i], need, align) == total(s),
{
    let mids = front_piece(s[i], align) + tail_piece(s[i], need, align);
    lemma_carve(s, i, need, align);
    lemma_replace_ok(s, i, mids);
    lemma_replace_total(s, i, mids);
}

/// A request is rounded up, never down: an allocation of `size` bytes takes at least `size`
/// bytes and at least a block, in whole `MIN_ALIGN` units, and less than one unit beyond the
/// larger of `size` and a block; it is aligned to `align`, or to `MIN_ALIGN` when that is
/// stricter.
pub proof fn lemma_adjusted_rounds_up(size: int, align: int)
    requires
        0 <= size,
    ensures
        ({
            let (need, al) = adjusted(size, align);
            let floor = if size < 16 {
                16
            } else {
                size
            };
            &&& need >= size
            &&& need >= 16
            &&& need % 8 == 0
            &&& floor <= need < floor + 8
            &&& al == (if align < 8 {
                8
            } else {
                align
            })
        }),
{
}

/// An allocation covers what was asked: when an allocation of `size` bytes answers `p`, every
/// byte of `[p, p + size)` was free before it and is not free after it, so no byte of it is
/// handed out again while it lives.
pub proof fn lemma_allocation_covers_request(h0: Heap, size: int, align: int, p: usize, h1: Heap)
    requires
        h0.wf(),
        0 < align,
        0 <= size,
        allocates(h0, size, align, Some(p), h1),
    ensures
        p + size <= usize::MAX,
        forall|a: int| p <= a < p + size ==> h0.is_free(a) && !#[trigger] h1.is_free(a),
{
    lemma_adjusted_rounds_up(size, align);
    let need = adjusted(size, align).0;
    let al = adjusted(size, align).1;
    let s = h0.free_blocks();
    let i = choose|i: int| 0 <= i < s.len() && #[trigger] fits(s[i], need, al);
    assert(exists|k: int| #[trigger] first_fit(s, k, need, al)) by {
        lemma_first_fit_exists(s, need, al, i);
    }
    let first = choose|k: int| #[trigger] first_fit(s, k, need, al);
    assert(first_fit(s, first, need, al));
    lemma_carve_live(s, h0.live_spec(), first, need, al);
    let c = cut(s[first], need, al);
    assert forall|a: int| p <= a < p + size implies h0.is_free(a) && !#[trigger] h1.is_free(a) by {
        assert(c.0 <= a < c.0 + c.1);
        assert(s[first].0 <= a < end(s[first]));
        assert(covers(carved(s, first, need, al), a) <==> (covers(s, a) && !(c.0 <= a < c.0
            + c.1)));
    }
}

/// Freeing an allocation undoes it: the heap is back to the free list, the live allocations
/// and the usage it had before the allocation was made.
pub proof fn lemma_free_undoes_allocate(
    h0: Heap,
    h1: Heap,
    h2: Heap,
    size: int,
    align: int,
    p: usize,
)
    requires
        h0.wf(),
        0 < align,
        0 <= size,
        allocates(h0, size, align, Some(p), h1),
        frees(h1, p as int, h2),
    ensures
        h2.size_spec() == h0.size_spec(),
        h2.used_spec() == h0.used_spec(),
        h2.live_spec() == h0.live_spec(),
        h2.free_blocks() == h0.free_blocks(),
{
    let need = adjusted(size, align).0;
    let al = adjusted(size, align).1;
    let s = h0.free_blocks();
    let live = h0.live_spec();
    let i = choose|i: int| 0 <= i < s.len() && #[trigger] fits(s[i], need, al);
    assert(exists|k: int| #[trigger] first_fit(s, k, need, al)) by {
        lemma_first_fit_exists(s, need, al, i);
    }
    let first = choose|k: int| #[trigger] first_fit(s, k, need, al);
    assert(first_fit(s, first, need, al));
    let c = cut(s[first], need, al);
    let l = (p, c.0 as usize, c.1 as usize);
    lemma_carve_live(s, live, first, need, al);
    let n = live.len() as int;
    assert(h1.live_spec() == live.push(l));
    assert(h0.is_free(p as int));
    assert forall|j: int| 0 <= j < n implies (#[trigger] h1.live_spec()[j]).0 != p by {
        assert(h1.live_spec()[j] == live[j]);
        if live[j].0 == p {
            assert(in_extent(live[j], p as int));
        }
    }
    assert(live_index(h1.live_spec(), p as int, n));
    assert(h1.live_spec().remove(n) =~= live);
    assert forall|a: int| #[trigger] covers(h2.free_blocks(), a) <==> covers(s, a) by {
        assert(h2.is_free(a) <==> (h1.is_free(a) || in_extent(l, a)));
        assert(covers(carved(s, first, need, al), a) <==> (covers(s, a) && !(c.0 <= a < c.0
            + c.1)));
        if c.0 <= a < c.0 + c.1 {
            assert(s[first].0 <= a < end(s[first]));
        }
    }
    lemma_free_list_determined(h2.free_blocks(), s);
}

/// Some block fits wherever block `i` does: the lowest one.
proof fn lemma_first_fit_exists(s: Seq<(usize, usize)>, need: int, align: int, i: int)
    requires
        0 <= i < s.len(),
        fits(s[i], need, align),
    ensures
        exists|k: int| #[trigger] first_fit(s, k, need, align),
    decreases i,
{
    if forall|k: int| 0 <= k < i ==> !#[trigger] fits(s[k], need, align) {
        assert(first_fit(s, i, need, align));
    } else {
        let k = choose|k: int| 0 <= k < i && #[trigger] fits(s[k], need, align);
        lemma_first_fit_exists(s, need, align, k);
    }
}

/// Addresses covered by the blocks after the first are those at or past the first's end.
proof fn lemma_covers_rest(s: Seq<(usize, usize)>)
    requires
        list_ok(s),
        s.len() > 0,
    ensures
        forall|a: int|
            #[trigger] covers(s.drop_first(), a) <==> (covers(s, a) && end(s[0]) <= a),
{
    let t = s.drop_first();
    assert forall|a: int| #[trigger] covers(t, a) <==> (covers(s, a) && end(s[0]) <= a) by {
        if covers(t, a) {
            let k = choose|k: int| 0 <= k < t.len() && t[k].0 <= a < #[trigger] end(t[k]);
            assert(t[k] == s[k + 1]);
            assert(end(s[0]) < s[k + 1].0);
            assert(s[k + 1].0 <= a < end(s[k + 1]));
        }
        if covers(s, a) && end(s[0]) <= a {
            let k = choose|k: int| 0 <= k < s.len() && s[k].0 <= a < #[trigger] end(s[k]);
            assert(k != 0);
            assert(t[k - 1] == s[k]);
            assert(t[k - 1].0 <= a < end(t[k - 1]));
        }
    }
}

/// The first block of a well-formed list starts at its lowest free address.
proof fn lemma_first_block_lowest(s: Seq<(usize, usize)>, a: int)
    requires
        list_ok(s),
        covers(s, a),
    ensures
        s.len() > 0,
        s[0].0 <= a,
{
    let k = choose|k: int| 0 <= k < s.len() && s[k].0 <= a < #[trigger] end(s[k]);
    if k > 0 {
        assert(end(s[0]) < s[k].0);
    }
}

/// A well-formed free list is determined by the addresses it leaves free: two lists that free
/// the same addresses are the same list.
pub proof fn lemma_free_list_determined(s1: Seq<(usize, usize)>, s2: Seq<(usize, usize)>)
    requires
        list_ok(s1),
        list_ok(s2),
        forall|a: int| #[trigger] covers(s1, a) <==> covers(s2, a),
    ensures
        s1 == s2,
    decreases s1.len() + s2.len(),
{
    if s1.len() == 0 || s2.len() == 0 {
        if s1.len() > 0 {
            assert(s1[0].0 <= s1[0].0 < end(s1[0]));
            assert(covers(s1, s1[0].0 as int));
            lemma_first_block_lowest(s2, s1[0].0 as int);
        }
        if s2.len() > 0 {
            assert(s2[0].0 <= s2[0].0 < end(s2[0]));
            assert(covers(s2, s2[0].0 as int));
            lemma_first_block_lowest(s1, s2[0].0 as int);
        }
        assert(s1 =~= s2);
    } else {
        let x1 = s1[0].0 as int;
        let x2 = s2[0].0 as int;
        assert(s1[0].0 <= x1 < end(s1[0]));
        assert(s2[0].0 <= x2 < end(s2[0]));
        assert(covers(s1, x1));
        assert(covers(s2, x2));
        lemma_first_block_lowest(s2, x1);
        lemma_first_block_lowest(s1, x2);
        assert(x1 == x2);
        let e1 = end(s1[0]);
        let e2 = end(s2[0]);
        if e1 < e2 {
            assert(s2[0].0 <= e1 < end(s2[0]));
            assert(covers(s2, e1));
            assert(covers(s1, e1));
            let k = choose|k: int| 0 <= k < s1.len() && s1[k].0 <= e1 < #[trigger] end(s1[k]);
            assert(k != 0);
            assert(end(s1[0]) < s1[k].0);
        }
        if e2 < e1 {
            assert(s1[0].0 <= e2 < end(s1[0]));
            assert(covers(s1, e2));
            assert(covers(s2, e2));
            let k = choose|k: int| 0 <= k < s2.len() && s2[k].0 <= e2 < #[trigger] end(s2[k]);
            assert(k != 0);
            assert(end(s2[0]) < s2[k].0);
        }
        assert(s1[0] == s2[0]);
        let t1 = s1.drop_first();
        let t2 = s2.drop_first();
        lemma_covers_rest(s1);
        lemma_covers_rest(s2);
        assert forall|i: int| 0 <= i < t1.len() implies MIN_BLOCK <= (#[trigger] t1[i]).1 && end(
            t1[i],
        ) <= usize::MAX by {
            assert(t1[i] == s1[i + 1]);
        }
        assert forall|i: int, j: int| 0 <= i < j < t1.len() implies end(#[trigger] t1[i]) < (
        #[trigger] t1[j]).0 by {
            assert(t1[i] == s1[i + 1] && t1[j] == s1[j + 1]);
        }
        assert forall|i: int| 0 <= i < t2.len() implies MIN_BLOCK <= (#[trigger] t2[i]).1 && end(
            t2[i],
        ) <= usize::MAX by {
            assert(t2[i] == s2[i + 1]);
        }
        assert forall|i: int, j: int| 0 <= i < j < t2.len() implies end(#[trigger] t2[i]) < (
        #[trigger] t2[j]).0 by {
            assert(t2[i] == s2[i + 1] && t2[j] == s2[j + 1]);
        }
        assert forall|a: int| #[trigger] covers(t1, a) <==> covers(t2, a) by {
            assert(covers(t1, a) <==> (covers(s1, a) && e1 <= a));
            assert(covers(t2, a) <==> (covers(s2, a) && e2 <= a));
        }
        lemma_free_list_determined(t1, t2);
        assert(s1 =~= seq![s1[0]] + t1);
        assert(s2 =~= seq![s2[0]] + t2);
    }
}

/// The stretch of block `b` an allocation of `need` bytes at its first `align` boundary takes:
/// from the payload, or from the block's start when the padding in front is too small to keep,
/// to the payload's end, or to the block's end when the remainder is too small to keep. As
/// `(start, length)`.
pub open spec fn cut(b: (usize, usize), need: int, align: int) -> (int, int) {
    let p = b.0 + pad(b.0 as int, align);
    let lo = if pad(b.0 as int, align) >= MIN_BLOCK {
        p
    } else {
        b.0 as int
    };
    let hi = if end(b) - (p + need) >= MIN_BLOCK {
        p + need
    } else {
        end(b)
    };
    (lo, hi - lo)
}

/// Whether address `a` lies in the extent of a live allocation `(payload, start, length)`.
pub open spec fn in_extent(l: (usize, usize, usize), a: int) -> bool {
    l.1 <= a < l.1 + l.2
}

/// The extents of live allocations, as `(start, length)`.
pub open spec fn extents(s: Seq<(usize, usize, usize)>) -> Seq<(usize, usize)> {
    s.map_values(|l: (usize, usize, usize)| (l.1, l.2))
}

/// Live allocations consistent with the free list `blocks`: each extent trackable, inside the
/// address space and holding its payload, no byte of one free, and no byte in two.
pub open spec fn live_ok(blocks: Seq<(usize, usize)>, live: Seq<(usize, usize, usize)>) -> bool {
    &&& forall|k: int|
        0 <= k < live.len() ==> MIN_BLOCK <= (#[trigger] live[k]).2 && live[k].1 + live[k].2
            <= usize::MAX && in_extent(live[k], live[k].0 as int)
    &&& forall|k: int, a: int|
        0 <= k < live.len() && #[trigger] in_extent(live[k], a) ==> !covers(blocks, a)
    &&& forall|k1: int, k2: int, a: int|
        0 <= k1 < live.len() && 0 <= k2 < live.len() && k1 != k2 && #[trigger] in_extent(
            live[k1],
            a,
        ) ==> !#[trigger] in_extent(live[k2], a)
}

/// Whether `k` is the first live allocation whose payload is `ptr`.
pub open spec fn live_index(live: Seq<(usize, usize, usize)>, ptr: int, k: int) -> bool {
    &&& 0 <= k < live.len()
    &&& live[k].0 == ptr
    &&& forall|j: int| 0 <= j < k ==> (#[trigger] live[j]).0 != ptr
}

/// A range none of whose addresses is covered shares no address with any block.
proof fn lemma_uncovered_disjoint(s: Seq<(usize, usize)>, x: int, n: int)
    requires
        list_ok(s),
        0 < n,
        forall|a: int| x <= a < x + n ==> !#[trigger] covers(s, a),
    ensures
        disjoint_from(s, x, n),
{
    assert forall|i: int| 0 <= i < s.len() implies end(#[trigger] s[i]) <= x || x + n <= s[i].0 by {
        if !(end(s[i]) <= x || x + n <= s[i].0) {
            let a = if s[i].0 < x {
                x
            } else {
                s[i].0 as int
            };
            assert(s[i].0 <= a < end(s[i]));
            assert(covers(s, a));
        }
    }
}

/// Adding an allocation adds its length to the total of the extents.
proof fn lemma_extents_push(live: Seq<(usize, usize, usize)>, l: (usize, usize, usize))
    ensures
        total(extents(live.push(l))) == total(extents(live)) + l.2,
{
    assert(extents(live.push(l)) =~= extents(live).push((l.1, l.2)));
    assert(extents(live.push(l)).drop_last() =~= extents(live));
}

/// Removing an allocation takes its length off the total of the extents.
proof fn lemma_extents_remove(live: Seq<(usize, usize, usize)>, k: int)
    requires
        0 <= k < live.len(),
    ensures
        total(extents(live.remove(k))) + live[k].2 == total(extents(live)),
{
    let e = extents(live);
    lemma_total_split(e, k);
    assert(extents(live.remove(k)) =~= e.subrange(0, k) + e.subrange(k + 1, e.len() as int));
    lemma_total_concat(e.subrange(0, k), e.subrange(k + 1, e.len() as int));
}

/// Carving an allocation out of block `i` takes exactly its cut, leaves the other allocations
/// where they were, and records it as live.
proof fn lemma_carve_live(
    s: Seq<(usize, usize)>,
    live: Seq<(usize, usize, usize)>,
    i: int,
    need: int,
    align: int,
)
    requires
        list_ok(s),
        live_ok(s, live),
        0 <= i < s.len(),
        0 < align,
        MIN_BLOCK <= need,
        fits(s[i], need, align),
    ensures
        ({
            let p = s[i].0 + pad(s[i].0 as int, align);
            let c = cut(s[i], need, align);
            &&& c.1 == charged(s[i], need, align)
            &&& s[i].0 <= c.0 && c.0 + c.1 <= end(s[i])
            &&& c.0 <= p && p + need <= c.0 + c.1
            &&& c.0 + c.1 <= usize::MAX
            &&& live_ok(carved(s, i, need, align), live.push((p as usize, c.0 as usize, c.1 as usize)))
            &&& forall|a: int|
                #[trigger] covers(carved(s, i, need, align), a) <==> (covers(s, a) && !(c.0 <= a
                    < c.0 + c.1))
        }),
{
    let b = s[i];
    let p = b.0 + pad(b.0 as int, align);
    let c = cut(b, need, align);
    let front = front_piece(b, align);
    let tail = tail_piece(b, need, align);
    let mids = front + tail;
    let r = carved(s, i, need, align);
    let l = (p as usize, c.0 as usize, c.1 as usize);
    let nl = live.push(l);
    lemma_carve(s, i, need, align);
    lemma_replace_covers(s, i, mids);
    lemma_total_concat(front, tail);
    if front.len() == 1 {
        lemma_total_single(front[0]);
    }
    if tail.len() == 1 {
        lemma_total_single(tail[0]);
    }
    assert(end(b) <= usize::MAX);
    // Within block `i`, an address is kept free exactly when it lies outside the cut.
    assert forall|a: int| b.0 <= a < end(b) implies (covers(mids, a) <==> !(c.0 <= a < c.0
        + c.1)) by {
        if covers(mids, a) {
            let j = choose|j: int| 0 <= j < mids.len() && mids[j].0 <= a < #[trigger] end(mids[j]);
            if j < front.len() {
                assert(mids[j] == front[j]);
            } else {
                assert(mids[j] == tail[j - front.len()]);
            }
        } else if a < c.0 {
            assert(mids[0] == front[0]);
            assert(mids[0].0 <= a < end(mids[0]));
        } else if a >= c.0 + c.1 {
            assert(mids[front.len() as int] == tail[0]);
            assert(mids[front.len() as int].0 <= a < end(mids[front.len() as int]));
        }
    }
    assert forall|a: int| #[trigger] covers(r, a) <==> (covers(s, a) && !(c.0 <= a < c.0 + c.1)) by {
        if b.0 <= a < end(b) {
            assert(s[i].0 <= a < end(s[i]));
        } else {
            assert(!(c.0 <= a < c.0 + c.1));
        }
    }
    assert(in_extent(l, p));
    assert forall|k: int| 0 <= k < nl.len() implies MIN_BLOCK <= (#[trigger] nl[k]).2 && nl[k].1
        + nl[k].2 <= usize::MAX && in_extent(nl[k], nl[k].0 as int) by {
        if k < live.len() {
            assert(nl[k] == live[k]);
        }
    }
    assert forall|k: int, a: int| 0 <= k < nl.len() && #[trigger] in_extent(nl[k], a) implies !covers(
        r,
        a,
    ) by {
        if k < live.len() {
            assert(nl[k] == live[k]);
            assert(!covers(s, a));
        }
    }
    assert forall|k1: int, k2: int, a: int|
        0 <= k1 < nl.len() && 0 <= k2 < nl.len() && k1 != k2 && #[trigger] in_extent(
            nl[k1],
            a,
        ) implies !#[trigger] in_extent(nl[k2], a) by {
        if k1 == live.len() {
            assert(s[i].0 <= a < end(s[i]));
            assert(covers(s, a));
            assert(nl[k2] == live[k2]);
        } else if k2 == live.len() {
            assert(nl[k1] == live[k1]);
            if in_extent(nl[k2], a) {
                assert(s[i].0 <= a < end(s[i]));
                assert(covers(s, a));
            }
        } else {
            assert(nl[k1] == live[k1] && nl[k2] == live[k2]);
        }
    }
}

/// Returning a live allocation's extent to the free list leaves the others consistent.
proof fn lemma_release_live(
    before: Seq<(usize, usize)>,
    after: Seq<(usize, usize)>,
    live: Seq<(usize, usize, usize)>,
    k: int,
)
    requires
        live_ok(before, live),
        0 <= k < live.len(),
        forall|a: int| #[trigger] covers(after, a) <==> (covers(before, a) || in_extent(live[k], a)),
    ensures
        live_ok(after, live.remove(k)),
{
    let nl = live.remove(k);
    assert forall|j: int| 0 <= j < nl.len() implies MIN_BLOCK <= (#[trigger] nl[j]).2 && nl[j].1
        + nl[j].2 <= usize::MAX && in_extent(nl[j], nl[j].0 as int) by {
        if j < k {
            assert(nl[j] == live[j]);
        } else {
            assert(nl[j] == live[j + 1]);
        }
    }
    assert forall|j: int, a: int| 0 <= j < nl.len() && #[trigger] in_extent(nl[j], a) implies !covers(
        after,
        a,
    ) by {
        let o = if j < k {
            j
        } else {
            j + 1
        };
        assert(nl[j] == live[o]);
        assert(!covers(before, a));
        assert(!in_extent(live[k], a));
    }
    assert forall|j1: int, j2: int, a: int|
        0 <= j1 < nl.len() && 0 <= j2 < nl.len() && j1 != j2 && #[trigger] in_extent(
            nl[j1],
            a,
        ) implies !#[trigger] in_extent(nl[j2], a) by {
        let o1 = if j1 < k {
            j1
        } else {
            j1 + 1
        };
        let o2 = if j2 < k {
            j2
        } else {
            j2 + 1
        };
        assert(nl[j1] == live[o1] && nl[j2] == live[o2]);
    }
}

/// What an allocation of `size` bytes aligned to `align` does to heap `h0`, answering `r` and
/// leaving `h1`: with the request rounded by `adjusted`, it fails exactly when no free block
/// fits and then changes nothing; otherwise it carves the first block that fits, answers the
/// first `align` boundary in it, and charges, and records as live, the block's `cut`: what the
/// block does not give back. The answer is aligned, and every byte it covers was free before
/// and is not free after.
pub open spec fn allocates(h0: Heap, size: int, align: int, r: Option<usize>, h1: Heap) -> bool {
    let need = adjusted(size, align).0;
    let al = adjusted(size, align).1;
    let s = h0.free_blocks();
    &&& h1.wf()
    &&& h1.size_spec() == h0.size_spec()
    &&& r is None <==> (forall|k: int| 0 <= k < s.len() ==> !#[trigger] fits(s[k], need, al))
    &&& r is None ==> h1.free_blocks() == s && h1.used_spec() == h0.used_spec()
        && h1.live_spec() == h0.live_spec()
    &&& forall|i: int| #[trigger]
        first_fit(s, i, need, al) ==> {
            let p = s[i].0 + pad(s[i].0 as int, al);
            let c = cut(s[i], need, al);
            &&& r == Some(p as usize)
            &&& h1.free_blocks() == carved(s, i, need, al)
            &&& h1.used_spec() == h0.used_spec() + c.1
            &&& h1.live_spec() == h0.live_spec().push((p as usize, c.0 as usize, c.1 as usize))
        }
    &&& r matches Some(p) ==> {
        &&& (p as int) % al == 0
        &&& p + need <= usize::MAX
        &&& forall|a: int| p <= a < p + need ==> h0.is_free(a) && !#[trigger] h1.is_free(a)
    }
}

/// What freeing the allocation at `ptr` does to heap `h0`, leaving `h1`: the first live
/// allocation with that payload is forgotten, its whole extent becomes free on top of what was
/// free, and its charge stops counting as used; with no such allocation nothing changes.
pub open spec fn frees(h0: Heap, ptr: int, h1: Heap) -> bool {
    let live = h0.live_spec();
    &&& h1.wf()
    &&& h1.size_spec() == h0.size_spec()
    &&& (forall|k: int| 0 <= k < live.len() ==> (#[trigger] live[k]).0 != ptr) ==> {
        &&& h1.free_blocks() == h0.free_blocks()
        &&& h1.live_spec() == live
        &&& h1.used_spec() == h0.used_spec()
    }
    &&& forall|k: int| #[trigger]
        live_index(live, ptr, k) ==> {
            &&& h1.live_spec() == live.remove(k)
            &&& h1.used_spec() == h0.used_spec() - live[k].2
            &&& forall|a: int| #[trigger]
                h1.is_free(a) <==> (h0.is_free(a) || in_extent(live[k], a))
        }
}

/// A heap over address ranges handed to it with [`Heap::add_region`].
pub struct Heap {
    blocks: Vec<(usize, usize)>,
    /// Live allocations: payload, and the start and length of the extent charged for it.
    live: Vec<(usize, usize, usize)>,
    size: usize,
    used: usize,
}

impl Heap {
    /// The free blocks, in address order.
    pub closed spec fn free_blocks(&self) -> Seq<(usize, usize)> {
        self.blocks@
    }

    /// The live allocations, oldest first: each payload, with the start and length of the
    /// extent charged for it.
    pub closed spec fn live_spec(&self) -> Seq<(usize, usize, usize)> {
        self.live@
    }

    /// Bytes handed to the heap.
    pub closed spec fn size_spec(&self) -> nat {
        self.size as nat
    }

    /// Bytes counted as in use.
    pub closed spec fn used_spec(&self) -> nat {
        self.used as nat
    }

    /// The heap's invariant: a well-formed free list, live allocations that are neither free
    /// nor overlapping, usage that is exactly what the live allocations were charged, and every
    /// byte either free or used.
    pub open spec fn wf(&self) -> bool {
        &&& list_ok(self.free_blocks())
        &&& live_ok(self.free_blocks(), self.live_spec())
        &&& self.used_spec() == total(extents(self.live_spec()))
        &&& total(self.free_blocks()) + self.used_spec() == self.size_spec()
        &&& self.size_spec() <= usize::MAX
    }

    /// Whether address `a` is free.
    pub open spec fn is_free(&self, a: int) -> bool {
        covers(self.free_blocks(), a)
    }

    /// Inserts `[start, start + size)` in address order and merges it with the free blocks it
    /// touches. A range too small to track is dropped.
    #[verifier::spinoff_prover]
    fn push_free(&mut self, start: usize, size: usize)
        requires
            list_ok(old(self).blocks@),
            start + size <= usize::MAX,
            disjoint_from(old(self).blocks@, start as int, size as int),
        ensures
            final(self).size == old(self).size,
            final(self).used == old(self).used,
            final(self).live@ == old(self).live@,
            list_ok(final(self).blocks@),
            total(final(self).blocks@) == total(old(self).blocks@) + (if size >= MIN_BLOCK {
                size as int
            } else {
                0
            }),
            forall|a: int|
                covers(final(self).blocks@, a) <==> (covers(old(self).blocks@, a) || (size
                    >= MIN_BLOCK && start <= a < start + size)),
    {
        if size < MIN_BLOCK {
            return;
        }
        let ghost s = self.blocks@;
        let len = self.blocks.len();
        let mut pos: usize = 0;
        while pos < len
            invariant
                len == self.blocks.len(),
                self.blocks@ == s,
                pos <= len,
                forall|k: int| 0 <= k < pos ==> (#[trigger] s[k]).0 <= start,
            ensures
                pos <= len,
                forall|k: int| 0 <= k < pos ==> (#[trigger] s[k]).0 <= start,
                pos == len || s[pos as int].0 > start,
            decreases len - pos,
        {
            if self.blocks[pos].0 > start {
                break;
            }
            pos = pos + 1;
        }
        assert forall|k: int| pos <= k < s.len() implies (#[trigger] s[k]).0 > start by {
            if k > pos {
                assert(end(s[pos as int]) < s[k].0);
            }
        }
        let prev = pos > 0 && self.blocks[pos - 1].0 + self.blocks[pos - 1].1 == start;
        let next = pos < len && start + size == self.blocks[pos].0;
        assert(splice_ready(s, pos as int, start as int, size as int, prev, next));
        self.splice(pos, start, size, prev, next);
        proof {
            lemma_splice_ok(s, pos as int, start as int, size as int, prev, next);
            lemma_splice_total(s, pos as int, start as int, size as int, prev, next);
            lemma_splice_covers(s, pos as int, start as int, size as int, prev, next);
            let r = spliced(s, pos as int, start as int, size as int, prev, next);
            assert forall|a: int| covers(self.blocks@, a) <==> (covers(s, a) || (size >= MIN_BLOCK
                && start <= a < start + size)) by {
                assert(covers(r, a) <==> (covers(s, a) || (start <= a < start + size)));
            }
        }
    }

    /// Puts the released range in place at `pos`, absorbing the neighbours it touches.
    fn splice(&mut self, pos: usize, start: usize, size: usize, prev: bool, next: bool)
        requires
            splice_ready(old(self).blocks@, pos as int, start as int, size as int, prev, next),
        ensures
            final(self).size == old(self).size,
            final(self).used == old(self).used,
            final(self).live@ == old(self).live@,
            final(self).blocks@ == spliced(
                old(self).blocks@,
                pos as int,
                start as int,
                size as int,
                prev,
                next,
            ),
    {
        let ghost s = self.blocks@;
        let mut merged = size;
        if next {
            merged = size + self.blocks[pos].1;
            self.blocks.remove(pos);
        }
        if prev {
            let p = self.blocks[pos - 1];
            assert(p == s[pos - 1]);
            self.blocks.set(pos - 1, (p.0, p.1 + merged));
        } else {
            self.blocks.insert(pos, (start, merged));
        }
        assert(self.blocks@ =~= spliced(s, pos as int, start as int, size as int, prev, next));
    }

    /// Allocates `size` bytes aligned to `align`, first fit in address order, or `None` when no
    /// free block can hold the request.
    ///
    /// The request is first rounded by `adjusted`. The block it is carved from gives back its
    /// front padding and its tail wherever those are big enough to track; what is not given
    /// back is charged as used.
    pub fn allocate(&mut self, size: usize, align: usize) -> (r: Option<usize>)
        requires
            old(self).wf(),
            0 < align,
            size <= isize::MAX,
        ensures
            allocates(*old(self), size as int, align as int, r, *final(self)),
    {
        let (need, al) = adjust(size, align);
        let ghost s = self.blocks@;
        let len = self.blocks.len();
        let mut i: usize = 0;
        while i < len
            invariant
                len == self.blocks.len(),
                self.blocks@ == s,
                self.used == old(self).used,
                self.size == old(self).size,
                self.live@ == old(self).live@,
                s == old(self).blocks@,
                old(self).wf(),
                i <= len,
                0 < al,
                MIN_BLOCK <= need,
                need as int == adjusted(size as int, align as int).0,
                al as int == adjusted(size as int, align as int).1,
                forall|k: int| 0 <= k < i ==> !#[trigger] fits(s[k], need as int, al as int),
            decreases len - i,
        {
            let (bs, bsz) = self.blocks[i];
            let rem = bs % al;
            let padding = if rem == 0 {
                0
            } else {
                al - rem
            };
            if padding <= bsz && need <= bsz - padding {
                assert(fits(s[i as int], need as int, al as int));
                assert forall|j: int| #[trigger]
                    first_fit(s, j, need as int, al as int) implies j == i by {
                    if j > i {
                        assert(!fits(s[i as int], need as int, al as int));
                    }
                }
                let p = self.carve(i, need, al);
                assert(!(forall|k: int| 0 <= k < s.len() ==> !#[trigger] fits(s[k], need as int, al as int)));
                assert(first_fit(s, i as int, need as int, al as int));
                assert forall|a: int| p <= a < p + need implies old(self).is_free(a) && !#[trigger] self.is_free(a) by {
                    assert(covers(s, a) && !covers(self.blocks@, a));
                }
                return Some(p);
            }
            i = i + 1;
        }
        None
    }

    /// Takes `need` bytes at the first `align` boundary of block `i`, gives back the pieces of
    /// the block around them that are big enough to track, and charges the rest as used,
    /// recording it as a live allocation.
    #[verifier::spinoff_prover]
    fn carve(&mut self, i: usize, need: usize, al: usize) -> (p: usize)
        requires
            old(self).wf(),
            0 <= i < old(self).blocks@.len(),
            0 < al,
            MIN_BLOCK <= need,
            fits(old(self).blocks@[i as int], need as int, al as int),
        ensures
            final(self).wf(),
            final(self).size == old(self).size,
            p == old(self).blocks@[i as int].0 + pad(old(self).blocks@[i as int].0 as int, al as int),
            final(self).blocks@ == carved(old(self).blocks@, i as int, need as int, al as int),
            ({
                let c = cut(old(self).blocks@[i as int], need as int, al as int);
                &&& final(self).used == old(self).used + c.1
                &&& final(self).live@ == old(self).live@.push((p, c.0 as usize, c.1 as usize))
            }),
            (p as int) % (al as int) == 0,
            p + need <= usize::MAX,
            forall|a: int|
                p <= a < p + need ==> covers(old(self).blocks@, a) && !#[trigger] covers(
                    final(self).blocks@,
                    a,
                ),
    {
        let ghost s = self.blocks@;
        let ghost live = self.live@;
        let ghost c = cut(s[i as int], need as int, al as int);
        proof {
            lemma_carve(s, i as int, need as int, al as int);
            lemma_carve_live(s, live, i as int, need as int, al as int);
            assert(end(s[i as int]) <= usize::MAX);
        }
        let (bs, bsz) = self.blocks[i];
        let rem = bs % al;
        let padding = if rem == 0 {
            0
        } else {
            al - rem
        };
        let payload = bs + padding;
        let tail_start = payload + need;
        let tail_size = bs + bsz - tail_start;
        assert(padding == pad(bs as int, al as int));
        let n = self.blocks.len();
        assert(i < n);
        self.blocks.remove(i);
        let mut at = i;
        let mut lo = bs;
        let mut hi = bs + bsz;
        if padding >= MIN_BLOCK {
            self.blocks.insert(at, (bs, padding));
            at = at + 1;
            lo = payload;
        }
        if tail_size >= MIN_BLOCK {
            self.blocks.insert(at, (tail_start, tail_size));
            hi = tail_start;
        }
        assert(self.blocks@ =~= carved(s, i as int, need as int, al as int));
        assert(lo == c.0 && hi - lo == c.1);
        let kept = hi - lo;
        self.live.push((payload, lo, kept));
        proof {
            lemma_extents_push(live, (payload, lo, kept));
            lemma_carve_total(s, i as int, need as int, al as int);
        }
        self.used = self.used + kept;
        proof {
            assert forall|a: int| payload <= a < payload + need implies covers(s, a)
                && !#[trigger] covers(self.blocks@, a) by {
                assert(s[i as int].0 <= a < end(s[i as int]));
            }
        }
        payload
    }

    /// Returns the allocation at `ptr` to the heap: the whole extent charged for it when it was
    /// made becomes free again, merged with the free blocks it touches, and stops counting as
    /// used. `size` and `align` are those the allocation was requested with; the heap goes by
    /// its own record of the allocation, and a pointer it never handed out changes nothing.
    pub fn dealloc(&mut self, ptr: usize, size: usize, align: usize)
        requires
            old(self).wf(),
        ensures
            frees(*old(self), ptr as int, *final(self)),
    {
        let _ = (size, align);
        let ghost live = self.live@;
        let n = self.live.len();
        let mut k: usize = 0;
        while k < n
            invariant
                n == self.live.len(),
                self.live@ == live,
                k <= n,
                forall|j: int| 0 <= j < k ==> (#[trigger] live[j]).0 != ptr,
            ensures
                k <= n,
                forall|j: int| 0 <= j < k ==> (#[trigger] live[j]).0 != ptr,
                k == n || live[k as int].0 == ptr,
            decreases n - k,
        {
            if self.live[k].0 == ptr {
                break;
            }
            k = k + 1;
        }
        if k == n {
            return;
        }
        assert(live_index(live, ptr as int, k as int));
        let ghost before = self.blocks@;
        let (_, start, len) = self.live.remove(k);
        proof {
            lemma_extents_remove(live, k as int);
            assert(live[k as int].2 >= MIN_BLOCK);
            assert forall|a: int| start <= a < start + len implies !#[trigger] covers(before, a) by {
                assert(in_extent(live[k as int], a));
            }
            lemma_uncovered_disjoint(before, start as int, len as int);
        }
        self.used = self.used - len;
        self.push_free(start, len);
        proof {
            assert forall|a: int| #[trigger] covers(self.blocks@, a) <==> (covers(before, a)
                || in_extent(live[k as int], a)) by {}
            lemma_release_live(before, self.blocks@, live, k as int);
            assert forall|j: int| #[trigger] live_index(live, ptr as int, j) implies j == k by {
                if j < k {
                } else if j > k {
                    assert(live[k as int].0 == ptr);
                }
            }
        }
    }

    /// Hands `size` bytes at `start` to the heap. The start is rounded up to `MIN_ALIGN` and
    /// the length down to whole `MIN_ALIGN` units; a region too small to hold a block after that
    /// is ignored.
    pub fn add_region(&mut self, start: usize, size: usize)
        requires
            old(self).wf(),
            start + size <= usize::MAX,
            old(self).size_spec() + size <= usize::MAX,
            disjoint_from(old(self).free_blocks(), start as int, size as int),
            forall|k: int, a: int|
                0 <= k < old(self).live_spec().len() && #[trigger] in_extent(
                    old(self).live_spec()[k],
                    a,
                ) ==> !(start <= a < start + size),
        ensures
            final(self).wf(),
            final(self).used_spec() == old(self).used_spec(),
            final(self).live_spec() == old(self).live_spec(),
            ({
                let lost = pad(start as int, MIN_ALIGN as int);
                let usable = usable_bytes(start as int, size as int);
                if size < lost + MIN_BLOCK {
                    &&& final(self).free_blocks() == old(self).free_blocks()
                    &&& final(self).size_spec() == old(self).size_spec()
                } else {
                    &&& final(self).size_spec() == old(self).size_spec() + usable
                    &&& forall|a: int|
                        #[trigger] final(self).is_free(a) <==> (old(self).is_free(a) || (start
                            + lost <= a < start + lost + usable))
                }
            }),
    {
        let rem = start % MIN_ALIGN;
        let lost = if rem == 0 {
            0
        } else {
            MIN_ALIGN - rem
        };
        if size < lost + MIN_BLOCK {
            return;
        }
        let aligned = start + lost;
        let rest = size - lost;
        let usable = rest - rest % MIN_ALIGN;
        self.size = self.size + usable;
        proof {
            assert forall|i: int| 0 <= i < self.blocks@.len() implies end(#[trigger] self.blocks@[i])
                <= aligned || aligned + usable <= self.blocks@[i].0 by {
                assert(end(self.blocks@[i]) <= start || start + size <= self.blocks@[i].0);
            }
        }
        self.push_free(aligned, usable);
        proof {
            let live = self.live@;
            assert forall|k: int, a: int|
                0 <= k < live.len() && #[trigger] in_extent(live[k], a) implies !covers(
                self.blocks@,
                a,
            ) by {
                assert(!(start <= a < start + size));
            }
        }
    }

    /// An empty heap: nothing to hand out until a region is added.
    pub fn new() -> (h: Heap)
        ensures
            h.wf(),
            h.free_blocks() == Seq::<(usize, usize)>::empty(),
            h.live_spec() == Seq::<(usize, usize, usize)>::empty(),
            h.size_spec() == 0,
            h.used_spec() == 0,
    {
        Heap { blocks: Vec::new(), live: Vec::new(), size: 0, used: 0 }
    }

    /// Bytes handed to the heap.
    pub fn size(&self) -> (r: usize)
        ensures
            r == self.size_spec(),
    {
        self.size
    }

    /// Bytes counted as in use.
    pub fn used(&self) -> (r: usize)
        ensures
            r == self.used_spec(),
    {
        self.used
    }

    /// Bytes not in use.
    pub fn free(&self) -> (r: usize)
        requires
            self.wf(),
        ensures
            r == self.size_spec() - self.used_spec(),
            r == total(self.free_blocks()),
    {
        self.size - self.used
    }
}

impl Default for Heap {
    /// An empty heap, as [`Heap::new`].
    fn default() -> (h: Heap)
        ensures
            h.wf(),
            h.free_blocks() == Seq::<(usize, usize)>::empty(),
            h.live_spec() == Seq::<(usize, usize, usize)>::empty(),
            h.size_spec() == 0,
            h.used_spec() == 0,
    {
        Heap::new()
    }
}

} // verus!
