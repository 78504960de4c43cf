//! Physical frame allocator: a bitmap, one bit per 4 KiB frame, a set bit meaning "in use".
//!
//! Frames start out used, so a caller that forgets to declare its usable regions gets an
//! allocator that hands out nothing rather than one that hands out firmware tables. Exhaustion
//! and fragmentation are distinct errors, and a double free is refused.

use vstd::prelude::*;

use crate::mem::addr::{FRAME_SIZE, Frame, PhysAddr, ceil_frame, floor_frame};

verus! {

/// Why an allocation could not be satisfied.
#[derive(Debug, Clone, Copy, PartialEq, Eq, Structural)]
pub enum AllocError {
    /// No free frame anywhere, or fewer free frames than requested.
    OutOfMemory,
    /// Enough free frames exist, but not `count` of them side by side where the search looks.
    Fragmented,
    /// A zero-frame request, which is a caller bug rather than a memory condition.
    ZeroFrames,
}

/// Whether bit `i` of the bitmap is set.
pub open spec fn bit(bm: Seq<u8>, i: int) -> bool {
    bm[i / 8] & (1u8 << ((i % 8) as u8)) != 0
}

/// How many of `v` are in use.
pub open spec fn count_used(v: Seq<bool>) -> nat {
    v.filter(|b: bool| b).len()
}

/// Whether the `count` frames starting at `s` are all free.
pub open spec fn window_free(v: Seq<bool>, s: int, count: int) -> bool {
    forall|j: int| s <= j < s + count ==> !#[trigger] v[j]
}

/// Whether `s` is the lowest start in `[from, to)` of `count` free frames side by side.
pub open spec fn first_run_at(v: Seq<bool>, from: int, to: int, count: int, s: int) -> bool {
    &&& from <= s
    &&& s + count <= to
    &&& window_free(v, s, count)
    &&& forall|t: int| from <= t < s ==> !#[trigger] window_free(v, t, count)
}

/// Whether some run of `count` free frames lies within `[from, to)`.
pub open spec fn has_run(v: Seq<bool>, from: int, to: int, count: int) -> bool {
    exists|s: int| from <= s && s + count <= to && #[trigger] window_free(v, s, count)
}

/// The index of the frame at `addr`, if it lies within the allocator's span.
pub open spec fn frame_index(base: u64, frames: int, addr: u64) -> Option<int> {
    if addr < base {
        None
    } else if (addr - base) / 4096 < frames {
        Some((addr - base) / 4096)
    } else {
        None
    }
}

/// The indices `[lo, hi)` that marking `[start, end)` touches, after `start` and `end` have
/// been rounded: nothing if the range is empty or lies wholly below the span; otherwise from
/// the start's frame (or 0 when that is outside the span) up to the end's frame (or the end
/// of the span when the end lies past it).
pub open spec fn marked_span(base: u64, frames: int, start: u64, end: u64) -> Option<(int, int)> {
    if end <= start {
        None
    } else {
        let first = match frame_index(base, frames, floor_frame(start)) {
            Some(i) => i,
            None => 0,
        };
        match frame_index(base, frames, floor_frame(end)) {
            Some(i) => Some((first, i)),
            None => if end > base {
                Some((first, frames))
            } else {
                None
            },
        }
    }
}

/// `v` with every index in `[lo, hi)` set to `b`.
pub open spec fn set_range(v: Seq<bool>, lo: int, hi: int, b: bool) -> Seq<bool> {
    Seq::new(v.len(), |j: int| if lo <= j < hi { b } else { v[j] })
}

/// Bitmap allocator over a contiguous span of physical memory.
pub struct FrameAllocator {
    bitmap: Vec<u8>,
    base: PhysAddr,
    frames: usize,
    /// Where the next search begins.
    cursor: usize,
    used: usize,
}

impl FrameAllocator {
    /// Which frames are in use, by index from the base.
    pub closed spec fn view(&self) -> Seq<bool> {
        Seq::new(self.frames as nat, |i: int| bit(self.bitmap@, i))
    }

    /// The base address of the span.
    pub closed spec fn base_spec(&self) -> u64 {
        self.base.0
    }

    /// Where the next search begins.
    pub closed spec fn cursor_spec(&self) -> int {
        self.cursor as int
    }

    /// The bitmap covers every frame, the span's addresses fit, the cursor stays within the
    /// span, and the used count is the number of set bits.
    pub closed spec fn wf(&self) -> bool {
        &&& self.bitmap@.len() * 8 >= self.frames
        &&& self.frames * 4096 <= usize::MAX
        &&& self.base.0 + self.frames * 4096 <= u64::MAX
        &&& self.base.0 % 4096 == 0
        &&& self.cursor <= self.frames
        &&& self.used == count_used(self@)
    }

    /// Storage needed to track `frames` frames, rounded up to whole bytes.
    pub fn bitmap_bytes(frames: usize) -> (n: usize)
        ensures
            n == (frames + 7) / 8,
    {
        frames / 8 + if frames % 8 != 0 {
            1
        } else {
            0
        }
    }

    /// Creates an allocator covering `frames` frames starting at `base`, with every frame
    /// marked used. A misaligned `base` and a bitmap too small for `frames` are refused, in
    /// that order.
    pub fn new(bitmap: Vec<u8>, base: PhysAddr, frames: usize) -> (r: Result<Self, &'static str>)
        requires
            frames * 4096 <= usize::MAX,
            base.0 + frames * 4096 <= u64::MAX,
        ensures
            base.0 % 4096 != 0 ==> r is Err,
            base.0 % 4096 == 0 && bitmap@.len() < (frames + 7) / 8 ==> r is Err,
            base.0 % 4096 == 0 && bitmap@.len() >= (frames + 7) / 8 ==> r is Ok,
            r matches Ok(a) ==> a.wf() && a@ == Seq::new(frames as nat, |i: int| true)
                && a.base_spec() == base.0 && a.cursor_spec() == 0,
    {
        if !base.is_frame_aligned() {
            return Err("frame allocator base is not frame-aligned");
        }
        if bitmap.len() < Self::bitmap_bytes(frames) {
            return Err("frame allocator bitmap is too small for the frame count");
        }
        let mut bitmap = bitmap;
        let mut k: usize = 0;
        while k < bitmap.len()
            invariant
                k <= bitmap@.len(),
                bitmap@.len() >= (frames + 7) / 8,
                forall|j: int| 0 <= j < k ==> bitmap@[j] == 0xFFu8,
            decreases bitmap@.len() - k,
        {
            bitmap.set(k, 0xFF);
            k = k + 1;
        }
        let a = FrameAllocator { bitmap, base, frames, cursor: 0, used: frames };
        proof {
            assert(a.bitmap@.len() * 8 >= frames);
            assert forall|i: int| 0 <= i < frames implies #[trigger] bit(a.bitmap@, i) by {
                let x = a.bitmap@[i / 8];
                let k = (i % 8) as u8;
                assert(x & (1u8 << k) != 0) by (bit_vector)
                    requires
                        x == 0xFFu8,
                        k < 8,
                ;
            }
            assert(a@ =~= Seq::new(frames as nat, |i: int| true));
            lemma_count_all_used(a@);
        }
        Ok(a)
    }

    /// Frames this allocator covers.
    pub fn total_frames(&self) -> (n: usize)
        ensures
            n == self@.len(),
    {
        self.frames
    }

    /// Frames in use.
    pub fn used_frames(&self) -> (n: usize)
        requires
            self.wf(),
        ensures
            n == count_used(self@),
    {
        self.used
    }

    /// Frames free.
    pub fn free_frames(&self) -> (n: usize)
        requires
            self.wf(),
        ensures
            n == self@.len() - count_used(self@),
    {
        proof {
            lemma_count_bounded(self@);
        }
        self.frames - self.used
    }

    fn is_set(&self, i: usize) -> (b: bool)
        requires
            self.wf(),
            i < self.frames,
        ensures
            b == self@[i as int],
    {
        proof {
            lemma_div8(i as int, self.frames as int, self.bitmap@.len() as int);
        }
        self.bitmap[i / 8] & (1u8 << ((i % 8) as u8)) != 0
    }

    fn write_bit(&mut self, i: usize, value: bool)
        requires
            old(self).wf(),
            i < old(self).frames,
        ensures
            final(self).wf(),
            final(self)@ == old(self)@.update(i as int, value),
            final(self).base == old(self).base,
            final(self).frames == old(self).frames,
            final(self).cursor == old(self).cursor,
    {
        proof {
            lemma_div8(i as int, self.frames as int, self.bitmap@.len() as int);
        }
        let was = self.is_set(i);
        let ghost old_view = self@;
        let byte = i / 8;
        let k = (i % 8) as u8;
        let x = self.bitmap[byte];
        let y = if value {
            x | (1u8 << k)
        } else {
            x & !(1u8 << k)
        };
        self.bitmap.set(byte, y);
        proof {
            assert forall|j: int| 0 <= j < self.frames implies bit(self.bitmap@, j) == old_view.update(
                i as int,
                value,
            )[j] by {
                lemma_div8(j, self.frames as int, self.bitmap@.len() as int);
                if j / 8 == byte as int {
                    let m = (j % 8) as u8;
                    if value {
                        lemma_set_bit(x, k, m);
                    } else {
                        lemma_clear_bit(x, k, m);
                    }
                    if j != i {
                        assert(m != k);
                    }
                }
            }
            assert(self@ =~= old_view.update(i as int, value));
            if was != value {
                if value {
                    lemma_count_update(old_view, i as int, true);
                } else {
                    lemma_count_update(old_view, i as int, false);
                }
            } else {
                assert(old_view.update(i as int, value) =~= old_view);
            }
            lemma_count_bounded(self@);
        }
        if was != value {
            if value {
                self.used = self.used + 1;
            } else {
                self.used = self.used - 1;
            }
        }
    }

    fn index_of(&self, frame: Frame) -> (r: Option<usize>)
        requires
            self.wf(),
        ensures
            r matches Some(i) ==> frame_index(self.base.0, self.frames as int, frame.base())
                == Some(i as int),
            r is None ==> frame_index(self.base.0, self.frames as int, frame.base()) is None,
    {
        let addr = frame.start().0;
        if addr < self.base.0 {
            return None;
        }
        let index = (addr - self.base.0) / 4096;
        if index < self.frames as u64 {
            Some(index as usize)
        } else {
            None
        }
    }

    fn mark_span(&mut self, start: PhysAddr, end: PhysAddr, value: bool)
        requires
            old(self).wf(),
        ensures
            final(self).wf(),
            final(self).base == old(self).base,
            final(self).frames == old(self).frames,
            final(self).cursor == old(self).cursor,
            final(self)@ == match marked_span(old(self).base.0, old(self).frames as int, start.0, end.0) {
                Some((lo, hi)) => set_range(old(self)@, lo, hi, value),
                None => old(self)@,
            },
    {
        if end.0 <= start.0 {
            return;
        }
        let first = match self.index_of(Frame::containing(start)) {
            Some(i) => i,
            None => 0,
        };
        let last = match self.index_of(Frame::containing(end)) {
            Some(i) => i,
            None => {
                if end.0 > self.base.0 {
                    self.frames
                } else {
                    return;
                }
            },
        };
        assert(last <= self.frames);
        let hi = if last < self.frames {
            last
        } else {
            self.frames
        };
        let ghost old_view = self@;
        let mut i = first;
        while i < hi
            invariant
                self.wf(),
                self.base == old(self).base,
                self.frames == old(self).frames,
                self.cursor == old(self).cursor,
                hi <= self.frames,
                i <= hi || i == first,
                i >= first,
                self@ == set_range(old_view, first as int, i as int, value),
            decreases hi - i,
        {
            self.write_bit(i, value);
            i = i + 1;
            assert(self@ =~= set_range(old_view, first as int, i as int, value));
        }
        assert(self@ =~= set_range(old_view, first as int, last as int, value));
    }

    /// Marks as usable the frames lying entirely inside `[start, end)`: the range is narrowed
    /// to whole frames, because a frame only partly covered may belong to firmware.
    pub fn mark_usable(&mut self, start: PhysAddr, end: PhysAddr)
        requires
            old(self).wf(),
        ensures
            final(self).wf(),
            final(self).base_spec() == old(self).base_spec(),
            final(self).cursor_spec() == old(self).cursor_spec(),
            final(self)@ == match marked_span(
                old(self).base_spec(),
                old(self)@.len() as int,
                ceil_frame(start.0),
                floor_frame(end.0),
            ) {
                Some((lo, hi)) => set_range(old(self)@, lo, hi, false),
                None => old(self)@,
            },
    {
        let s = start.frame_ceil();
        let e = end.frame_floor();
        self.mark_span(s, e, false);
    }

    /// Marks as reserved every frame `[start, end)` touches at all: the range is widened,
    /// because a partly reserved frame must not be allocated.
    pub fn mark_reserved(&mut self, start: PhysAddr, end: PhysAddr)
        requires
            old(self).wf(),
        ensures
            final(self).wf(),
            final(self).base_spec() == old(self).base_spec(),
            final(self).cursor_spec() == old(self).cursor_spec(),
            final(self)@ == match marked_span(
                old(self).base_spec(),
                old(self)@.len() as int,
                floor_frame(start.0),
                ceil_frame(end.0),
            ) {
                Some((lo, hi)) => set_range(old(self)@, lo, hi, true),
                None => old(self)@,
            },
    {
        let s = start.frame_floor();
        let e = end.frame_ceil();
        self.mark_span(s, e, true);
    }

    fn find_run(&self, from: usize, to: usize, count: usize) -> (r: Option<usize>)
        requires
            self.wf(),
            to <= self.frames,
            count > 0,
        ensures
            r matches Some(s) ==> first_run_at(self@, from as int, to as int, count as int, s as int),
            r is None ==> !has_run(self@, from as int, to as int, count as int),
    {
        let mut run: usize = 0;
        let mut i = from;
        while i < to
            invariant
                self.wf(),
                to <= self.frames,
                count > 0,
                from <= i || to <= from,
                i >= from,
                run < count,
                run <= i - from,
                window_free(self@, i - run, run as int),
                i - run == from || (i - run > from && self@[i - run - 1]),
                forall|t: int| from <= t && t + count <= i ==> !#[trigger] window_free(self@, t, count as int),
            decreases to - i,
        {
            if self.is_set(i) {
                run = 0;
                proof {
                    assert forall|t: int| from <= t && t + count <= i + 1 implies !#[trigger] window_free(
                        self@,
                        t,
                        count as int,
                    ) by {
                        if t + count == i + 1 {
                            assert(self@[i as int]);
                        }
                    }
                }
                i = i + 1;
            } else {
                let ghost t0 = i - run;
                run = run + 1;
                if run == count {
                    let s = i + 1 - count;
                    proof {
                        assert(s == t0);
                        assert forall|j: int| s <= j < s + count implies !#[trigger] self@[j] by {
                            if j < i {
                                assert(t0 <= j < t0 + (run - 1));
                            }
                        }
                        assert forall|t: int| from <= t < s implies !#[trigger] window_free(
                            self@,
                            t,
                            count as int,
                        ) by {
                            assert(t + count <= i);
                        }
                    }
                    return Some(s);
                }
                proof {
                    assert forall|t: int| from <= t && t + count <= i + 1 implies !#[trigger] window_free(
                        self@,
                        t,
                        count as int,
                    ) by {
                        if t + count == i + 1 {
                            assert(t < t0);
                            assert(self@[t0 - 1]);
                        }
                    }
                    assert forall|j: int| (i + 1) - run <= j < (i + 1) - run + run implies !#[trigger] self@[j] by {
                        if j < i {
                            assert(t0 <= j < t0 + (run - 1));
                        }
                    }
                }
                i = i + 1;
            }
        }
        proof {
            if has_run(self@, from as int, to as int, count as int) {
                let s = choose|s: int|
                    from <= s && s + count <= to && #[trigger] window_free(self@, s, count as int);
                assert(!window_free(self@, s, count as int));
            }
        }
        None
    }

    fn take(&mut self, start: usize, count: usize) -> (f: Frame)
        requires
            old(self).wf(),
            start + count <= old(self).frames,
            window_free(old(self)@, start as int, count as int),
        ensures
            final(self).wf(),
            final(self).base == old(self).base,
            final(self)@ == set_range(old(self)@, start as int, start + count, true),
            count_used(final(self)@) == count_used(old(self)@) + count,
            final(self).cursor == start + count,
            f.base() == old(self).base.0 + start * 4096,
    {
        let ghost old_view = self@;
        let mut i = start;
        while i < start + count
            invariant
                self.wf(),
                self.base == old(self).base,
                self.frames == old(self).frames,
                start <= i <= start + count,
                start + count <= self.frames,
                window_free(old_view, start as int, count as int),
                old_view.len() == self.frames,
                self@ == set_range(old_view, start as int, i as int, true),
                count_used(self@) == count_used(old_view) + (i - start),
            decreases start + count - i,
        {
            let ghost before = self@;
            assert(!before[i as int]);
            self.write_bit(i, true);
            proof {
                lemma_count_update(before, i as int, true);
            }
            i = i + 1;
            assert(self@ =~= set_range(old_view, start as int, i as int, true));
        }
        self.cursor = start + count;
        proof {
            assert(self@ =~= set_range(old_view, start as int, start + count, true));
        }
        let addr = self.base.0 + (start as u64) * 4096;
        assert(addr % 4096 == 0) by {
            assert((start as u64) * 4096 % 4096 == 0) by (nonlinear_arith);
        }
        proof {
            lemma_aligned_floor(addr);
        }
        Frame::containing(PhysAddr(addr))
    }

    /// Allocates one frame.
    pub fn allocate(&mut self) -> (r: Result<Frame, AllocError>)
        requires
            old(self).wf(),
        ensures
            final(self).wf(),
            final(self).base_spec() == old(self).base_spec(),
            alloc_outcome(
                old(self)@,
                old(self).cursor_spec(),
                1,
                old(self).base_spec(),
                r,
                final(self)@,
                final(self).cursor_spec(),
            ),
    {
        self.alloc_contiguous(1)
    }

    /// Allocates `count` physically contiguous frames. The search starts at the cursor and
    /// takes the lowest run at or after it; failing that, the lowest run lying wholly before
    /// it. Zero frames is `ZeroFrames`, fewer free frames than `count` is `OutOfMemory`, and
    /// no run where the search looks is `Fragmented`.
    pub fn alloc_contiguous(&mut self, count: usize) -> (r: Result<Frame, AllocError>)
        requires
            old(self).wf(),
        ensures
            final(self).wf(),
            final(self).base_spec() == old(self).base_spec(),
            alloc_outcome(
                old(self)@,
                old(self).cursor_spec(),
                count as int,
                old(self).base_spec(),
                r,
                final(self)@,
                final(self).cursor_spec(),
            ),
    {
        if count == 0 {
            return Err(AllocError::ZeroFrames);
        }
        if self.free_frames() < count {
            return Err(AllocError::OutOfMemory);
        }
        let frames = self.frames;
        let ghost v = self@;
        let ghost c = self.cursor as int;
        let ghost b = self.base.0;
        match self.find_run(self.cursor, frames, count) {
            Some(start) => {
                let f = self.take(start, count);
                proof {
                    assert(has_run(v, c, v.len() as int, count as int));
                    assert(first_run_at(v, c, v.len() as int, count as int, start as int));
                }
                return Ok(f);
            },
            None => {},
        }
        let bound = if self.cursor < self.frames {
            self.cursor
        } else {
            self.frames
        };
        match self.find_run(0, bound, count) {
            Some(start) => {
                let f = self.take(start, count);
                proof {
                    assert(has_run(v, 0, c, count as int));
                    assert(first_run_at(v, 0, c, count as int, start as int));
                }
                return Ok(f);
            },
            None => {},
        }
        Err(AllocError::Fragmented)
    }

    /// Returns `count` frames starting at `frame`. A frame outside the span, a range running
    /// past its end, and a frame in the range that is already free are all refused; a double
    /// free stops at the first already-free frame, with the frames before it freed.
    pub fn free_contiguous(&mut self, frame: Frame, count: usize) -> (r: Result<(), &'static str>)
        requires
            old(self).wf(),
            frame_index(old(self).base_spec(), old(self)@.len() as int, frame.base()) matches Some(
                i,
            ) ==> i + count <= usize::MAX,
        ensures
            final(self).wf(),
            final(self).base_spec() == old(self).base_spec(),
            free_outcome(old(self)@, old(self).base_spec(), frame.base(), count as int, r, final(self)@),
            r is Ok ==> final(self).cursor_spec() == frame_index(
                old(self).base_spec(),
                old(self)@.len() as int,
                frame.base(),
            )->Some_0,
            r is Err ==> final(self).cursor_spec() == old(self).cursor_spec(),
    {
        let start = match self.index_of(frame) {
            Some(i) => i,
            None => return Err("freed frame is outside this allocator"),
        };
        assert(frame_index(self.base_spec(), self@.len() as int, frame.base()) == Some(start as int));
        if start + count > self.frames {
            return Err("freed range extends past the end of the allocator");
        }
        let ghost old_view = self@;
        let mut i = start;
        while i < start + count
            invariant
                self.wf(),
                self.base == old(self).base,
                self.frames == old(self).frames,
                self.cursor == old(self).cursor,
                start <= i <= start + count,
                start + count <= self.frames,
                old_view.len() == self.frames,
                old_view == old(self)@,
                frame_index(old(self).base_spec(), old_view.len() as int, frame.base()) == Some(
                    start as int,
                ),
                forall|j: int| start <= j < i ==> #[trigger] old_view[j],
                self@ == set_range(old_view, start as int, i as int, false),
            decreases start + count - i,
        {
            if !self.is_set(i) {
                proof {
                    assert(!old_view[i as int]);
                    assert(i < start + count && !old_view[i as int] && (forall|j: int|
                        start <= j < i ==> #[trigger] old_view[j]));
                }
                let r: Result<(), &'static str> = Err("double free: frame was already marked free");
                proof {
                    let k = i as int;
                    assert(start <= k < start + count && !old_view[k] && (forall|j: int|
                        start <= j < k ==> #[trigger] old_view[j]) && r is Err && self@
                        == set_range(old_view, start as int, k, false));
                    assert(exists|k: int|
                        start <= k < start + count && !old_view[k] && (forall|j: int|
                            start <= j < k ==> #[trigger] old_view[j]) && r is Err && self@
                            == set_range(old_view, start as int, k, false));
                }
                return r;
            }
            self.write_bit(i, false);
            i = i + 1;
            assert(self@ =~= set_range(old_view, start as int, i as int, false));
        }
        self.cursor = start;
        proof {
            assert(forall|j: int| start <= j < start + count ==> #[trigger] old_view[j]);
        }
        Ok(())
    }

    /// Returns one frame.
    pub fn free(&mut self, frame: Frame) -> (r: Result<(), &'static str>)
        requires
            old(self).wf(),
        ensures
            final(self).wf(),
            final(self).base_spec() == old(self).base_spec(),
            free_outcome(old(self)@, old(self).base_spec(), frame.base(), 1, r, final(self)@),
    {
        proof {
            lemma_index_bound(old(self)@.len() as int, old(self).base_spec(), frame.base());
        }
        self.free_contiguous(frame, 1)
    }
}

/// What `alloc_contiguous(count)` does, given the frames' state `v` before, the cursor, and the
/// base address: the result, the state after, and where the cursor ends up: just past the run
/// handed out, or where it was on a failure.
pub open spec fn alloc_outcome(
    v: Seq<bool>,
    cursor: int,
    count: int,
    base: u64,
    r: Result<Frame, AllocError>,
    after: Seq<bool>,
    cursor_after: int,
) -> bool {
    if count == 0 {
        r == Err::<Frame, AllocError>(AllocError::ZeroFrames) && after == v && cursor_after == cursor
    } else if v.len() - count_used(v) < count {
        r == Err::<Frame, AllocError>(AllocError::OutOfMemory) && after == v && cursor_after
            == cursor
    } else if has_run(v, cursor, v.len() as int, count) {
        exists|s: int|
            #[trigger] first_run_at(v, cursor, v.len() as int, count, s) && r is Ok
                && r->Ok_0.base() == base + s * 4096 && after == set_range(v, s, s + count, true)
                && cursor_after == s + count
    } else if has_run(v, 0, cursor, count) {
        exists|s: int|
            #[trigger] first_run_at(v, 0, cursor, count, s) && r is Ok && r->Ok_0.base() == base
                + s * 4096 && after == set_range(v, s, s + count, true) && cursor_after == s + count
    } else {
        r == Err::<Frame, AllocError>(AllocError::Fragmented) && after == v && cursor_after
            == cursor
    }
}

/// What `free_contiguous(frame, count)` does, given the frames' state `v` before.
pub open spec fn free_outcome(
    v: Seq<bool>,
    base: u64,
    frame: u64,
    count: int,
    r: Result<(), &'static str>,
    after: Seq<bool>,
) -> bool {
    match frame_index(base, v.len() as int, frame) {
        None => r is Err && after == v,
        Some(i) => if i + count > v.len() {
            r is Err && after == v
        } else if forall|j: int| i <= j < i + count ==> #[trigger] v[j] {
            r is Ok && after == set_range(v, i, i + count, false)
        } else {
            exists|k: int|
                i <= k < i + count && !v[k] && (forall|j: int| i <= j < k ==> #[trigger] v[j])
                    && r is Err && after == set_range(v, i, k, false)
        },
    }
}

proof fn lemma_index_bound(frames: int, base: u64, addr: u64)
    ensures
        frame_index(base, frames, addr) matches Some(i) ==> i < frames,
{
}

proof fn lemma_aligned_floor(a: u64)
    requires
        a % 4096 == 0,
    ensures
        floor_frame(a) == a,
{
}

proof fn lemma_div8(i: int, frames: int, bytes: int)
    requires
        0 <= i < frames,
        bytes * 8 >= frames,
    ensures
        0 <= i / 8 < bytes,
        0 <= i % 8 < 8,
{
}

proof fn lemma_set_bit(x: u8, k: u8, m: u8)
    requires
        k < 8,
        m < 8,
    ensures
        ((x | (1u8 << k)) & (1u8 << m) != 0) == (m == k || x & (1u8 << m) != 0),
{
    assert(((x | (1u8 << k)) & (1u8 << m) != 0) == (m == k || x & (1u8 << m) != 0)) by (bit_vector)
        requires
            k < 8,
            m < 8,
    ;
}

proof fn lemma_clear_bit(x: u8, k: u8, m: u8)
    requires
        k < 8,
        m < 8,
    ensures
        ((x & !(1u8 << k)) & (1u8 << m) != 0) == (m != k && x & (1u8 << m) != 0),
{
    assert(((x & !(1u8 << k)) & (1u8 << m) != 0) == (m != k && x & (1u8 << m) != 0))
        by (bit_vector)
        requires
            k < 8,
            m < 8,
    ;
}

proof fn lemma_count_bounded(v: Seq<bool>)
    ensures
        count_used(v) <= v.len(),
{
    v.lemma_filter_len(|b: bool| b);
}

proof fn lemma_count_all_used(v: Seq<bool>)
    requires
        forall|i: int| 0 <= i < v.len() ==> v[i],
    ensures
        count_used(v) == v.len(),
    decreases v.len(),
{
    reveal(Seq::filter);
    if v.len() > 0 {
        lemma_count_all_used(v.drop_last());
    }
}

proof fn lemma_count_update(v: Seq<bool>, i: int, b: bool)
    requires
        0 <= i < v.len(),
        v[i] != b,
    ensures
        b ==> count_used(v.update(i, b)) == count_used(v) + 1,
        !b ==> count_used(v.update(i, b)) + 1 == count_used(v),
    decreases v.len(),
{
    reveal(Seq::filter);
    let t = v.update(i, b);
    if i == v.len() - 1 {
        assert(t.drop_last() =~= v.drop_last());
    } else {
        assert(t.drop_last() =~= v.drop_last().update(i, b));
        lemma_count_update(v.drop_last(), i, b);
    }
}

} // verus!
