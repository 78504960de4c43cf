//! What the kernel will touch on a user thread's behalf: its program page and its stack page,
//! one 4 KiB page each, and nothing else. A system call argument is a number chosen by
//! userspace; every pointer is checked against these two pages before anything is read or
//! written through it.

use vstd::prelude::*;

verus! {

/// One translation page.
pub const PAGE: u64 = 4096;

/// A user thread's two pages: where each starts, and a snapshot of what each holds.
pub struct UserMemory {
    pub text_base: u64,
    pub stack_base: u64,
    pub text: Vec<u8>,
    pub stack: Vec<u8>,
}

impl UserMemory {
    /// Both pages are a page long and lie below the top of the address space.
    pub open spec fn wf(&self) -> bool {
        &&& self.text@.len() == PAGE
        &&& self.stack@.len() == PAGE
        &&& self.text_base + PAGE <= u64::MAX
        &&& self.stack_base + PAGE <= u64::MAX
    }

    /// Whether `[ptr, ptr + len)` lies within the program page.
    pub open spec fn in_text(&self, ptr: u64, len: u64) -> bool {
        ptr >= self.text_base && ptr + len <= self.text_base + PAGE
    }

    /// Whether `[ptr, ptr + len)` lies within the stack page.
    pub open spec fn in_stack(&self, ptr: u64, len: u64) -> bool {
        ptr >= self.stack_base && ptr + len <= self.stack_base + PAGE
    }

    /// Whether the kernel may read `[ptr, ptr + len)`: it does not wrap, and lies within one of
    /// the two pages.
    pub open spec fn readable(&self, ptr: u64, len: u64) -> bool {
        ptr + len <= u64::MAX && (self.in_text(ptr, len) || self.in_stack(ptr, len))
    }

    /// Whether the kernel may write `[ptr, ptr + len)`: it does not wrap, and lies within the
    /// stack page — the program page is read-execute.
    pub open spec fn writable(&self, ptr: u64, len: u64) -> bool {
        ptr + len <= u64::MAX && self.in_stack(ptr, len)
    }

    /// The bytes at `[ptr, ptr + len)`, from whichever page holds them.
    pub open spec fn bytes_at(&self, ptr: u64, len: u64) -> Seq<u8> {
        if self.in_text(ptr, len) {
            self.text@.subrange(ptr - self.text_base, ptr - self.text_base + len)
        } else {
            self.stack@.subrange(ptr - self.stack_base, ptr - self.stack_base + len)
        }
    }

    /// Copies out the bytes at `[ptr, ptr + len)`.
    pub fn read(&self, ptr: u64, len: u64) -> (bytes: Vec<u8>)
        requires
            self.wf(),
            self.readable(ptr, len),
        ensures
            bytes@ == self.bytes_at(ptr, len),
    {
        let in_text = ptr >= self.text_base && ptr - self.text_base <= PAGE && len <= PAGE - (
        ptr - self.text_base);
        let (page, offset) = if in_text {
            (&self.text, (ptr - self.text_base) as usize)
        } else {
            (&self.stack, (ptr - self.stack_base) as usize)
        };
        let mut out: Vec<u8> = Vec::new();
        let mut i: usize = 0;
        while i < len as usize
            invariant
                page@.len() == PAGE,
                offset + len <= PAGE,
                i <= len,
                out@ == page@.subrange(offset as int, offset + i),
            decreases len - i,
        {
            out.push(page[offset + i]);
            i = i + 1;
            assert(out@ =~= page@.subrange(offset as int, offset + i));
        }
        out
    }
}

/// Whether a user-supplied pointer names memory the kernel is willing to read on its behalf:
/// `[ptr, ptr + len)` must not wrap, and must lie within the program page or the stack page.
pub fn is_user_readable(user: &UserMemory, ptr: u64, len: u64) -> (b: bool)
    requires
        user.wf(),
    ensures
        b == user.readable(ptr, len),
{
    let last = match ptr.checked_add(len) {
        Some(l) => l,
        None => return false,
    };
    (ptr >= user.text_base && last <= user.text_base + PAGE) || (ptr >= user.stack_base && last
        <= user.stack_base + PAGE)
}

/// Whether a user-supplied pointer names memory the kernel may write on its behalf: only the
/// stack page is writable from EL0.
pub fn is_user_writable(user: &UserMemory, ptr: u64, len: u64) -> (b: bool)
    requires
        user.wf(),
    ensures
        b == user.writable(ptr, len),
{
    let last = match ptr.checked_add(len) {
        Some(l) => l,
        None => return false,
    };
    ptr >= user.stack_base && last <= user.stack_base + PAGE
}

/// Where the loaded programs start, and where the user stack ends.
pub struct Loaded {
    entry: u64,
    trespass_entry: u64,
    stack_top: u64,
}

impl Loaded {
    pub closed spec fn entry_spec(&self) -> u64 {
        self.entry
    }

    pub closed spec fn trespass_spec(&self) -> u64 {
        self.trespass_entry
    }

    pub closed spec fn stack_top_spec(&self) -> u64 {
        self.stack_top
    }

    /// Nothing loaded yet: every address zero.
    pub fn none() -> (l: Loaded)
        ensures
            l.entry_spec() == 0,
            l.trespass_spec() == 0,
            l.stack_top_spec() == 0,
    {
        Loaded { entry: 0, trespass_entry: 0, stack_top: 0 }
    }

    /// The programs copied as one span to the page at `text`, the trespasser `trespass_offset`
    /// bytes in, with the stack page at `stack`. The span must fit in the page.
    pub fn load(text: u64, stack: u64, span: u64, trespass_offset: u64) -> (l: Loaded)
        requires
            span <= PAGE,
            trespass_offset <= span,
            text + PAGE <= u64::MAX,
            stack + PAGE <= u64::MAX,
        ensures
            l.entry_spec() == text,
            l.trespass_spec() == text + trespass_offset,
            l.stack_top_spec() == stack + PAGE,
    {
        Loaded { entry: text, trespass_entry: text + trespass_offset, stack_top: stack + PAGE }
    }

    /// The main program's entry point and the top of the user stack.
    pub fn program(&self) -> (r: (u64, u64))
        ensures
            r == (self.entry_spec(), self.stack_top_spec()),
    {
        (self.entry, self.stack_top)
    }

    /// The entry point of the program that deliberately reads where it may not, and the top of
    /// the user stack.
    pub fn trespasser(&self) -> (r: (u64, u64))
        ensures
            r == (self.trespass_spec(), self.stack_top_spec()),
    {
        (self.trespass_entry, self.stack_top)
    }
}

/// The data- and instruction-cache line sizes `CTR_EL0` reports, in bytes: four times two to
/// the power of `DminLine` (bits [19:16]) and of `IminLine` (bits [3:0]).
pub fn cache_lines(ctr: u64) -> (r: (u64, u64))
    ensures
        r.0 == 4u64 << ((ctr >> 16u64) & 0xF),
        r.1 == 4u64 << (ctr & 0xF),
{
    let dmin = (ctr >> 16) & 0xF;
    let imin = ctr & 0xF;
    assert(dmin < 16 && imin < 16) by (bit_vector)
        requires
            dmin == (ctr >> 16u64) & 0xF,
            imin == ctr & 0xF,
    ;
    (4u64 << dmin, 4u64 << imin)
}

/// The addresses of the cache lines of size `line` that cover `[addr, addr + len)`, one per
/// line, as written code is made visible to instruction fetch: from `addr` with the low bits
/// of a line cleared, one line at a time, while below the end.
pub fn lines_covering(addr: u64, len: u64, line: u64) -> (r: Vec<u64>)
    requires
        0 < line,
        addr + len + line <= u64::MAX,
    ensures
        ({
            let first = addr & !((line - 1) as u64);
            &&& forall|i: int| 0 <= i < r@.len() ==> #[trigger] r@[i] == first + i * line
            &&& forall|i: int| 0 <= i < r@.len() ==> #[trigger] r@[i] < addr + len
            &&& first + r@.len() * line >= addr + len
        }),
{
    let end = addr + len;
    let first = addr & !(line - 1);
    assert(first <= addr) by (bit_vector)
        requires
            first == addr & !((line - 1) as u64),
    ;
    let mut out: Vec<u64> = Vec::new();
    let mut p = first;
    assert(first + out@.len() * line == first) by (nonlinear_arith)
        requires
            out@.len() == 0,
    ;
    while p < end
        invariant
            0 < line,
            end + line <= u64::MAX,
            first <= end,
            p <= end + line,
            p == first + out@.len() * line,
            forall|i: int| 0 <= i < out@.len() ==> #[trigger] out@[i] == first + i * line,
            forall|i: int| 0 <= i < out@.len() ==> #[trigger] out@[i] < end,
        decreases end + line - p,
    {
        out.push(p);
        assert(first + out@.len() * line == p + line) by (nonlinear_arith)
            requires
                p == first + (out@.len() - 1) * line,
        ;
        p = p + line;
    }
    out
}

} // verus!
