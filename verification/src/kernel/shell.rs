//! The shell's decisions: how a line is edited as bytes arrive, which command a line names, and
//! what is printed for a number, a method description or a journal event. The shell itself runs
//! at EL0 and talks to the kernel through system calls; those calls, and the writes that put the
//! pieces chosen here on the console, belong to the caller.

use vstd::prelude::*;
use vstd::string::StringSliceAdditionalSpecFns;

verus! {

/// The longest line the shell accepts; further printable bytes are neither stored nor echoed.
pub const LINE: usize = 128;

/// Printed once, when the shell starts.
pub const BANNER: &'static str = "\n  oxygen shell. type 'help'.\n";

/// Printed before every line.
pub const PROMPT: &'static str = "oxygen$ ";

/// Ends a line.
pub const NEWLINE: &'static str = "\n";

/// Backs up over one character on a dumb terminal: back, paint over, back again.
pub const ERASE: &'static str = "\x08 \x08";

/// The answer to a line that names no command.
pub const UNKNOWN: &'static str = "unknown command. try 'help'.\n";

/// What `help` prints.
pub const HELP_TEXT: &'static str = "  help      this list\n  services  what is published in the registry\n  uptime    timer ticks since boot\n  echo ...  say something back\n  describe  a capability's methods; 'describe <name>' for a looked-up one\n  audit     what has happened, from the journal\n";

/// What `services` prints when the registry is empty.
pub const NO_SERVICES: &'static str = "(nothing published)\n";

/// What `describe <name>` prints when the name is not published.
pub const NO_SUCH_SERVICE: &'static str = "no such service\n";

/// Printed in front of each listed item.
pub const INDENT: &'static str = "  ";

/// The bytes of a text.
pub open spec fn word(s: &str) -> Seq<u8> {
    s.spec_bytes()
}

/// Whether the first `len` bytes of `line` are exactly `word`.
pub fn is_word(line: &[u8], len: usize, word: &[u8]) -> (r: bool)
    requires
        len <= line@.len(),
    ensures
        r == (line@.subrange(0, len as int) == word@),
{
    if len != word.len() {
        proof {
            assert(line@.subrange(0, len as int).len() != word@.len());
        }
        return false;
    }
    let mut i: usize = 0;
    while i < word.len()
        invariant
            len == word@.len(),
            len <= line@.len(),
            i <= len,
            forall|k: int| 0 <= k < i ==> line@[k] == word@[k],
        decreases len - i,
    {
        if line[i] != word[i] {
            proof {
                assert(line@.subrange(0, len as int)[i as int] != word@[i as int]);
            }
            return false;
        }
        i = i + 1;
    }
    assert(line@.subrange(0, len as int) =~= word@);
    true
}

/// The decimal digits of `n`, most significant first, with no leading zero.
pub open spec fn decimal(n: nat) -> Seq<u8>
    decreases n,
{
    if n < 10 {
        seq![(48 + n) as u8]
    } else {
        decimal(n / 10).push((48 + n % 10) as u8)
    }
}

/// The decimal digits of `value`, as the shell prints a number.
pub fn digits(value: u64) -> (r: Vec<u8>)
    ensures
        r@ == decimal(value as nat),
    decreases value,
{
    if value < 10 {
        let mut v = Vec::new();
        v.push(48 + value as u8);
        v
    } else {
        let mut v = digits(value / 10);
        v.push(48 + (value % 10) as u8);
        v
    }
}

/// Whether a system call's answer is a refusal: negative when read as a signed number. A
/// listing stops at the first refusal (`services` also at the first empty answer), a read that
/// is refused or empty is retried, and a refused lookup means the name is not published.
pub fn is_refusal(answer: u64) -> (r: bool)
    ensures
        r == (answer >= 0x8000_0000_0000_0000),
{
    answer >= 0x8000_0000_0000_0000
}

/// What one byte did to the line being edited.
#[derive(Debug, Clone, Copy, PartialEq, Eq, Structural)]
pub enum Key {
    /// Return or newline: the line is complete.
    Finished,
    /// Backspace or delete removed the last byte; the terminal should erase it.
    Erased,
    /// A printable byte was stored; the terminal should show it.
    Echoed(u8),
    /// Nothing happened: an unprintable byte, a full line, or an erase with nothing to erase.
    Ignored,
}

/// Whether `byte` is printable ASCII.
pub open spec fn printable(byte: u8) -> bool {
    0x20 <= byte < 0x7F
}

/// What one byte does to the line `line`: the new line, and what to show.
pub open spec fn edit(line: Seq<u8>, byte: u8) -> (Seq<u8>, Key) {
    if byte == 13 || byte == 10 {
        (line, Key::Finished)
    } else if byte == 8 || byte == 0x7F {
        if line.len() > 0 {
            (line.drop_last(), Key::Erased)
        } else {
            (line, Key::Ignored)
        }
    } else if printable(byte) && line.len() < LINE {
        (line.push(byte), Key::Echoed(byte))
    } else {
        (line, Key::Ignored)
    }
}

/// Erasing right after a byte was echoed gives back the line as it was before that byte.
pub proof fn lemma_erase_undoes_echo(line: Seq<u8>, byte: u8)
    requires
        edit(line, byte).1 == Key::Echoed(byte),
    ensures
        edit(edit(line, byte).0, 0x7F) == (line, Key::Erased),
        edit(edit(line, byte).0, 8) == (line, Key::Erased),
{
    assert(line.push(byte).drop_last() =~= line);
}

/// A line being typed: printable bytes only, never more than [`LINE`] of them.
pub struct LineEditor {
    line: Vec<u8>,
}

impl LineEditor {
    /// The bytes typed so far.
    pub closed spec fn text(&self) -> Seq<u8> {
        self.line@
    }

    /// The editor's invariant: at most [`LINE`] bytes, all printable.
    pub open spec fn wf(&self) -> bool {
        &&& self.text().len() <= LINE
        &&& forall|i: int| 0 <= i < self.text().len() ==> printable(#[trigger] self.text()[i])
    }

    /// An empty line.
    pub fn new() -> (e: LineEditor)
        ensures
            e.wf(),
            e.text() == Seq::<u8>::empty(),
    {
        LineEditor { line: Vec::new() }
    }

    /// Takes one byte from the terminal.
    pub fn feed(&mut self, byte: u8) -> (k: Key)
        requires
            old(self).wf(),
        ensures
            final(self).wf(),
            (final(self).text(), k) == edit(old(self).text(), byte),
    {
        if byte == 13 || byte == 10 {
            return Key::Finished;
        }
        if byte == 8 || byte == 0x7F {
            if self.line.len() > 0 {
                self.line.pop();
                return Key::Erased;
            }
            return Key::Ignored;
        }
        if byte >= 0x20 && byte < 0x7F && self.line.len() < LINE {
            self.line.push(byte);
            return Key::Echoed(byte);
        }
        Key::Ignored
    }

    /// The bytes typed so far.
    pub fn line(&self) -> (r: &[u8])
        ensures
            r@ == self.text(),
    {
        self.line.as_slice()
    }

    /// Starts a new line.
    pub fn clear(&mut self)
        ensures
            final(self).wf(),
            final(self).text() == Seq::<u8>::empty(),
    {
        self.line.clear();
    }
}

/// Opens a method's argument list.
pub const OPEN_PAREN: &'static str = "(";

/// Separates two argument kinds.
pub const COMMA_SPACE: &'static str = ", ";

/// Closes a method's argument list and introduces its return kind.
pub const CLOSE_PAREN_ARROW: &'static str = ") -> ";

/// Starts an event line, before its sequence number.
pub const EVENT_HASH: &'static str = "  #";

/// Introduces an event's actor.
pub const EVENT_THREAD: &'static str = " thread ";

/// Separates an event's actor from its action.
pub const SPACE: &'static str = " ";

/// Introduces an event's object kind.
pub const EVENT_KIND: &'static str = " kind ";

/// Introduces an event's rights.
pub const EVENT_RIGHTS: &'static str = " rights ";

/// Introduces an event's detail.
pub const EVENT_DETAIL: &'static str = " detail ";

/// What a typed line asks for.
#[derive(Debug, Clone, Copy, PartialEq, Eq, Structural)]
pub enum Command {
    /// Nothing was typed.
    Empty,
    /// `help`.
    Help,
    /// `services`.
    Services,
    /// `uptime`.
    Uptime,
    /// `audit`.
    Audit,
    /// `describe`, with the start and length of the part of the line naming what to look up;
    /// an empty name means the console itself.
    Describe(usize, usize),
    /// `echo`, with the start and length of the part of the line to write back.
    Echo(usize, usize),
    /// Anything else.
    Unknown,
}

/// The part of a `len`-byte line after a command word of `at` bytes and the one byte that
/// follows it: empty, at the line's end, when the line is no longer than the word.
pub open spec fn after_word(len: int, at: int) -> (int, int) {
    if len > at {
        (at + 1, len - at - 1)
    } else {
        (len, 0)
    }
}

/// The command a line names: an exact `help`, `services`, `uptime` or `audit`, or a line
/// beginning `describe` or `echo`, in that order of precedence.
pub open spec fn command_of(l: Seq<u8>) -> Command {
    if l.len() == 0 {
        Command::Empty
    } else if l == word("help") {
        Command::Help
    } else if l == word("services") {
        Command::Services
    } else if l == word("uptime") {
        Command::Uptime
    } else if l == word("audit") {
        Command::Audit
    } else if l.len() >= word("describe").len() && l.subrange(0, word("describe").len() as int)
        == word("describe") {
        let r = after_word(l.len() as int, word("describe").len() as int);
        Command::Describe(r.0 as usize, r.1 as usize)
    } else if l.len() >= word("echo").len() && l.subrange(0, word("echo").len() as int) == word(
        "echo",
    ) {
        let r = after_word(l.len() as int, word("echo").len() as int);
        Command::Echo(r.0 as usize, r.1 as usize)
    } else {
        Command::Unknown
    }
}

/// Whether all of `line` is exactly `w`.
fn is_line(line: &[u8], w: &[u8]) -> (r: bool)
    ensures
        r == (line@ == w@),
{
    let r = is_word(line, line.len(), w);
    assert(line@.subrange(0, line@.len() as int) =~= line@);
    r
}

/// Whether `line` begins with `w`.
fn starts_with(line: &[u8], w: &[u8]) -> (r: bool)
    ensures
        r == (line@.len() >= w@.len() && line@.subrange(0, w@.len() as int) == w@),
{
    if line.len() < w.len() {
        return false;
    }
    is_word(line, w.len(), w)
}

/// The span after a command word of `at` bytes in a `len`-byte line.
fn span_after(len: usize, at: usize) -> (r: (usize, usize))
    requires
        at <= len,
    ensures
        r.0 as int == after_word(len as int, at as int).0,
        r.1 as int == after_word(len as int, at as int).1,
{
    if len > at {
        (at + 1, len - at - 1)
    } else {
        (len, 0)
    }
}

/// Reads the command a typed line names.
pub fn parse_command(line: &[u8]) -> (c: Command)
    ensures
        c == command_of(line@),
{
    if line.len() == 0 {
        return Command::Empty;
    }
    if is_line(line, "help".as_bytes()) {
        return Command::Help;
    }
    if is_line(line, "services".as_bytes()) {
        return Command::Services;
    }
    if is_line(line, "uptime".as_bytes()) {
        return Command::Uptime;
    }
    if is_line(line, "audit".as_bytes()) {
        return Command::Audit;
    }
    let describe = "describe".as_bytes();
    if starts_with(line, describe) {
        let (start, len) = span_after(line.len(), describe.len());
        return Command::Describe(start, len);
    }
    let echo = "echo".as_bytes();
    if starts_with(line, echo) {
        let (start, len) = span_after(line.len(), echo.len());
        return Command::Echo(start, len);
    }
    Command::Unknown
}

/// One piece of shell output, put on the console by one write.
#[derive(Debug, Clone, Copy, PartialEq, Eq)]
pub enum Piece {
    /// Fixed text.
    Text(&'static str),
    /// A number, written in decimal.
    Number(u64),
    /// The bytes at `[start, start + len)` of the buffer being rendered.
    Span(usize, usize),
}

/// Whether `n` is the length of the zero-padded name field of `max` bytes at `start` in `b`: its
/// bytes up to the first zero, or all `max` of them when there is none.
pub open spec fn is_field_len(b: Seq<u8>, start: int, max: int, n: int) -> bool {
    let field = b.subrange(start, start + max);
    &&& 0 <= n <= max
    &&& forall|k: int| 0 <= k < n ==> #[trigger] field[k] != 0
    &&& n == max || field[n] == 0
}

/// The length of the name in the `max`-byte zero-padded field at `start`.
pub fn name_field_len(buf: &[u8], start: usize, max: usize) -> (n: usize)
    requires
        start + max <= buf@.len(),
    ensures
        is_field_len(buf@, start as int, max as int, n as int),
{
    let total = buf.len();
    let mut len: usize = 0;
    while len < max
        invariant
            total == buf@.len(),
            start + max <= buf@.len(),
            len <= max,
            forall|k: int| 0 <= k < len ==> #[trigger] buf@.subrange(start as int, start + max)[k] != 0,
        decreases max - len,
    {
        if buf[start + len] == 0 {
            assert(buf@.subrange(start as int, start + max)[len as int] == 0);
            return len;
        }
        len = len + 1;
    }
    len
}

/// The name of an argument-kind wire byte.
pub open spec fn kind_text(kind: u8) -> &'static str {
    if kind == 1 {
        "handle"
    } else if kind == 2 {
        "bytes"
    } else if kind == 3 {
        "number"
    } else if kind == 4 {
        "rights"
    } else {
        "none"
    }
}

/// The name of an argument-kind wire byte; anything unassigned reads as `none`.
pub fn kind_name(kind: u8) -> (r: &'static str)
    ensures
        r == kind_text(kind),
{
    if kind == 1 {
        "handle"
    } else if kind == 2 {
        "bytes"
    } else if kind == 3 {
        "number"
    } else if kind == 4 {
        "rights"
    } else {
        "none"
    }
}

/// The name of an audit action wire byte.
pub open spec fn action_text(action: u8) -> &'static str {
    if action == 0 {
        "insert"
    } else if action == 1 {
        "delegate"
    } else if action == 2 {
        "revoke"
    } else if action == 3 {
        "delete"
    } else if action == 4 {
        "denied"
    } else if action == 5 {
        "register"
    } else if action == 6 {
        "lookup"
    } else {
        "?"
    }
}

/// The name of an audit action wire byte; anything unassigned reads as `?`.
pub fn action_name(action: u8) -> (r: &'static str)
    ensures
        r == action_text(action),
{
    if action == 0 {
        "insert"
    } else if action == 1 {
        "delegate"
    } else if action == 2 {
        "revoke"
    } else if action == 3 {
        "delete"
    } else if action == 4 {
        "denied"
    } else if action == 5 {
        "register"
    } else if action == 6 {
        "lookup"
    } else {
        "?"
    }
}

/// The number little-endian bytes `s` stand for.
pub open spec fn le_value(s: Seq<u8>) -> nat
    decreases s.len(),
{
    if s.len() == 0 {
        0
    } else {
        s[0] as nat + 256 * le_value(s.drop_first())
    }
}

/// `256` to the power `n`.
pub open spec fn pow256(n: nat) -> nat
    decreases n,
{
    if n == 0 {
        1
    } else {
        256 * pow256((n - 1) as nat)
    }
}

/// `n` little-endian bytes stand for less than `256` to the `n`.
proof fn lemma_le_value_bound(s: Seq<u8>)
    ensures
        le_value(s) < pow256(s.len()),
    decreases s.len(),
{
    if s.len() > 0 {
        lemma_le_value_bound(s.drop_first());
        let r = le_value(s.drop_first());
        let p = pow256((s.len() - 1) as nat);
        assert(s[0] + 256 * r < 256 * p) by (nonlinear_arith)
            requires
                r < p,
                s[0] < 256,
        ;
    }
}

/// Reads `n` little-endian bytes at `at`, folding from the most significant end down.
fn read_le(buf: &[u8], at: usize, n: usize) -> (r: u64)
    requires
        n <= 8,
        at + n <= buf@.len(),
    ensures
        r == le_value(buf@.subrange(at as int, at + n)),
{
    let mut value: u64 = 0;
    let mut i: usize = n;
    assert(pow256(8) == 0x1_0000_0000_0000_0000) by {
        reveal_with_fuel(pow256, 9);
    }
    let total = buf.len();
    while i > 0
        invariant
            total == buf@.len(),
            pow256(8) == 0x1_0000_0000_0000_0000,
            i <= n <= 8,
            at + n <= buf@.len(),
            value == le_value(buf@.subrange(at + i, at + n)),
        decreases i,
    {
        i = i - 1;
        let ghost rest = buf@.subrange(at + i + 1, at + n);
        let ghost here = buf@.subrange(at + i, at + n);
        assert(here.drop_first() =~= rest);
        proof {
            lemma_le_value_bound(here);
            lemma_pow256_monotone(here.len(), 8);
        }
        value = value * 256 + buf[at + i] as u64;
    }
    value
}

/// Powers of `256` grow with the exponent.
proof fn lemma_pow256_monotone(a: nat, b: nat)
    requires
        a <= b,
    ensures
        pow256(a) <= pow256(b),
    decreases b,
{
    if a < b {
        lemma_pow256_monotone(a, (b - 1) as nat);
    }
}

/// The `u32` stored little-endian at `at`.
pub fn read_u32_le(buf: &[u8], at: usize) -> (r: u32)
    requires
        at + 4 <= buf@.len(),
    ensures
        r == le_value(buf@.subrange(at as int, at + 4)),
{
    let v = read_le(buf, at, 4);
    proof {
        lemma_le_value_bound(buf@.subrange(at as int, at + 4));
        assert(pow256(4) == 0x1_0000_0000) by {
            reveal_with_fuel(pow256, 5);
        }
    }
    v as u32
}

/// The `u64` stored little-endian at `at`.
pub fn read_u64_le(buf: &[u8], at: usize) -> (r: u64)
    requires
        at + 8 <= buf@.len(),
    ensures
        r == le_value(buf@.subrange(at as int, at + 8)),
{
    read_le(buf, at, 8)
}

/// The pieces naming the first `count` argument kinds of an encoded method, comma separated.
pub open spec fn arg_pieces(b: Seq<u8>, count: nat) -> Seq<Piece>
    decreases count,
{
    if count == 0 {
        seq![]
    } else {
        let sep = if count > 1 {
            seq![Piece::Text(COMMA_SPACE)]
        } else {
            seq![]
        };
        arg_pieces(b, (count - 1) as nat) + sep + seq![Piece::Text(kind_text(b[6 + count - 1]))]
    }
}

/// The argument kinds are comma separated: `count` kinds render as `2 * count - 1` pieces, the
/// `j`th kind at position `2 * j`, and before every kind but the first, a `", "`.
pub proof fn lemma_args_comma_separated(b: Seq<u8>, count: nat)
    requires
        count >= 1,
    ensures
        arg_pieces(b, count).len() == 2 * count - 1,
        forall|j: int|
            0 <= j < count ==> #[trigger] arg_pieces(b, count)[2 * j] == Piece::Text(
                kind_text(b[6 + j]),
            ),
        forall|j: int|
            1 <= j < count ==> #[trigger] arg_pieces(b, count)[2 * j - 1] == Piece::Text(
                COMMA_SPACE,
            ),
    decreases count,
{
    if count > 1 {
        lemma_args_comma_separated(b, (count - 1) as nat);
        let prev = arg_pieces(b, (count - 1) as nat);
        let cur = arg_pieces(b, count);
        assert(cur == prev + seq![Piece::Text(COMMA_SPACE)] + seq![
            Piece::Text(kind_text(b[6 + count - 1])),
        ]);
        assert forall|j: int| 0 <= j < count implies #[trigger] cur[2 * j] == Piece::Text(
            kind_text(b[6 + j]),
        ) by {
            if j < count - 1 {
                assert(cur[2 * j] == prev[2 * j]);
            }
        }
        assert forall|j: int| 1 <= j < count implies #[trigger] cur[2 * j - 1] == Piece::Text(
            COMMA_SPACE,
        ) by {
            if j < count - 1 {
                assert(cur[2 * j - 1] == prev[2 * j - 1]);
            }
        }
    } else {
        assert(arg_pieces(b, 0) =~= Seq::<Piece>::empty());
    }
}

/// A rendered method line reads `  `, the name, `(`, the argument kinds with `", "` between
/// each and the next, `) -> `, the return kind and a newline: for `count` arguments (the count
/// byte, at most four), `6 + 2 * count - 1` pieces, or `6` with none.
pub proof fn lemma_method_line_layout(b: Seq<u8>, name_len: int)
    requires
        b.len() >= 26,
    ensures
        ({
            let count: int = if b[4] < 4 {
                b[4] as int
            } else {
                4
            };
            let p = method_pieces(b, name_len);
            &&& p.len() == (if count == 0 {
                6
            } else {
                5 + 2 * count
            })
            &&& p[0] == Piece::Text(INDENT)
            &&& p[1] == Piece::Span(10, name_len as usize)
            &&& p[2] == Piece::Text(OPEN_PAREN)
            &&& forall|j: int|
                0 <= j < count ==> #[trigger] p[3 + 2 * j] == Piece::Text(kind_text(b[6 + j]))
            &&& forall|j: int| 1 <= j < count ==> #[trigger] p[2 + 2 * j] == Piece::Text(COMMA_SPACE)
            &&& p[p.len() - 3] == Piece::Text(CLOSE_PAREN_ARROW)
            &&& p[p.len() - 2] == Piece::Text(kind_text(b[5]))
            &&& p[p.len() - 1] == Piece::Text(NEWLINE)
        }),
{
    let count: nat = if b[4] < 4 {
        b[4] as nat
    } else {
        4
    };
    let head = seq![Piece::Text(INDENT), Piece::Span(10, name_len as usize), Piece::Text(OPEN_PAREN)];
    let args = arg_pieces(b, count);
    let p = method_pieces(b, name_len);
    if count >= 1 {
        lemma_args_comma_separated(b, count);
        assert forall|j: int| 0 <= j < count implies #[trigger] p[3 + 2 * j] == Piece::Text(
            kind_text(b[6 + j]),
        ) by {
            assert(p[3 + 2 * j] == args[2 * j]);
        }
        assert forall|j: int| 1 <= j < count implies #[trigger] p[2 + 2 * j] == Piece::Text(
            COMMA_SPACE,
        ) by {
            assert(p[2 + 2 * j] == args[2 * j - 1]);
        }
    } else {
        assert(args =~= Seq::<Piece>::empty());
    }
}

/// `  <name>(<kind>, <kind>) -> <kind>` for the method encoded in `b`, whose name field holds
/// `name_len` bytes: the argument count is at offset 4, the return kind at 5, up to four
/// argument kinds from 6, and the zero-padded name from 10.
pub open spec fn method_pieces(b: Seq<u8>, name_len: int) -> Seq<Piece> {
    let count: nat = if b[4] < 4 {
        b[4] as nat
    } else {
        4
    };
    seq![Piece::Text(INDENT), Piece::Span(10, name_len as usize), Piece::Text(OPEN_PAREN)]
        + arg_pieces(b, count) + seq![
        Piece::Text(CLOSE_PAREN_ARROW),
        Piece::Text(kind_text(b[5])),
        Piece::Text(NEWLINE),
    ]
}

/// Renders one encoded method, as a description lists it.
pub fn method_line(buf: &[u8]) -> (r: Vec<Piece>)
    requires
        buf@.len() >= 26,
    ensures
        r@.len() > 1,
        r@[1] matches Piece::Span(_, n) && is_field_len(buf@, 10, 16, n as int) && r@
            == method_pieces(buf@, n as int),
{
    let mut out: Vec<Piece> = Vec::new();
    out.push(Piece::Text(INDENT));
    let n = name_field_len(buf, 10, 16);
    out.push(Piece::Span(10, n));
    out.push(Piece::Text(OPEN_PAREN));
    let ghost head = out@;
    let count = buf[4] as usize;
    let mut i: usize = 0;
    while i < count && i < 4
        invariant
            buf@.len() >= 26,
            count == buf@[4],
            i <= 4,
            i <= count,
            out@ == head + arg_pieces(buf@, i as nat),
        decreases 4 - i,
    {
        if i > 0 {
            out.push(Piece::Text(COMMA_SPACE));
        }
        out.push(Piece::Text(kind_name(buf[6 + i])));
        i = i + 1;
        assert(out@ =~= head + arg_pieces(buf@, i as nat));
    }
    out.push(Piece::Text(CLOSE_PAREN_ARROW));
    out.push(Piece::Text(kind_name(buf[5])));
    out.push(Piece::Text(NEWLINE));
    assert(out@ =~= method_pieces(buf@, n as int));
    out
}

/// `  #<seq> thread <actor> <action> kind <kind> rights <rights> detail <detail>` for the event
/// encoded in `b`: `seq` at offset 0, `actor` at 8, `detail` at 16, `rights` at 24, the action
/// at 28 and the kind at 29.
pub open spec fn event_pieces(b: Seq<u8>) -> Seq<Piece> {
    seq![
        Piece::Text(EVENT_HASH),
        Piece::Number(le_value(b.subrange(0, 8)) as u64),
        Piece::Text(EVENT_THREAD),
        Piece::Number(le_value(b.subrange(8, 16)) as u64),
        Piece::Text(SPACE),
        Piece::Text(action_text(b[28])),
        Piece::Text(EVENT_KIND),
        Piece::Number(b[29] as u64),
        Piece::Text(EVENT_RIGHTS),
        Piece::Number(le_value(b.subrange(24, 28)) as u64),
        Piece::Text(EVENT_DETAIL),
        Piece::Number(le_value(b.subrange(16, 24)) as u64),
        Piece::Text(NEWLINE),
    ]
}

/// Renders one encoded journal event, as `audit` lists it.
pub fn event_line(buf: &[u8]) -> (r: Vec<Piece>)
    requires
        buf@.len() >= 32,
    ensures
        r@ == event_pieces(buf@),
{
    let seq = read_u64_le(buf, 0);
    let actor = read_u64_le(buf, 8);
    let detail = read_u64_le(buf, 16);
    let rights = read_u32_le(buf, 24);
    let action = buf[28];
    let kind = buf[29];
    let mut out: Vec<Piece> = Vec::new();
    out.push(Piece::Text(EVENT_HASH));
    out.push(Piece::Number(seq));
    out.push(Piece::Text(EVENT_THREAD));
    out.push(Piece::Number(actor));
    out.push(Piece::Text(SPACE));
    out.push(Piece::Text(action_name(action)));
    out.push(Piece::Text(EVENT_KIND));
    out.push(Piece::Number(kind as u64));
    out.push(Piece::Text(EVENT_RIGHTS));
    out.push(Piece::Number(rights as u64));
    out.push(Piece::Text(EVENT_DETAIL));
    out.push(Piece::Number(detail));
    out.push(Piece::Text(NEWLINE));
    assert(out@ =~= event_pieces(buf@));
    out
}

} // verus!
