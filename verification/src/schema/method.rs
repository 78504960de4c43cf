//! A single callable operation — its id, name, argument kinds and return kind — and the fixed
//! little-endian layout that carries it across a syscall boundary:
//!
//! | Offset | Bytes | Field |
//! | --- | --- | --- |
//! | 0 | 4 | method id (`u32`) |
//! | 4 | 1 | argument count |
//! | 5 | 1 | return kind |
//! | 6 | 4 | argument kinds, padded with `ArgKind::Empty` |
//! | 10 | 16 | name, zero-padded |

use vstd::prelude::*;
use vstd::bytes::*;
use vstd::slice::slice_subrange;
use vstd::string::StringSliceAdditionalSpecFns;

use crate::ipc::registry::{Name, name_field, valid_name_text};
use crate::schema::error::SchemaError;
use crate::text::str_from_utf8;

verus! {

/// Longest argument list a [`Method`] can declare.
pub const MAX_ARGS: usize = 4;

/// Byte width of an encoded [`Method`].
pub const ENCODED_METHOD_BYTES: usize = 26;

/// What kind of value occupies an argument or return slot.
#[derive(Debug, Clone, Copy, PartialEq, Eq, Structural)]
pub enum ArgKind {
    /// No argument occupies this slot, or a method return_kind nothing.
    Empty,
    /// A capability handle.
    Handle,
    /// A byte string of bounded length.
    Bytes,
    /// A plain integer.
    Number,
    /// A capability's rights bitmask.
    Rights,
}

/// The stable wire value of each kind.
pub open spec fn kind_byte(k: ArgKind) -> u8 {
    match k {
        ArgKind::Empty => 0,
        ArgKind::Handle => 1,
        ArgKind::Bytes => 2,
        ArgKind::Number => 3,
        ArgKind::Rights => 4,
    }
}

/// The kind a wire value names: 0 through 4 name one each, nothing else does.
pub open spec fn kind_of_byte(b: u8) -> Option<ArgKind> {
    if b == 0 {
        Some(ArgKind::Empty)
    } else if b == 1 {
        Some(ArgKind::Handle)
    } else if b == 2 {
        Some(ArgKind::Bytes)
    } else if b == 3 {
        Some(ArgKind::Number)
    } else if b == 4 {
        Some(ArgKind::Rights)
    } else {
        None
    }
}

impl ArgKind {
    /// The stable wire value for this kind.
    pub fn as_u8(self) -> (b: u8)
        ensures
            b == kind_byte(self),
    {
        match self {
            ArgKind::Empty => 0,
            ArgKind::Handle => 1,
            ArgKind::Bytes => 2,
            ArgKind::Number => 3,
            ArgKind::Rights => 4,
        }
    }

    /// The kind `byte` names, or `None` if it names none of them.
    pub fn from_u8(byte: u8) -> (k: Option<ArgKind>)
        ensures
            k == kind_of_byte(byte),
    {
        match byte {
            0 => Some(ArgKind::Empty),
            1 => Some(ArgKind::Handle),
            2 => Some(ArgKind::Bytes),
            3 => Some(ArgKind::Number),
            4 => Some(ArgKind::Rights),
            _ => None,
        }
    }
}

/// Every kind round-trips through its wire value, and only 0 through 4 decode.
pub proof fn arg_kind_round_trip(k: ArgKind, b: u8)
    ensures
        kind_of_byte(kind_byte(k)) == Some(k),
        kind_of_byte(b) == Some(k) ==> kind_byte(k) == b,
        kind_of_byte(b) is Some <==> b <= 4,
{
}

/// One callable operation: a wire-stable id, a name, up to [`MAX_ARGS`] argument kinds, and one
/// return kind.
#[derive(Debug, Clone, Copy, PartialEq, Eq)]
pub struct Method {
    id: u32,
    name: Name,
    args: [ArgKind; 4],
    arg_count: u8,
    return_kind: ArgKind,
}

/// The 26 bytes `encode` writes for a method with these fields.
pub open spec fn method_bytes(
    id: u32,
    arg_count: u8,
    return_kind: ArgKind,
    args: Seq<ArgKind>,
    name_text: Seq<u8>,
) -> Seq<u8> {
    spec_u32_to_le_bytes(id) + seq![arg_count, kind_byte(return_kind)] + args.map_values(
        |k: ArgKind| kind_byte(k),
    ) + name_field(name_text)
}

/// The length of the text in a 16-byte name field: up to its first zero, or all 16.
pub open spec fn field_text_len(f: Seq<u8>) -> int {
    if exists|i: int| 0 <= i < f.len() && f[i] == 0 {
        choose|i: int| 0 <= i < f.len() && f[i] == 0 && forall|j: int| 0 <= j < i ==> f[j] != 0
    } else {
        f.len() as int
    }
}

/// Whether `b` is an encoding `decode` accepts: long enough, an argument count of at most
/// [`MAX_ARGS`], recognised kind bytes, and a name field whose text is a valid name.
pub open spec fn decodable(b: Seq<u8>) -> bool {
    &&& b.len() >= 26
    &&& b[4] <= 4
    &&& kind_of_byte(b[5]) is Some
    &&& forall|i: int| 6 <= i < 10 ==> #[trigger] kind_of_byte(b[i]) is Some
    &&& valid_name_text(b.subrange(10, 26).take(field_text_len(b.subrange(10, 26))))
}

/// The fields `decode` reads out of an encoding: id, argument count, return kind, all four
/// argument slots, and the name text.
pub open spec fn decoded_fields(b: Seq<u8>) -> (u32, u8, ArgKind, Seq<ArgKind>, Seq<u8>) {
    (
        spec_u32_from_le_bytes(b.subrange(0, 4)),
        b[4],
        kind_of_byte(b[5])->Some_0,
        Seq::new(4, |j: int| kind_of_byte(b[6 + j])->Some_0),
        b.subrange(10, 26).take(field_text_len(b.subrange(10, 26))),
    )
}

/// Encoding round-trips: the bytes `encode` writes for any method fields are decodable, and
/// decoding them gives back the same id, argument count, return kind, argument slots and name.
pub proof fn method_round_trip(
    id: u32,
    arg_count: u8,
    return_kind: ArgKind,
    args: Seq<ArgKind>,
    text: Seq<u8>,
)
    requires
        arg_count <= 4,
        args.len() == 4,
        valid_name_text(text),
    ensures
        decodable(method_bytes(id, arg_count, return_kind, args, text)),
        decoded_fields(method_bytes(id, arg_count, return_kind, args, text)) == (
            id,
            arg_count,
            return_kind,
            args,
            text,
        ),
{
    lemma_auto_spec_u32_to_from_le_bytes();
    let b = method_bytes(id, arg_count, return_kind, args, text);
    assert(b.subrange(0, 4) =~= spec_u32_to_le_bytes(id));
    assert(b[4] == arg_count);
    assert(b[5] == kind_byte(return_kind));
    arg_kind_round_trip(return_kind, 0);
    assert forall|j: int| 0 <= j < 4 implies b[6 + j] == kind_byte(args[j]) by {}
    assert forall|j: int| 6 <= j < 10 implies #[trigger] kind_of_byte(b[j]) is Some by {
        arg_kind_round_trip(args[j - 6], 0);
    }
    assert(Seq::new(4, |j: int| kind_of_byte(b[6 + j])->Some_0) =~= args) by {
        assert forall|j: int| 0 <= j < 4 implies kind_of_byte(b[6 + j])->Some_0 == args[j] by {
            arg_kind_round_trip(args[j], 0);
        }
    }
    let f = b.subrange(10, 26);
    assert(f =~= name_field(text));
    lemma_field_text_len(f, text.len() as int);
    assert(f.take(text.len() as int) =~= text);
}

impl Method {
    #[verifier::type_invariant]
    closed spec fn counts_fit(self) -> bool {
        self.arg_count <= 4
    }

    pub closed spec fn id_spec(self) -> u32 {
        self.id
    }

    pub closed spec fn name_spec(self) -> Name {
        self.name
    }

    /// All four argument slots, including any past the declared count.
    pub closed spec fn arg_slots(self) -> Seq<ArgKind> {
        self.args@
    }

    pub closed spec fn arg_count_spec(self) -> u8 {
        self.arg_count
    }

    pub closed spec fn return_kind_spec(self) -> ArgKind {
        self.return_kind
    }

    /// The fields an encoding carries.
    pub open spec fn fields(self) -> (u32, u8, ArgKind, Seq<ArgKind>, Seq<u8>) {
        (self.id_spec(), self.arg_count_spec(), self.return_kind_spec(), self.arg_slots(), self.name_spec().text())
    }

    /// The declared arguments, in order.
    pub open spec fn args_spec(self) -> Seq<ArgKind> {
        self.arg_slots().take(self.arg_count_spec() as int)
    }

    /// Builds a method. Fails `TooManyArgs` for more than [`MAX_ARGS`] arguments; the unused
    /// tail of the argument slots is `ArgKind::Empty`.
    pub fn new(id: u32, name: Name, args: &[ArgKind], return_kind: ArgKind) -> (r: Result<
        Method,
        SchemaError,
    >)
        ensures
            args@.len() > 4 ==> r == Err::<Method, SchemaError>(SchemaError::TooManyArgs),
            args@.len() <= 4 ==> r is Ok && r->Ok_0.id_spec() == id && r->Ok_0.name_spec() == name
                && r->Ok_0.args_spec() == args@ && r->Ok_0.arg_count_spec() == args@.len()
                && r->Ok_0.return_kind_spec() == return_kind
                && r->Ok_0.arg_slots() == args@ + Seq::new(
                (4 - args@.len()) as nat,
                |i: int| ArgKind::Empty,
            ),
    {
        if args.len() > MAX_ARGS {
            return Err(SchemaError::TooManyArgs);
        }
        let mut slots = [ArgKind::Empty; 4];
        let mut i: usize = 0;
        while i < args.len()
            invariant
                args@.len() <= 4,
                i <= args@.len(),
                forall|k: int| 0 <= k < i ==> slots@[k] == args@[k],
                forall|k: int| i <= k < 4 ==> slots@[k] == ArgKind::Empty,
            decreases args@.len() - i,
        {
            slots[i] = args[i];
            i = i + 1;
        }
        let m = Method { id, name, args: slots, arg_count: args.len() as u8, return_kind };
        assert(m.args_spec() =~= args@);
        assert(m.arg_slots() =~= args@ + Seq::new((4 - args@.len()) as nat, |i: int| ArgKind::Empty));
        Ok(m)
    }

    pub fn id(&self) -> (i: u32)
        ensures
            i == self.id_spec(),
    {
        self.id
    }

    pub fn name(&self) -> (n: Name)
        ensures
            n == self.name_spec(),
    {
        self.name
    }

    /// The declared arguments, in order, never the padding past them.
    pub fn args(&self) -> (a: &[ArgKind])
        ensures
            a@ == self.args_spec(),
            a@.len() == self.arg_count_spec(),
            self.arg_count_spec() <= 4,
            self.arg_slots().len() == 4,
    {
        proof {
            use_type_invariant(self);
        }
        slice_subrange(self.args.as_slice(), 0, self.arg_count as usize)
    }

    pub fn return_kind(&self) -> (k: ArgKind)
        ensures
            k == self.return_kind_spec(),
    {
        self.return_kind
    }

    /// The bytes `encode` writes for this method.
    pub open spec fn encoding(self) -> Seq<u8> {
        method_bytes(
            self.id_spec(),
            self.arg_count_spec(),
            self.return_kind_spec(),
            self.arg_slots(),
            self.name_spec().text(),
        )
    }

    /// Writes this method's wire encoding into `out` and return_kind the number of bytes written.
    /// Fails `BufferTooSmall`, writing nothing, when `out` is shorter than
    /// [`ENCODED_METHOD_BYTES`].
    pub fn encode(&self, out: &mut [u8]) -> (r: Result<usize, SchemaError>)
        ensures
            final(out)@.len() == old(out)@.len(),
            old(out)@.len() < 26 ==> r == Err::<usize, SchemaError>(SchemaError::BufferTooSmall)
                && final(out)@ == old(out)@,
            old(out)@.len() >= 26 ==> r == Ok::<usize, SchemaError>(26) && final(out)@.subrange(
                0,
                26,
            ) == self.encoding() && final(out)@.subrange(26, old(out)@.len() as int) == old(
                out,
            )@.subrange(26, old(out)@.len() as int),
    {
        if out.len() < ENCODED_METHOD_BYTES {
            return Err(SchemaError::BufferTooSmall);
        }
        proof {
            use_type_invariant(self);
        }
        let ghost orig = out@;
        let id = u32_to_le_bytes(self.id);
        proof {
            lemma_auto_spec_u32_to_from_le_bytes();
        }
        let mut k: usize = 0;
        while k < 4
            invariant
                k <= 4,
                id@.len() == 4,
                out@.len() == orig.len(),
                orig.len() >= 26,
                forall|j: int| 0 <= j < k ==> out@[j] == id@[j],
                forall|j: int| k <= j < orig.len() ==> out@[j] == orig[j],
            decreases 4 - k,
        {
            out[k] = id[k];
            k = k + 1;
        }
        out[4] = self.arg_count;
        out[5] = self.return_kind.as_u8();
        let mut a: usize = 0;
        while a < 4
            invariant
                a <= 4,
                out@.len() == orig.len(),
                orig.len() >= 26,
                forall|j: int| 0 <= j < 4 ==> out@[j] == id@[j],
                out@[4] == self.arg_count,
                out@[5] == kind_byte(self.return_kind),
                forall|j: int| 0 <= j < a ==> out@[6 + j] == kind_byte(self.args@[j]),
                forall|j: int| 6 + a <= j < orig.len() ==> out@[j] == orig[j],
            decreases 4 - a,
        {
            out[6 + a] = self.args[a].as_u8();
            a = a + 1;
        }
        let text = self.name.as_str().as_bytes();
        let mut n: usize = 0;
        while n < 16
            invariant
                n <= 16,
                out@.len() == orig.len(),
                orig.len() >= 26,
                text@ == self.name.text(),
                valid_name_text(self.name.text()),
                forall|j: int| 0 <= j < 4 ==> out@[j] == id@[j],
                out@[4] == self.arg_count,
                out@[5] == kind_byte(self.return_kind),
                forall|j: int| 0 <= j < 4 ==> out@[6 + j] == kind_byte(self.args@[j]),
                forall|j: int| 0 <= j < n ==> out@[10 + j] == name_field(self.name.text())[j],
                forall|j: int| 26 <= j < orig.len() ==> out@[j] == orig[j],
            decreases 16 - n,
        {
            let byte = if n < text.len() {
                text[n]
            } else {
                0
            };
            out[10 + n] = byte;
            n = n + 1;
        }
        proof {
            assert(out@.subrange(0, 26) =~= self.encoding());
            assert(out@.subrange(26, orig.len() as int) =~= orig.subrange(26, orig.len() as int));
        }
        Ok(ENCODED_METHOD_BYTES)
    }

    /// The inverse of `encode`. `Malformed` covers a buffer shorter than
    /// [`ENCODED_METHOD_BYTES`], an argument count past [`MAX_ARGS`], a kind byte that names no
    /// kind, and a name field whose text is not a valid name.
    pub fn decode(bytes: &[u8]) -> (r: Result<Method, SchemaError>)
        ensures
            !decodable(bytes@) ==> r == Err::<Method, SchemaError>(SchemaError::Malformed),
            decodable(bytes@) ==> r is Ok && r->Ok_0.fields() == decoded_fields(bytes@),
    {
        if bytes.len() < ENCODED_METHOD_BYTES {
            return Err(SchemaError::Malformed);
        }
        let id = u32_from_le_bytes(slice_subrange(bytes, 0, 4));
        let arg_count = bytes[4];
        if arg_count as usize > MAX_ARGS {
            return Err(SchemaError::Malformed);
        }
        let return_kind = match ArgKind::from_u8(bytes[5]) {
            Some(k) => k,
            None => return Err(SchemaError::Malformed),
        };
        let mut args = [ArgKind::Empty; 4];
        let mut i: usize = 0;
        while i < 4
            invariant
                i <= 4,
                bytes@.len() >= 26,
                forall|j: int| 0 <= j < i ==> kind_of_byte(bytes@[6 + j]) == Some(args@[j]),
            decreases 4 - i,
        {
            match ArgKind::from_u8(bytes[6 + i]) {
                Some(k) => {
                    args[i] = k;
                },
                None => {
                    proof {
                        assert(kind_of_byte(bytes@[6 + i]) is None);
                    }
                    return Err(SchemaError::Malformed);
                },
            }
            i = i + 1;
        }
        let field = slice_subrange(bytes, 10, 26);
        let mut len: usize = 0;
        while len < 16 && field[len] != 0
            invariant
                len <= 16,
                field@.len() == 16,
                forall|j: int| 0 <= j < len ==> field@[j] != 0,
            decreases 16 - len,
        {
            len = len + 1;
        }
        proof {
            lemma_field_text_len(field@, len as int);
        }
        let text = slice_subrange(field, 0, len);
        let name = match str_from_utf8(text) {
            Some(s) => match Name::new(s) {
                Ok(n) => n,
                Err(_) => return Err(SchemaError::Malformed),
            },
            None => {
                proof {
                    if valid_name_text(text@) {
                        assert(forall|i: int| 0 <= i < text@.len() ==> #[trigger] text@[i] < 0x80);
                    }
                }
                return Err(SchemaError::Malformed);
            },
        };
        let m = Method { id, name, args, arg_count, return_kind };
        proof {
            let b = bytes@;
            assert(field@ =~= b.subrange(10, 26));
            assert(text@ =~= b.subrange(10, 26).take(field_text_len(b.subrange(10, 26))));
            assert(args@ =~= Seq::new(4, |j: int| kind_of_byte(b[6 + j])->Some_0));
            assert forall|k: int| 6 <= k < 10 implies #[trigger] kind_of_byte(b[k]) is Some by {
                assert(kind_of_byte(bytes@[6 + (k - 6)]) == Some(args@[k - 6]));
            }
            assert(valid_name_text(text@));
        }
        Ok(m)
    }
}

proof fn lemma_field_text_len(f: Seq<u8>, len: int)
    requires
        f.len() == 16,
        0 <= len <= 16,
        forall|j: int| 0 <= j < len ==> f[j] != 0,
        len < 16 ==> f[len] == 0,
    ensures
        field_text_len(f) == len,
{
    if exists|i: int| 0 <= i < f.len() && f[i] == 0 {
        let c = choose|i: int| 0 <= i < f.len() && f[i] == 0 && forall|j: int| 0 <= j < i ==> f[j] != 0;
        assert(0 <= c < f.len() && f[c] == 0 && forall|j: int| 0 <= j < c ==> f[j] != 0) by {
            assert(0 <= len < f.len() && f[len] == 0 && forall|j: int| 0 <= j < len ==> f[j] != 0);
        }
        if c < len {
            assert(f[c] != 0);
        }
        if len < c {
            assert(f[len] != 0);
        }
    }
}

} // verus!
