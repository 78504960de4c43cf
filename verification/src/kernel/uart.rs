//! The PL011 UART's output discipline: a terminal wants `\r\n`, so every `\n` goes out
//! preceded by `\r`. Putting the bytes in the data register is the caller's.

use vstd::prelude::*;

verus! {

/// What goes on the wire for `bytes`: each `\n` becomes `\r\n`, every other byte is sent as
/// it is.
pub open spec fn on_wire(bytes: Seq<u8>) -> Seq<u8>
    decreases bytes.len(),
{
    if bytes.len() == 0 {
        Seq::empty()
    } else {
        let last = bytes.last();
        on_wire(bytes.drop_last()) + if last == 0x0A {
            seq![0x0Du8, 0x0Au8]
        } else {
            seq![last]
        }
    }
}

/// The bytes to put on the wire to print `bytes`.
pub fn write_bytes(bytes: &[u8]) -> (out: Vec<u8>)
    ensures
        out@ == on_wire(bytes@),
{
    let mut out: Vec<u8> = Vec::new();
    let mut i: usize = 0;
    while i < bytes.len()
        invariant
            i <= bytes@.len(),
            out@ == on_wire(bytes@.take(i as int)),
        decreases bytes@.len() - i,
    {
        let byte = bytes[i];
        if byte == 0x0A {
            out.push(0x0D);
        }
        out.push(byte);
        proof {
            assert(bytes@.take(i + 1).drop_last() =~= bytes@.take(i as int));
        }
        i = i + 1;
    }
    assert(bytes@.take(i as int) =~= bytes@);
    out
}

/// The bytes to put on the wire to print `s`.
pub fn write_str(s: &str) -> (out: Vec<u8>)
    ensures
        out@ == on_wire(vstd::string::StringSliceAdditionalSpecFns::spec_bytes(s)),
{
    write_bytes(s.as_bytes())
}

} // verus!
