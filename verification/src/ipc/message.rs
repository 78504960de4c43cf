//! The unit IPC moves: a header naming an interface and a method, plus up to 64 bytes of
//! inline payload. Interface `0` is reserved, so a caller that forgot to set it is told so.

use vstd::prelude::*;
use vstd::slice::slice_subrange;

use crate::ipc::error::IpcError;

verus! {

/// Largest body a [`Message`] can carry, in bytes.
pub const MAX_PAYLOAD: usize = 64;

/// What a message is about, independent of its bytes.
#[derive(Debug, Clone, Copy, PartialEq, Eq, Structural)]
pub struct Header {
    /// Which interface `method` belongs to. Never `0` on a message built by `Message::new`.
    pub interface: u32,
    /// Which operation on `interface` this message invokes.
    pub method: u32,
    /// How many bytes of `payload` are meaningful.
    pub len: u32,
}

/// A header plus its inline payload.
#[derive(Debug, Clone, Copy, PartialEq, Eq)]
pub struct Message {
    pub header: Header,
    pub payload: [u8; 64],
}

/// The payload `Message::new` builds for a body: the body, then zeros up to 64 bytes.
pub open spec fn padded_payload(body: Seq<u8>) -> Seq<u8> {
    body + Seq::new((64 - body.len()) as nat, |i: int| 0u8)
}

/// What `Message::new` returns for these arguments.
pub open spec fn new_message_result(interface: u32, method: u32, body: Seq<u8>) -> Result<
    (Header, Seq<u8>),
    IpcError,
> {
    if interface == 0 {
        Err(IpcError::UntypedMessage)
    } else if body.len() > 64 {
        Err(IpcError::PayloadTooLarge)
    } else {
        Ok((Header { interface, method, len: body.len() as u32 }, padded_payload(body)))
    }
}

impl Message {
    /// The meaningful bytes: the first `header.len` of the payload.
    pub open spec fn body_spec(&self) -> Seq<u8> {
        self.payload@.subrange(0, self.header.len as int)
    }

    /// Builds a message addressed to `interface`/`method`, copying `body` into the payload.
    /// Fails `UntypedMessage` for interface `0`, and otherwise `PayloadTooLarge` for a body
    /// longer than [`MAX_PAYLOAD`].
    pub fn new(interface: u32, method: u32, body: &[u8]) -> (r: Result<Message, IpcError>)
        ensures
            match (r, new_message_result(interface, method, body@)) {
                (Ok(m), Ok((h, p))) => m.header == h && m.payload@ == p,
                (Err(e), Err(f)) => e == f,
                _ => false,
            },
    {
        if interface == 0 {
            return Err(IpcError::UntypedMessage);
        }
        if body.len() > MAX_PAYLOAD {
            return Err(IpcError::PayloadTooLarge);
        }
        let mut payload = [0u8; 64];
        let mut i: usize = 0;
        while i < body.len()
            invariant
                body@.len() <= 64,
                i <= body@.len(),
                forall|k: int| 0 <= k < i ==> payload@[k] == body@[k],
                forall|k: int| i <= k < 64 ==> payload@[k] == 0,
            decreases body@.len() - i,
        {
            payload[i] = body[i];
            i = i + 1;
        }
        assert(payload@ =~= padded_payload(body@));
        Ok(
            Message {
                header: Header { interface, method, len: body.len() as u32 },
                payload,
            },
        )
    }

    /// A message with no body, refused for interface `0` exactly as `new` refuses it.
    pub fn empty(interface: u32, method: u32) -> (r: Result<Message, IpcError>)
        ensures
            match (r, new_message_result(interface, method, Seq::<u8>::empty())) {
                (Ok(m), Ok((h, p))) => m.header == h && m.payload@ == p,
                (Err(e), Err(f)) => e == f,
                _ => false,
            },
    {
        let none: [u8; 0] = [];
        Self::new(interface, method, none.as_slice())
    }

    /// The message body: the first `header.len` bytes of the payload, never the padding.
    pub fn body(&self) -> (b: &[u8])
        requires
            self.header.len <= 64,
        ensures
            b@ == self.body_spec(),
    {
        slice_subrange(self.payload.as_slice(), 0, self.header.len as usize)
    }
}

/// A built message gives back exactly the body it was built from, its padding is zero, and
/// its length never exceeds [`MAX_PAYLOAD`].
pub proof fn message_body_round_trip(interface: u32, method: u32, body: Seq<u8>)
    requires
        new_message_result(interface, method, body) is Ok,
    ensures
        ({
            let (h, p) = new_message_result(interface, method, body)->Ok_0;
            &&& h.len <= 64
            &&& h.interface != 0
            &&& p.subrange(0, h.len as int) == body
            &&& forall|i: int| h.len <= i < 64 ==> p[i] == 0
        }),
{
    let (h, p) = new_message_result(interface, method, body)->Ok_0;
    assert(p.subrange(0, h.len as int) =~= body);
}

} // verus!
