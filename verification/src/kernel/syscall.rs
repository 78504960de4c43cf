//! The system call surface — everything EL0 is able to ask for.
//!
//! A system call here is never "do this thing", it is "do this thing with this authority", and
//! the authority is the argument the kernel checks. A user thread holds no ambient permission
//! to reach the console, or anything else; it holds handles.

use vstd::bytes::{lemma_auto_spec_u32_to_from_le_bytes, spec_u32_to_le_bytes, u32_to_le_bytes};
use vstd::prelude::*;

use crate::cap::handle::Handle;
use crate::cap::object::{Object, kind_tag};
use crate::cap::rights::Rights;
use crate::cap::space::{
    CapError, CapSlot, CapSpace, NO_LINK, fresh, is_full, is_lowest_free, subtree, freed,
};
use crate::cap::handle::{lemma_pack_halves, pack};
use crate::cap::space;
use crate::ipc::message::{MAX_PAYLOAD, Message, new_message_result};
use crate::ipc::registry::{MAX_NAME, Name, valid_name_text};
use crate::kernel::ipc::{
    Ipc, IpcFault, Received, after_receive, after_send, endpoint_created, ipc_unchanged,
    lemma_waiting_messages_fit, looked_up, received, registration, sent,
};
use crate::kernel::sched::CAP_SLOTS;
use crate::kernel::user::{UserMemory, is_user_readable, is_user_writable};
use crate::text::str_from_utf8;

verus! {

/// Write bytes to whatever the capability names. `(handle, ptr, len) -> bytes written`.
pub const SYS_WRITE: u64 = 0;
/// Ask what a capability is and what it permits. `(handle) -> packed description`.
pub const SYS_IDENTIFY: u64 = 1;
/// Derive a narrower capability from one already held. `(handle, rights) -> handle`.
pub const SYS_DELEGATE: u64 = 2;
/// Withdraw everything derived from a capability. `(handle) -> how many were withdrawn`.
pub const SYS_REVOKE: u64 = 3;
/// Stop the calling thread. `(code)`, and does not return.
pub const SYS_EXIT: u64 = 4;
/// Create an IPC endpoint. `() -> handle`.
pub const SYS_ENDPOINT: u64 = 5;
/// Send a typed message. `(handle, interface, method, ptr, len) -> 0`. Requires `WRITE`.
pub const SYS_SEND: u64 = 6;
/// Receive one, waiting until it arrives. `(handle, ptr, cap) -> bytes written`. Requires
/// `READ`.
pub const SYS_RECV: u64 = 7;
/// Find an endpoint by name. `(registry, name_ptr, name_len) -> handle`. Requires `READ`.
pub const SYS_LOOKUP: u64 = 8;
/// Publish an endpoint under a name. `(registry, name_ptr, name_len, endpoint) -> 0`.
/// Requires `WRITE` on the registry and `GRANT` on the endpoint.
pub const SYS_REGISTER: u64 = 9;
/// Read console input. `(handle, ptr, cap) -> bytes read`. Requires `READ` on a console.
pub const SYS_READ: u64 = 10;
/// The name published at an index. `(registry, index, ptr, cap) -> len`.
pub const SYS_SERVICES: u64 = 11;
/// Timer ticks since boot. `() -> ticks`.
pub const SYS_UPTIME: u64 = 12;
/// The method at an index of a capability's interface. `(handle, index, ptr, cap) -> len`.
pub const SYS_DESCRIBE: u64 = 13;
/// The journal event at an index. `(journal, index, ptr, cap) -> len`.
pub const SYS_AUDIT: u64 = 14;

/// No such call.
pub const E_NOSYS: u64 = 0xFFFF_FFFF_FFFF_FFFF;
/// The handle names no slot at all.
pub const E_BADHANDLE: u64 = 0xFFFF_FFFF_FFFF_FFFE;
/// The slot exists but this handle is a stale reference to a capability that is gone.
pub const E_STALE: u64 = 0xFFFF_FFFF_FFFF_FFFD;
/// The capability is real but does not permit this.
pub const E_RIGHTS: u64 = 0xFFFF_FFFF_FFFF_FFFC;
/// A pointer argument does not name memory the caller may hand to the kernel.
pub const E_FAULT: u64 = 0xFFFF_FFFF_FFFF_FFFB;
/// The capability space is full.
pub const E_NOSLOT: u64 = 0xFFFF_FFFF_FFFF_FFFA;
/// The capability is valid but names the wrong kind of object for this call.
pub const E_WRONGTYPE: u64 = 0xFFFF_FFFF_FFFF_FFF9;
/// Nothing is published under that name, or the endpoint is gone.
pub const E_NOENT: u64 = 0xFFFF_FFFF_FFFF_FFF8;
/// A queue or the registry is full.
pub const E_FULL: u64 = 0xFFFF_FFFF_FFFF_FFF7;
/// The message or the name was malformed.
pub const E_INVAL: u64 = 0xFFFF_FFFF_FFFF_FFF6;

/// The longest single write accepted.
pub const MAX_WRITE: u64 = 4096;

/// Bytes of header a receiver gets before the body: interface, method and length, each `u32`.
pub const HEADER_BYTES: usize = 12;

/// What the caller of `dispatch` does next.
pub enum Effect {
    /// Resume the calling thread with this value in `x0`.
    Return(u64),
    /// Write these bytes to the console, then resume the caller with their count.
    Print(Vec<u8>),
    /// Copy these bytes into the caller's memory at `ptr`, then resume it with their count.
    Deliver { ptr: u64, bytes: Vec<u8> },
    /// Retire the calling thread with this exit code; it never resumes.
    Exit(u64),
    /// Park the caller on this endpoint until a send wakes it, then make the same call again.
    Park(u64),
    /// A message was queued on this endpoint: wake whoever is parked on it, then resume the
    /// caller with `0`.
    Wake(u64),
}

/// An `Effect`, with its bytes as a sequence.
pub enum EffectSpec {
    Return(u64),
    Print(Seq<u8>),
    Deliver(u64, Seq<u8>),
    Exit(u64),
    Park(u64),
    Wake(u64),
}

impl Effect {
    pub open spec fn view(&self) -> EffectSpec {
        match self {
            Effect::Return(v) => EffectSpec::Return(*v),
            Effect::Print(b) => EffectSpec::Print(b@),
            Effect::Deliver { ptr, bytes } => EffectSpec::Deliver(*ptr, bytes@),
            Effect::Exit(c) => EffectSpec::Exit(*c),
            Effect::Park(e) => EffectSpec::Park(*e),
            Effect::Wake(e) => EffectSpec::Wake(*e),
        }
    }
}

/// The error a capability failure comes back as.
pub open spec fn error_code(e: CapError) -> u64 {
    match e {
        CapError::OutOfSlots => E_NOSLOT,
        CapError::BadHandle => E_BADHANDLE,
        CapError::StaleHandle => E_STALE,
        CapError::InsufficientRights => E_RIGHTS,
    }
}

/// The error an endpoint or registry failure comes back as.
pub open spec fn fault_code(f: IpcFault) -> u64 {
    match f {
        IpcFault::NoSuchEndpoint | IpcFault::NotFound => E_NOENT,
        IpcFault::Full => E_FULL,
        IpcFault::Malformed(_) => E_INVAL,
    }
}

fn code_for_ipc(fault: IpcFault) -> (c: u64)
    ensures
        c == fault_code(fault),
{
    match fault {
        IpcFault::NoSuchEndpoint | IpcFault::NotFound => E_NOENT,
        IpcFault::Full => E_FULL,
        IpcFault::Malformed(_) => E_INVAL,
    }
}

pub(crate) fn code_for(error: CapError) -> (c: u64)
    ensures
        c == error_code(error),
{
    match error {
        CapError::OutOfSlots => E_NOSLOT,
        CapError::BadHandle => E_BADHANDLE,
        CapError::StaleHandle => E_STALE,
        CapError::InsufficientRights => E_RIGHTS,
    }
}

/// The rights bit `WRITE`.
pub open spec fn write_right() -> Rights {
    Rights(2)
}

/// What `SYS_WRITE` does: bounds and pointer first, then the capability, which must be a
/// console carrying `WRITE`; the bytes go to the console.
pub open spec fn write_effect(caps: Seq<CapSlot>, user: UserMemory, handle: Handle, ptr: u64, len: u64) -> EffectSpec {
    if len > MAX_WRITE || !user.readable(ptr, len) {
        EffectSpec::Return(E_FAULT)
    } else {
        match space::lookup(caps, handle) {
            Err(e) => EffectSpec::Return(error_code(e)),
            Ok(held) => if held.0 != Object::Console {
                EffectSpec::Return(E_WRONGTYPE)
            } else if !held.1.has(write_right()) {
                EffectSpec::Return(E_RIGHTS)
            } else {
                EffectSpec::Print(user.bytes_at(ptr, len))
            },
        }
    }
}

/// Writes user bytes to the console named by a capability.
fn write(caps: &CapSpace<CAP_SLOTS>, user: &UserMemory, handle: Handle, ptr: u64, len: u64) -> (e: Effect)
    requires
        caps.wf(),
        user.wf(),
    ensures
        e@ == write_effect(caps@, *user, handle, ptr, len),
{
    if len > MAX_WRITE {
        return Effect::Return(E_FAULT);
    }
    if !is_user_readable(user, ptr, len) {
        return Effect::Return(E_FAULT);
    }
    let (object, rights) = match caps.get(handle) {
        Ok(pair) => pair,
        Err(e) => return Effect::Return(code_for(e)),
    };
    if !matches!(object, Object::Console) {
        return Effect::Return(E_WRONGTYPE);
    }
    if !rights.contains(Rights::WRITE()) {
        return Effect::Return(E_RIGHTS);
    }
    Effect::Print(user.read(ptr, len))
}

/// What `SYS_IDENTIFY` answers: the object kind in the low byte and the rights above it, or
/// the error.
pub open spec fn identify_value(caps: Seq<CapSlot>, handle: Handle) -> u64 {
    match space::lookup(caps, handle) {
        Ok(held) => ((held.1.0 as u64) << 8u64) | (kind_tag(held.0) as u64),
        Err(e) => error_code(e),
    }
}

/// Describes a capability to its holder: what it is, and what it permits.
fn identify(caps: &CapSpace<CAP_SLOTS>, handle: Handle) -> (v: u64)
    requires
        caps.wf(),
    ensures
        v == identify_value(caps@, handle),
{
    match caps.get(handle) {
        Ok((object, rights)) => ((rights.bits() as u64) << 8u64) | (object.kind() as u64),
        Err(e) => code_for(e),
    }
}

/// A capability to `object` with `rights`, derived from `parent`, lands in the lowest free
/// slot and the answer is its raw handle — or, with no slot free, `E_NOSLOT` and nothing
/// changes.
pub open spec fn inserted(before: Seq<CapSlot>, after: Seq<CapSlot>, object: Object, rights: Rights, parent: u32, r: u64) -> bool {
    if is_full(before) {
        r == E_NOSLOT && after == before
    } else {
        forall|i: int|
            #[trigger] is_lowest_free(before, i) ==> r == pack(i as u32, before[i].generation)
                && after == before.update(i, fresh(object, rights, before[i].generation, parent))
    }
}

/// What `SYS_DELEGATE` does: a child of the capability, with its rights narrowed by `rights`,
/// when the capability carries `GRANT`.
pub open spec fn delegated(before: Seq<CapSlot>, after: Seq<CapSlot>, handle: Handle, rights: Rights, r: u64) -> bool {
    match space::lookup(before, handle) {
        Err(e) => r == error_code(e) && after == before,
        Ok(held) => if !held.1.has(Rights(4)) {
            r == E_RIGHTS && after == before
        } else {
            inserted(before, after, held.0, Rights(held.1.0 & rights.0), handle.slot(), r)
        },
    }
}

/// Hands on a narrower version of a capability the caller holds.
fn delegate(caps: &mut CapSpace<CAP_SLOTS>, handle: Handle, rights: Rights) -> (r: u64)
    requires
        old(caps).wf(),
    ensures
        final(caps).wf(),
        delegated(old(caps)@, final(caps)@, handle, rights, r),
{
    proof {
        old(caps).lemma_view_len();
    }
    match caps.delegate(handle, rights) {
        Ok(new) => {
            proof {
                lemma_pack_halves(new);
                assert forall|i: int| #[trigger] is_lowest_free(old(caps)@, i) implies i == new.slot() by {
                    CapSpace::<CAP_SLOTS>::lemma_lowest_free_unique(old(caps)@, i, new.slot() as int);
                }
            }
            new.raw()
        },
        Err(e) => code_for(e),
    }
}

/// What `SYS_REVOKE` does: everything derived from the capability is freed, when it carries
/// `REVOKE`, and the answer is how many slots that was.
pub open spec fn revoked(before: Seq<CapSlot>, after: Seq<CapSlot>, handle: Handle, r: u64) -> bool {
    match space::lookup(before, handle) {
        Err(e) => r == error_code(e) && after == before,
        Ok(held) => if !held.1.has(Rights(8)) {
            r == E_RIGHTS && after == before
        } else {
            let gone = subtree(before, handle.slot() as int);
            &&& r == gone.len()
            &&& after.len() == before.len()
            &&& forall|i: int|
                0 <= i < before.len() ==> #[trigger] after[i] == (if gone.contains(i) {
                    freed(before[i])
                } else {
                    before[i]
                })
        },
    }
}

/// Withdraws everything derived from a capability, leaving the caller's own intact.
fn revoke(caps: &mut CapSpace<CAP_SLOTS>, handle: Handle) -> (r: u64)
    requires
        old(caps).wf(),
    ensures
        final(caps).wf(),
        revoked(old(caps)@, final(caps)@, handle, r),
{
    proof {
        old(caps).lemma_view_len();
    }
    match caps.revoke(handle) {
        Ok(count) => count as u64,
        Err(e) => code_for(e),
    }
}

/// Which endpoint a capability names, when it names one and carries `needed`.
pub open spec fn endpoint_named(caps: Seq<CapSlot>, handle: Handle, needed: Rights) -> Result<u64, u64> {
    match space::lookup(caps, handle) {
        Err(e) => Err(error_code(e)),
        Ok(held) => match held.0 {
            Object::Endpoint(id) => if held.1.has(needed) {
                Ok(id)
            } else {
                Err(E_RIGHTS)
            },
            _ => Err(E_WRONGTYPE),
        },
    }
}

/// Resolves a handle to the endpoint it names, checking the rights the caller needs for it.
fn endpoint_of(caps: &CapSpace<CAP_SLOTS>, handle: Handle, needed: Rights) -> (r: Result<u64, u64>)
    requires
        caps.wf(),
    ensures
        r == endpoint_named(caps@, handle, needed),
{
    let (object, rights) = match caps.get(handle) {
        Ok(pair) => pair,
        Err(e) => return Err(code_for(e)),
    };
    let id = match object {
        Object::Endpoint(id) => id,
        _ => return Err(E_WRONGTYPE),
    };
    if !rights.contains(needed) {
        return Err(E_RIGHTS);
    }
    Ok(id)
}

/// Whether a capability names the registry and carries `needed`.
pub open spec fn registry_named(caps: Seq<CapSlot>, handle: Handle, needed: Rights) -> Result<(), u64> {
    match space::lookup(caps, handle) {
        Err(e) => Err(error_code(e)),
        Ok(held) => if held.0 != Object::Registry {
            Err(E_WRONGTYPE)
        } else if !held.1.has(needed) {
            Err(E_RIGHTS)
        } else {
            Ok(())
        },
    }
}

/// Checks that a handle names the registry with the rights this call needs.
pub(crate) fn registry_of(caps: &CapSpace<CAP_SLOTS>, handle: Handle, needed: Rights) -> (r: Result<(), u64>)
    requires
        caps.wf(),
    ensures
        r == registry_named(caps@, handle, needed),
{
    let (object, rights) = match caps.get(handle) {
        Ok(pair) => pair,
        Err(e) => return Err(code_for(e)),
    };
    if !matches!(object, Object::Registry) {
        return Err(E_WRONGTYPE);
    }
    if !rights.contains(needed) {
        return Err(E_RIGHTS);
    }
    Ok(())
}

/// Retires the calling thread with `code`.
fn exit(code: u64) -> (e: Effect)
    ensures
        e@ == EffectSpec::Exit(code),
{
    Effect::Exit(code)
}

/// Creates an endpoint and hands the caller a capability to it, with every right: the caller
/// made it.
fn endpoint(caps: &mut CapSpace<CAP_SLOTS>, ipc: &mut Ipc) -> (r: u64)
    requires
        old(caps).wf(),
        old(ipc).wf(),
    ensures
        final(caps).wf(),
        final(ipc).wf(),
        endpoint_created(*old(ipc), *final(ipc)),
        inserted(old(caps)@, final(caps)@, Object::Endpoint(old(ipc).next_id()), Rights(15), NO_LINK, r),
{
    let id = ipc.create_endpoint();
    proof {
        old(caps).lemma_view_len();
    }
    match caps.insert(Object::Endpoint(id), Rights::ALL()) {
        Ok(handle) => {
            proof {
                lemma_pack_halves(handle);
                assert forall|i: int| #[trigger] is_lowest_free(old(caps)@, i) implies i == handle.slot() by {
                    CapSpace::<CAP_SLOTS>::lemma_lowest_free_unique(old(caps)@, i, handle.slot() as int);
                }
            }
            handle.raw()
        },
        Err(e) => code_for(e),
    }
}

/// The bytes at `[ptr, ptr + len)`, or nothing for a zero length.
pub open spec fn body_at(user: UserMemory, ptr: u64, len: u64) -> Seq<u8> {
    if len > 0 {
        user.bytes_at(ptr, len)
    } else {
        Seq::empty()
    }
}

/// What `SYS_SEND` does: the capability must name an endpoint and carry `WRITE`; the body
/// must fit a message and lie in the caller's memory; the message must be typed. Then it is
/// queued, and the endpoint's waiters are woken.
pub open spec fn send_done(
    caps: Seq<CapSlot>,
    before: Ipc,
    after: Ipc,
    user: UserMemory,
    handle: Handle,
    interface: u64,
    method: u64,
    ptr: u64,
    len: u64,
    e: EffectSpec,
) -> bool {
    match endpoint_named(caps, handle, write_right()) {
        Err(c) => e == EffectSpec::Return(c) && ipc_unchanged(before, after),
        Ok(id) => if len > MAX_PAYLOAD {
            e == EffectSpec::Return(E_INVAL) && ipc_unchanged(before, after)
        } else if len > 0 && !user.readable(ptr, len) {
            e == EffectSpec::Return(E_FAULT) && ipc_unchanged(before, after)
        } else {
            match new_message_result(interface as u32, method as u32, body_at(user, ptr, len)) {
                Err(_) => e == EffectSpec::Return(E_INVAL) && ipc_unchanged(before, after),
                Ok((h, p)) => exists|m: Message|
                    #![trigger after_send(before.endpoints_view(), id, m)]
                    {
                        &&& m.header == h
                        &&& m.payload@ == p
                        &&& after.endpoints_view() == after_send(before.endpoints_view(), id, m)
                        &&& after.registry_view() == before.registry_view()
                        &&& after.registry_count() == before.registry_count()
                        &&& after.next_id() == before.next_id()
                        &&& e == match sent(before.endpoints_view(), id) {
                            Ok(_) => EffectSpec::Wake(id),
                            Err(f) => EffectSpec::Return(fault_code(f)),
                        }
                    },
            }
        },
    }
}

/// Sends a typed message to the endpoint a capability names.
fn send(
    caps: &CapSpace<CAP_SLOTS>,
    ipc: &mut Ipc,
    user: &UserMemory,
    handle: Handle,
    interface: u64,
    method: u64,
    ptr: u64,
    len: u64,
) -> (e: Effect)
    requires
        caps.wf(),
        old(ipc).wf(),
        user.wf(),
    ensures
        final(ipc).wf(),
        send_done(caps@, *old(ipc), *final(ipc), *user, handle, interface, method, ptr, len, e@),
{
    let id = match endpoint_of(caps, handle, Rights::WRITE()) {
        Ok(id) => id,
        Err(code) => return Effect::Return(code),
    };
    if len > MAX_PAYLOAD as u64 {
        return Effect::Return(E_INVAL);
    }
    if len > 0 && !is_user_readable(user, ptr, len) {
        return Effect::Return(E_FAULT);
    }
    let body: Vec<u8> = if len > 0 {
        user.read(ptr, len)
    } else {
        Vec::new()
    };
    assert(body@ == body_at(*user, ptr, len));
    let message = match Message::new(interface as u32, method as u32, body.as_slice()) {
        Ok(m) => m,
        Err(_) => return Effect::Return(E_INVAL),
    };
    let result = ipc.send(id, message);
    proof {
        assert(after_send(old(ipc).endpoints_view(), id, message) == ipc.endpoints_view());
    }
    match result {
        Ok(()) => Effect::Wake(id),
        Err(f) => Effect::Return(code_for_ipc(f)),
    }
}

/// The bytes a receiver is handed: interface, method and length, each little-endian, then the
/// body.
pub open spec fn frame(m: Message) -> Seq<u8> {
    spec_u32_to_le_bytes(m.header.interface) + spec_u32_to_le_bytes(m.header.method)
        + spec_u32_to_le_bytes(m.header.len) + m.body_spec()
}

/// Lays a message out for the receiver: header, then body.
fn frame_bytes(message: &Message) -> (out: Vec<u8>)
    requires
        message.header.len <= 64,
    ensures
        out@ == frame(*message),
{
    let mut out = u32_to_le_bytes(message.header.interface);
    let mut method = u32_to_le_bytes(message.header.method);
    out.append(&mut method);
    let mut len = u32_to_le_bytes(message.header.len);
    out.append(&mut len);
    let body = message.body();
    let ghost head = out@;
    let mut i: usize = 0;
    while i < body.len()
        invariant
            i <= body@.len(),
            out@ == head + body@.subrange(0, i as int),
        decreases body@.len() - i,
    {
        out.push(body[i]);
        i = i + 1;
        assert(out@ =~= head + body@.subrange(0, i as int));
    }
    assert(body@.subrange(0, i as int) =~= body@);
    out
}

/// What `SYS_RECV` does: the capability must name an endpoint and carry `READ`, and the
/// buffer must be writable; then the oldest waiting message is delivered — header, then body —
/// or, with none waiting, the caller parks. A message too big for the buffer is consumed and
/// refused with `E_FAULT`.
pub open spec fn recv_done(
    caps: Seq<CapSlot>,
    before: Ipc,
    after: Ipc,
    user: UserMemory,
    handle: Handle,
    ptr: u64,
    capacity: u64,
    e: EffectSpec,
) -> bool {
    match endpoint_named(caps, handle, Rights(1)) {
        Err(c) => e == EffectSpec::Return(c) && ipc_unchanged(before, after),
        Ok(id) => if !user.writable(ptr, capacity) {
            e == EffectSpec::Return(E_FAULT) && ipc_unchanged(before, after)
        } else {
            &&& after.endpoints_view() == after_receive(before.endpoints_view(), id)
            &&& after.registry_view() == before.registry_view()
            &&& after.registry_count() == before.registry_count()
            &&& after.next_id() == before.next_id()
            &&& match received(before.endpoints_view(), id) {
                Err(f) => e == EffectSpec::Return(fault_code(f)),
                Ok(None) => e == EffectSpec::Park(id),
                Ok(Some(m)) => if HEADER_BYTES + m.header.len > capacity {
                    e == EffectSpec::Return(E_FAULT)
                } else {
                    e == EffectSpec::Deliver(ptr, frame(m))
                },
            }
        },
    }
}

/// A receive hands over whatever waits, if it fits: when the caller holds `READ` on an endpoint
/// and a writable buffer of `capacity` bytes, and message `m` is the oldest waiting there, the
/// answer is `m` laid out as its 12 header bytes (interface, method and length, little-endian)
/// followed by its body, exactly when those `12 + len` bytes fit in the buffer, and `E_FAULT`
/// only when they do not.
pub proof fn lemma_recv_delivers_what_fits(
    caps0: Seq<CapSlot>,
    caps1: Seq<CapSlot>,
    ipc0: Ipc,
    ipc1: Ipc,
    user: UserMemory,
    args: Seq<u64>,
    e: EffectSpec,
    m: Message,
)
    requires
        ipc0.wf(),
        args.len() == 6,
        dispatched(caps0, caps1, ipc0, ipc1, user, SYS_RECV, args, e),
        endpoint_named(caps0, Handle(args[0]), Rights(1)) is Ok,
        user.writable(args[1], args[2]),
        received(ipc0.endpoints_view(), endpoint_named(caps0, Handle(args[0]), Rights(1))->Ok_0)
            == Ok::<Option<Message>, IpcFault>(Some(m)),
    ensures
        m.header.len <= 64,
        12 + m.header.len <= args[2] ==> e == EffectSpec::Deliver(args[1], frame(m)),
        12 + m.header.len > args[2] ==> e == EffectSpec::Return(E_FAULT),
        frame(m).len() == 12 + m.header.len,
        frame(m).subrange(0, 4) == spec_u32_to_le_bytes(m.header.interface),
        frame(m).subrange(4, 8) == spec_u32_to_le_bytes(m.header.method),
        frame(m).subrange(8, 12) == spec_u32_to_le_bytes(m.header.len),
        frame(m).subrange(12, 12 + m.header.len) == m.payload@.subrange(0, m.header.len as int),
{
    let id = endpoint_named(caps0, Handle(args[0]), Rights(1))->Ok_0;
    lemma_waiting_messages_fit(ipc0, id);
    lemma_auto_spec_u32_to_from_le_bytes();
    let f = frame(m);
    let h0 = spec_u32_to_le_bytes(m.header.interface);
    let h1 = spec_u32_to_le_bytes(m.header.method);
    let h2 = spec_u32_to_le_bytes(m.header.len);
    assert(h0.len() == 4 && h1.len() == 4 && h2.len() == 4);
    assert(f.subrange(0, 4) =~= h0);
    assert(f.subrange(4, 8) =~= h1);
    assert(f.subrange(8, 12) =~= h2);
    assert(f.subrange(12, 12 + m.header.len) =~= m.body_spec());
}

/// Takes a message for the caller, or parks it until one arrives.
fn recv(caps: &CapSpace<CAP_SLOTS>, ipc: &mut Ipc, user: &UserMemory, handle: Handle, ptr: u64, capacity: u64) -> (e: Effect)
    requires
        caps.wf(),
        old(ipc).wf(),
        user.wf(),
    ensures
        final(ipc).wf(),
        recv_done(caps@, *old(ipc), *final(ipc), *user, handle, ptr, capacity, e@),
{
    let id = match endpoint_of(caps, handle, Rights::READ()) {
        Ok(id) => id,
        Err(code) => return Effect::Return(code),
    };
    if !is_user_writable(user, ptr, capacity) {
        return Effect::Return(E_FAULT);
    }
    let message = match ipc.recv(id) {
        Ok(Received::Message(m)) => m,
        Ok(Received::Park) => return Effect::Park(id),
        Err(f) => return Effect::Return(code_for_ipc(f)),
    };
    let total = HEADER_BYTES as u64 + message.header.len as u64;
    if total > capacity {
        return Effect::Return(E_FAULT);
    }
    Effect::Deliver { ptr, bytes: frame_bytes(&message) }
}

/// The text of the name at `[ptr, ptr + len)`: `E_INVAL` for an empty or over-long name, or
/// one that is not printable ASCII; `E_FAULT` for memory the caller does not own.
pub open spec fn name_text(user: UserMemory, ptr: u64, len: u64) -> Result<Seq<u8>, u64> {
    if len == 0 || len > MAX_NAME {
        Err(E_INVAL)
    } else if !user.readable(ptr, len) {
        Err(E_FAULT)
    } else if !valid_name_text(user.bytes_at(ptr, len)) {
        Err(E_INVAL)
    } else {
        Ok(user.bytes_at(ptr, len))
    }
}

/// Copies a name out of user memory, rejecting anything that is not a valid one.
fn name_from_user(user: &UserMemory, ptr: u64, len: u64) -> (r: Result<Name, u64>)
    requires
        user.wf(),
    ensures
        match r {
            Ok(n) => name_text(*user, ptr, len) == Ok::<Seq<u8>, u64>(n.text()),
            Err(c) => name_text(*user, ptr, len) == Err::<Seq<u8>, u64>(c),
        },
{
    if len == 0 || len > MAX_NAME as u64 {
        return Err(E_INVAL);
    }
    if !is_user_readable(user, ptr, len) {
        return Err(E_FAULT);
    }
    let bytes = user.read(ptr, len);
    let text = match str_from_utf8(bytes.as_slice()) {
        Some(t) => t,
        None => {
            proof {
                if valid_name_text(bytes@) {
                    assert forall|i: int| 0 <= i < bytes@.len() implies #[trigger] bytes@[i] < 0x80 by {
                        assert(crate::ipc::registry::printable(bytes@[i]));
                    }
                }
            }
            return Err(E_INVAL);
        },
    };
    match Name::new(text) {
        Ok(n) => Ok(n),
        Err(_) => Err(E_INVAL),
    }
}

/// The rights a capability from `SYS_LOOKUP` carries: `READ | WRITE`, never `GRANT`.
pub open spec fn found_rights() -> Rights {
    Rights(3)
}

/// What `SYS_LOOKUP` does: with `READ` on the registry and a valid name, the endpoint
/// published under it comes back as a new capability carrying `READ | WRITE`.
pub open spec fn lookup_done(
    before: Seq<CapSlot>,
    after: Seq<CapSlot>,
    ipc: Ipc,
    user: UserMemory,
    registry: Handle,
    ptr: u64,
    len: u64,
    r: u64,
) -> bool {
    match registry_named(before, registry, Rights(1)) {
        Err(c) => r == c && after == before,
        Ok(_) => match name_text(user, ptr, len) {
            Err(c) => r == c && after == before,
            Ok(text) => exists|n: Name|
                #![trigger looked_up(ipc.registry_view(), n)]
                n.text() == text && match looked_up(ipc.registry_view(), n) {
                    Err(f) => r == fault_code(f) && after == before,
                    Ok(id) => inserted(before, after, Object::Endpoint(id), found_rights(), NO_LINK, r),
                },
        },
    }
}

/// Finds an endpoint by name and hands back a capability to it that may talk to it but not
/// pass it on.
fn lookup(caps: &mut CapSpace<CAP_SLOTS>, ipc: &Ipc, user: &UserMemory, registry: Handle, ptr: u64, len: u64) -> (r: u64)
    requires
        old(caps).wf(),
        ipc.wf(),
        user.wf(),
    ensures
        final(caps).wf(),
        lookup_done(old(caps)@, final(caps)@, *ipc, *user, registry, ptr, len, r),
{
    if let Err(code) = registry_of(caps, registry, Rights::READ()) {
        return code;
    }
    let name = match name_from_user(user, ptr, len) {
        Ok(n) => n,
        Err(code) => return code,
    };
    let id = match ipc.lookup(&name) {
        Ok(id) => id,
        Err(f) => return code_for_ipc(f),
    };
    let rights = Rights::READ().union(Rights::WRITE());
    proof {
        old(caps).lemma_view_len();
        assert(rights == found_rights()) by {
            assert(1u32 | 2u32 == 3u32) by (bit_vector);
        }
    }
    match caps.insert(Object::Endpoint(id), rights) {
        Ok(handle) => {
            proof {
                lemma_pack_halves(handle);
                assert forall|i: int| #[trigger] is_lowest_free(old(caps)@, i) implies i == handle.slot() by {
                    CapSpace::<CAP_SLOTS>::lemma_lowest_free_unique(old(caps)@, i, handle.slot() as int);
                }
            }
            handle.raw()
        },
        Err(e) => code_for(e),
    }
}

/// What `SYS_REGISTER` does: with `WRITE` on the registry, `GRANT` on the endpoint and a valid
/// name, the endpoint is published under the name.
pub open spec fn register_done(
    caps: Seq<CapSlot>,
    before: Ipc,
    after: Ipc,
    user: UserMemory,
    registry: Handle,
    ptr: u64,
    len: u64,
    endpoint: Handle,
    r: u64,
) -> bool {
    match registry_named(caps, registry, write_right()) {
        Err(c) => r == c && ipc_unchanged(before, after),
        Ok(_) => match endpoint_named(caps, endpoint, Rights(4)) {
            Err(c) => r == c && ipc_unchanged(before, after),
            Ok(id) => match name_text(user, ptr, len) {
                Err(c) => r == c && ipc_unchanged(before, after),
                Ok(text) => exists|n: Name|
                    #![trigger registration(before.registry_view(), before.registry_count(), n)]
                    {
                        &&& n.text() == text
                        &&& after.endpoints_view() == before.endpoints_view()
                        &&& after.next_id() == before.next_id()
                        &&& match registration(before.registry_view(), before.registry_count(), n) {
                            Ok(_) => {
                                &&& r == 0
                                &&& after.registry_view() == Some(
                                    before.registry_view()->0.insert(n, id),
                                )
                                &&& after.registry_count() == Some(before.registry_count()->0 + 1)
                            },
                            Err(f) => {
                                &&& r == fault_code(f)
                                &&& after.registry_view() == before.registry_view()
                                &&& after.registry_count() == before.registry_count()
                            },
                        }
                    },
            },
        },
    }
}

/// Publishes an endpoint the caller holds under a name.
fn register(
    caps: &CapSpace<CAP_SLOTS>,
    ipc: &mut Ipc,
    user: &UserMemory,
    registry: Handle,
    ptr: u64,
    len: u64,
    endpoint: Handle,
) -> (r: u64)
    requires
        caps.wf(),
        old(ipc).wf(),
        user.wf(),
    ensures
        final(ipc).wf(),
        register_done(caps@, *old(ipc), *final(ipc), *user, registry, ptr, len, endpoint, r),
{
    if let Err(code) = registry_of(caps, registry, Rights::WRITE()) {
        return code;
    }
    let id = match endpoint_of(caps, endpoint, Rights::GRANT()) {
        Ok(id) => id,
        Err(code) => return code,
    };
    let name = match name_from_user(user, ptr, len) {
        Ok(n) => n,
        Err(code) => return code,
    };
    let result = ipc.register(name, id);
    proof {
        assert(registration(old(ipc).registry_view(), old(ipc).registry_count(), name) == result);
    }
    match result {
        Ok(()) => 0,
        Err(f) => code_for_ipc(f),
    }
}

/// What `dispatch` does for call `number` with arguments `args`, given the caller's
/// capabilities and memory before and after and the IPC state before and after. Calls that
/// only read leave everything as it was; a number that names no call is `E_NOSYS`.
pub open spec fn dispatched(
    caps0: Seq<CapSlot>,
    caps1: Seq<CapSlot>,
    ipc0: Ipc,
    ipc1: Ipc,
    user: UserMemory,
    number: u64,
    args: Seq<u64>,
    e: EffectSpec,
) -> bool {
    if number == SYS_WRITE {
        e == write_effect(caps0, user, Handle(args[0]), args[1], args[2]) && caps1 == caps0
            && ipc_unchanged(ipc0, ipc1)
    } else if number == SYS_IDENTIFY {
        e == EffectSpec::Return(identify_value(caps0, Handle(args[0]))) && caps1 == caps0
            && ipc_unchanged(ipc0, ipc1)
    } else if number == SYS_DELEGATE {
        &&& e matches EffectSpec::Return(r) && delegated(
            caps0,
            caps1,
            Handle(args[0]),
            Rights(args[1] as u32),
            r,
        )
        &&& ipc_unchanged(ipc0, ipc1)
    } else if number == SYS_REVOKE {
        &&& e matches EffectSpec::Return(r) && revoked(caps0, caps1, Handle(args[0]), r)
        &&& ipc_unchanged(ipc0, ipc1)
    } else if number == SYS_EXIT {
        e == EffectSpec::Exit(args[0]) && caps1 == caps0 && ipc_unchanged(ipc0, ipc1)
    } else if number == SYS_ENDPOINT {
        &&& e matches EffectSpec::Return(r) && inserted(
            caps0,
            caps1,
            Object::Endpoint(ipc0.next_id()),
            Rights(15),
            NO_LINK,
            r,
        )
        &&& endpoint_created(ipc0, ipc1)
    } else if number == SYS_SEND {
        send_done(caps0, ipc0, ipc1, user, Handle(args[0]), args[1], args[2], args[3], args[4], e)
            && caps1 == caps0
    } else if number == SYS_RECV {
        recv_done(caps0, ipc0, ipc1, user, Handle(args[0]), args[1], args[2], e) && caps1 == caps0
    } else if number == SYS_LOOKUP {
        &&& e matches EffectSpec::Return(r) && lookup_done(
            caps0,
            caps1,
            ipc0,
            user,
            Handle(args[0]),
            args[1],
            args[2],
            r,
        )
        &&& ipc_unchanged(ipc0, ipc1)
    } else if number == SYS_REGISTER {
        &&& e matches EffectSpec::Return(r) && register_done(
            caps0,
            ipc0,
            ipc1,
            user,
            Handle(args[0]),
            args[1],
            args[2],
            Handle(args[3]),
            r,
        )
        &&& caps1 == caps0
    } else {
        e == EffectSpec::Return(E_NOSYS) && caps1 == caps0 && ipc_unchanged(ipc0, ipc1)
    }
}

/// Routes a trap from EL0 to the call it named: the number from `x8`, the arguments from
/// `x0`–`x5`. The caller performs the returned effect.
pub fn dispatch(
    caps: &mut CapSpace<CAP_SLOTS>,
    ipc: &mut Ipc,
    user: &UserMemory,
    number: u64,
    args: [u64; 6],
) -> (e: Effect)
    requires
        old(caps).wf(),
        old(ipc).wf(),
        user.wf(),
    ensures
        final(caps).wf(),
        final(ipc).wf(),
        dispatched(old(caps)@, final(caps)@, *old(ipc), *final(ipc), *user, number, args@, e@),
{
    if number == SYS_WRITE {
        write(caps, user, Handle::from_raw(args[0]), args[1], args[2])
    } else if number == SYS_IDENTIFY {
        Effect::Return(identify(caps, Handle::from_raw(args[0])))
    } else if number == SYS_DELEGATE {
        Effect::Return(delegate(caps, Handle::from_raw(args[0]), Rights::from_bits(args[1] as u32)))
    } else if number == SYS_REVOKE {
        Effect::Return(revoke(caps, Handle::from_raw(args[0])))
    } else if number == SYS_EXIT {
        exit(args[0])
    } else if number == SYS_ENDPOINT {
        Effect::Return(endpoint(caps, ipc))
    } else if number == SYS_SEND {
        send(caps, ipc, user, Handle::from_raw(args[0]), args[1], args[2], args[3], args[4])
    } else if number == SYS_RECV {
        recv(caps, ipc, user, Handle::from_raw(args[0]), args[1], args[2])
    } else if number == SYS_LOOKUP {
        Effect::Return(lookup(caps, ipc, user, Handle::from_raw(args[0]), args[1], args[2]))
    } else if number == SYS_REGISTER {
        Effect::Return(
            register(
                caps,
                ipc,
                user,
                Handle::from_raw(args[0]),
                args[1],
                args[2],
                Handle::from_raw(args[3]),
            ),
        )
    } else {
        Effect::Return(E_NOSYS)
    }
}

/// A write through a capability derived from one that has since been revoked is refused as
/// stale — not as a bad handle, and not as missing rights: the grant was withdrawn.
pub proof fn revoked_grants_write_stale(
    before: Seq<CapSlot>,
    after: Seq<CapSlot>,
    parent: Handle,
    child: Handle,
    count: u64,
    user: UserMemory,
    ptr: u64,
    len: u64,
)
    requires
        revoked(before, after, parent, count),
        space::lookup(before, parent) matches Ok(held) && held.1.has(Rights(8)),
        space::lookup(before, child) is Ok,
        space::descends_from(before, child.slot() as int, parent.slot() as int),
        len <= MAX_WRITE,
        user.readable(ptr, len),
    ensures
        write_effect(after, user, child, ptr, len) == EffectSpec::Return(E_STALE),
{
    let i = child.slot() as int;
    assert(subtree(before, parent.slot() as int).contains(i));
    space::freed_handles_are_stale(before, after, child);
}

/// A capability found by name may talk to the endpoint but never pass it on: it carries `READ`
/// and `WRITE` and not `GRANT`, so publishing it under a name of one's own is refused.
pub proof fn found_capabilities_cannot_be_republished(caps: Seq<CapSlot>, endpoint: Handle, id: u64)
    requires
        space::lookup(caps, endpoint) == Ok::<(Object, Rights), CapError>(
            (Object::Endpoint(id), found_rights()),
        ),
    ensures
        found_rights().has(Rights(1)),
        found_rights().has(write_right()),
        !found_rights().has(Rights(4)),
        endpoint_named(caps, endpoint, Rights(4)) == Err::<u64, u64>(E_RIGHTS),
{
    assert(3u32 & 1u32 == 1u32 && 3u32 & 2u32 == 2u32 && 3u32 & 4u32 != 4u32) by (bit_vector);
}

/// `SYS_IDENTIFY` on a live capability answers its object kind in the low byte and its rights
/// in the bits above.
pub proof fn identify_packs_kind_and_rights(caps: Seq<CapSlot>, handle: Handle)
    requires
        space::lookup(caps, handle) is Ok,
    ensures
        identify_value(caps, handle) & 0xFF == kind_tag(space::lookup(caps, handle)->Ok_0.0) as u64,
        identify_value(caps, handle) >> 8u64 == space::lookup(caps, handle)->Ok_0.1.0 as u64,
{
    let held = space::lookup(caps, handle)->Ok_0;
    let k = kind_tag(held.0) as u64;
    let r = held.1.0 as u64;
    assert(((r << 8u64) | k) & 0xFF == k && ((r << 8u64) | k) >> 8u64 == r) by (bit_vector)
        requires
            k < 0x100,
            r < 0x1_0000_0000,
    ;
}

/// Every error is its own value, so a caller can tell "you never had this" from "you had it
/// and it was withdrawn".
pub proof fn error_codes_are_distinct()
    ensures
        ({
            let codes = seq![
                E_NOSYS,
                E_BADHANDLE,
                E_STALE,
                E_RIGHTS,
                E_FAULT,
                E_NOSLOT,
                E_WRONGTYPE,
                E_NOENT,
                E_FULL,
                E_INVAL,
            ];
            forall|i: int, j: int| 0 <= i < j < codes.len() ==> codes[i] != codes[j]
        }),
{
}

} // verus!
