//! The system calls that read kernel state rather than change it: console input, the names the
//! registry publishes, the tick count, a capability's own methods, and the audit journal. Each
//! checks the capability it is given and the buffer it is to fill, and answers with bytes to
//! deliver into the caller's memory or a value to return; performing that is the caller's.

use vstd::prelude::*;

use crate::audit::event::{ENCODED_EVENT_BYTES, Event, event_bytes};
use crate::audit::journal::Journal;
use crate::cap::handle::Handle;
use crate::cap::object::Object;
use crate::cap::rights::Rights;
use crate::cap::space::{CapSlot, CapSpace};
use crate::cap::space;
use crate::ipc::registry::Name;
use crate::kernel::audit::CAPACITY;
use crate::kernel::ipc::Ipc;
use crate::kernel::sched::CAP_SLOTS;
use crate::kernel::schema::{INTERFACES, interface_for, interface_of, method_at};
use crate::kernel::syscall::{
    E_FAULT, E_INVAL, E_NOENT, E_NOSYS, E_RIGHTS, E_WRONGTYPE, Effect, EffectSpec, SYS_AUDIT,
    SYS_DESCRIBE, SYS_READ, SYS_SERVICES, SYS_UPTIME, code_for, error_code, registry_named,
    registry_of,
};
use crate::kernel::user::{UserMemory, is_user_writable};
use crate::schema::method::{ENCODED_METHOD_BYTES, Method};
use crate::schema::table::{SchemaTable, holds_id, slot_has};

verus! {

/// Whether `number` is one of the calls answered here.
pub fn is_query(number: u64) -> (b: bool)
    ensures
        b == (SYS_READ <= number <= SYS_AUDIT),
{
    SYS_READ <= number && number <= SYS_AUDIT
}

/// The rights bit `READ`.
pub open spec fn read_right() -> Rights {
    Rights(1)
}

/// Whether a capability names an object of the kind `is_kind` accepts and carries `READ`:
/// the lookup error, `E_WRONGTYPE` or `E_RIGHTS` when it does not.
pub open spec fn readable_as(caps: Seq<CapSlot>, handle: Handle, is_kind: spec_fn(Object) -> bool) -> Result<
    Object,
    u64,
> {
    match space::lookup(caps, handle) {
        Err(e) => Err(error_code(e)),
        Ok(held) => if !is_kind(held.0) {
            Err(E_WRONGTYPE)
        } else if !held.1.has(read_right()) {
            Err(E_RIGHTS)
        } else {
            Ok(held.0)
        },
    }
}

/// Copies a byte slice.
fn copied(bytes: &[u8]) -> (v: Vec<u8>)
    ensures
        v@ == bytes@,
{
    let mut v: Vec<u8> = Vec::new();
    let mut i: usize = 0;
    while i < bytes.len()
        invariant
            i <= bytes@.len(),
            v@ == bytes@.subrange(0, i as int),
        decreases bytes@.len() - i,
    {
        v.push(bytes[i]);
        i = i + 1;
        assert(v@ =~= bytes@.subrange(0, i as int));
    }
    assert(bytes@.subrange(0, i as int) =~= bytes@);
    v
}

/// What `SYS_READ` does: with `READ` on a console and a writable buffer, the pending console
/// input is delivered, as much of it as the buffer holds — possibly none, when nothing has
/// been typed, and the caller asks again.
pub open spec fn read_effect(
    caps: Seq<CapSlot>,
    user: UserMemory,
    handle: Handle,
    ptr: u64,
    capacity: u64,
    pending: Seq<u8>,
) -> EffectSpec {
    match readable_as(caps, handle, |o: Object| o == Object::Console) {
        Err(code) => EffectSpec::Return(code),
        Ok(_) => if !user.writable(ptr, capacity) {
            EffectSpec::Return(E_FAULT)
        } else if pending.len() <= capacity {
            EffectSpec::Deliver(ptr, pending)
        } else {
            EffectSpec::Deliver(ptr, pending.take(capacity as int))
        },
    }
}

/// Hands the caller what has been typed at the console.
fn read(caps: &CapSpace<CAP_SLOTS>, user: &UserMemory, handle: Handle, ptr: u64, capacity: u64, pending: &[u8]) -> (e: Effect)
    requires
        caps.wf(),
        user.wf(),
    ensures
        e@ == read_effect(caps@, *user, handle, ptr, capacity, pending@),
{
    let (object, rights) = match caps.get(handle) {
        Ok(pair) => pair,
        Err(e) => return Effect::Return(code_for(e)),
    };
    if !matches!(object, Object::Console) {
        return Effect::Return(E_WRONGTYPE);
    }
    if !rights.contains(Rights::READ()) {
        return Effect::Return(E_RIGHTS);
    }
    if !is_user_writable(user, ptr, capacity) {
        return Effect::Return(E_FAULT);
    }
    if pending.len() as u64 <= capacity {
        Effect::Deliver { ptr, bytes: copied(pending) }
    } else {
        let taken = copied(pending);
        let mut out: Vec<u8> = Vec::new();
        let mut i: usize = 0;
        while (i as u64) < capacity
            invariant
                taken@ == pending@,
                capacity < pending@.len(),
                i <= capacity,
                out@ == pending@.take(i as int),
            decreases capacity - i,
        {
            out.push(taken[i]);
            i = i + 1;
            assert(out@ =~= pending@.take(i as int));
        }
        Effect::Deliver { ptr, bytes: out }
    }
}

/// What `SYS_SERVICES` does: with `READ` on the registry and a writable buffer, the name at
/// `index` in the registry's listing is delivered; `E_NOENT` past the last one, and `E_INVAL`
/// for a buffer too small for the name.
pub open spec fn services_effect(
    caps: Seq<CapSlot>,
    ipc: Ipc,
    user: UserMemory,
    registry: Handle,
    index: u64,
    ptr: u64,
    capacity: u64,
    e: EffectSpec,
) -> bool {
    match registry_named(caps, registry, read_right()) {
        Err(code) => e == EffectSpec::Return(code),
        Ok(_) => if !user.writable(ptr, capacity) {
            e == EffectSpec::Return(E_FAULT)
        } else if index >= ipc.listing().len() {
            e == EffectSpec::Return(E_NOENT)
        } else {
            let n = ipc.listing()[index as int].0;
            if n.text().len() > capacity {
                e == EffectSpec::Return(E_INVAL)
            } else {
                e == EffectSpec::Deliver(ptr, n.text())
            }
        },
    }
}

/// Hands the caller the name published at `index`.
fn services(
    caps: &CapSpace<CAP_SLOTS>,
    ipc: &Ipc,
    user: &UserMemory,
    registry: Handle,
    index: u64,
    ptr: u64,
    capacity: u64,
) -> (e: Effect)
    requires
        caps.wf(),
        ipc.wf(),
        user.wf(),
    ensures
        services_effect(caps@, *ipc, *user, registry, index, ptr, capacity, e@),
{
    if let Err(code) = registry_of(caps, registry, Rights::READ()) {
        return Effect::Return(code);
    }
    if !is_user_writable(user, ptr, capacity) {
        return Effect::Return(E_FAULT);
    }
    let listed = ipc.services();
    if index >= listed.len() as u64 {
        return Effect::Return(E_NOENT);
    }
    let name = &listed[index as usize].0;
    let text = name.as_str().as_bytes();
    if text.len() as u64 > capacity {
        return Effect::Return(E_INVAL);
    }
    Effect::Deliver { ptr, bytes: copied(text) }
}

/// What `SYS_DESCRIBE` does: with any capability and a writable buffer of at least a method's
/// encoded size, the encoding of the `index`th method of the interface describing the
/// capability's object is delivered; `E_NOENT` when the object has no interface or the
/// interface has no such method (an index past the machine word is none).
pub open spec fn describe_effect(
    caps: Seq<CapSlot>,
    table: SchemaTable<INTERFACES>,
    user: UserMemory,
    handle: Handle,
    index: u64,
    ptr: u64,
    capacity: u64,
    e: EffectSpec,
) -> bool {
    match space::lookup(caps, handle) {
        Err(err) => e == EffectSpec::Return(error_code(err)),
        Ok(held) => if !user.writable(ptr, capacity) {
            e == EffectSpec::Return(E_FAULT)
        } else if capacity < ENCODED_METHOD_BYTES {
            e == EffectSpec::Return(E_INVAL)
        } else if index > usize::MAX {
            e == EffectSpec::Return(E_NOENT)
        } else {
            match interface_of(held.0) {
                None => e == EffectSpec::Return(E_NOENT),
                Some(iface) => if !holds_id(table@, iface) {
                    e == EffectSpec::Return(E_NOENT)
                } else {
                    exists|i: int|
                        #[trigger] slot_has(table@, i, iface) && ({
                            let methods = table@[i]->Some_0@;
                            &&& index < methods.len() ==> e == EffectSpec::Deliver(
                                ptr,
                                methods[index as int].encoding(),
                            )
                            &&& index >= methods.len() ==> e == EffectSpec::Return(E_NOENT)
                        })
                },
            }
        },
    }
}

/// Hands the caller the encoding of one method of the capability's interface.
fn describe(
    caps: &CapSpace<CAP_SLOTS>,
    table: &SchemaTable<INTERFACES>,
    user: &UserMemory,
    handle: Handle,
    index: u64,
    ptr: u64,
    capacity: u64,
) -> (e: Effect)
    requires
        caps.wf(),
        table.wf(),
        user.wf(),
    ensures
        describe_effect(caps@, *table, *user, handle, index, ptr, capacity, e@),
{
    let (object, _) = match caps.get(handle) {
        Ok(pair) => pair,
        Err(err) => return Effect::Return(code_for(err)),
    };
    if !is_user_writable(user, ptr, capacity) {
        return Effect::Return(E_FAULT);
    }
    if capacity < ENCODED_METHOD_BYTES as u64 {
        return Effect::Return(E_INVAL);
    }
    if index > usize::MAX as u64 {
        return Effect::Return(E_NOENT);
    }
    let iface = match interface_for(object) {
        Some(i) => i,
        None => return Effect::Return(E_NOENT),
    };
    let method = match method_at(table, iface, index as usize) {
        Some(m) => m,
        None => return Effect::Return(E_NOENT),
    };
    let mut out: Vec<u8> = Vec::new();
    while out.len() < ENCODED_METHOD_BYTES
        invariant
            out@.len() <= ENCODED_METHOD_BYTES,
        decreases ENCODED_METHOD_BYTES - out@.len(),
    {
        out.push(0);
    }
    let _ = method.encode(out.as_mut_slice());
    assert(out@ =~= out@.subrange(0, 26));
    Effect::Deliver { ptr, bytes: out }
}

/// What `SYS_AUDIT` does: with `READ` on the journal and a writable buffer of at least an
/// event's encoded size, the encoding of the `index`th retained event, oldest first, is
/// delivered; `E_NOENT` past the newest.
pub open spec fn audit_effect(
    caps: Seq<CapSlot>,
    journal: Journal<CAPACITY>,
    user: UserMemory,
    handle: Handle,
    index: u64,
    ptr: u64,
    capacity: u64,
) -> EffectSpec {
    match readable_as(caps, handle, |o: Object| o == Object::Journal) {
        Err(code) => EffectSpec::Return(code),
        Ok(_) => if !user.writable(ptr, capacity) {
            EffectSpec::Return(E_FAULT)
        } else if capacity < ENCODED_EVENT_BYTES {
            EffectSpec::Return(E_INVAL)
        } else if index >= journal@.len() {
            EffectSpec::Return(E_NOENT)
        } else {
            EffectSpec::Deliver(ptr, event_bytes(journal@[index as int]))
        },
    }
}

/// Hands the caller the encoding of one retained journal event.
fn audit(
    caps: &CapSpace<CAP_SLOTS>,
    journal: &Journal<CAPACITY>,
    user: &UserMemory,
    handle: Handle,
    index: u64,
    ptr: u64,
    capacity: u64,
) -> (e: Effect)
    requires
        caps.wf(),
        journal.wf(),
        user.wf(),
    ensures
        e@ == audit_effect(caps@, *journal, *user, handle, index, ptr, capacity),
{
    let (object, rights) = match caps.get(handle) {
        Ok(pair) => pair,
        Err(err) => return Effect::Return(code_for(err)),
    };
    if !matches!(object, Object::Journal) {
        return Effect::Return(E_WRONGTYPE);
    }
    if !rights.contains(Rights::READ()) {
        return Effect::Return(E_RIGHTS);
    }
    if !is_user_writable(user, ptr, capacity) {
        return Effect::Return(E_FAULT);
    }
    if capacity < ENCODED_EVENT_BYTES as u64 {
        return Effect::Return(E_INVAL);
    }
    if index >= journal.len() as u64 {
        return Effect::Return(E_NOENT);
    }
    let event: Event = journal.get(index as usize).unwrap();
    let mut out: Vec<u8> = Vec::new();
    while out.len() < ENCODED_EVENT_BYTES
        invariant
            out@.len() <= ENCODED_EVENT_BYTES,
        decreases ENCODED_EVENT_BYTES - out@.len(),
    {
        out.push(0);
    }
    let _ = event.encode(out.as_mut_slice());
    assert(out@ =~= out@.subrange(0, 32));
    Effect::Deliver { ptr, bytes: out }
}

/// What a query call does, by number: `SYS_READ`, `SYS_SERVICES`, `SYS_UPTIME` (the tick
/// count), `SYS_DESCRIBE` and `SYS_AUDIT`; anything else is `E_NOSYS`.
pub open spec fn answered(
    caps: Seq<CapSlot>,
    ipc: Ipc,
    table: SchemaTable<INTERFACES>,
    journal: Journal<CAPACITY>,
    ticks: u64,
    pending: Seq<u8>,
    user: UserMemory,
    number: u64,
    args: Seq<u64>,
    e: EffectSpec,
) -> bool {
    if number == SYS_READ {
        e == read_effect(caps, user, Handle(args[0]), args[1], args[2], pending)
    } else if number == SYS_SERVICES {
        services_effect(caps, ipc, user, Handle(args[0]), args[1], args[2], args[3], e)
    } else if number == SYS_UPTIME {
        e == EffectSpec::Return(ticks)
    } else if number == SYS_DESCRIBE {
        describe_effect(caps, table, user, Handle(args[0]), args[1], args[2], args[3], e)
    } else if number == SYS_AUDIT {
        e == audit_effect(caps, journal, user, Handle(args[0]), args[1], args[2], args[3])
    } else {
        e == EffectSpec::Return(E_NOSYS)
    }
}

/// Answers a query call from EL0: the number from `x8`, the arguments from `x0`–`x5`, with the
/// tick count and the console input not yet read. The caller performs the returned effect.
pub fn query(
    caps: &CapSpace<CAP_SLOTS>,
    ipc: &Ipc,
    table: &SchemaTable<INTERFACES>,
    journal: &Journal<CAPACITY>,
    ticks: u64,
    pending: &[u8],
    user: &UserMemory,
    number: u64,
    args: [u64; 6],
) -> (e: Effect)
    requires
        caps.wf(),
        ipc.wf(),
        table.wf(),
        journal.wf(),
        user.wf(),
    ensures
        answered(caps@, *ipc, *table, *journal, ticks, pending@, *user, number, args@, e@),
{
    if number == SYS_READ {
        read(caps, user, Handle::from_raw(args[0]), args[1], args[2], pending)
    } else if number == SYS_SERVICES {
        services(caps, ipc, user, Handle::from_raw(args[0]), args[1], args[2], args[3])
    } else if number == SYS_UPTIME {
        Effect::Return(ticks)
    } else if number == SYS_DESCRIBE {
        describe(caps, table, user, Handle::from_raw(args[0]), args[1], args[2], args[3])
    } else if number == SYS_AUDIT {
        audit(caps, journal, user, Handle::from_raw(args[0]), args[1], args[2], args[3])
    } else {
        Effect::Return(E_NOSYS)
    }
}

} // verus!
