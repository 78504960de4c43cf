//! The kernel's audit journal: the one instance of the ring, and the one thing only the kernel
//! can supply to it — who the calling thread is.

use vstd::prelude::*;

use crate::audit::{Action, Event, Journal};
use crate::cap::object::{Object, kind_tag};
use crate::cap::rights::Rights;
use crate::kernel::sched::Scheduler;
use crate::kernel::syscall::{
    E_RIGHTS, SYS_DELEGATE, SYS_ENDPOINT, SYS_LOOKUP, SYS_REGISTER, SYS_REVOKE,
};

verus! {

/// Events the journal retains before the oldest is evicted.
pub const CAPACITY: usize = 64;

/// Records one event on behalf of the thread on the CPU (thread 0 before the scheduler is
/// initialised) and returns the sequence number assigned to it.
pub fn record(
    journal: &mut Journal<CAPACITY>,
    sched: &Scheduler,
    action: Action,
    kind: u8,
    rights: u32,
    detail: u64,
) -> (seq: u64)
    requires
        old(journal).wf(),
        old(journal).next_seq_spec() < u64::MAX,
        sched.wf(),
    ensures
        final(journal).wf(),
        seq == old(journal).next_seq_spec(),
        final(journal).next_seq_spec() == seq + 1,
        ({
            let actor = if sched@.len() == 0 {
                0
            } else {
                sched@[sched.current_index()].0
            };
            let e = Event { seq, actor, action, kind, rights, detail };
            if old(journal)@.len() < CAPACITY {
                &&& final(journal)@ == old(journal)@.push(e)
                &&& final(journal).dropped_spec() == old(journal).dropped_spec()
            } else {
                &&& final(journal)@ == old(journal)@.drop_first().push(e)
                &&& final(journal).dropped_spec() == old(journal).dropped_spec() + 1
            }
        }),
{
    let actor = sched.current_id();
    journal.record(actor, action, kind, rights, detail)
}

/// The event at `index`, oldest retained first; `None` past the retained count.
pub fn event_at(journal: &Journal<CAPACITY>, index: usize) -> (r: Option<Event>)
    requires
        journal.wf(),
    ensures
        index < journal@.len() ==> r == Some(journal@[index as int]),
        index >= journal@.len() ==> r is None,
{
    journal.get(index)
}

/// How many events are currently retained.
pub fn len(journal: &Journal<CAPACITY>) -> (n: usize)
    requires
        journal.wf(),
    ensures
        n == journal@.len(),
{
    journal.len()
}

/// How many events have been evicted over the journal's lifetime.
pub fn dropped(journal: &Journal<CAPACITY>) -> (n: u64)
    ensures
        n == journal.dropped_spec(),
{
    journal.dropped()
}

/// Whether a system call answer is an error: the error codes are the top of the range,
/// negative when read as signed.
pub open spec fn is_error(answer: u64) -> bool {
    answer >= 0x8000_0000_0000_0000
}

/// The journal entry a system call leaves, given the capability its first argument named
/// before the call (`held`, none when it named nothing) and what the call answered: a refusal
/// for want of rights is recorded as `Denied` with the call's number as detail; a successful
/// delegation, revocation, lookup, registration or endpoint creation is recorded as what it
/// was, with its answer as detail. The kind and rights are those of `held`. Anything else
/// leaves no entry.
pub open spec fn entry_for(number: u64, held: Option<(Object, Rights)>, answer: u64) -> Option<(Action, u8, u32, u64)> {
    let (kind, rights): (u8, u32) = match held {
        Some((object, r)) => (kind_tag(object), r.0),
        None => (0, 0),
    };
    if answer == E_RIGHTS {
        Some((Action::Denied, kind, rights, number))
    } else if is_error(answer) {
        None
    } else if number == SYS_DELEGATE {
        Some((Action::Delegate, kind, rights, answer))
    } else if number == SYS_REVOKE {
        Some((Action::Revoke, kind, rights, answer))
    } else if number == SYS_LOOKUP {
        Some((Action::Lookup, kind, rights, answer))
    } else if number == SYS_REGISTER {
        Some((Action::Register, kind, rights, answer))
    } else if number == SYS_ENDPOINT {
        Some((Action::Insert, kind, rights, answer))
    } else {
        None
    }
}

/// What, if anything, the journal records for a system call, as [`entry_for`] describes.
pub fn event_for_call(number: u64, held: Option<(Object, Rights)>, answer: u64) -> (r: Option<(Action, u8, u32, u64)>)
    ensures
        r == entry_for(number, held, answer),
{
    let (kind, rights) = match held {
        Some((object, r)) => (object.kind(), r.bits()),
        None => (0u8, 0u32),
    };
    if answer == E_RIGHTS {
        Some((Action::Denied, kind, rights, number))
    } else if answer >= 0x8000_0000_0000_0000 {
        None
    } else if number == SYS_DELEGATE {
        Some((Action::Delegate, kind, rights, answer))
    } else if number == SYS_REVOKE {
        Some((Action::Revoke, kind, rights, answer))
    } else if number == SYS_LOOKUP {
        Some((Action::Lookup, kind, rights, answer))
    } else if number == SYS_REGISTER {
        Some((Action::Register, kind, rights, answer))
    } else if number == SYS_ENDPOINT {
        Some((Action::Insert, kind, rights, answer))
    } else {
        None
    }
}

} // verus!
