//! The verdicts the boot-time self test reaches by reading the audit journal back: that the
//! sequence numbers are what they claim to be, that a delegation and the revocation after it
//! were both recorded against the thread that made them, and that a specific refusal is on the
//! record. Running the threads that produce those events, and reporting, is the caller's.

use vstd::prelude::*;

use crate::audit::action::Action;
use crate::audit::event::Event;
use crate::audit::journal::{Journal, journal_sequence_is_consecutive};

verus! {

/// The sequence number event `i` must exceed: the one before it, or zero for the first.
pub open spec fn previous_seq(s: Seq<Event>, i: int) -> u64 {
    if i == 0 {
        0
    } else {
        s[i - 1].seq
    }
}

/// Whether event `i` carries a sequence number above the one before it.
pub open spec fn in_order_at(s: Seq<Event>, i: int) -> bool {
    s[i].seq > previous_seq(s, i)
}

/// The first retained event whose sequence number does not rise past the one before it, or
/// `None` when every one does.
pub fn first_out_of_order(events: &[Event]) -> (r: Option<usize>)
    ensures
        match r {
            None => forall|i: int| 0 <= i < events@.len() ==> #[trigger] in_order_at(events@, i),
            Some(i) => {
                &&& i < events@.len()
                &&& !in_order_at(events@, i as int)
                &&& forall|k: int| 0 <= k < i ==> #[trigger] in_order_at(events@, k)
            },
        },
{
    let mut previous: u64 = 0;
    let mut i: usize = 0;
    while i < events.len()
        invariant
            i <= events@.len(),
            previous == previous_seq(events@, i as int),
            forall|k: int| 0 <= k < i ==> #[trigger] in_order_at(events@, k),
        decreases events@.len() - i,
    {
        if events[i].seq <= previous {
            return Some(i);
        }
        previous = events[i].seq;
        i = i + 1;
    }
    None
}

/// The sequence number of the last delegation `actor` made among the first `n` events.
pub open spec fn last_delegation(s: Seq<Event>, actor: u64, n: int) -> Option<u64>
    decreases n,
{
    if n <= 0 {
        None
    } else if s[n - 1].actor == actor && s[n - 1].action == Action::Delegate {
        Some(s[n - 1].seq)
    } else {
        last_delegation(s, actor, n - 1)
    }
}

/// Whether event `j` is a revocation by `actor` numbered after the last delegation it made
/// before that event.
pub open spec fn revokes_after_delegating(s: Seq<Event>, actor: u64, j: int) -> bool {
    &&& s[j].actor == actor
    &&& s[j].action == Action::Revoke
    &&& last_delegation(s, actor, j) matches Some(d) && d < s[j].seq
}

/// Whether `actor` is on the record delegating a capability and then revoking: some
/// revocation of its comes after a delegation of its, in the journal and in sequence.
pub fn delegated_then_revoked(events: &[Event], actor: u64) -> (r: bool)
    ensures
        r == exists|j: int| 0 <= j < events@.len() && #[trigger] revokes_after_delegating(events@, actor, j),
{
    let mut last: Option<u64> = None;
    let mut found = false;
    let mut i: usize = 0;
    while i < events.len()
        invariant
            i <= events@.len(),
            last == last_delegation(events@, actor, i as int),
            found == exists|j: int| 0 <= j < i && #[trigger] revokes_after_delegating(events@, actor, j),
        decreases events@.len() - i,
    {
        let e = events[i];
        proof {
            assert(revokes_after_delegating(events@, actor, i as int) ==> exists|j: int|
                0 <= j < i + 1 && #[trigger] revokes_after_delegating(events@, actor, j));
            assert((exists|j: int| 0 <= j < i + 1 && #[trigger] revokes_after_delegating(events@, actor, j))
                ==> ((exists|j: int| 0 <= j < i && #[trigger] revokes_after_delegating(events@, actor, j))
                || revokes_after_delegating(events@, actor, i as int)));
        }
        if e.actor == actor {
            match e.action {
                Action::Delegate => {
                    last = Some(e.seq);
                },
                Action::Revoke => {
                    if let Some(d) = last {
                        if d < e.seq {
                            found = true;
                        }
                    }
                },
                _ => {},
            }
        }
        i = i + 1;
    }
    found
}

/// Whether event `i` is a refusal of the system call `number`, attributed to `actor`.
pub open spec fn refused_for(s: Seq<Event>, actor: u64, number: u64, i: int) -> bool {
    &&& s[i].action == Action::Denied
    &&& s[i].detail == number
    &&& s[i].actor == actor
}

/// Whether the journal holds a refusal of system call `number` attributed to `actor`.
pub fn refusal_recorded(events: &[Event], actor: u64, number: u64) -> (r: bool)
    ensures
        r == exists|i: int| 0 <= i < events@.len() && #[trigger] refused_for(events@, actor, number, i),
{
    let mut i: usize = 0;
    while i < events.len()
        invariant
            i <= events@.len(),
            forall|k: int| 0 <= k < i ==> !#[trigger] refused_for(events@, actor, number, k),
        decreases events@.len() - i,
    {
        let e = events[i];
        if e.action == Action::Denied && e.detail == number && e.actor == actor {
            assert(refused_for(events@, actor, number, i as int));
            return true;
        }
        i = i + 1;
    }
    false
}

/// A journal never fails the order check: every retained event's sequence number rises past
/// the one before it, and the oldest's past zero.
pub proof fn lemma_journal_in_order<const N: usize>(j: Journal<N>)
    requires
        j.wf(),
    ensures
        forall|i: int| 0 <= i < j@.len() ==> #[trigger] in_order_at(j@, i),
{
    assert forall|i: int| 0 <= i < j@.len() implies #[trigger] in_order_at(j@, i) by {
        journal_sequence_is_consecutive(j, i);
        if i > 0 {
            journal_sequence_is_consecutive(j, i - 1);
        }
    }
}

} // verus!
