use oxygen::audit::{Action, Event, Journal};
use oxygen::kernel::selftest::{delegated_then_revoked, first_out_of_order, refusal_recorded};
use oxygen::cap::{Object, Rights};
use oxygen::kernel::audit::event_for_call;
use oxygen::kernel::syscall::{
    E_BADHANDLE, E_RIGHTS, SYS_DELEGATE, SYS_ENDPOINT, SYS_LOOKUP, SYS_REGISTER, SYS_REVOKE, SYS_WRITE,
};

fn ev(seq: u64, actor: u64, action: Action, detail: u64) -> Event {
    Event { seq, actor, action, kind: 1, rights: 0, detail }
}

#[test]
fn a_journal_is_always_in_order() {
    let mut j: Journal<4> = Journal::new();
    for i in 0..10u64 {
        j.record(i % 3, Action::Insert, 1, 0, i);
    }
    assert_eq!(first_out_of_order(&j.iter()), None);
}

#[test]
fn a_repeated_or_falling_sequence_number_is_caught() {
    let events = vec![ev(1, 1, Action::Insert, 0), ev(2, 1, Action::Insert, 0), ev(2, 1, Action::Insert, 0)];
    assert_eq!(first_out_of_order(&events), Some(2));
    let events = vec![ev(5, 1, Action::Insert, 0), ev(3, 1, Action::Insert, 0)];
    assert_eq!(first_out_of_order(&events), Some(1));
}

#[test]
fn a_zero_sequence_number_is_out_of_order() {
    assert_eq!(first_out_of_order(&[ev(0, 1, Action::Insert, 0)]), Some(0));
    assert_eq!(first_out_of_order(&[]), None);
}

#[test]
fn delegate_then_revoke_by_the_same_thread_is_found() {
    let events = vec![
        ev(1, 7, Action::Insert, 0),
        ev(2, 7, Action::Delegate, 0),
        ev(3, 8, Action::Revoke, 0),
        ev(4, 7, Action::Revoke, 0),
    ];
    assert!(delegated_then_revoked(&events, 7));
    assert!(!delegated_then_revoked(&events, 8));
}

#[test]
fn revoke_before_any_delegation_does_not_count() {
    let events = vec![ev(1, 7, Action::Revoke, 0), ev(2, 7, Action::Delegate, 0)];
    assert!(!delegated_then_revoked(&events, 7));
}

#[test]
fn someone_elses_delegation_does_not_count() {
    let events = vec![ev(1, 8, Action::Delegate, 0), ev(2, 7, Action::Revoke, 0)];
    assert!(!delegated_then_revoked(&events, 7));
}

#[test]
fn a_recorded_refusal_is_found_only_for_its_actor_and_call() {
    let events = vec![ev(1, 3, Action::Lookup, 0), ev(2, 3, Action::Denied, SYS_REGISTER)];
    assert!(refusal_recorded(&events, 3, SYS_REGISTER));
    assert!(!refusal_recorded(&events, 4, SYS_REGISTER));
    assert!(!refusal_recorded(&events, 3, SYS_REGISTER + 1));
    assert!(!refusal_recorded(&events[..1], 3, SYS_REGISTER));
}

#[test]
fn refusals_for_want_of_rights_are_journaled_as_denied() {
    let held = Some((Object::Endpoint(3), Rights::READ()));
    assert_eq!(event_for_call(SYS_REGISTER, held, E_RIGHTS), Some((Action::Denied, 4, 1, SYS_REGISTER)));
}

#[test]
fn successful_grants_are_journaled_as_what_they_were() {
    let console = Some((Object::Console, Rights::ALL()));
    assert_eq!(event_for_call(SYS_DELEGATE, console, 0x1_0000_0001), Some((Action::Delegate, 1, 15, 0x1_0000_0001)));
    assert_eq!(event_for_call(SYS_REVOKE, console, 2), Some((Action::Revoke, 1, 15, 2)));
    assert_eq!(event_for_call(SYS_LOOKUP, Some((Object::Registry, Rights::ALL())), 7), Some((Action::Lookup, 5, 15, 7)));
    assert_eq!(event_for_call(SYS_ENDPOINT, None, 9), Some((Action::Insert, 0, 0, 9)));
    assert_eq!(event_for_call(SYS_REGISTER, Some((Object::Registry, Rights::ALL())), 0), Some((Action::Register, 5, 15, 0)));
    // Other failures and other calls leave nothing.
    assert_eq!(event_for_call(SYS_DELEGATE, console, E_BADHANDLE), None);
    assert_eq!(event_for_call(SYS_WRITE, console, 5), None);
}
