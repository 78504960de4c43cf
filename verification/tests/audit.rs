use oxygen::audit::{Action, AuditError, Event, Journal, ENCODED_EVENT_BYTES};

#[test]
fn every_action_round_trips_through_its_wire_value() {
    let actions = [
        Action::Insert,
        Action::Delegate,
        Action::Revoke,
        Action::Delete,
        Action::Denied,
        Action::Register,
        Action::Lookup,
    ];
    for action in actions {
        assert_eq!(Action::from_u8(action.as_u8()), Some(action));
    }
}

#[test]
fn an_unrecognised_byte_is_rejected() {
    assert_eq!(Action::from_u8(200), None);
}

#[test]
fn action_wire_values_are_fixed() {
    assert_eq!(Action::Insert.as_u8(), 0);
    assert_eq!(Action::Lookup.as_u8(), 6);
    assert_eq!(Action::from_u8(7), None);
}

#[test]
fn encode_then_decode_round_trips_every_field() {
    let original = Event {
        seq: 0x0102_0304_0506_0708,
        actor: 0x1112_1314_1516_1718,
        action: Action::Delegate,
        kind: 4,
        rights: 0xAABB_CCDD,
        detail: 0x2122_2324_2526_2728,
    };
    let mut buf = [0u8; ENCODED_EVENT_BYTES];

    let written = original.encode(&mut buf).unwrap();
    assert_eq!(written, ENCODED_EVENT_BYTES);

    assert_eq!(Event::decode(&buf).unwrap(), original);
}

#[test]
fn decode_rejects_an_unrecognised_action_byte() {
    let event = Event { seq: 1, actor: 1, action: Action::Insert, kind: 1, rights: 0, detail: 0 };
    let mut buf = [0u8; ENCODED_EVENT_BYTES];
    event.encode(&mut buf).unwrap();
    buf[28] = 200;

    assert_eq!(Event::decode(&buf), Err(AuditError::Malformed));
}

#[test]
fn encode_into_a_too_small_buffer_is_refused() {
    let event = Event { seq: 1, actor: 1, action: Action::Insert, kind: 1, rights: 0, detail: 0 };
    let mut buf = [0u8; ENCODED_EVENT_BYTES - 1];

    assert_eq!(event.encode(&mut buf), Err(AuditError::BufferTooSmall));
}

#[test]
fn event_layout_is_little_endian_at_fixed_offsets() {
    let event = Event {
        seq: 0x0102_0304_0506_0708,
        actor: 9,
        action: Action::Revoke,
        kind: 5,
        rights: 0x0A0B_0C0D,
        detail: 0x11,
    };
    let mut buf = [0xEEu8; ENCODED_EVENT_BYTES];
    event.encode(&mut buf).unwrap();
    assert_eq!(&buf[0..8], &[8, 7, 6, 5, 4, 3, 2, 1]);
    assert_eq!(buf[8], 9);
    assert_eq!(buf[16], 0x11);
    assert_eq!(&buf[24..28], &[0x0D, 0x0C, 0x0B, 0x0A]);
    assert_eq!(buf[28], 2);
    assert_eq!(buf[29], 5);
    assert_eq!(&buf[30..32], &[0, 0]);
}

#[test]
fn decode_of_a_short_buffer_is_malformed() {
    let buf = [0u8; ENCODED_EVENT_BYTES - 1];
    assert!(Event::decode(&buf).is_err());
}

#[test]
fn sequence_numbers_start_at_one_and_strictly_increase() {
    let mut journal: Journal<64> = Journal::new();
    let first = journal.record(0, Action::Insert, 1, 0, 0);
    assert_eq!(first, 1);

    let mut previous = first;
    for i in 1..50u64 {
        let seq = journal.record(i, Action::Insert, 1, 0, 0);
        assert!(seq > previous, "sequence numbers must strictly increase");
        previous = seq;
    }
    assert_eq!(journal.get(0).unwrap().seq, 1);
}

#[test]
fn filling_past_capacity_evicts_the_oldest() {
    const N: usize = 4;
    let mut journal: Journal<N> = Journal::new();
    for i in 0..(N as u64 + 3) {
        journal.record(i, Action::Insert, 1, 0, 0);
    }

    assert_eq!(journal.get(0).unwrap().seq, 4);
    assert_eq!(journal.len(), N);
    assert_eq!(journal.capacity(), N);
    assert_eq!(journal.dropped(), 3);
}

#[test]
fn sequence_numbers_keep_climbing_after_many_wraps() {
    const N: usize = 4;
    let mut journal: Journal<N> = Journal::new();
    for i in 0..(3 * N) as u64 {
        journal.record(i, Action::Insert, 1, 0, 0);
    }

    assert_eq!(journal.latest_seq(), 3 * N as u64);
    assert_eq!(journal.dropped(), (2 * N) as u64);
}

#[test]
fn since_returns_exactly_the_newer_events_in_order_and_nothing_past_the_latest() {
    let mut journal: Journal<8> = Journal::new();
    for i in 0..6u64 {
        journal.record(i, Action::Insert, 1, 0, 0);
    }
    let expected = [4u64, 5, 6];
    assert_eq!(journal.since(3).len(), expected.len());
    for (event, &want) in journal.since(3).iter().zip(expected.iter()) {
        assert_eq!(event.seq, want);
    }

    assert_eq!(journal.since(journal.latest_seq()).len(), 0);
}

#[test]
fn since_of_an_already_evicted_seq_returns_everything_retained() {
    const N: usize = 4;
    let mut journal: Journal<N> = Journal::new();
    for i in 0..(N as u64 + 3) {
        journal.record(i, Action::Insert, 1, 0, 0);
    }
    assert_eq!(journal.since(2).len(), journal.len());
    assert!(journal.dropped() > 0);
}

#[test]
fn get_past_len_is_none_and_the_journal_stays_usable() {
    let mut journal: Journal<4> = Journal::new();
    journal.record(1, Action::Insert, 1, 0, 0);

    assert_eq!(journal.get(1), None);
    assert_eq!(journal.get(100), None);

    let seq = journal.record(2, Action::Insert, 1, 0, 0);
    assert_eq!(journal.get(1).unwrap().seq, seq);
}

#[test]
fn an_empty_journal_reports_nothing() {
    let journal: Journal<4> = Journal::new();
    assert!(journal.is_empty());
    assert_eq!(journal.latest_seq(), 0);
    assert_eq!(journal.iter().len(), 0);
    assert_eq!(journal.dropped(), 0);
}

#[test]
fn iter_yields_the_retained_events_oldest_first() {
    let mut journal: Journal<3> = Journal::new();
    for i in 0..5u64 {
        journal.record(i, Action::Delete, 2, 7, i * 10);
    }
    let seqs: Vec<u64> = journal.iter().iter().map(|e| e.seq).collect();
    assert_eq!(seqs, vec![3, 4, 5]);
    assert_eq!(journal.iter()[0].detail, 20);
}

#[test]
fn a_journal_keeps_the_newest_records_numbered_consecutively() {
    const N: usize = 4;
    let mut journal: Journal<N> = Journal::new();
    for k in 1..=10u64 {
        journal.record(1, Action::Insert, 0, 0, k);
        let kept = core::cmp::min(k as usize, N);
        assert_eq!(journal.len(), kept);
        assert_eq!(journal.dropped(), k - kept as u64);
        for i in 0..kept {
            assert_eq!(journal.get(i).unwrap().seq, k - kept as u64 + 1 + i as u64);
        }
    }
}
