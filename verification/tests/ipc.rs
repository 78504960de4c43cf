use oxygen::ipc::{IpcError, Message, MessageQueue, Name, Registry, MAX_NAME, MAX_PAYLOAD};

fn msg(method: u32) -> Message {
    Message::new(1, method, &[]).unwrap()
}

#[test]
fn body_round_trips_and_excludes_padding() {
    let msg = Message::new(1, 2, b"hello").unwrap();
    assert_eq!(msg.body(), b"hello");
    assert_eq!(msg.header.len, 5);
    assert_eq!(msg.payload[5], 0);
}

#[test]
fn max_payload_is_accepted_one_more_is_rejected() {
    let max_body = [0xAAu8; MAX_PAYLOAD];
    assert!(Message::new(1, 0, &max_body).is_ok());

    let over = [0xAAu8; MAX_PAYLOAD + 1];
    assert_eq!(Message::new(1, 0, &over), Err(IpcError::PayloadTooLarge));
}

#[test]
fn interface_zero_is_untyped() {
    assert_eq!(Message::new(0, 1, &[]), Err(IpcError::UntypedMessage));
    assert_eq!(Message::empty(0, 1), Err(IpcError::UntypedMessage));
}

#[test]
fn empty_carries_no_body() {
    let msg = Message::empty(7, 9).unwrap();
    assert_eq!(msg.header.interface, 7);
    assert_eq!(msg.header.method, 9);
    assert_eq!(msg.header.len, 0);
    assert!(msg.body().is_empty());
}

#[test]
fn an_untyped_oversized_message_is_reported_as_untyped() {
    let over = [1u8; MAX_PAYLOAD + 1];
    assert_eq!(Message::new(0, 0, &over), Err(IpcError::UntypedMessage));
}

#[test]
fn fifo_order_is_preserved() {
    let mut q: MessageQueue<4> = MessageQueue::new();
    q.push(msg(1)).unwrap();
    q.push(msg(2)).unwrap();
    q.push(msg(3)).unwrap();

    assert_eq!(q.pop().unwrap().header.method, 1);
    assert_eq!(q.pop().unwrap().header.method, 2);
    assert_eq!(q.pop().unwrap().header.method, 3);
}

#[test]
fn wraps_correctly_across_multiple_fill_drain_cycles() {
    let mut q: MessageQueue<3> = MessageQueue::new();
    for i in 0..3 {
        q.push(msg(i)).unwrap();
    }
    for i in 0..3 {
        assert_eq!(q.pop().unwrap().header.method, i);
    }
    for i in 10..13 {
        q.push(msg(i)).unwrap();
    }
    for i in 10..13 {
        assert_eq!(q.pop().unwrap().header.method, i);
    }
}

#[test]
fn push_to_full_queue_is_refused_and_preserves_contents() {
    let mut q: MessageQueue<2> = MessageQueue::new();
    q.push(msg(1)).unwrap();
    q.push(msg(2)).unwrap();

    assert!(q.is_full());
    assert_eq!(q.push(msg(3)), Err(IpcError::QueueFull));

    assert_eq!(q.pop().unwrap().header.method, 1);
    assert_eq!(q.pop().unwrap().header.method, 2);
}

#[test]
fn pop_on_empty_queue_is_none_and_queue_stays_usable() {
    let mut q: MessageQueue<2> = MessageQueue::new();
    assert_eq!(q.pop(), None);
    assert!(q.is_empty());

    q.push(msg(1)).unwrap();
    assert_eq!(q.pop().unwrap().header.method, 1);
}

#[test]
fn len_capacity_and_full_report_correctly() {
    let mut q: MessageQueue<2> = MessageQueue::new();
    assert_eq!(q.capacity(), 2);
    assert_eq!(q.len(), 0);
    assert!(q.is_empty());

    q.push(msg(1)).unwrap();
    assert_eq!(q.len(), 1);
    assert!(!q.is_full());

    q.push(msg(2)).unwrap();
    assert_eq!(q.len(), 2);
    assert!(q.is_full());
}

#[test]
fn register_then_lookup_returns_the_value_absent_name_misses() {
    let mut reg: Registry<4> = Registry::new();
    let console = Name::new("console").unwrap();
    reg.register(console, 42).unwrap();

    assert_eq!(reg.lookup(&console), Some(42));
    assert_eq!(reg.lookup(&Name::new("shell").unwrap()), None);
}

#[test]
fn duplicate_name_is_refused_and_keeps_the_existing_binding() {
    let mut reg: Registry<4> = Registry::new();
    let console = Name::new("console").unwrap();
    reg.register(console, 1).unwrap();

    assert_eq!(reg.register(console, 2), Err(IpcError::NameTaken));
    assert_eq!(reg.lookup(&console), Some(1));
}

#[test]
fn unregister_returns_the_value_and_frees_the_slot() {
    let mut reg: Registry<1> = Registry::new();
    let console = Name::new("console").unwrap();
    reg.register(console, 7).unwrap();

    assert_eq!(reg.unregister(&console), Some(7));
    assert_eq!(reg.lookup(&console), None);
    assert_eq!(reg.unregister(&console), None);

    reg.register(Name::new("shell").unwrap(), 8).unwrap();
    assert_eq!(reg.len(), 1);
}

#[test]
fn registry_registering_past_capacity_is_refused() {
    let mut reg: Registry<1> = Registry::new();
    reg.register(Name::new("a").unwrap(), 1).unwrap();

    assert_eq!(reg.register(Name::new("b").unwrap(), 2), Err(IpcError::RegistryFull));
}

#[test]
fn invalid_names_are_rejected() {
    assert_eq!(Name::new(""), Err(IpcError::InvalidName));
    assert_eq!(Name::new("has space"), Err(IpcError::InvalidName));
    assert_eq!(Name::new("bad\tbyte"), Err(IpcError::InvalidName));
    assert_eq!(Name::new("this-name-is-far-too-long"), Err(IpcError::InvalidName));

    let exactly_max = [b'a'; MAX_NAME];
    assert!(Name::new(core::str::from_utf8(&exactly_max).unwrap()).is_ok());
    let one_over = [b'a'; MAX_NAME + 1];
    assert_eq!(Name::new(core::str::from_utf8(&one_over).unwrap()), Err(IpcError::InvalidName));
}

#[test]
fn iter_yields_exactly_the_live_entries() {
    let mut reg: Registry<4> = Registry::new();
    reg.register(Name::new("console").unwrap(), 1).unwrap();
    reg.register(Name::new("shell").unwrap(), 2).unwrap();
    reg.register(Name::new("timer").unwrap(), 3).unwrap();
    reg.unregister(&Name::new("shell").unwrap()).unwrap();

    let entries = reg.iter();
    assert_eq!(entries.len(), 2, "unregistered entry must not appear");

    let has = |name: &str, value: u64| entries.iter().any(|(n, v)| n.as_str() == name && *v == value);
    assert!(has("console", 1));
    assert!(has("timer", 3));
    assert!(!entries.iter().any(|(n, _)| n.as_str() == "shell"));
}

#[test]
fn a_name_reads_back_as_its_text() {
    let n = Name::new("echo").unwrap();
    assert_eq!(n.as_str(), "echo");
    assert!(n.same(&Name::new("echo").unwrap()));
    assert!(!n.same(&Name::new("echo2").unwrap()));
}

#[test]
fn a_freed_registry_slot_is_reused() {
    let mut reg: Registry<2> = Registry::new();
    reg.register(Name::new("a").unwrap(), 1).unwrap();
    reg.register(Name::new("b").unwrap(), 2).unwrap();
    assert_eq!(reg.unregister(&Name::new("a").unwrap()), Some(1));
    reg.register(Name::new("c").unwrap(), 3).unwrap();
    assert_eq!(reg.len(), 2);
    assert_eq!(reg.lookup(&Name::new("c").unwrap()), Some(3));
    assert_eq!(reg.lookup(&Name::new("b").unwrap()), Some(2));
    assert!(!reg.is_empty());
}

#[test]
fn iter_lists_bindings_in_slot_order() {
    let mut reg: Registry<4> = Registry::new();
    reg.register(Name::new("a").unwrap(), 1).unwrap();
    reg.register(Name::new("b").unwrap(), 2).unwrap();
    reg.register(Name::new("c").unwrap(), 3).unwrap();
    reg.unregister(&Name::new("a").unwrap()).unwrap();
    // "d" takes the lowest free slot, the one "a" left.
    reg.register(Name::new("d").unwrap(), 4).unwrap();
    let order: Vec<(String, u64)> = reg.iter().iter().map(|(n, v)| (n.as_str().to_string(), *v)).collect();
    assert_eq!(
        order,
        vec![("d".to_string(), 4), ("b".to_string(), 2), ("c".to_string(), 3)]
    );
}
