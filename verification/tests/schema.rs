use oxygen::ipc::Name;
use oxygen::schema::{ArgKind, Interface, Method, SchemaError, SchemaTable, ENCODED_METHOD_BYTES, MAX_ARGS, MAX_METHODS};

fn name(s: &str) -> Name {
    Name::new(s).unwrap()
}

fn iface(id: u32, n: &str) -> Interface {
    Interface::new(id, Name::new(n).unwrap()).unwrap()
}

#[test]
fn interface_id_zero_is_refused() {
    assert_eq!(Interface::new(0, name("x")), Err(SchemaError::UntypedInterface));
}

#[test]
fn adding_past_max_methods_is_refused_and_keeps_the_earlier_methods() {
    let mut iface = Interface::new(1, name("svc")).unwrap();
    for i in 0..MAX_METHODS as u32 {
        let m = Method::new(i, name("m"), &[], ArgKind::Empty).unwrap();
        iface.add(m).unwrap();
    }
    assert_eq!(iface.len(), MAX_METHODS);

    let extra = Method::new(99, name("extra"), &[], ArgKind::Empty).unwrap();
    assert_eq!(iface.add(extra), Err(SchemaError::TooManyMethods));

    assert_eq!(iface.len(), MAX_METHODS, "a refused add must not disturb what was already there");
    for i in 0..MAX_METHODS as u32 {
        assert_eq!(iface.method(i as usize).unwrap().id(), i);
    }
}

#[test]
fn args_reports_only_the_live_slots() {
    let method = Method::new(1, name("read"), &[ArgKind::Handle, ArgKind::Number], ArgKind::Bytes).unwrap();
    assert_eq!(method.args(), &[ArgKind::Handle, ArgKind::Number]);
}

#[test]
fn max_args_is_accepted_one_more_is_refused() {
    let full = [ArgKind::Handle; MAX_ARGS];
    assert!(Method::new(1, name("m"), &full, ArgKind::Empty).is_ok());

    let mut over = [ArgKind::Handle; MAX_ARGS + 1];
    over[MAX_ARGS] = ArgKind::Number;
    assert_eq!(Method::new(1, name("m"), &over, ArgKind::Empty), Err(SchemaError::TooManyArgs));
}

#[test]
fn encode_decode_round_trips_with_no_args_and_with_max_args() {
    let empty = Method::new(1, name("ping"), &[], ArgKind::Empty).unwrap();
    let mut buf = [0u8; ENCODED_METHOD_BYTES];
    let written = empty.encode(&mut buf).unwrap();
    assert_eq!(written, ENCODED_METHOD_BYTES);
    assert_eq!(Method::decode(&buf).unwrap(), empty);

    let full_args = [ArgKind::Handle, ArgKind::Bytes, ArgKind::Number, ArgKind::Rights];
    let full = Method::new(7, name("call"), &full_args, ArgKind::Rights).unwrap();
    let mut buf = [0u8; ENCODED_METHOD_BYTES];
    full.encode(&mut buf).unwrap();
    assert_eq!(Method::decode(&buf).unwrap(), full);
}

#[test]
fn encode_into_a_too_small_buffer_is_refused_and_writes_nothing() {
    let method = Method::new(1, name("m"), &[], ArgKind::Empty).unwrap();
    let mut buf = [0xAAu8; ENCODED_METHOD_BYTES - 1];

    assert_eq!(method.encode(&mut buf), Err(SchemaError::BufferTooSmall));
    assert!(buf.iter().all(|&b| b == 0xAA), "a failed encode must leave the buffer untouched");
}

#[test]
fn decode_rejects_an_unrecognised_kind_byte() {
    let method = Method::new(1, name("m"), &[ArgKind::Handle], ArgKind::Number).unwrap();
    let mut buf = [0u8; ENCODED_METHOD_BYTES];
    method.encode(&mut buf).unwrap();

    buf[5] = 0xFF;
    assert_eq!(Method::decode(&buf), Err(SchemaError::Malformed));
}

#[test]
fn decode_rejects_a_short_buffer() {
    let buf = [0u8; ENCODED_METHOD_BYTES - 1];
    assert_eq!(Method::decode(&buf), Err(SchemaError::Malformed));
}

#[test]
fn arg_kind_round_trips_and_rejects_unknown_bytes() {
    let kinds = [ArgKind::Empty, ArgKind::Handle, ArgKind::Bytes, ArgKind::Number, ArgKind::Rights];
    for kind in kinds {
        assert_eq!(ArgKind::from_u8(kind.as_u8()), Some(kind));
    }
    assert_eq!(ArgKind::from_u8(5), None);
    assert_eq!(ArgKind::from_u8(255), None);
}

#[test]
fn register_then_get_returns_the_interface_duplicate_id_is_refused() {
    let mut table: SchemaTable<4> = SchemaTable::new();
    table.register(iface(1, "console")).unwrap();

    assert_eq!(table.get(1).unwrap().name().as_str(), "console");
    assert_eq!(table.get(2), None);

    let impostor = iface(1, "impostor");
    assert_eq!(table.register(impostor), Err(SchemaError::DuplicateInterface));
    assert_eq!(
        table.get(1).unwrap().name().as_str(),
        "console",
        "a duplicate registration must not replace the original"
    );
}

#[test]
fn iter_yields_exactly_what_was_registered() {
    let mut table: SchemaTable<4> = SchemaTable::new();
    table.register(iface(1, "a")).unwrap();
    table.register(iface(2, "b")).unwrap();
    table.register(iface(3, "c")).unwrap();

    let ids: Vec<u32> = table.iter().iter().map(|i| i.id()).collect();
    assert_eq!(ids.len(), 3);
    assert!(ids.contains(&1));
    assert!(ids.contains(&2));
    assert!(ids.contains(&3));
}

#[test]
fn table_registering_past_capacity_is_refused() {
    let mut table: SchemaTable<1> = SchemaTable::new();
    table.register(iface(1, "a")).unwrap();

    assert_eq!(table.register(iface(2, "b")), Err(SchemaError::TableFull));
}

#[test]
fn method_added_to_a_registered_interface_is_visible_through_the_table() {
    let mut svc = iface(1, "svc");
    svc.add(Method::new(5, Name::new("read").unwrap(), &[], ArgKind::Empty).unwrap()).unwrap();

    let mut table: SchemaTable<2> = SchemaTable::new();
    table.register(svc).unwrap();

    let methods = table.get(1).unwrap().methods();
    assert_eq!(methods.len(), 1);
    assert_eq!(methods[0].id(), 5);
}

#[test]
fn a_method_encodes_at_the_documented_offsets() {
    let m = Method::new(0x0102_0304, name("ab"), &[ArgKind::Rights], ArgKind::Handle).unwrap();
    let mut buf = [0xEEu8; ENCODED_METHOD_BYTES];
    m.encode(&mut buf).unwrap();
    assert_eq!(&buf[0..4], &[4, 3, 2, 1]);
    assert_eq!(buf[4], 1);
    assert_eq!(buf[5], ArgKind::Handle.as_u8());
    assert_eq!(&buf[6..10], &[4, 0, 0, 0]);
    assert_eq!(&buf[10..12], b"ab");
    assert!(buf[12..26].iter().all(|&b| b == 0));
    assert_eq!(m.return_kind(), ArgKind::Handle);
    assert_eq!(m.name().as_str(), "ab");
}

#[test]
fn an_interface_reports_its_identity() {
    let i = iface(9, "nine");
    assert_eq!(i.id(), 9);
    assert_eq!(i.name().as_str(), "nine");
    assert!(i.is_empty());
    assert!(i.method(0).is_none());
    let t: SchemaTable<2> = SchemaTable::new();
    assert!(t.is_empty());
    assert_eq!(t.len(), 0);
}
