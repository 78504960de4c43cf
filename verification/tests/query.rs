use oxygen::audit::{Action, Event, Journal};
use oxygen::cap::{CapSpace, Object, Rights};
use oxygen::ipc::Name;
use oxygen::kernel::audit::CAPACITY;
use oxygen::kernel::ipc::Ipc;
use oxygen::kernel::query::{is_query, query};
use oxygen::kernel::sched::{seed_capabilities, CAP_SLOTS};
use oxygen::kernel::schema;
use oxygen::kernel::syscall::{
    Effect, E_FAULT, E_INVAL, E_NOENT, E_NOSYS, E_RIGHTS, E_WRONGTYPE, SYS_AUDIT, SYS_DESCRIBE, SYS_READ,
    SYS_SERVICES, SYS_UPTIME, SYS_WRITE,
};
use oxygen::kernel::user::{UserMemory, PAGE};
use oxygen::schema::Method;

const TEXT: u64 = 0x4000_0000;
const STACK: u64 = 0x4000_2000;

fn memory() -> UserMemory {
    UserMemory { text_base: TEXT, stack_base: STACK, text: vec![0u8; PAGE as usize], stack: vec![0u8; PAGE as usize] }
}

fn args(a: &[u64]) -> [u64; 6] {
    let mut out = [0u64; 6];
    out[..a.len()].copy_from_slice(a);
    out
}

struct World {
    caps: CapSpace<CAP_SLOTS>,
    ipc: Ipc,
    table: oxygen::schema::SchemaTable<8>,
    journal: Journal<CAPACITY>,
    user: UserMemory,
    console: u64,
    registry: u64,
    journal_cap: u64,
}

fn world() -> World {
    let mut caps = CapSpace::new();
    let (console, registry, journal_cap) = seed_capabilities(&mut caps).unwrap();
    let mut ipc = Ipc::new();
    ipc.init();
    let id = ipc.create_endpoint();
    ipc.register(Name::new("echo").unwrap(), id).unwrap();
    World { caps, ipc, table: schema::init(), journal: Journal::new(), user: memory(), console, registry, journal_cap }
}

fn ask(w: &World, pending: &[u8], number: u64, a: &[u64]) -> Effect {
    query(&w.caps, &w.ipc, &w.table, &w.journal, 77, pending, &w.user, number, args(a))
}

fn returned(e: Effect) -> u64 {
    match e {
        Effect::Return(v) => v,
        _ => panic!("expected a plain return"),
    }
}

fn delivered(e: Effect) -> (u64, Vec<u8>) {
    match e {
        Effect::Deliver { ptr, bytes } => (ptr, bytes),
        _ => panic!("expected a delivery"),
    }
}

#[test]
fn queries_are_the_read_only_calls() {
    assert!(is_query(SYS_READ));
    assert!(is_query(SYS_SERVICES));
    assert!(is_query(SYS_UPTIME));
    assert!(is_query(SYS_DESCRIBE));
    assert!(is_query(SYS_AUDIT));
    assert!(!is_query(SYS_WRITE));
    assert!(!is_query(SYS_AUDIT + 1));
}

#[test]
fn uptime_is_the_tick_count() {
    let w = world();
    assert_eq!(returned(ask(&w, b"", SYS_UPTIME, &[])), 77);
}

#[test]
fn an_unknown_number_is_not_a_query() {
    let w = world();
    assert_eq!(returned(ask(&w, b"", SYS_WRITE, &[])), E_NOSYS);
}

#[test]
fn services_lists_published_names() {
    let w = world();
    let (ptr, bytes) = delivered(ask(&w, b"", SYS_SERVICES, &[w.registry, 0, STACK, 16]));
    assert_eq!(ptr, STACK);
    assert_eq!(bytes, b"echo".to_vec());
    assert_eq!(returned(ask(&w, b"", SYS_SERVICES, &[w.registry, 1, STACK, 16])), E_NOENT);
}

#[test]
fn services_checks_its_capability_and_buffer() {
    let w = world();
    assert_eq!(returned(ask(&w, b"", SYS_SERVICES, &[w.console, 0, STACK, 16])), E_WRONGTYPE);
    assert_eq!(returned(ask(&w, b"", SYS_SERVICES, &[w.registry, 0, TEXT, 16])), E_FAULT);
    assert_eq!(returned(ask(&w, b"", SYS_SERVICES, &[w.registry, 0, STACK, 2])), E_INVAL);
}

#[test]
fn describe_hands_out_method_encodings() {
    let w = world();
    let (_, bytes) = delivered(ask(&w, b"", SYS_DESCRIBE, &[w.console, 0, STACK, 26]));
    assert_eq!(bytes.len(), 26);
    let method = Method::decode(&bytes).unwrap();
    assert_eq!(method.name().as_str(), "write");
    assert_eq!(method, schema::method_at(&w.table, 1, 0).unwrap());
}

#[test]
fn describe_stops_past_the_last_method() {
    let w = world();
    let mut index = 0;
    while let Effect::Deliver { .. } = ask(&w, b"", SYS_DESCRIBE, &[w.console, index, STACK, 26]) {
        index += 1;
    }
    assert!(index > 0);
    assert_eq!(returned(ask(&w, b"", SYS_DESCRIBE, &[w.console, index, STACK, 26])), E_NOENT);
    assert_eq!(returned(ask(&w, b"", SYS_DESCRIBE, &[w.console, 0, STACK, 25])), E_INVAL);
}

#[test]
fn audit_hands_out_event_encodings() {
    let mut w = world();
    w.journal.record(3, Action::Delegate, 1, 0b111, 9);
    let (_, bytes) = delivered(ask(&w, b"", SYS_AUDIT, &[w.journal_cap, 0, STACK, 32]));
    let event = Event::decode(&bytes).unwrap();
    assert_eq!(event, Event { seq: 1, actor: 3, action: Action::Delegate, kind: 1, rights: 0b111, detail: 9 });
    assert_eq!(returned(ask(&w, b"", SYS_AUDIT, &[w.journal_cap, 1, STACK, 32])), E_NOENT);
    assert_eq!(returned(ask(&w, b"", SYS_AUDIT, &[w.console, 0, STACK, 32])), E_WRONGTYPE);
}

#[test]
fn audit_needs_read_on_the_journal() {
    let mut w = world();
    let blind = w.caps.insert(Object::Journal, Rights::NONE()).unwrap().raw();
    w.journal.record(3, Action::Insert, 1, 0, 0);
    assert_eq!(returned(ask(&w, b"", SYS_AUDIT, &[blind, 0, STACK, 32])), E_RIGHTS);
}

#[test]
fn read_delivers_pending_input_up_to_the_buffer() {
    let w = world();
    let (_, bytes) = delivered(ask(&w, b"hi", SYS_READ, &[w.console, STACK, 1]));
    assert_eq!(bytes, b"h".to_vec());
    let (_, bytes) = delivered(ask(&w, b"hi", SYS_READ, &[w.console, STACK, 8]));
    assert_eq!(bytes, b"hi".to_vec());
    let (_, bytes) = delivered(ask(&w, b"", SYS_READ, &[w.console, STACK, 8]));
    assert!(bytes.is_empty());
    assert_eq!(returned(ask(&w, b"hi", SYS_READ, &[w.registry, STACK, 8])), E_WRONGTYPE);
}
