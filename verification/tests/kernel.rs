use oxygen::audit::{Action, Journal};
use oxygen::cap::{CapError, CapSpace, Handle, Object, Rights};
use oxygen::ipc::{IpcError, Message, Name};
use oxygen::kernel::audit;
use oxygen::kernel::context::Context;
use oxygen::kernel::exceptions::{classify_lower, describe, fault_class, is_permission_write_fault, kernel_fault_expected, LowerTrap};
use oxygen::kernel::gic::{enable_bit, interrupt_lines, Gic, Irq};
use oxygen::kernel::ipc::{Ipc, IpcFault, Received};
use oxygen::kernel::sched::{seed_capabilities, Scheduler, State, CAP_SLOTS};
use oxygen::kernel::schema;
use oxygen::kernel::syscall::{
    dispatch, Effect, E_BADHANDLE, E_FAULT, E_INVAL, E_NOENT, E_NOSLOT, E_NOSYS, E_RIGHTS, E_STALE, E_WRONGTYPE,
    SYS_DELEGATE, SYS_ENDPOINT, SYS_EXIT, SYS_IDENTIFY, SYS_LOOKUP, SYS_RECV, SYS_REGISTER, SYS_REVOKE, SYS_SEND,
    SYS_WRITE,
};
use oxygen::kernel::timer::interval;
use oxygen::kernel::uart::{write_bytes, write_str};
use oxygen::kernel::user::{is_user_readable, is_user_writable, Loaded, UserMemory, PAGE};

const TEXT: u64 = 0x4000_0000;
const STACK: u64 = 0x4000_2000;

fn memory() -> UserMemory {
    let mut text = vec![0u8; PAGE as usize];
    text[..5].copy_from_slice(b"hello");
    let mut stack = vec![0u8; PAGE as usize];
    stack[..4].copy_from_slice(b"echo");
    stack[16..20].copy_from_slice(b"ping");
    stack[32..40].copy_from_slice(b"bad name");
    UserMemory { text_base: TEXT, stack_base: STACK, text, stack }
}

fn args(a: &[u64]) -> [u64; 6] {
    let mut out = [0u64; 6];
    out[..a.len()].copy_from_slice(a);
    out
}

fn returned(e: Effect) -> u64 {
    match e {
        Effect::Return(v) => v,
        _ => panic!("expected a plain return"),
    }
}

#[test]
fn ipc_before_init_refuses_everything() {
    let mut ipc = Ipc::new();
    let m = Message::new(1, 1, b"x").unwrap();
    assert_eq!(ipc.send(1, m), Err(IpcFault::NoSuchEndpoint));
    assert!(matches!(ipc.try_recv(1), Err(IpcFault::NoSuchEndpoint)));
    assert_eq!(ipc.lookup(&Name::new("echo").unwrap()), Err(IpcFault::NotFound));
    assert_eq!(ipc.register(Name::new("echo").unwrap(), 1), Err(IpcFault::NotFound));
    assert_eq!(ipc.create_endpoint(), 1, "ids are used up even before init");
}

#[test]
fn endpoint_ids_start_at_one_and_messages_queue_in_order() {
    let mut ipc = Ipc::new();
    ipc.init();
    let a = ipc.create_endpoint();
    let b = ipc.create_endpoint();
    assert_eq!((a, b), (1, 2));
    ipc.send(b, Message::new(7, 1, b"one").unwrap()).unwrap();
    ipc.send(b, Message::new(7, 2, b"two").unwrap()).unwrap();
    assert!(matches!(ipc.try_recv(a), Ok(None)));
    match ipc.recv(b) {
        Ok(Received::Message(m)) => assert_eq!(m.body(), b"one"),
        _ => panic!("a message was waiting"),
    }
    assert_eq!(ipc.try_recv(b).unwrap().unwrap().header.method, 2);
    assert!(matches!(ipc.recv(b), Ok(Received::Park)));
    assert!(matches!(ipc.recv(99), Err(IpcFault::NoSuchEndpoint)));
}

#[test]
fn sends_and_receives_interleaved_keep_first_in_first_out() {
    let mut ipc = Ipc::new();
    ipc.init();
    let e = ipc.create_endpoint();
    let f = ipc.create_endpoint();
    assert!(f > e);
    assert!(matches!(ipc.try_recv(f), Ok(None)));
    for method in 1..=3 {
        ipc.send(e, Message::new(1, method, &[]).unwrap()).unwrap();
    }
    assert_eq!(ipc.try_recv(e).unwrap().unwrap().header.method, 1);
    ipc.send(e, Message::new(1, 4, &[]).unwrap()).unwrap();
    for want in 2..=4 {
        assert_eq!(ipc.try_recv(e).unwrap().unwrap().header.method, want);
    }
    assert!(matches!(ipc.try_recv(e), Ok(None)));
}

#[test]
fn a_full_endpoint_refuses_the_ninth_message() {
    let mut ipc = Ipc::new();
    ipc.init();
    let e = ipc.create_endpoint();
    for i in 0..8 {
        ipc.send(e, Message::new(1, i, &[]).unwrap()).unwrap();
    }
    assert_eq!(ipc.send(e, Message::new(1, 8, &[]).unwrap()), Err(IpcFault::Full));
}

#[test]
fn registry_faults_map_from_ipc_errors() {
    assert_eq!(IpcFault::from_error(IpcError::QueueFull), IpcFault::Full);
    assert_eq!(IpcFault::from_error(IpcError::RegistryFull), IpcFault::Full);
    assert_eq!(IpcFault::from_error(IpcError::NameTaken), IpcFault::Malformed(IpcError::NameTaken));
    let mut ipc = Ipc::new();
    ipc.init();
    let echo = Name::new("echo").unwrap();
    ipc.register(echo, 5).unwrap();
    assert_eq!(ipc.lookup(&echo), Ok(5));
    assert_eq!(ipc.register(echo, 6), Err(IpcFault::Malformed(IpcError::NameTaken)));
    assert_eq!(ipc.services().len(), 1);
}

#[test]
fn the_registry_holds_sixteen_names() {
    let mut ipc = Ipc::new();
    ipc.init();
    for i in 0..16u64 {
        let text = format!("svc{i}");
        ipc.register(Name::new(&text).unwrap(), i).unwrap();
    }
    assert_eq!(ipc.register(Name::new("one-more").unwrap(), 99), Err(IpcFault::Full));
}

#[test]
fn the_scheduler_rotates_round_robin_and_skips_the_finished() {
    let mut s = Scheduler::new();
    assert_eq!(s.current_id(), 0);
    assert_eq!(s.census(), (0, 0));
    assert_eq!(s.spawn("early", 0x1000, 0, 0x8000, 0x2000), 0, "an id is used up before init");
    s.init();
    assert_eq!(s.current_id(), 1);
    let a = s.spawn("a", 0x1000, 0, 0x8000, 0x2000);
    let b = s.spawn("b", 0x1000, 1, 0x9000, 0x2000);
    assert_eq!((a, b), (2, 3));
    assert_eq!(s.census(), (3, 3));

    s.request_reschedule();
    assert!(s.reschedule_requested());
    assert_eq!(s.yield_now(), Some((0, 1)));
    assert!(!s.reschedule_requested());
    assert_eq!(s.current_id(), 2);

    s.retire_current(7);
    assert_eq!(s.exit_code(), Some(7));
    assert_eq!(s.census(), (3, 2));
    assert_eq!(s.yield_now(), Some((1, 2)));
    assert_eq!(s.yield_now(), Some((2, 0)), "the finished thread is skipped");
    assert_eq!(s.switches(), 3);
    s.clear_exit();
    assert_eq!(s.exit_code(), None);
}

#[test]
fn a_lone_ready_thread_keeps_the_cpu() {
    let mut s = Scheduler::new();
    s.init();
    assert_eq!(s.yield_now(), None);
    s.retire_current(0);
    assert_eq!(s.yield_now(), None);
    assert_eq!(s.switches(), 0);
}

#[test]
fn a_new_context_starts_in_the_trampoline_on_an_aligned_stack() {
    let c = Context::for_new_thread(0x1234, 9, 0x8_000F, 0x5678);
    assert_eq!(c.x19, 0x1234);
    assert_eq!(c.x20, 9);
    assert_eq!(c.x30, 0x5678);
    assert_eq!(c.sp, 0x8_0000);
    assert_eq!(c.x21, 0);
    assert_eq!(Context::zeroed().sp, 0);
}

#[test]
fn the_audit_journal_records_the_current_thread() {
    let mut s = Scheduler::new();
    let mut journal: Journal<{ audit::CAPACITY }> = Journal::new();
    assert_eq!(audit::record(&mut journal, &s, Action::Insert, 1, 15, 0), 1);
    s.init();
    s.spawn("user", 0, 0, 0x8000, 0);
    s.yield_now();
    assert_eq!(audit::record(&mut journal, &s, Action::Delegate, 1, 2, 3), 2);
    assert_eq!(audit::len(&journal), 2);
    assert_eq!(audit::event_at(&journal, 0).unwrap().actor, 0);
    assert_eq!(audit::event_at(&journal, 1).unwrap().actor, 1);
    assert_eq!(audit::event_at(&journal, 2), None);
    assert_eq!(audit::dropped(&journal), 0);
}

#[test]
fn the_schema_describes_the_console_first_with_write() {
    let table = schema::init();
    assert_eq!(table.len(), 4);
    let m = schema::method_at(&table, 1, 0).unwrap();
    assert_eq!(m.name().as_str(), "write");
    assert_eq!(m.id(), SYS_WRITE as u32);
    assert_eq!(schema::method_at(&table, 1, 5).unwrap().name().as_str(), "describe");
    assert!(schema::method_at(&table, 1, 6).is_none());
    assert_eq!(schema::method_at(&table, 3, 2).unwrap().name().as_str(), "services");
    assert_eq!(schema::method_at(&table, 4, 0).unwrap().name().as_str(), "audit");
    assert!(schema::method_at(&table, 9, 0).is_none());
    assert_eq!(schema::interface_for(Object::Console), Some(1));
    assert_eq!(schema::interface_for(Object::Endpoint(3)), Some(2));
    assert_eq!(schema::interface_for(Object::Registry), Some(3));
    assert_eq!(schema::interface_for(Object::Journal), Some(4));
    assert_eq!(schema::interface_for(Object::Task(1)), None);
}

#[test]
fn user_pointers_are_checked_against_the_two_pages() {
    let mem = memory();
    assert!(is_user_readable(&mem, TEXT, 5));
    assert!(is_user_readable(&mem, STACK + PAGE - 1, 1));
    assert!(!is_user_readable(&mem, STACK + PAGE - 1, 2));
    assert!(!is_user_readable(&mem, 0xFFFF_0000_0000_0000, 16));
    assert!(!is_user_readable(&mem, u64::MAX, 2), "a wrapping range is refused");
    assert!(!is_user_writable(&mem, TEXT, 4), "the program page is not writable");
    assert!(is_user_writable(&mem, STACK, 4));
    assert_eq!(mem.read(TEXT, 5), b"hello".to_vec());
}

#[test]
fn loaded_programs_report_their_entry_points() {
    let l = Loaded::load(TEXT, STACK, 100, 64);
    assert_eq!(l.program(), (TEXT, STACK + PAGE));
    assert_eq!(l.trespasser(), (TEXT + 64, STACK + PAGE));
    assert_eq!(Loaded::none().program(), (0, 0));
}

#[test]
fn write_needs_a_console_with_write_and_memory_the_caller_owns() {
    let mem = memory();
    let mut ipc = Ipc::new();
    ipc.init();
    let mut caps: CapSpace<CAP_SLOTS> = CapSpace::new();
    let console = caps.insert(Object::Console, Rights::ALL()).unwrap().raw();
    let reader = caps.insert(Object::Console, Rights::READ()).unwrap().raw();
    let registry = caps.insert(Object::Registry, Rights::ALL()).unwrap().raw();

    match dispatch(&mut caps, &mut ipc, &mem, SYS_WRITE, args(&[console, TEXT, 5])) {
        Effect::Print(bytes) => assert_eq!(bytes, b"hello".to_vec()),
        _ => panic!("expected console output"),
    }
    assert_eq!(returned(dispatch(&mut caps, &mut ipc, &mem, SYS_WRITE, args(&[reader, TEXT, 5]))), E_RIGHTS);
    assert_eq!(returned(dispatch(&mut caps, &mut ipc, &mem, SYS_WRITE, args(&[registry, TEXT, 5]))), E_WRONGTYPE);
    assert_eq!(returned(dispatch(&mut caps, &mut ipc, &mem, SYS_WRITE, args(&[console, 0xFFFF_0000_0000_0000, 5]))), E_FAULT);
    assert_eq!(returned(dispatch(&mut caps, &mut ipc, &mem, SYS_WRITE, args(&[console, TEXT, 4097]))), E_FAULT);
    assert_eq!(returned(dispatch(&mut caps, &mut ipc, &mem, SYS_WRITE, args(&[u64::MAX, TEXT, 5]))), E_BADHANDLE);
    assert_eq!(returned(dispatch(&mut caps, &mut ipc, &mem, 99, args(&[]))), E_NOSYS);
}

#[test]
fn a_revoked_grant_writes_stale_and_the_grantor_keeps_its_own() {
    let mem = memory();
    let mut ipc = Ipc::new();
    ipc.init();
    let mut caps: CapSpace<CAP_SLOTS> = CapSpace::new();
    let console = caps.insert(Object::Console, Rights::ALL()).unwrap().raw();

    let child = returned(dispatch(&mut caps, &mut ipc, &mem, SYS_DELEGATE, args(&[console, 2])));
    assert!(matches!(dispatch(&mut caps, &mut ipc, &mem, SYS_WRITE, args(&[child, TEXT, 5])), Effect::Print(_)));
    assert_eq!(returned(dispatch(&mut caps, &mut ipc, &mem, SYS_IDENTIFY, args(&[child]))), (2 << 8) | 1);

    assert_eq!(returned(dispatch(&mut caps, &mut ipc, &mem, SYS_REVOKE, args(&[console]))), 1);
    assert_eq!(returned(dispatch(&mut caps, &mut ipc, &mem, SYS_WRITE, args(&[child, TEXT, 5]))), E_STALE);
    assert!(matches!(dispatch(&mut caps, &mut ipc, &mem, SYS_WRITE, args(&[console, TEXT, 5])), Effect::Print(_)));
    assert_eq!(returned(dispatch(&mut caps, &mut ipc, &mem, SYS_REVOKE, args(&[child]))), E_STALE);
    assert_eq!(returned(dispatch(&mut caps, &mut ipc, &mem, SYS_IDENTIFY, args(&[console]))), (15 << 8) | 1);
    assert!(matches!(dispatch(&mut caps, &mut ipc, &mem, SYS_EXIT, args(&[E_STALE])), Effect::Exit(E_STALE)));
}

#[test]
fn a_typed_message_crosses_between_two_tasks_that_share_only_a_name() {
    let mem = memory();
    let mut ipc = Ipc::new();
    ipc.init();

    let mut server: CapSpace<CAP_SLOTS> = CapSpace::new();
    let server_registry = server.insert(Object::Registry, Rights::ALL()).unwrap().raw();
    let endpoint = returned(dispatch(&mut server, &mut ipc, &mem, SYS_ENDPOINT, args(&[])));
    assert_eq!(returned(dispatch(&mut server, &mut ipc, &mem, SYS_REGISTER, args(&[server_registry, STACK, 4, endpoint]))), 0);
    assert!(matches!(
        dispatch(&mut server, &mut ipc, &mem, SYS_RECV, args(&[endpoint, STACK + 64, 128])),
        Effect::Park(1)
    ));

    let mut client: CapSpace<CAP_SLOTS> = CapSpace::new();
    let client_registry = client.insert(Object::Registry, Rights::ALL()).unwrap().raw();
    let found = returned(dispatch(&mut client, &mut ipc, &mem, SYS_LOOKUP, args(&[client_registry, STACK, 4])));
    assert_eq!(client.rights(Handle::from_raw(found)), Ok(Rights::READ().union(Rights::WRITE())));
    assert!(matches!(
        dispatch(&mut client, &mut ipc, &mem, SYS_SEND, args(&[found, 7, 3, STACK + 16, 4])),
        Effect::Wake(1)
    ));
    assert_eq!(
        returned(dispatch(&mut client, &mut ipc, &mem, SYS_REGISTER, args(&[client_registry, STACK + 16, 4, found]))),
        E_RIGHTS,
        "a capability found by name cannot be published again"
    );

    match dispatch(&mut server, &mut ipc, &mem, SYS_RECV, args(&[endpoint, STACK + 64, 128])) {
        Effect::Deliver { ptr, bytes } => {
            assert_eq!(ptr, STACK + 64);
            assert_eq!(&bytes[0..4], &[7, 0, 0, 0]);
            assert_eq!(&bytes[4..8], &[3, 0, 0, 0]);
            assert_eq!(&bytes[8..12], &[4, 0, 0, 0]);
            assert_eq!(&bytes[12..], b"ping");
        }
        _ => panic!("the message should be delivered"),
    }
}

#[test]
fn send_and_lookup_refuse_what_they_must() {
    let mem = memory();
    let mut ipc = Ipc::new();
    ipc.init();
    let mut caps: CapSpace<CAP_SLOTS> = CapSpace::new();
    let registry = caps.insert(Object::Registry, Rights::ALL()).unwrap().raw();
    let endpoint = returned(dispatch(&mut caps, &mut ipc, &mem, SYS_ENDPOINT, args(&[])));

    assert_eq!(returned(dispatch(&mut caps, &mut ipc, &mem, SYS_SEND, args(&[endpoint, 0, 1, STACK, 4]))), E_INVAL);
    assert_eq!(returned(dispatch(&mut caps, &mut ipc, &mem, SYS_SEND, args(&[endpoint, 1, 1, STACK, 65]))), E_INVAL);
    assert_eq!(returned(dispatch(&mut caps, &mut ipc, &mem, SYS_SEND, args(&[endpoint, 1, 1, 8, 4]))), E_FAULT);
    assert!(matches!(dispatch(&mut caps, &mut ipc, &mem, SYS_SEND, args(&[endpoint, 1, 1, 8, 0])), Effect::Wake(_)));
    assert_eq!(returned(dispatch(&mut caps, &mut ipc, &mem, SYS_SEND, args(&[registry, 1, 1, STACK, 4]))), E_WRONGTYPE);

    assert_eq!(returned(dispatch(&mut caps, &mut ipc, &mem, SYS_LOOKUP, args(&[registry, STACK, 4]))), E_NOENT);
    assert_eq!(returned(dispatch(&mut caps, &mut ipc, &mem, SYS_LOOKUP, args(&[registry, STACK + 32, 8]))), E_INVAL);
    assert_eq!(returned(dispatch(&mut caps, &mut ipc, &mem, SYS_LOOKUP, args(&[registry, STACK, 0]))), E_INVAL);
    assert_eq!(returned(dispatch(&mut caps, &mut ipc, &mem, SYS_LOOKUP, args(&[endpoint, STACK, 4]))), E_WRONGTYPE);

    match dispatch(&mut caps, &mut ipc, &mem, SYS_RECV, args(&[endpoint, STACK, 11])) {
        Effect::Return(code) => assert_eq!(code, E_FAULT, "a twelve-byte header does not fit eleven bytes"),
        _ => panic!("expected a refusal"),
    }
    assert_eq!(returned(dispatch(&mut caps, &mut ipc, &mem, SYS_RECV, args(&[endpoint, TEXT, 64]))), E_FAULT);
}

#[test]
fn a_full_capability_space_refuses_a_new_endpoint_but_the_endpoint_is_made() {
    let mem = memory();
    let mut ipc = Ipc::new();
    ipc.init();
    let mut caps: CapSpace<CAP_SLOTS> = CapSpace::new();
    for _ in 0..CAP_SLOTS {
        caps.insert(Object::Console, Rights::READ()).unwrap();
    }
    assert_eq!(returned(dispatch(&mut caps, &mut ipc, &mem, SYS_ENDPOINT, args(&[]))), E_NOSLOT);
    assert_eq!(ipc.create_endpoint(), 2);
    assert_eq!(caps.insert(Object::Console, Rights::READ()), Err(CapError::OutOfSlots));
}

#[test]
fn exception_syndromes_decode() {
    let data_abort_write_permission = (0b100101u64 << 26) | (1 << 6) | 0b001111;
    assert!(is_permission_write_fault(data_abort_write_permission));
    assert!(!is_permission_write_fault((0b100101u64 << 26) | 0b001111), "a read is not a write fault");
    assert!(!is_permission_write_fault((0b100101u64 << 26) | (1 << 6) | 0b000111), "a translation fault");
    assert_eq!(describe(0b010101u64 << 26), "SVC (system call)");
    assert_eq!(describe(0b100100u64 << 26), "data abort");
    assert_eq!(describe(0b111111u64 << 26), "unclassified");
    assert_eq!(fault_class((0b100000u64 << 26) | 0b000101), " (translation fault — nothing was mapped)");
    assert_eq!(fault_class((0b100100u64 << 26) | 0b001101), " (permission fault — the mapping refused it)");
    assert_eq!(fault_class(0b010101u64 << 26), "");
    assert_eq!(classify_lower(0b010101u64 << 26), LowerTrap::Syscall);
    assert_eq!(classify_lower(0b100100u64 << 26), LowerTrap::Fault);
    assert!(kernel_fault_expected(true, data_abort_write_permission));
    assert!(!kernel_fault_expected(false, data_abort_write_permission));
}

#[test]
fn interrupts_are_classified_and_ticks_counted() {
    assert_eq!(interrupt_lines(0), 32);
    assert_eq!(interrupt_lines(0x1F), 1024);
    assert_eq!(interrupt_lines(0xE2), 96);
    assert_eq!(enable_bit(30), (0, 1 << 30));
    assert_eq!(enable_bit(33), (4, 2));
    let mut gic = Gic::new();
    assert_eq!(gic.handle_irq(30), Irq::Timer);
    assert_eq!(gic.handle_irq(0x400 | 30), Irq::Timer, "only the low ten bits name the line");
    assert_eq!(gic.handle_irq(33), Irq::Uart);
    assert_eq!(gic.handle_irq(1023), Irq::Spurious);
    assert_eq!(gic.handle_irq(40), Irq::Unexpected(40));
    assert_eq!(gic.ticks(), 2);
    assert_eq!(interval(0), 0);
    assert_eq!(interval(62_500_000), 625_000);
}

#[test]
fn the_uart_sends_crlf_for_every_newline() {
    assert_eq!(write_bytes(b"a\nb\n"), b"a\r\nb\r\n".to_vec());
    assert_eq!(write_bytes(b""), Vec::<u8>::new());
    assert_eq!(write_str("ok\n"), b"ok\r\n".to_vec());
}

#[test]
fn a_fresh_thread_is_seeded_with_three_capabilities() {
    let mut caps: CapSpace<CAP_SLOTS> = CapSpace::new();
    let (console, registry, journal) = seed_capabilities(&mut caps).unwrap();
    assert_eq!(caps.get(Handle::from_raw(console)), Ok((Object::Console, Rights::ALL())));
    assert_eq!(caps.get(Handle::from_raw(registry)), Ok((Object::Registry, Rights::ALL())));
    assert_eq!(caps.get(Handle::from_raw(journal)), Ok((Object::Journal, Rights::READ())));
    assert_eq!(caps.count(), 3);
}

#[test]
fn seeding_a_full_space_runs_out_of_slots() {
    let mut small: CapSpace<CAP_SLOTS> = CapSpace::new();
    for _ in 0..CAP_SLOTS - 2 {
        small.insert(Object::Console, Rights::READ()).unwrap();
    }
    assert_eq!(seed_capabilities(&mut small), Err(CapError::OutOfSlots));
    assert_eq!(small.count(), CAP_SLOTS);
}
