//! The schema table: what each object kind's capability lets its holder call.
//!
//! A method's id is the system call number a caller puts in `x8` to invoke it, so a
//! description is itself the call to make. Every interface also gets the four generic methods
//! — `identify`, `delegate`, `revoke`, `describe` — that apply to any capability.

use vstd::prelude::*;
use vstd::string::{StringSliceAdditionalSpecFns, is_ascii, is_ascii_spec_bytes};

use crate::cap::object::Object;
use crate::ipc::registry::{Name, valid_name_text};
use crate::kernel::syscall::{
    SYS_AUDIT, SYS_DELEGATE, SYS_DESCRIBE, SYS_IDENTIFY, SYS_LOOKUP, SYS_READ, SYS_RECV,
    SYS_REGISTER, SYS_REVOKE, SYS_SEND, SYS_SERVICES, SYS_WRITE,
};
use crate::schema::interface::Interface;
use crate::schema::method::{ArgKind, Method};
use crate::schema::table::{SchemaTable, holds_id, slot_has};

verus! {

/// Interface slots in the table.
pub const INTERFACES: usize = 8;

/// A method as the table describes it: its id, its name's text, its arguments and what it
/// returns.
pub type MethodSpec = (u32, Seq<u8>, Seq<ArgKind>, ArgKind);

/// Whether `m` is the method `spec` describes.
pub open spec fn method_is(m: Method, spec: MethodSpec) -> bool {
    &&& m.id_spec() == spec.0
    &&& m.name_spec().text() == spec.1
    &&& m.args_spec() == spec.2
    &&& m.return_kind_spec() == spec.3
}

/// Whether `iface` is the interface with `id`, named `name`, declaring exactly `methods`.
pub open spec fn interface_is(iface: Interface, id: u32, name: Seq<u8>, methods: Seq<MethodSpec>) -> bool {
    &&& iface.id_spec() == id
    &&& iface.name_spec().text() == name
    &&& iface@.len() == methods.len()
    &&& forall|i: int| 0 <= i < methods.len() ==> method_is(#[trigger] iface@[i], methods[i])
}

/// The four methods every interface carries.
pub open spec fn generic_methods() -> Seq<MethodSpec> {
    seq![
        (SYS_IDENTIFY as u32, "identify".spec_bytes(), seq![], ArgKind::Number),
        (SYS_DELEGATE as u32, "delegate".spec_bytes(), seq![ArgKind::Rights], ArgKind::Handle),
        (SYS_REVOKE as u32, "revoke".spec_bytes(), seq![], ArgKind::Number),
        (
            SYS_DESCRIBE as u32,
            "describe".spec_bytes(),
            seq![ArgKind::Number, ArgKind::Bytes],
            ArgKind::Number,
        ),
    ]
}

/// The console's methods.
pub open spec fn console_methods() -> Seq<MethodSpec> {
    seq![
        (SYS_WRITE as u32, "write".spec_bytes(), seq![ArgKind::Bytes], ArgKind::Number),
        (SYS_READ as u32, "read".spec_bytes(), seq![ArgKind::Bytes], ArgKind::Number),
    ] + generic_methods()
}

/// An endpoint's methods.
pub open spec fn endpoint_methods() -> Seq<MethodSpec> {
    seq![
        (
            SYS_SEND as u32,
            "send".spec_bytes(),
            seq![ArgKind::Number, ArgKind::Number, ArgKind::Bytes],
            ArgKind::Number,
        ),
        (SYS_RECV as u32, "recv".spec_bytes(), seq![ArgKind::Bytes], ArgKind::Number),
    ] + generic_methods()
}

/// The registry's methods.
pub open spec fn registry_methods() -> Seq<MethodSpec> {
    seq![
        (SYS_LOOKUP as u32, "lookup".spec_bytes(), seq![ArgKind::Bytes], ArgKind::Handle),
        (
            SYS_REGISTER as u32,
            "register".spec_bytes(),
            seq![ArgKind::Bytes, ArgKind::Handle],
            ArgKind::Number,
        ),
        (
            SYS_SERVICES as u32,
            "services".spec_bytes(),
            seq![ArgKind::Number, ArgKind::Bytes],
            ArgKind::Number,
        ),
    ] + generic_methods()
}

/// The journal's methods.
pub open spec fn journal_methods() -> Seq<MethodSpec> {
    seq![
        (
            SYS_AUDIT as u32,
            "audit".spec_bytes(),
            seq![ArgKind::Number, ArgKind::Bytes],
            ArgKind::Number,
        ),
    ] + generic_methods()
}

/// A name from a literal known to be valid.
fn name(text: &str) -> (n: Name)
    requires
        valid_name_text(text.spec_bytes()),
    ensures
        n.text() == text.spec_bytes(),
{
    Name::new(text).unwrap()
}

/// A method whose id is a system call number.
fn method(id: u64, text: &str, args: &[ArgKind], result: ArgKind) -> (m: Method)
    requires
        valid_name_text(text.spec_bytes()),
        args@.len() <= 4,
        id <= u32::MAX,
    ensures
        method_is(m, (id as u32, text.spec_bytes(), args@, result)),
{
    Method::new(id as u32, name(text), args, result).unwrap()
}

/// A literal of one to sixteen printable ASCII characters is a valid name.
proof fn lemma_literal_name(s: &str)
    requires
        1 <= s@.len() <= 16,
        forall|i: int| 0 <= i < s@.len() ==> 0x21 <= (#[trigger] s@[i]) as int <= 0x7E,
    ensures
        valid_name_text(s.spec_bytes()),
{
    assert(is_ascii(s));
    is_ascii_spec_bytes(s);
}

/// Appends `identify`, `delegate`, `revoke` and `describe`, the methods that apply to any
/// capability whatever it names.
fn add_generic_methods(iface: &mut Interface)
    requires
        old(iface)@.len() <= 4,
    ensures
        final(iface).id_spec() == old(iface).id_spec(),
        final(iface).name_spec() == old(iface).name_spec(),
        final(iface)@.len() == old(iface)@.len() + 4,
        forall|i: int| 0 <= i < old(iface)@.len() ==> #[trigger] final(iface)@[i] == old(iface)@[i],
        forall|j: int|
            0 <= j < 4 ==> method_is(#[trigger] final(iface)@[old(iface)@.len() + j], generic_methods()[j]),
{
    proof {
        reveal_strlit("identify");
        reveal_strlit("delegate");
        reveal_strlit("revoke");
        reveal_strlit("describe");
        lemma_literal_name("identify");
        lemma_literal_name("delegate");
        lemma_literal_name("revoke");
        lemma_literal_name("describe");
    }
    let ghost before = iface@;
    let m0 = method(SYS_IDENTIFY, "identify", &[], ArgKind::Number);
    iface.add(m0).unwrap();
    let m1 = method(SYS_DELEGATE, "delegate", &[ArgKind::Rights], ArgKind::Handle);
    iface.add(m1).unwrap();
    let m2 = method(SYS_REVOKE, "revoke", &[], ArgKind::Number);
    iface.add(m2).unwrap();
    let m3 = method(SYS_DESCRIBE, "describe", &[ArgKind::Number, ArgKind::Bytes], ArgKind::Number);
    iface.add(m3).unwrap();
    proof {
        let n = before.len() as int;
        let g = generic_methods();
        assert(iface@ == before.push(m0).push(m1).push(m2).push(m3));
        assert(m0.args_spec() =~= g[0].2);
        assert(m1.args_spec() =~= g[1].2);
        assert(m2.args_spec() =~= g[2].2);
        assert(m3.args_spec() =~= g[3].2);
        assert(method_is(m0, g[0]));
        assert(method_is(m1, g[1]));
        assert(method_is(m2, g[2]));
        assert(method_is(m3, g[3]));
        assert forall|j: int| 0 <= j < 4 implies method_is(#[trigger] iface@[n + j], g[j]) by {
            if j == 0 {
                assert(iface@[n + j] == m0);
            } else if j == 1 {
                assert(iface@[n + j] == m1);
            } else if j == 2 {
                assert(iface@[n + j] == m2);
            } else {
                assert(iface@[n + j] == m3);
            }
        }
    }
}

/// The table after `init`: console, endpoint, registry and journal under ids 1 to 4, in that
/// order, the rest free.
pub open spec fn initial_table(slots: Seq<Option<Interface>>) -> bool {
    &&& slots.len() == INTERFACES
    &&& slots[0] matches Some(i) && interface_is(i, 1, "console".spec_bytes(), console_methods())
    &&& slots[1] matches Some(i) && interface_is(i, 2, "endpoint".spec_bytes(), endpoint_methods())
    &&& slots[2] matches Some(i) && interface_is(i, 3, "registry".spec_bytes(), registry_methods())
    &&& slots[3] matches Some(i) && interface_is(i, 4, "journal".spec_bytes(), journal_methods())
    &&& forall|k: int| 4 <= k < INTERFACES ==> #[trigger] slots[k] is None
}

/// An interface with `first` declared, then the generic methods, is the one `specs` describes
/// when `first` is described by its head.
proof fn lemma_interface_built(iface: Interface, id: u32, name: Seq<u8>, head: Seq<MethodSpec>, k: int)
    requires
        iface.id_spec() == id,
        iface.name_spec().text() == name,
        iface@.len() == k + 4,
        head.len() == k,
        forall|i: int| 0 <= i < k ==> method_is(#[trigger] iface@[i], head[i]),
        forall|j: int| 0 <= j < 4 ==> method_is(#[trigger] iface@[k + j], generic_methods()[j]),
    ensures
        interface_is(iface, id, name, head + generic_methods()),
{
    let all = head + generic_methods();
    assert forall|i: int| 0 <= i < all.len() implies method_is(#[trigger] iface@[i], all[i]) by {
        if i >= k {
            assert(iface@[k + (i - k)] == iface@[i]);
        }
    }
}

/// A table whose first `k` slots hold interfaces with ids other than `id`, and whose other
/// slots are free, does not hold `id` and has a free slot.
proof fn lemma_room_for(before: Seq<Option<Interface>>, id: u32, k: int)
    requires
        before.len() == INTERFACES,
        0 <= k < INTERFACES,
        forall|i: int| 0 <= i < k ==> (#[trigger] before[i]) is Some && before[i]->Some_0.id_spec() != id,
        forall|i: int| k <= i < INTERFACES ==> #[trigger] before[i] is None,
    ensures
        !holds_id(before, id),
        exists|i: int| 0 <= i < INTERFACES && #[trigger] before[i] is None,
{
    assert(before[k] is None);
    assert forall|j: int| !#[trigger] slot_has(before, j, id) by {}
}

/// In such a table, the first free slot is slot `k`.
proof fn lemma_first_free_at(before: Seq<Option<Interface>>, k: int, i: int)
    requires
        before.len() == INTERFACES,
        0 <= k < INTERFACES,
        forall|j: int| 0 <= j < k ==> (#[trigger] before[j]) is Some,
        forall|j: int| k <= j < INTERFACES ==> #[trigger] before[j] is None,
        crate::schema::table::first_free(before, i),
    ensures
        i == k,
{
    if i < k {
        assert(before[i] is Some);
    }
    if i > k {
        assert(before[k] is Some);
    }
}

/// Builds the schema table.
pub fn init() -> (t: SchemaTable<INTERFACES>)
    ensures
        t.wf(),
        initial_table(t@),
{
    proof {
        reveal_strlit("console");
        reveal_strlit("endpoint");
        reveal_strlit("registry");
        reveal_strlit("journal");
        reveal_strlit("write");
        reveal_strlit("read");
        reveal_strlit("send");
        reveal_strlit("recv");
        reveal_strlit("lookup");
        reveal_strlit("register");
        reveal_strlit("services");
        reveal_strlit("audit");
        lemma_literal_name("console");
        lemma_literal_name("endpoint");
        lemma_literal_name("registry");
        lemma_literal_name("journal");
        lemma_literal_name("write");
        lemma_literal_name("read");
        lemma_literal_name("send");
        lemma_literal_name("recv");
        lemma_literal_name("lookup");
        lemma_literal_name("register");
        lemma_literal_name("services");
        lemma_literal_name("audit");
    }
    let mut table: SchemaTable<INTERFACES> = SchemaTable::new();
    let ghost t0 = table@;

    let mut console = Interface::new(1, name("console")).unwrap();
    let c0 = method(SYS_WRITE, "write", &[ArgKind::Bytes], ArgKind::Number);
    console.add(c0).unwrap();
    let c1 = method(SYS_READ, "read", &[ArgKind::Bytes], ArgKind::Number);
    console.add(c1).unwrap();
    add_generic_methods(&mut console);
    proof {
        let head = seq![console_methods()[0], console_methods()[1]];
        assert(c0.args_spec() =~= head[0].2);
        assert(c1.args_spec() =~= head[1].2);
        lemma_interface_built(console, 1, "console".spec_bytes(), head, 2);
        assert(head + generic_methods() =~= console_methods());
    }
    let ghost ci = console;
    proof {
        lemma_room_for(t0, ci.id_spec(), 0);
    }
    table.register(console).unwrap();
    proof {
        let i = choose|i: int|
            #[trigger] crate::schema::table::first_free(t0, i) && table@ == t0.update(i, Some(ci));
        lemma_first_free_at(t0, 0, i);
    }
    let ghost t1 = table@;

    let mut endpoint = Interface::new(2, name("endpoint")).unwrap();
    let e0 = method(SYS_SEND, "send", &[ArgKind::Number, ArgKind::Number, ArgKind::Bytes], ArgKind::Number);
    endpoint.add(e0).unwrap();
    let e1 = method(SYS_RECV, "recv", &[ArgKind::Bytes], ArgKind::Number);
    endpoint.add(e1).unwrap();
    add_generic_methods(&mut endpoint);
    proof {
        let head = seq![endpoint_methods()[0], endpoint_methods()[1]];
        assert(e0.args_spec() =~= head[0].2);
        assert(e1.args_spec() =~= head[1].2);
        lemma_interface_built(endpoint, 2, "endpoint".spec_bytes(), head, 2);
        assert(head + generic_methods() =~= endpoint_methods());
    }
    let ghost ei = endpoint;
    proof {
        lemma_room_for(t1, ei.id_spec(), 1);
    }
    table.register(endpoint).unwrap();
    proof {
        let i = choose|i: int|
            #[trigger] crate::schema::table::first_free(t1, i) && table@ == t1.update(i, Some(ei));
        lemma_first_free_at(t1, 1, i);
    }
    let ghost t2 = table@;

    let mut registry = Interface::new(3, name("registry")).unwrap();
    let r0 = method(SYS_LOOKUP, "lookup", &[ArgKind::Bytes], ArgKind::Handle);
    registry.add(r0).unwrap();
    let r1 = method(SYS_REGISTER, "register", &[ArgKind::Bytes, ArgKind::Handle], ArgKind::Number);
    registry.add(r1).unwrap();
    let r2 = method(SYS_SERVICES, "services", &[ArgKind::Number, ArgKind::Bytes], ArgKind::Number);
    registry.add(r2).unwrap();
    add_generic_methods(&mut registry);
    proof {
        let head = seq![registry_methods()[0], registry_methods()[1], registry_methods()[2]];
        assert(r0.args_spec() =~= head[0].2);
        assert(r1.args_spec() =~= head[1].2);
        assert(r2.args_spec() =~= head[2].2);
        lemma_interface_built(registry, 3, "registry".spec_bytes(), head, 3);
        assert(head + generic_methods() =~= registry_methods());
    }
    let ghost ri = registry;
    proof {
        lemma_room_for(t2, ri.id_spec(), 2);
    }
    table.register(registry).unwrap();
    proof {
        let i = choose|i: int|
            #[trigger] crate::schema::table::first_free(t2, i) && table@ == t2.update(i, Some(ri));
        lemma_first_free_at(t2, 2, i);
    }
    let ghost t3 = table@;

    let mut journal = Interface::new(4, name("journal")).unwrap();
    let j0 = method(SYS_AUDIT, "audit", &[ArgKind::Number, ArgKind::Bytes], ArgKind::Number);
    journal.add(j0).unwrap();
    add_generic_methods(&mut journal);
    proof {
        let head = seq![journal_methods()[0]];
        assert(j0.args_spec() =~= head[0].2);
        lemma_interface_built(journal, 4, "journal".spec_bytes(), head, 1);
        assert(head + generic_methods() =~= journal_methods());
    }
    let ghost ji = journal;
    proof {
        lemma_room_for(t3, ji.id_spec(), 3);
    }
    table.register(journal).unwrap();
    proof {
        let i = choose|i: int|
            #[trigger] crate::schema::table::first_free(t3, i) && table@ == t3.update(i, Some(ji));
        lemma_first_free_at(t3, 3, i);
    }
    table
}

/// Which schema interface describes a capability to `object`: console 1, endpoint 2, registry
/// 3, journal 4; no other kind has one.
pub open spec fn interface_of(object: Object) -> Option<u32> {
    match object {
        Object::Console => Some(1),
        Object::Endpoint(_) => Some(2),
        Object::Registry => Some(3),
        Object::Journal => Some(4),
        _ => None,
    }
}

/// Which schema interface describes a capability to `object`, if any.
pub fn interface_for(object: Object) -> (r: Option<u32>)
    ensures
        r == interface_of(object),
{
    match object {
        Object::Console => Some(1),
        Object::Endpoint(_) => Some(2),
        Object::Registry => Some(3),
        Object::Journal => Some(4),
        Object::Null | Object::Task(_) | Object::Memory { .. } => None,
    }
}

/// The method at `index` on `interface`, in declaration order. `None` both when `interface` was
/// never registered and when `index` runs past its last method.
pub fn method_at(table: &SchemaTable<INTERFACES>, interface: u32, index: usize) -> (r: Option<Method>)
    requires
        table.wf(),
    ensures
        !holds_id(table@, interface) ==> r is None,
        holds_id(table@, interface) ==> exists|i: int|
            #[trigger] slot_has(table@, i, interface) && ({
                let methods = table@[i]->Some_0@;
                &&& index < methods.len() ==> r == Some(methods[index as int])
                &&& index >= methods.len() ==> r is None
            }),
{
    match table.get(interface) {
        Some(iface) => match iface.method(index) {
            Some(m) => Some(*m),
            None => None,
        },
        None => None,
    }
}

} // verus!
