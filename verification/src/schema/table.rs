//! Every interface a program's schema knows about, keyed by id and enumerable.

use vstd::prelude::*;

use crate::schema::error::SchemaError;
use crate::schema::interface::Interface;

verus! {

/// Whether slot `i` holds an interface with id `id`.
pub open spec fn slot_has(slots: Seq<Option<Interface>>, i: int, id: u32) -> bool {
    0 <= i < slots.len() && slots[i] is Some && slots[i]->Some_0.id_spec() == id
}

/// Whether some slot holds an interface with id `id`.
pub open spec fn holds_id(slots: Seq<Option<Interface>>, id: u32) -> bool {
    exists|i: int| #[trigger] slot_has(slots, i, id)
}

/// Whether `i` is the first free slot.
pub open spec fn first_free(slots: Seq<Option<Interface>>, i: int) -> bool {
    0 <= i < slots.len() && slots[i] is None && forall|j: int| 0 <= j < i ==> #[trigger] slots[j] is Some
}

/// A fixed-capacity table of interfaces, `N` slots.
pub struct SchemaTable<const N: usize> {
    interfaces: Vec<Option<Interface>>,
    live: usize,
}

impl<const N: usize> SchemaTable<N> {
    /// The slots, in order.
    pub closed spec fn view(&self) -> Seq<Option<Interface>> {
        self.interfaces@
    }

    /// How many slots are occupied.
    pub open spec fn occupied(&self) -> nat {
        self@.filter(|e: Option<Interface>| e is Some).len()
    }

    /// Ids are unique and `live` counts the occupied slots.
    pub closed spec fn wf(&self) -> bool {
        &&& self.interfaces@.len() == N
        &&& self.live == self.occupied()
        &&& forall|i: int, j: int, id: u32|
            #[trigger] slot_has(self@, i, id) && #[trigger] slot_has(self@, j, id) ==> i == j
    }

    /// An empty table with room for `N` interfaces.
    pub fn new() -> (t: Self)
        ensures
            t.wf(),
            t@ == Seq::new(N as nat, |i: int| None::<Interface>),
    {
        let mut interfaces: Vec<Option<Interface>> = Vec::new();
        let mut i: usize = 0;
        while i < N
            invariant
                i <= N,
                interfaces@ == Seq::new(i as nat, |k: int| None::<Interface>),
            decreases N - i,
        {
            interfaces.push(None);
            i = i + 1;
            assert(interfaces@ =~= Seq::new(i as nat, |k: int| None::<Interface>));
        }
        let t = SchemaTable { interfaces, live: 0 };
        proof {
            lemma_none_count(t@);
        }
        t
    }

    /// How many interfaces are currently registered.
    pub fn len(&self) -> (l: usize)
        requires
            self.wf(),
        ensures
            l == self.occupied(),
    {
        self.live
    }

    /// Whether nothing is registered.
    pub fn is_empty(&self) -> (b: bool)
        requires
            self.wf(),
        ensures
            b == (self.occupied() == 0),
    {
        self.live == 0
    }

    fn find(&self, id: u32) -> (r: Option<usize>)
        requires
            self.wf(),
        ensures
            r is None ==> !holds_id(self@, id),
            r matches Some(i) ==> slot_has(self@, i as int, id),
    {
        let mut i: usize = 0;
        while i < self.interfaces.len()
            invariant
                self.wf(),
                i <= self.interfaces@.len(),
                forall|k: int| 0 <= k < i ==> !#[trigger] slot_has(self@, k, id),
            decreases self.interfaces@.len() - i,
        {
            match &self.interfaces[i] {
                Some(iface) => {
                    if iface.id() == id {
                        return Some(i);
                    }
                },
                None => {},
            }
            i = i + 1;
        }
        None
    }

    /// Adds `interface` under its own id. Fails `DuplicateInterface`, leaving the existing
    /// entry untouched, if that id is registered, and `TableFull` if every slot is occupied.
    /// Otherwise it lands in the first free slot.
    pub fn register(&mut self, interface: Interface) -> (r: Result<(), SchemaError>)
        requires
            old(self).wf(),
        ensures
            final(self).wf(),
            holds_id(old(self)@, interface.id_spec()) ==> r == Err::<(), SchemaError>(
                SchemaError::DuplicateInterface,
            ) && final(self)@ == old(self)@,
            !holds_id(old(self)@, interface.id_spec()) && (forall|i: int|
                0 <= i < N ==> #[trigger] old(self)@[i] is Some) ==> r == Err::<(), SchemaError>(
                SchemaError::TableFull,
            ) && final(self)@ == old(self)@,
            !holds_id(old(self)@, interface.id_spec()) && (exists|i: int|
                0 <= i < N && #[trigger] old(self)@[i] is None) ==> r is Ok && exists|i: int|
                #[trigger] first_free(old(self)@, i) && final(self)@ == old(self)@.update(
                    i,
                    Some(interface),
                ),
    {
        let id = interface.id();
        if self.find(id).is_some() {
            return Err(SchemaError::DuplicateInterface);
        }
        let mut index: usize = 0;
        while index < self.interfaces.len() && self.interfaces[index].is_some()
            invariant
                self.wf(),
                index <= self.interfaces@.len(),
                forall|k: int| 0 <= k < index ==> #[trigger] self@[k] is Some,
            decreases self.interfaces@.len() - index,
        {
            index = index + 1;
        }
        if index == self.interfaces.len() {
            return Err(SchemaError::TableFull);
        }
        let ghost old_slots = self@;
        self.interfaces.set(index, Some(interface));
        proof {
            lemma_count_fill(old_slots, index as int, Some(interface));
            old_slots.update(index as int, Some(interface)).lemma_filter_len(
                |e: Option<Interface>| e is Some,
            );
        }
        self.live = self.live + 1;
        proof {
            assert(first_free(old_slots, index as int));
            assert forall|i: int, j: int, x: u32|
                #[trigger] slot_has(self@, i, x) && #[trigger] slot_has(self@, j, x) implies i
                == j by {
                if i != index && j != index {
                    assert(slot_has(old_slots, i, x) && slot_has(old_slots, j, x));
                } else if i == index && j != index {
                    assert(slot_has(old_slots, j, id));
                } else if j == index && i != index {
                    assert(slot_has(old_slots, i, id));
                }
            }
        }
        Ok(())
    }

    /// The interface registered under `id`, or `None` if nothing is.
    pub fn get(&self, id: u32) -> (r: Option<&Interface>)
        requires
            self.wf(),
        ensures
            r is None <==> !holds_id(self@, id),
            r matches Some(x) ==> exists|i: int| #[trigger] slot_has(self@, i, id) && self@[i] == Some(*x),
    {
        match self.find(id) {
            Some(i) => match &self.interfaces[i] {
                Some(x) => Some(x),
                None => None,
            },
            None => None,
        }
    }

    /// Every registered interface, in slot order.
    pub fn iter(&self) -> (v: Vec<&Interface>)
        requires
            self.wf(),
        ensures
            v@.len() == self.occupied(),
            forall|k: int| 0 <= k < v@.len() ==> self@.contains(Some(*v@[k])),
            forall|i: int| 0 <= i < N && #[trigger] self@[i] is Some ==> v@.contains(&self@[i]->Some_0),
    {
        let mut v: Vec<&Interface> = Vec::new();
        let mut i: usize = 0;
        while i < self.interfaces.len()
            invariant
                self.wf(),
                i <= self.interfaces@.len(),
                v@.len() == self@.take(i as int).filter(|e: Option<Interface>| e is Some).len(),
                forall|k: int| 0 <= k < v@.len() ==> self@.take(i as int).contains(Some(*v@[k])),
                forall|j: int| 0 <= j < i && #[trigger] self@[j] is Some ==> v@.contains(&self@[j]->Some_0),
            decreases self.interfaces@.len() - i,
        {
            proof {
                reveal(Seq::filter);
                assert(self@.take(i + 1).drop_last() =~= self@.take(i as int));
            }
            let ghost old_v = v@;
            match &self.interfaces[i] {
                Some(x) => {
                    v.push(x);
                    proof {
                        assert(v@[v@.len() - 1] == x);
                    }
                },
                None => {},
            }
            proof {
                assert forall|k: int| 0 <= k < v@.len() implies self@.take(i + 1).contains(Some(*v@[k])) by {
                    if k < v@.len() - 1 || self@[i as int] is None {
                        assert(v@[k] == old_v[k]);
                        assert(self@.take(i as int).contains(Some(*old_v[k])));
                        let w = choose|w: int| 0 <= w < i && self@.take(i as int)[w] == Some(*v@[k]);
                        assert(self@.take(i + 1)[w] == Some(*v@[k]));
                    } else {
                        assert(self@.take(i + 1)[i as int] == Some(*v@[k]));
                    }
                }
                assert forall|j: int| 0 <= j < i + 1 && #[trigger] self@[j] is Some implies v@.contains(&self@[j]->Some_0) by {
                    if j == i {
                        assert(v@[v@.len() - 1] == &self@[j]->Some_0);
                    } else {
                        assert(old_v.contains(&self@[j]->Some_0));
                        let w = choose|w: int| 0 <= w < old_v.len() && old_v[w] == &self@[j]->Some_0;
                        assert(v@[w] == &self@[j]->Some_0);
                    }
                }
            }
            i = i + 1;
        }
        proof {
            assert(self@.take(N as int) =~= self@);
        }
        v
    }
}

proof fn lemma_none_count(s: Seq<Option<Interface>>)
    requires
        forall|i: int| 0 <= i < s.len() ==> s[i] is None,
    ensures
        s.filter(|e: Option<Interface>| e is Some).len() == 0,
    decreases s.len(),
{
    reveal(Seq::filter);
    if s.len() > 0 {
        lemma_none_count(s.drop_last());
    }
}

proof fn lemma_count_fill(s: Seq<Option<Interface>>, i: int, v: Option<Interface>)
    requires
        0 <= i < s.len(),
        s[i] is None,
        v is Some,
    ensures
        s.update(i, v).filter(|e: Option<Interface>| e is Some).len() == s.filter(
            |e: Option<Interface>| e is Some,
        ).len() + 1,
    decreases s.len(),
{
    reveal(Seq::filter);
    let t = s.update(i, v);
    if i == s.len() - 1 {
        assert(t.drop_last() =~= s.drop_last());
    } else {
        assert(t.drop_last() =~= s.drop_last().update(i, v));
        lemma_count_fill(s.drop_last(), i, v);
    }
}

} // verus!
