//! The name-to-value table: how a program asks for "console" instead of being handed a number
//! out of band. Names are 1 to 16 bytes of printable ASCII, and the table is enumerable: a
//! program can discover what is offered without already knowing the name to ask for.

use vstd::prelude::*;
use vstd::string::StringSliceAdditionalSpecFns;

use crate::ipc::error::IpcError;
use crate::text::str_from_utf8;

verus! {

/// Longest name a service can register under, in bytes.
pub const MAX_NAME: usize = 16;

/// Printable ASCII other than the space: `0x21..=0x7E`.
pub open spec fn printable(b: u8) -> bool {
    0x21 <= b <= 0x7E
}

/// Whether `text` may be registered as a name.
pub open spec fn valid_name_text(text: Seq<u8>) -> bool {
    1 <= text.len() <= 16 && forall|i: int| 0 <= i < text.len() ==> printable(#[trigger] text[i])
}

/// A 16-byte field holding a valid name of length `len`, zero-padded.
pub open spec fn name_field_of_len(b: Seq<u8>, len: int) -> bool {
    &&& b.len() == 16
    &&& 1 <= len <= 16
    &&& forall|i: int| 0 <= i < len ==> printable(#[trigger] b[i])
    &&& forall|i: int| len <= i < 16 ==> #[trigger] b[i] == 0
}

/// A 16-byte field holding some valid name, zero-padded.
pub open spec fn valid_field(b: Seq<u8>) -> bool {
    exists|len: int| name_field_of_len(b, len)
}

/// The zero-padded field a valid name text is stored as.
pub open spec fn name_field(text: Seq<u8>) -> Seq<u8> {
    text + Seq::new((16 - text.len()) as nat, |i: int| 0u8)
}

/// A validated, fixed-width name: printable ASCII, zero-padded to [`MAX_NAME`] bytes, so two
/// names built from the same text are byte-identical.
#[derive(Debug, Clone, Copy, PartialEq, Eq)]
pub struct Name([u8; 16]);

impl Name {
    #[verifier::type_invariant]
    closed spec fn field_is_valid(self) -> bool {
        valid_field(self.0@)
    }

    /// The zero-padded field.
    pub closed spec fn field(self) -> Seq<u8> {
        self.0@
    }

    /// The name's text: the field with its zero padding trimmed off.
    pub closed spec fn text(self) -> Seq<u8> {
        self.0@.take(choose|len: int| name_field_of_len(self.0@, len))
    }

    proof fn lemma_text(self)
        requires
            exists|len: int| name_field_of_len(self.0@, len),
        ensures
            valid_name_text(self.text()),
            self.field() == name_field(self.text()),
    {
        let len = choose|len: int| name_field_of_len(self.0@, len);
        assert(self.0@ =~= name_field(self.text()));
    }

    /// Validates and encodes `name`. Empty, longer than [`MAX_NAME`] bytes, or holding any byte
    /// outside printable ASCII (`0x21..=0x7E`) is `InvalidName`.
    pub fn new(name: &str) -> (r: Result<Name, IpcError>)
        ensures
            valid_name_text(name.spec_bytes()) ==> r is Ok && r->Ok_0.text() == name.spec_bytes(),
            !valid_name_text(name.spec_bytes()) ==> r == Err::<Name, IpcError>(
                IpcError::InvalidName,
            ),
    {
        let bytes = name.as_bytes();
        if bytes.len() == 0 || bytes.len() > MAX_NAME {
            return Err(IpcError::InvalidName);
        }
        let mut buf = [0u8; 16];
        let mut i: usize = 0;
        while i < bytes.len()
            invariant
                bytes@ == name.spec_bytes(),
                1 <= bytes@.len() <= 16,
                i <= bytes@.len(),
                forall|k: int| 0 <= k < i ==> buf@[k] == bytes@[k] && printable(bytes@[k]),
                forall|k: int| i <= k < 16 ==> buf@[k] == 0,
            decreases bytes@.len() - i,
        {
            let b = bytes[i];
            if b < 0x21 || b > 0x7E {
                assert(!printable(bytes@[i as int]));
                return Err(IpcError::InvalidName);
            }
            buf[i] = b;
            i = i + 1;
        }
        let ghost len = bytes@.len() as int;
        assert(name_field_of_len(buf@, len));
        assert(valid_name_text(bytes@));
        assert(valid_field(buf@));
        let n = Name(buf);
        proof {
            let c = choose|l: int| name_field_of_len(buf@, l);
            lemma_field_len_unique(buf@, c, len);
            assert(n.text() =~= bytes@);
        }
        Ok(n)
    }

    /// The number of text bytes before the zero padding.
    fn text_len(&self) -> (l: usize)
        ensures
            l == self.text().len(),
            1 <= l <= 16,
    {
        proof {
            use_type_invariant(self);
        }
        let ghost len = choose|len: int| name_field_of_len(self.0@, len);
        let mut l: usize = 0;
        while l < 16 && self.0[l] != 0
            invariant
                l <= 16,
                name_field_of_len(self.0@, len),
                forall|k: int| 0 <= k < l ==> self.0@[k] != 0,
            decreases 16 - l,
        {
            l = l + 1;
        }
        assert(l == len) by {
            if l < len {
                assert(printable(self.0@[l as int]));
            }
            if l > len {
                assert(self.0@[len] == 0);
            }
        }
        assert(self.text().len() == len);
        l
    }

    /// The name with its zero padding trimmed off.
    pub fn as_str(&self) -> (s: &str)
        ensures
            s.spec_bytes() == self.text(),
            valid_name_text(self.text()),
            self.field() == name_field(self.text()),
    {
        proof {
            use_type_invariant(self);
            self.lemma_text();
        }
        let l = self.text_len();
        let field: &[u8] = self.0.as_slice();
        let text = vstd::slice::slice_subrange(field, 0, l);
        assert(text@ =~= self.text());
        match str_from_utf8(text) {
            Some(s) => s,
            None => {
                assert(text@[0] < 0x80);
                ""
            },
        }
    }

    /// Byte-for-byte comparison of two names.
    pub fn same(&self, other: &Name) -> (b: bool)
        ensures
            b == (*self == *other),
    {
        let mut i: usize = 0;
        while i < 16
            invariant
                i <= 16,
                forall|k: int| 0 <= k < i ==> self.0@[k] == other.0@[k],
            decreases 16 - i,
        {
            if self.0[i] != other.0[i] {
                return false;
            }
            i = i + 1;
        }
        assert(self.0 =~= other.0);
        true
    }
}

proof fn lemma_field_len_unique(b: Seq<u8>, l1: int, l2: int)
    requires
        name_field_of_len(b, l1),
        name_field_of_len(b, l2),
    ensures
        l1 == l2,
{
    if l1 < l2 {
        assert(printable(b[l1]));
        assert(b[l1] == 0);
    }
    if l2 < l1 {
        assert(printable(b[l2]));
        assert(b[l2] == 0);
    }
}

/// The name table: `N` slots, each free or holding one binding.
pub struct Registry<const N: usize> {
    entries: Vec<Option<(Name, u64)>>,
    live: usize,
}

/// The bindings held in `slots`, in slot order.
pub open spec fn live_bindings(slots: Seq<Option<(Name, u64)>>) -> Seq<(Name, u64)> {
    slots.filter(|e: Option<(Name, u64)>| e is Some).map_values(|e: Option<(Name, u64)>| e->Some_0)
}

/// Whether `i` is the lowest free slot of `slots`.
pub open spec fn lowest_free_slot(slots: Seq<Option<(Name, u64)>>, i: int) -> bool {
    &&& 0 <= i < slots.len()
    &&& slots[i] is None
    &&& forall|k: int| 0 <= k < i ==> (#[trigger] slots[k]) is Some
}

impl<const N: usize> Registry<N> {
    /// The slots, in order.
    pub closed spec fn slots(&self) -> Seq<Option<(Name, u64)>> {
        self.entries@
    }

    /// Whether `name` is bound.
    pub open spec fn bound(&self, name: Name) -> bool {
        exists|i: int| 0 <= i < self.slots().len() && #[trigger] self.slots()[i] is Some
            && self.slots()[i]->Some_0.0 == name
    }

    /// The bindings, as a map from name to value.
    pub open spec fn view(&self) -> Map<Name, u64> {
        Map::new(
            |n: Name| self.bound(n),
            |n: Name|
                self.slots()[choose|i: int|
                    0 <= i < self.slots().len() && #[trigger] self.slots()[i] is Some
                        && self.slots()[i]->Some_0.0 == n]->Some_0.1,
        )
    }

    /// How many slots are occupied.
    pub open spec fn occupied(&self) -> nat {
        self.slots().filter(|e: Option<(Name, u64)>| e is Some).len()
    }

    /// Every name is bound at most once, and `live` counts the occupied slots.
    pub closed spec fn wf(&self) -> bool {
        &&& self.entries@.len() == N
        &&& self.live == self.occupied()
        &&& forall|i: int, j: int|
            0 <= i < j < N && #[trigger] self.entries@[i] is Some && #[trigger] self.entries@[j] is Some
                ==> self.entries@[i]->Some_0.0 != self.entries@[j]->Some_0.0
    }

    /// An empty registry with room for `N` names.
    pub fn new() -> (r: Self)
        ensures
            r.wf(),
            r@ == Map::<Name, u64>::empty(),
            r.slots().len() == N,
            forall|i: int| 0 <= i < N ==> #[trigger] r.slots()[i] is None,
            r.occupied() == 0,
    {
        let mut entries: Vec<Option<(Name, u64)>> = Vec::new();
        let mut i: usize = 0;
        while i < N
            invariant
                i <= N,
                entries@.len() == i,
                forall|k: int| 0 <= k < i ==> entries@[k] is None,
            decreases N - i,
        {
            entries.push(None);
            i = i + 1;
        }
        let r = Registry { entries, live: 0 };
        proof {
            lemma_filter_all_none(r.entries@);
        }
        assert(r@ =~= Map::<Name, u64>::empty());
        r
    }

    /// How many names are currently registered.
    pub fn len(&self) -> (l: usize)
        requires
            self.wf(),
        ensures
            l == self.occupied(),
    {
        self.live
    }

    /// Whether nothing is registered.
    pub fn is_empty(&self) -> (b: bool)
        requires
            self.wf(),
        ensures
            b == (self.occupied() == 0),
    {
        self.live == 0
    }

    /// Binds `name` to `value`. Fails `NameTaken`, keeping the existing binding, if `name` is
    /// already bound, and `RegistryFull` if every slot is occupied by something else.
    pub fn register(&mut self, name: Name, value: u64) -> (r: Result<(), IpcError>)
        requires
            old(self).wf(),
        ensures
            final(self).wf(),
            old(self)@.contains_key(name) ==> r == Err::<(), IpcError>(IpcError::NameTaken)
                && final(self)@ == old(self)@ && final(self).slots() == old(self).slots(),
            !old(self)@.contains_key(name) && old(self).occupied() == N ==> r == Err::<
                (),
                IpcError,
            >(IpcError::RegistryFull) && final(self).slots() == old(self).slots(),
            !old(self)@.contains_key(name) && old(self).occupied() < N ==> r is Ok && final(self)@
                == old(self)@.insert(name, value) && final(self).occupied() == old(self).occupied()
                + 1,
            r is Ok ==> exists|i: int|
                #[trigger] lowest_free_slot(old(self).slots(), i) && final(self).slots() == old(
                    self,
                ).slots().update(i, Some((name, value))),
    {
        if self.lookup(&name).is_some() {
            return Err(IpcError::NameTaken);
        }
        let mut index: usize = 0;
        while index < self.entries.len() && self.entries[index].is_some()
            invariant
                self.wf(),
                index <= self.entries@.len(),
                forall|k: int| 0 <= k < index ==> self.entries@[k] is Some,
            decreases self.entries@.len() - index,
        {
            index = index + 1;
        }
        if index == self.entries.len() {
            proof {
                lemma_filter_all_some(self.entries@);
            }
            return Err(IpcError::RegistryFull);
        }
        let ghost old_entries = self.entries@;
        let ghost old_view = self@;
        self.entries.set(index, Some((name, value)));
        proof {
            lemma_filter_update_none_to_some(old_entries, index as int, Some((name, value)));
            lemma_occupied_bounded(self.entries@);
        }
        self.live = self.live + 1;
        proof {
            let new_view = self@;
            assert forall|n: Name| #[trigger] new_view.contains_key(n) == old_view.insert(
                name,
                value,
            ).contains_key(n) by {
                if n == name {
                    assert(self.entries@[index as int] is Some);
                } else if old_view.contains_key(n) {
                    let i = choose|i: int|
                        0 <= i < old_entries.len() && #[trigger] old_entries[i] is Some
                            && old_entries[i]->Some_0.0 == n;
                    assert(self.entries@[i] is Some);
                }
            }
            assert forall|n: Name| #[trigger] new_view.contains_key(n) implies new_view[n]
                == old_view.insert(name, value)[n] by {
                let i = choose|i: int|
                    0 <= i < self.entries@.len() && #[trigger] self.entries@[i] is Some
                        && self.entries@[i]->Some_0.0 == n;
                if n == name {
                    assert(i == index);
                } else {
                    let j = choose|j: int|
                        0 <= j < old_entries.len() && #[trigger] old_entries[j] is Some
                            && old_entries[j]->Some_0.0 == n;
                    assert(self.entries@[j] is Some);
                    assert(i == j);
                }
            }
            assert(new_view =~= old_view.insert(name, value));
        }
        assert(lowest_free_slot(old_entries, index as int));
        Ok(())
    }

    fn find(&self, name: &Name) -> (r: Option<usize>)
        requires
            self.wf(),
        ensures
            r is None ==> !self@.contains_key(*name),
            r matches Some(i) ==> i < N && self.slots()[i as int] is Some
                && self.slots()[i as int]->Some_0.0 == *name,
    {
        let mut i: usize = 0;
        while i < self.entries.len()
            invariant
                self.wf(),
                i <= self.entries@.len(),
                forall|k: int|
                    0 <= k < i ==> !(#[trigger] self.entries@[k] is Some
                        && self.entries@[k]->Some_0.0 == *name),
            decreases self.entries@.len() - i,
        {
            match &self.entries[i] {
                Some((n, _)) => {
                    if n.same(name) {
                        return Some(i);
                    }
                },
                None => {},
            }
            i = i + 1;
        }
        None
    }

    /// Resolves `name` to its bound value, or `None` if nothing is registered under it.
    pub fn lookup(&self, name: &Name) -> (r: Option<u64>)
        requires
            self.wf(),
        ensures
            r == self@.get(*name),
    {
        match self.find(name) {
            Some(i) => {
                proof {
                    self.lemma_value_at(i as int);
                }
                Some(self.entries[i].unwrap().1)
            },
            None => None,
        }
    }

    proof fn lemma_value_at(&self, i: int)
        requires
            self.wf(),
            0 <= i < N,
            self.slots()[i] is Some,
        ensures
            self@.contains_key(self.slots()[i]->Some_0.0),
            self@[self.slots()[i]->Some_0.0] == self.slots()[i]->Some_0.1,
    {
        let n = self.slots()[i]->Some_0.0;
        let j = choose|j: int|
            0 <= j < self.slots().len() && #[trigger] self.slots()[j] is Some
                && self.slots()[j]->Some_0.0 == n;
        if j != i {
            if i < j {
                assert(self.entries@[i]->Some_0.0 != self.entries@[j]->Some_0.0);
            } else {
                assert(self.entries@[j]->Some_0.0 != self.entries@[i]->Some_0.0);
            }
        }
    }

    /// Removes `name`'s binding and returns the value it was bound to, freeing the slot.
    /// `None`, changing nothing, if `name` was not registered.
    pub fn unregister(&mut self, name: &Name) -> (r: Option<u64>)
        requires
            old(self).wf(),
        ensures
            final(self).wf(),
            r == old(self)@.get(*name),
            final(self)@ == old(self)@.remove(*name),
            r is Some ==> final(self).occupied() == old(self).occupied() - 1,
            r is None ==> final(self).slots() == old(self).slots(),
            r is Some ==> exists|i: int|
                0 <= i < old(self).slots().len() && #[trigger] old(self).slots()[i] == Some(
                    (*name, r->Some_0),
                ) && final(self).slots() == old(self).slots().update(i, None),
    {
        let index = match self.find(name) {
            Some(i) => i,
            None => {
                assert(self@.remove(*name) =~= self@);
                return None;
            },
        };
        proof {
            self.lemma_value_at(index as int);
        }
        let value = self.entries[index].unwrap().1;
        let ghost old_entries = self.entries@;
        let ghost old_view = self@;
        self.entries.set(index, None);
        proof {
            lemma_filter_update_some_to_none(old_entries, index as int);
        }
        self.live = self.live - 1;
        proof {
            let new_view = self@;
            assert forall|n: Name| #[trigger] new_view.contains_key(n) == old_view.remove(
                *name,
            ).contains_key(n) by {
                if n != *name && old_view.contains_key(n) {
                    let i = choose|i: int|
                        0 <= i < old_entries.len() && #[trigger] old_entries[i] is Some
                            && old_entries[i]->Some_0.0 == n;
                    assert(i != index);
                    assert(self.entries@[i] is Some);
                }
                if n == *name && new_view.contains_key(n) {
                    let i = choose|i: int|
                        0 <= i < self.entries@.len() && #[trigger] self.entries@[i] is Some
                            && self.entries@[i]->Some_0.0 == n;
                    assert(i != index);
                    if i < index {
                        assert(old_entries[i]->Some_0.0 != old_entries[index as int]->Some_0.0);
                    } else {
                        assert(old_entries[index as int]->Some_0.0 != old_entries[i]->Some_0.0);
                    }
                }
            }
            assert forall|n: Name| #[trigger] new_view.contains_key(n) implies new_view[n]
                == old_view.remove(*name)[n] by {
                let i = choose|i: int|
                    0 <= i < self.entries@.len() && #[trigger] self.entries@[i] is Some
                        && self.entries@[i]->Some_0.0 == n;
                let j = choose|j: int|
                    0 <= j < old_entries.len() && #[trigger] old_entries[j] is Some
                        && old_entries[j]->Some_0.0 == n;
                assert(old_entries[i] is Some);
                if i != j {
                    if i < j {
                        assert(old_entries[i]->Some_0.0 != old_entries[j]->Some_0.0);
                    } else {
                        assert(old_entries[j]->Some_0.0 != old_entries[i]->Some_0.0);
                    }
                }
            }
            assert(new_view =~= old_view.remove(*name));
        }
        Some(value)
    }

    /// Every live binding, in slot order: what makes the registry enumerable.
    pub fn iter(&self) -> (v: Vec<(Name, u64)>)
        requires
            self.wf(),
        ensures
            v@ == live_bindings(self.slots()),
            forall|n: Name, x: u64| v@.contains((n, x)) <==> self@.contains_key(n) && self@[n] == x,
            v@.len() == self.occupied(),
            v@.no_duplicates(),
    {
        let mut v: Vec<(Name, u64)> = Vec::new();
        let mut i: usize = 0;
        while i < self.entries.len()
            invariant
                self.wf(),
                i <= self.entries@.len(),
                v@ == self.entries@.take(i as int).filter(|e: Option<(Name, u64)>| e is Some).map_values(
                    |e: Option<(Name, u64)>| e->Some_0,
                ),
            decreases self.entries@.len() - i,
        {
            proof {
                reveal(Seq::filter);
                assert(self.entries@.take(i + 1).drop_last() =~= self.entries@.take(i as int));
            }
            match self.entries[i] {
                Some(pair) => {
                    v.push(pair);
                    proof {
                        let f = self.entries@.take(i as int).filter(
                            |e: Option<(Name, u64)>| e is Some,
                        );
                        assert(f.push(Some(pair)).map_values(|e: Option<(Name, u64)>| e->Some_0)
                            =~= f.map_values(|e: Option<(Name, u64)>| e->Some_0).push(pair));
                    }
                },
                None => {},
            }
            i = i + 1;
        }
        proof {
            assert(self.entries@.take(self.entries@.len() as int) =~= self.entries@);
            self.lemma_iter_contents(v@);
        }
        v
    }

    proof fn lemma_iter_contents(&self, v: Seq<(Name, u64)>)
        requires
            self.wf(),
            v == self.entries@.filter(|e: Option<(Name, u64)>| e is Some).map_values(
                |e: Option<(Name, u64)>| e->Some_0,
            ),
        ensures
            forall|n: Name, x: u64| v.contains((n, x)) <==> self@.contains_key(n) && self@[n] == x,
            v.len() == self.occupied(),
            v.no_duplicates(),
    {
        let s = self.entries@;
        let pred = |e: Option<(Name, u64)>| e is Some;
        let f = s.filter(pred);
        assert forall|n: Name, x: u64| v.contains((n, x)) implies self@.contains_key(n) && self@[n]
            == x by {
            let k = choose|k: int| 0 <= k < v.len() && v[k] == (n, x);
            assert(f.contains(f[k]));
            s.lemma_filter_contains_rev(pred, f[k]);
            s.lemma_filter_pred(pred, k);
            let i = choose|i: int| 0 <= i < s.len() && s[i] == f[k];
            self.lemma_value_at(i);
        }
        assert forall|n: Name, x: u64| self@.contains_key(n) && self@[n] == x implies v.contains(
            (n, x),
        ) by {
            let i = choose|i: int|
                0 <= i < s.len() && #[trigger] s[i] is Some && s[i]->Some_0.0 == n;
            self.lemma_value_at(i);
            s.lemma_filter_contains(pred, i);
            assert(f.contains(s[i]));
            let k = choose|k: int| 0 <= k < f.len() && f[k] == s[i];
            assert(v[k] == (n, x));
        }
        assert forall|a: int, b: int| 0 <= a < b < v.len() implies v[a] != v[b] by {
            let ea = f[a];
            let eb = f[b];
            lemma_filter_index_order(s, pred, a, b);
            let (i1, i2) = choose|ia: int, ib: int|
                0 <= ia < ib < s.len() && s[ia] == f[a] && s[ib] == f[b];
            s.lemma_filter_pred(pred, a);
            s.lemma_filter_pred(pred, b);
            assert(s[i1]->Some_0.0 != s[i2]->Some_0.0);
        }
    }
}

proof fn lemma_filter_index_order<A>(s: Seq<A>, pred: spec_fn(A) -> bool, a: int, b: int)
    requires
        0 <= a < b < s.filter(pred).len(),
    ensures
        exists|ia: int, ib: int|
            0 <= ia < ib < s.len() && s[ia] == s.filter(pred)[a] && s[ib] == s.filter(pred)[b],
    decreases s.len(),
{
    reveal(Seq::filter);
    let f = s.filter(pred);
    let d = s.drop_last();
    let fd = d.filter(pred);
    if pred(s.last()) {
        assert(f == fd.push(s.last()));
        if b < fd.len() {
            lemma_filter_index_order(d, pred, a, b);
            let (ia, ib) = choose|ia: int, ib: int|
                0 <= ia < ib < d.len() && d[ia] == fd[a] && d[ib] == fd[b];
            assert(s[ia] == f[a] && s[ib] == f[b]);
        } else {
            assert(fd.contains(fd[a]));
            d.lemma_filter_contains_rev(pred, fd[a]);
            let ia = choose|ia: int| 0 <= ia < d.len() && d[ia] == fd[a];
            let ib = s.len() - 1;
            assert(s[ia] == f[a] && s[ib] == f[b]);
        }
    } else {
        assert(f == fd);
        lemma_filter_index_order(d, pred, a, b);
        let (ia, ib) = choose|ia: int, ib: int|
            0 <= ia < ib < d.len() && d[ia] == fd[a] && d[ib] == fd[b];
        assert(s[ia] == f[a] && s[ib] == f[b]);
    }
}

proof fn lemma_filter_all_none<A>(s: Seq<Option<A>>)
    requires
        forall|k: int| 0 <= k < s.len() ==> s[k] is None,
    ensures
        s.filter(|e: Option<A>| e is Some).len() == 0,
    decreases s.len(),
{
    reveal(Seq::filter);
    if s.len() > 0 {
        lemma_filter_all_none(s.drop_last());
    }
}

proof fn lemma_filter_all_some<A>(s: Seq<Option<A>>)
    requires
        forall|k: int| 0 <= k < s.len() ==> s[k] is Some,
    ensures
        s.filter(|e: Option<A>| e is Some).len() == s.len(),
    decreases s.len(),
{
    reveal(Seq::filter);
    if s.len() > 0 {
        lemma_filter_all_some(s.drop_last());
    }
}

proof fn lemma_occupied_bounded<A>(s: Seq<Option<A>>)
    ensures
        s.filter(|e: Option<A>| e is Some).len() <= s.len(),
{
    s.lemma_filter_len(|e: Option<A>| e is Some);
}

proof fn lemma_filter_update_none_to_some<A>(s: Seq<Option<A>>, i: int, v: Option<A>)
    requires
        0 <= i < s.len(),
        s[i] is None,
        v is Some,
    ensures
        s.update(i, v).filter(|e: Option<A>| e is Some).len() == s.filter(
            |e: Option<A>| e is Some,
        ).len() + 1,
    decreases s.len(),
{
    reveal(Seq::filter);
    let t = s.update(i, v);
    if i == s.len() - 1 {
        assert(t.drop_last() =~= s.drop_last());
    } else {
        assert(t.drop_last() =~= s.drop_last().update(i, v));
        lemma_filter_update_none_to_some(s.drop_last(), i, v);
    }
}

proof fn lemma_filter_update_some_to_none<A>(s: Seq<Option<A>>, i: int)
    requires
        0 <= i < s.len(),
        s[i] is Some,
    ensures
        s.update(i, None).filter(|e: Option<A>| e is Some).len() + 1 == s.filter(
            |e: Option<A>| e is Some,
        ).len(),
    decreases s.len(),
{
    reveal(Seq::filter);
    let t = s.update(i, None);
    if i == s.len() - 1 {
        assert(t.drop_last() =~= s.drop_last());
    } else {
        assert(t.drop_last() =~= s.drop_last().update(i, None));
        lemma_filter_update_some_to_none(s.drop_last(), i);
    }
}

/// What a registration binds, a lookup finds; a name that was never bound is not found; and
/// unregistering a name makes it unfindable again.
pub proof fn registry_read_after_write(m: Map<Name, u64>, name: Name, value: u64, other: Name)
    requires
        other != name,
    ensures
        m.insert(name, value).get(name) == Some(value),
        m.insert(name, value).get(other) == m.get(other),
        m.remove(name).get(name) is None,
        m.remove(name).get(other) == m.get(other),
{
}

} // verus!
