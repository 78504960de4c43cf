//! An interface: the methods a capability's schema exposes under one stable, non-zero id.

use vstd::prelude::*;

use crate::ipc::registry::Name;
use crate::schema::error::SchemaError;
use crate::schema::method::Method;

verus! {

/// Most methods one [`Interface`] can declare.
pub const MAX_METHODS: usize = 8;

/// A capability's method table: an id and a name, plus up to [`MAX_METHODS`] methods.
#[derive(Debug, PartialEq, Eq)]
pub struct Interface {
    id: u32,
    name: Name,
    methods: Vec<Method>,
}

impl Interface {
    #[verifier::type_invariant]
    closed spec fn shape(self) -> bool {
        self.id != 0 && self.methods@.len() <= 8
    }

    pub closed spec fn id_spec(&self) -> u32 {
        self.id
    }

    pub closed spec fn name_spec(&self) -> Name {
        self.name
    }

    /// The declared methods, in the order they were added.
    pub closed spec fn view(&self) -> Seq<Method> {
        self.methods@
    }

    /// An interface with no methods yet. Id `0` is refused as `UntypedInterface`, the same
    /// reservation IPC makes for a message's interface.
    pub fn new(id: u32, name: Name) -> (r: Result<Interface, SchemaError>)
        ensures
            id == 0 ==> r == Err::<Interface, SchemaError>(SchemaError::UntypedInterface),
            id != 0 ==> r is Ok && r->Ok_0.id_spec() == id && r->Ok_0.name_spec() == name
                && r->Ok_0@ == Seq::<Method>::empty(),
    {
        if id == 0 {
            return Err(SchemaError::UntypedInterface);
        }
        Ok(Interface { id, name, methods: Vec::new() })
    }

    pub fn id(&self) -> (i: u32)
        ensures
            i == self.id_spec(),
            i != 0,
    {
        proof {
            use_type_invariant(self);
        }
        self.id
    }

    pub fn name(&self) -> (n: Name)
        ensures
            n == self.name_spec(),
    {
        self.name
    }

    /// Declares another method. Fails `TooManyMethods` past [`MAX_METHODS`], leaving what was
    /// already declared untouched.
    pub fn add(&mut self, method: Method) -> (r: Result<(), SchemaError>)
        ensures
            final(self).id_spec() == old(self).id_spec(),
            final(self).name_spec() == old(self).name_spec(),
            old(self)@.len() >= 8 ==> r == Err::<(), SchemaError>(SchemaError::TooManyMethods)
                && final(self)@ == old(self)@,
            old(self)@.len() < 8 ==> r is Ok && final(self)@ == old(self)@.push(method),
    {
        proof {
            use_type_invariant(&*self);
        }
        if self.methods.len() >= MAX_METHODS {
            return Err(SchemaError::TooManyMethods);
        }
        let mut methods = Vec::new();
        core::mem::swap(&mut methods, &mut self.methods);
        methods.push(method);
        core::mem::swap(&mut methods, &mut self.methods);
        Ok(())
    }

    /// The declared methods, in the order they were added.
    pub fn methods(&self) -> (m: &[Method])
        ensures
            m@ == self@,
    {
        self.methods.as_slice()
    }

    /// The method at `index`, or `None` past the last.
    pub fn method(&self, index: usize) -> (m: Option<&Method>)
        ensures
            index < self@.len() ==> m == Some(&self@[index as int]),
            index >= self@.len() ==> m is None,
    {
        if index < self.methods.len() {
            Some(&self.methods[index])
        } else {
            None
        }
    }

    /// How many methods are declared.
    pub fn len(&self) -> (l: usize)
        ensures
            l == self@.len(),
    {
        self.methods.len()
    }

    /// Whether no method is declared.
    pub fn is_empty(&self) -> (b: bool)
        ensures
            b == (self@.len() == 0),
    {
        self.methods.len() == 0
    }
}

} // verus!
