//! The table of types of the web front end: types numbered in the order they are added.
use std::collections::HashMap;
use vstd::prelude::*;

verus! {

broadcast use vstd::std_specs::hash::group_hash_axioms;

#[derive(Clone, Copy, Debug, PartialEq, Eq, Structural)]
pub enum Primitive {
    Invalid,
    Char,
    Short,
    Int,
    Long,
    Float,
    Double,
}

/// A type, referring to other types by their number.
#[derive(Clone, Debug, PartialEq, Eq)]
pub enum Type {
    Primitive(Primitive),
    List(String),
    Alias(String),
    Tuple(Vec<u64>),
    /// A named generic parameter.
    GenericParameter(String),
    /// The input and the output type.
    Function(u64, u64),
}

/// The types by their number.
pub struct TypeTable {
    pub map: HashMap<u64, Type>,
}

impl View for TypeTable {
    type V = Map<u64, Type>;

    open spec fn view(&self) -> Map<u64, Type> {
        self.map@
    }
}

impl TypeTable {
    /// An empty table.
    pub fn new() -> (r: TypeTable)
        ensures
            r@ == Map::<u64, Type>::empty(),
    {
        TypeTable { map: HashMap::new() }
    }

    /// The type numbered `id`, if there is one.
    pub fn get(&self, id: u64) -> (r: Option<&Type>)
        ensures
            match r {
                Some(t) => self@.contains_key(id) && self@[id] == *t,
                None => !self@.contains_key(id),
            },
    {
        self.map.get(&id)
    }

    /// Adds a type under the number that is the count of types held so far.
    pub fn insert(&mut self, ty: Type)
        ensures
            final(self)@ == old(self)@.insert(old(self)@.len() as u64, ty),
    {
        let id = self.map.len() as u64;
        self.map.insert(id, ty);
    }
}

} // verus!
