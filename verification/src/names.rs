use std::collections::HashMap;
use vstd::prelude::*;
use vstd::std_specs::hash::group_hash_axioms;

verus! {

/// The table that gives, for a reference identifier of a record, the key
/// under which regions of that reference are indexed. It is filled once,
/// before the first record is read.
pub struct NameTable {
    names: HashMap<i32, String>,
}

impl View for NameTable {
    type V = Map<i32, Seq<char>>;

    closed spec fn view(&self) -> Map<i32, Seq<char>> {
        self.names@.map_values(|name: String| name@)
    }
}

impl NameTable {
    /// A table that resolves nothing.
    pub fn new() -> (table: Self)
        ensures
            table@ == Map::<i32, Seq<char>>::empty(),
    {
        broadcast use group_hash_axioms;

        let table = NameTable { names: HashMap::new() };
        assert(table@ =~= Map::<i32, Seq<char>>::empty());
        table
    }

    /// Records the key of a reference, replacing what was recorded for it.
    pub fn insert(&mut self, reference: i32, name: String)
        ensures
            final(self)@ == old(self)@.insert(reference, name@),
    {
        broadcast use group_hash_axioms;

        self.names.insert(reference, name);
        assert(self@ =~= old(self)@.insert(reference, name@));
    }

    /// The key recorded for a reference, if any.
    pub fn resolve(&self, reference: i32) -> (name: Option<&str>)
        ensures
            match name {
                Some(key) => self@.contains_key(reference) && key@ == self@[reference],
                None => !self@.contains_key(reference),
            },
    {
        broadcast use group_hash_axioms;

        match self.names.get(&reference) {
            Some(name) => Some(name.as_str()),
            None => None,
        }
    }

    /// The number of references that have a key.
    pub fn len(&self) -> (count: usize)
        ensures
            count == self@.dom().len(),
    {
        broadcast use group_hash_axioms;

        assert(self@.dom() =~= self.names@.dom());
        self.names.len()
    }
}

} // verus!
