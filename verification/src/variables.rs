//! The values that a source file declares for its variables.

use vstd::hash_map::StringHashMap;
use vstd::prelude::*;

verus! {

/// A mapping from variable name to declared value.
pub struct Variables {
    values: StringHashMap<u8>,
}

impl View for Variables {
    type V = Map<Seq<char>, u8>;

    closed spec fn view(&self) -> Map<Seq<char>, u8> {
        self.values@
    }
}

impl Variables {
    /// No declarations.
    pub fn new() -> (variables: Variables)
        ensures
            variables@ == Map::<Seq<char>, u8>::empty(),
    {
        Variables { values: StringHashMap::new() }
    }

    /// Declares `name` with `value`; a later declaration replaces an earlier
    /// one.
    pub fn insert(&mut self, name: String, value: u8)
        ensures
            final(self)@ == old(self)@.insert(name@, value),
    {
        self.values.insert(name, value);
    }

    /// The declared value of `name`, if it was declared.
    pub fn get(&self, name: &str) -> (found: Option<u8>)
        ensures
            found == (if self@.contains_key(name@) {
                Some(self@[name@])
            } else {
                None
            }),
    {
        match self.values.get(name) {
            Some(value) => Some(*value),
            None => None,
        }
    }
}

} // verus!
