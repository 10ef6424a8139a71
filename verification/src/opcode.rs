//! The opcode table: what each mnemonic encodes to and how many operands it
//! takes.

use vstd::hash_map::StringHashMap;
use vstd::prelude::*;

verus! {

/// What the table holds for one mnemonic.
#[derive(Clone, Copy, Debug, PartialEq, Eq, Structural)]
pub struct Opcode {
    /// The value written into the opcode field.
    pub binary: u8,
    /// How many operands the mnemonic takes.
    pub operands: usize,
}

/// A mapping from mnemonic to [`Opcode`]. It is configuration: the assembler
/// reads it and never changes it.
pub struct OpcodeTable {
    entries: StringHashMap<Opcode>,
}

impl View for OpcodeTable {
    type V = Map<Seq<char>, Opcode>;

    closed spec fn view(&self) -> Map<Seq<char>, Opcode> {
        self.entries@
    }
}

impl OpcodeTable {
    /// A table without mnemonics.
    pub fn new() -> (table: OpcodeTable)
        ensures
            table@ == Map::<Seq<char>, Opcode>::empty(),
    {
        OpcodeTable { entries: StringHashMap::new() }
    }

    /// Defines `name`, replacing what the table held for it.
    pub fn insert(&mut self, name: &str, opcode: Opcode)
        ensures
            final(self)@ == old(self)@.insert(name@, opcode),
    {
        self.entries.insert(String::from_str(name), opcode);
    }

    /// Tells whether `name` is a mnemonic of the table.
    pub fn contains(&self, name: &str) -> (found: bool)
        ensures
            found == self@.contains_key(name@),
    {
        self.entries.contains_key(name)
    }

    /// What the table holds for `name`, if it is a mnemonic.
    pub fn get(&self, name: &str) -> (found: Option<Opcode>)
        ensures
            found == (if self@.contains_key(name@) {
                Some(self@[name@])
            } else {
                None
            }),
    {
        match self.entries.get(name) {
            Some(opcode) => Some(*opcode),
            None => None,
        }
    }
}

} // verus!
