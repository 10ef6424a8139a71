//! The word format: how wide a machine word is and how much of it holds the
//! opcode.

use vstd::prelude::*;

verus! {

/// The layout of a machine word.
pub struct Config {
    /// Bits in a machine word.
    pub word_size: u8,
    /// Bits of a word that hold the opcode; the rest hold an operand or an
    /// address.
    pub opcode_size: u8,
}

impl Config {
    /// A word format is usable when words are not empty and the opcode field
    /// fits in a word.
    pub open spec fn wf(&self) -> bool {
        0 < self.word_size && self.opcode_size <= self.word_size
    }

    /// Bits of a word left for an operand or an address.
    pub open spec fn operand_size(&self) -> nat {
        (self.word_size - self.opcode_size) as nat
    }

    /// Bytes by which the address cursor advances for each variable.
    pub open spec fn word_bytes(&self) -> nat {
        (self.word_size / 8) as nat
    }

    /// The default format: 8-bit words with a 4-bit opcode.
    pub fn new() -> (config: Config)
        ensures
            config.word_size == 8,
            config.opcode_size == 4,
            config.wf(),
    {
        Config { word_size: 8, opcode_size: 4 }
    }

    /// Tells whether the format is usable.
    pub fn is_valid(&self) -> (valid: bool)
        ensures
            valid == self.wf(),
    {
        0 < self.word_size && self.opcode_size <= self.word_size
    }
}

} // verus!
