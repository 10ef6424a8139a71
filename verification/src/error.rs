//! What can go wrong while assembling.

use vstd::prelude::*;

verus! {

/// A diagnostic. Lines are counted from 1.
#[derive(Debug, PartialEq, Eq)]
pub enum AsmError {
    /// A line starts with an opcode token that the table does not define.
    UnknownOpcode(String),
    /// A line has the wrong number of operands: the line, the opcode (or
    /// `<declaration>` for a variable declaration), the number expected and
    /// the number found.
    OperandCountMismatch(usize, String, usize, usize),
    /// The value of the declaration on this line is not a number.
    UnexpectedOperand(usize),
    /// This line starts with a token that cannot start a line.
    UnexpectedToken(usize),
    /// An instruction refers to a variable that the file does not declare.
    UndefinedVariable(String),
}

/// The mathematical value of an [`AsmError`].
pub enum AsmErrorView {
    UnknownOpcode(Seq<char>),
    OperandCountMismatch(nat, Seq<char>, nat, nat),
    UnexpectedOperand(nat),
    UnexpectedToken(nat),
    UndefinedVariable(Seq<char>),
}

impl View for AsmError {
    type V = AsmErrorView;

    open spec fn view(&self) -> AsmErrorView {
        match *self {
            AsmError::UnknownOpcode(name) => AsmErrorView::UnknownOpcode(name@),
            AsmError::OperandCountMismatch(line, name, expected, got) => {
                AsmErrorView::OperandCountMismatch(
                    line as nat,
                    name@,
                    expected as nat,
                    got as nat,
                )
            },
            AsmError::UnexpectedOperand(line) => AsmErrorView::UnexpectedOperand(line as nat),
            AsmError::UnexpectedToken(line) => AsmErrorView::UnexpectedToken(line as nat),
            AsmError::UndefinedVariable(name) => AsmErrorView::UndefinedVariable(name@),
        }
    }
}

} // verus!
