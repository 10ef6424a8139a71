//! What holds of everything that the lexer and the parser make.

use crate::opcode::Opcode;
use crate::parser::{is_operand, lexed, line_meaning, parsed, LineMeaning, TokenView};
use vstd::prelude::*;

verus! {

/// Tokens as the lexer makes them: after the first token of a line come
/// references and numbers only.
pub open spec fn lexical(lines: Seq<Seq<TokenView>>) -> bool {
    forall|i: int, j: int|
        0 <= i < lines.len() && 1 <= j < lines[i].len() ==> is_operand(#[trigger] lines[i][j])
}

/// What the lexer makes is lexical.
pub proof fn lemma_lexed_is_lexical(text: Seq<char>, table: Map<Seq<char>, Opcode>)
    ensures
        lexical(lexed(text, table)),
{
}

/// Every instruction that the parser makes has a mnemonic of the table and
/// as many operands as the table asks for. Its operands are the tokens that
/// follow the mnemonic on its line, so where the lines are lexical they are
/// references and numbers.
pub proof fn lemma_parsed_instructions(lines: Seq<Seq<TokenView>>, table: Map<Seq<char>, Opcode>)
    ensures
        parsed(lines, table) matches Ok(program) ==> forall|i: int|
            0 <= i < program.instructions.len() ==> {
                let instruction = #[trigger] program.instructions[i];
                &&& table.contains_key(instruction.opcode)
                &&& instruction.operands.len() == table[instruction.opcode].operands
                &&& lexical(lines) ==> forall|j: int|
                    0 <= j < instruction.operands.len() ==> is_operand(
                        #[trigger] instruction.operands[j],
                    )
            },
    decreases lines.len(),
{
    if lines.len() > 0 {
        let before = lines.drop_last();
        lemma_parsed_instructions(before, table);
        if lexical(lines) {
            assert forall|i: int, j: int|
                0 <= i < before.len() && 1 <= j < before[i].len() implies is_operand(
                #[trigger] before[i][j],
            ) by {
                assert(before[i][j] == lines[i][j]);
            }
            let tokens = lines[lines.len() - 1];
            if tokens.len() > 0 {
                assert forall|j: int| 0 <= j < tokens.skip(1).len() implies is_operand(
                    #[trigger] tokens.skip(1)[j],
                ) by {
                    assert(tokens.skip(1)[j] == lines[lines.len() - 1][j + 1]);
                }
            }
        }
    }
}

/// Whether the tokens of line number `line` declare `name`.
pub open spec fn declares(
    tokens: Seq<TokenView>,
    line: nat,
    table: Map<Seq<char>, Opcode>,
    name: Seq<char>,
) -> bool {
    line_meaning(tokens, line, table) matches LineMeaning::Declaration(declared, _) && declared
        == name
}

/// The last declaration of a name is the one that counts: where line `k`
/// declares `value` for `name` and no later line declares `name` again, the
/// file declares `value` for `name`, wherever the lines that refer to it
/// stand.
pub proof fn lemma_last_declaration_wins(
    lines: Seq<Seq<TokenView>>,
    table: Map<Seq<char>, Opcode>,
    k: int,
    name: Seq<char>,
    value: u8,
)
    requires
        0 <= k < lines.len(),
        parsed(lines, table) is Ok,
        line_meaning(lines[k], (k + 1) as nat, table) == LineMeaning::Declaration(name, value),
        forall|j: int|
            k < j < lines.len() ==> !declares(#[trigger] lines[j], (j + 1) as nat, table, name),
    ensures
        parsed(lines, table) matches Ok(program) && program.variables.contains_key(name)
            && program.variables[name] == value,
    decreases lines.len(),
{
    let before = lines.drop_last();
    let last = lines[lines.len() - 1];
    assert(lines.last() == last);
    if k < lines.len() - 1 {
        assert(before[k] == lines[k]);
        assert forall|j: int| k < j < before.len() implies !declares(
            #[trigger] before[j],
            (j + 1) as nat,
            table,
            name,
        ) by {
            assert(before[j] == lines[j]);
        }
        lemma_last_declaration_wins(before, table, k, name, value);
        assert(!declares(last, lines.len(), table, name));
    }
}

} // verus!
