//! What holds of every encoding: which variables a file refers to, when
//! generation succeeds, how long its output is, and that opcodes can be read
//! back from it.

use crate::binary::{
    address_of, code_bits, data_bits, declared_run, first_address, generated_bits,
    generated_result, instruction_bits, lemma_references_take, operand_bits, references,
    references_in,
};
use crate::bitset::{bits_value, field_bits, lemma_field_round_trip};
use crate::config::Config;
use crate::error::AsmErrorView;
use crate::opcode::Opcode;
use crate::parser::{InstructionView, Program, TokenView};
use vstd::arithmetic::div_mod::lemma_small_mod;
use vstd::arithmetic::power2::pow2;
use vstd::prelude::*;

verus! {

/// Whether some instruction has `name` as an operand.
pub open spec fn refers_to(instructions: Seq<InstructionView>, name: Seq<char>) -> bool {
    exists|i: int, j: int|
        0 <= i < instructions.len() && 0 <= j < instructions[i].operands.len()
            && #[trigger] instructions[i].operands[j] == TokenView::Operand(name)
}

/// The names after reading operands are the names before and the names that
/// the operands refer to.
proof fn lemma_references_in_members(
    names: Seq<Seq<char>>,
    operands: Seq<TokenView>,
    name: Seq<char>,
)
    ensures
        references_in(names, operands).contains(name) <==> names.contains(name) || exists|j: int|
            0 <= j < operands.len() && #[trigger] operands[j] == TokenView::Operand(name),
    decreases operands.len(),
{
    if operands.len() > 0 {
        let before = operands.drop_last();
        let known = references_in(names, before);
        let after = references_in(names, operands);
        lemma_references_in_members(names, before, name);
        if after.contains(name) {
            if known.contains(name) {
                if !names.contains(name) {
                    let j = choose|j: int|
                        0 <= j < before.len() && #[trigger] before[j] == TokenView::Operand(name);
                    assert(operands[j] == TokenView::Operand(name));
                }
            } else {
                let at = after.index_of(name);
                assert(after == known.push(name));
                assert(operands[operands.len() - 1] == TokenView::Operand(name));
            }
        }
        if names.contains(name) {
            assert(known.contains(name));
        }
        if exists|j: int|
            0 <= j < operands.len() && #[trigger] operands[j] == TokenView::Operand(name) {
            let j = choose|j: int|
                0 <= j < operands.len() && #[trigger] operands[j] == TokenView::Operand(name);
            if j < before.len() {
                assert(before[j] == TokenView::Operand(name));
                assert(known.contains(name));
            } else {
                assert(operands.last() == TokenView::Operand(name));
                if !known.contains(name) {
                    assert(after == known.push(name));
                    assert(after[known.len() as int] == name);
                }
            }
        }
        if known.contains(name) {
            let at = known.index_of(name);
            assert(after[at] == name);
        }
    }
}

/// The variables that a file refers to are the names that stand as operands
/// of its instructions, each listed once.
pub proof fn lemma_references_are_operands(instructions: Seq<InstructionView>, name: Seq<char>)
    ensures
        references(instructions).contains(name) <==> refers_to(instructions, name),
        references(instructions).no_duplicates(),
    decreases instructions.len(),
{
    lemma_references_take(instructions, 0);
    if instructions.len() > 0 {
        let before = instructions.drop_last();
        let last = instructions[instructions.len() - 1];
        assert(instructions.last() == last);
        lemma_references_are_operands(before, name);
        lemma_references_in_members(references(before), last.operands, name);
        if refers_to(before, name) {
            let (i, j) = choose|i: int, j: int|
                0 <= i < before.len() && 0 <= j < before[i].operands.len()
                    && #[trigger] before[i].operands[j] == TokenView::Operand(name);
            assert(instructions[i].operands[j] == TokenView::Operand(name));
        }
        if exists|j: int|
            0 <= j < last.operands.len() && #[trigger] last.operands[j] == TokenView::Operand(
                name,
            ) {
            let j = choose|j: int|
                0 <= j < last.operands.len() && #[trigger] last.operands[j] == TokenView::Operand(
                    name,
                );
            assert(instructions[instructions.len() - 1].operands[j] == TokenView::Operand(name));
        }
        if refers_to(instructions, name) {
            let (i, j) = choose|i: int, j: int|
                0 <= i < instructions.len() && 0 <= j < instructions[i].operands.len()
                    && #[trigger] instructions[i].operands[j] == TokenView::Operand(name);
            if i < before.len() {
                assert(before[i].operands[j] == TokenView::Operand(name));
            } else {
                assert(last.operands[j] == TokenView::Operand(name));
            }
        }
    }
}

/// The names before the end of the declared run are declared, and the one at
/// its end, if there is one, is not.
proof fn lemma_declared_run_ends(names: Seq<Seq<char>>, variables: Map<Seq<char>, u8>)
    ensures
        declared_run(names, variables) <= names.len(),
        forall|k: int|
            0 <= k < declared_run(names, variables) ==> variables.contains_key(
                #[trigger] names[k],
            ),
        declared_run(names, variables) < names.len() ==> !variables.contains_key(
            names[declared_run(names, variables) as int],
        ),
    decreases names.len(),
{
    if names.len() > 0 && variables.contains_key(names[0]) {
        let rest = names.drop_first();
        lemma_declared_run_ends(rest, variables);
        assert forall|k: int|
            0 <= k < declared_run(names, variables) implies variables.contains_key(
            #[trigger] names[k],
        ) by {
            if k > 0 {
                assert(names[k] == rest[k - 1]);
            }
        }
        let run = declared_run(rest, variables);
        if run < rest.len() {
            assert(rest[run as int] == names[run as int + 1]);
        }
    }
}

/// Generation succeeds exactly where every variable that the instructions
/// refer to is declared, wherever its declaration stands. Where it fails, the
/// error names a variable that is referred to and not declared: the first
/// such in the order of first reference.
pub proof fn lemma_generated_result(program: Program)
    ensures
        generated_result(program) is Ok <==> forall|name: Seq<char>|
            refers_to(program.instructions, name) ==> program.variables.contains_key(name),
        generated_result(program) matches Err(AsmErrorView::UndefinedVariable(name))
            ==> refers_to(program.instructions, name) && !program.variables.contains_key(name),
        generated_result(program) matches Err(error) ==> error is UndefinedVariable,
{
    let names = references(program.instructions);
    let run = declared_run(names, program.variables);
    lemma_declared_run_ends(names, program.variables);
    if run < names.len() {
        let name = names[run as int];
        assert(names.contains(name));
        lemma_references_are_operands(program.instructions, name);
    } else {
        assert forall|name: Seq<char>|
            refers_to(program.instructions, name) implies program.variables.contains_key(name) by {
            lemma_references_are_operands(program.instructions, name);
            let k = names.index_of(name);
            assert(names[k] == name);
        }
    }
}

/// A reference to a variable that is not declared makes generation fail; the
/// error names that variable where no other one is missing.
pub proof fn lemma_undeclared_reference_fails(program: Program, name: Seq<char>)
    requires
        refers_to(program.instructions, name),
        !program.variables.contains_key(name),
    ensures
        generated_result(program) is Err,
        (forall|other: Seq<char>|
            refers_to(program.instructions, other) && other != name
                ==> program.variables.contains_key(other)) ==> generated_result(program) == Err::<
            (),
            AsmErrorView,
        >(AsmErrorView::UndefinedVariable(name)),
{
    lemma_generated_result(program);
}

/// Whether every instruction has one operand at most, and so takes one word.
pub open spec fn one_word_each(instructions: Seq<InstructionView>) -> bool {
    forall|i: int| 0 <= i < instructions.len() ==> (#[trigger] instructions[i]).operands.len() <= 1
}

/// An instruction with one operand at most takes one word.
proof fn lemma_instruction_length(
    instruction: InstructionView,
    table: Map<Seq<char>, Opcode>,
    names: Seq<Seq<char>>,
    first: nat,
    config: Config,
)
    requires
        config.wf(),
        instruction.operands.len() <= 1,
    ensures
        instruction_bits(instruction, table, names, first, config).len() == config.word_size,
        instruction_bits(instruction, table, names, first, config).take(
            config.opcode_size as int,
        ) == field_bits(table[instruction.opcode].binary as nat, config.opcode_size as nat),
{
    let operands = instruction.operands;
    if operands.len() == 1 {
        assert(operands.drop_last().len() == 0);
        assert(operand_bits(operands.drop_last(), names, first, config).len() == 0);
    }
    let head = field_bits(table[instruction.opcode].binary as nat, config.opcode_size as nat);
    assert(instruction_bits(instruction, table, names, first, config).take(
        config.opcode_size as int,
    ) =~= head);
}

/// Instructions of one word each take one word each, and word `i` of their
/// encoding is the encoding of instruction `i`.
proof fn lemma_code_words(
    instructions: Seq<InstructionView>,
    table: Map<Seq<char>, Opcode>,
    names: Seq<Seq<char>>,
    first: nat,
    config: Config,
)
    requires
        config.wf(),
        one_word_each(instructions),
    ensures
        code_bits(instructions, table, names, first, config).len() == instructions.len()
            * config.word_size,
        forall|i: int|
            0 <= i < instructions.len() ==> code_bits(
                instructions,
                table,
                names,
                first,
                config,
            ).subrange(i * config.word_size, (i + 1) * config.word_size) == instruction_bits(
                #[trigger] instructions[i],
                table,
                names,
                first,
                config,
            ),
    decreases instructions.len(),
{
    let w = config.word_size as int;
    if instructions.len() > 0 {
        let before = instructions.drop_last();
        let last = instructions[instructions.len() - 1];
        assert(instructions.last() == last);
        lemma_code_words(before, table, names, first, config);
        lemma_instruction_length(last, table, names, first, config);
        let done = code_bits(before, table, names, first, config);
        let all = code_bits(instructions, table, names, first, config);
        let word = instruction_bits(last, table, names, first, config);
        assert(all == done + word);
        assert(before.len() * w + w == instructions.len() * w) by (nonlinear_arith)
            requires
                before.len() + 1 == instructions.len(),
        ;
        assert(all.len() == instructions.len() * w);
        assert forall|i: int| 0 <= i < instructions.len() implies all.subrange(i * w, (i + 1) * w)
            == instruction_bits(#[trigger] instructions[i], table, names, first, config) by {
            assert(0 <= i * w && (i + 1) * w == i * w + w && (i < before.len() ==> (i + 1) * w
                <= before.len() * w)) by (nonlinear_arith)
                requires
                    0 <= i,
                    0 < w,
            ;
            if i < before.len() {
                assert(before[i] == instructions[i]);
                assert(all.subrange(i * w, (i + 1) * w) =~= done.subrange(i * w, (i + 1) * w));
            } else {
                assert(all.subrange(i * w, (i + 1) * w) =~= word);
            }
        }
    } else {
        assert(instructions.len() * w == 0) by (nonlinear_arith)
            requires
                instructions.len() == 0,
        ;
    }
}

/// The values of `names` take one word each, and word `k` of them is the
/// value of name `k`.
proof fn lemma_data_words(names: Seq<Seq<char>>, variables: Map<Seq<char>, u8>, config: Config)
    ensures
        data_bits(names, variables, config).len() == names.len() * config.word_size,
        forall|k: int|
            0 <= k < names.len() ==> data_bits(names, variables, config).subrange(
                k * config.word_size,
                (k + 1) * config.word_size,
            ) == field_bits(variables[#[trigger] names[k]] as nat, config.word_size as nat),
    decreases names.len(),
{
    let w = config.word_size as int;
    if names.len() > 0 {
        let before = names.drop_last();
        lemma_data_words(before, variables, config);
        let done = data_bits(before, variables, config);
        let all = data_bits(names, variables, config);
        let word = field_bits(variables[names.last()] as nat, w as nat);
        assert(all == done + word);
        assert(before.len() * w + w == names.len() * w) by (nonlinear_arith)
            requires
                before.len() + 1 == names.len(),
        ;
        assert forall|k: int| 0 <= k < names.len() implies all.subrange(k * w, (k + 1) * w)
            == field_bits(variables[#[trigger] names[k]] as nat, w as nat) by {
            assert(0 <= k * w && (k + 1) * w == k * w + w && (k < before.len() ==> (k + 1) * w
                <= before.len() * w)) by (nonlinear_arith)
                requires
                    0 <= k,
                    0 <= w,
            ;
            if k < before.len() {
                assert(before[k] == names[k]);
                assert(all.subrange(k * w, (k + 1) * w) =~= done.subrange(k * w, (k + 1) * w));
            } else {
                assert(all.subrange(k * w, (k + 1) * w) =~= word);
            }
        }
    } else {
        assert(names.len() * w == 0) by (nonlinear_arith)
            requires
                names.len() == 0,
        ;
    }
}

/// A file whose instructions take one word each and whose variables are all
/// declared appends one word for each instruction and one for each variable
/// that it refers to.
pub proof fn lemma_generated_length(
    program: Program,
    table: Map<Seq<char>, Opcode>,
    config: Config,
    length: nat,
)
    requires
        config.wf(),
        one_word_each(program.instructions),
        generated_result(program) is Ok,
    ensures
        generated_bits(program, table, config, length).len() == (program.instructions.len()
            + references(program.instructions).len()) * config.word_size,
{
    let names = references(program.instructions);
    let first = first_address(length, program.instructions.len(), config);
    lemma_code_words(program.instructions, table, names, first, config);
    lemma_declared_run_ends(names, program.variables);
    assert(names.take(names.len() as int) =~= names);
    lemma_data_words(names, program.variables, config);
    assert((program.instructions.len() + names.len()) * config.word_size
        == program.instructions.len() * config.word_size + names.len() * config.word_size)
        by (nonlinear_arith);
}

/// Reading the opcode field of word `i` of what a file appends gives the
/// opcode of its instruction `i`, where the instructions take one word each
/// and the opcode fits its field.
pub proof fn lemma_opcode_round_trip(
    program: Program,
    table: Map<Seq<char>, Opcode>,
    config: Config,
    length: nat,
    i: int,
)
    requires
        config.wf(),
        one_word_each(program.instructions),
        0 <= i < program.instructions.len(),
        table[program.instructions[i].opcode].binary < pow2(config.opcode_size as nat),
    ensures
        bits_value(
            generated_bits(program, table, config, length).subrange(
                i * config.word_size,
                i * config.word_size + config.opcode_size,
            ),
        ) == table[program.instructions[i].opcode].binary,
{
    let names = references(program.instructions);
    let first = first_address(length, program.instructions.len(), config);
    let w = config.word_size as int;
    let o = config.opcode_size as int;
    let code = code_bits(program.instructions, table, names, first, config);
    let bits = generated_bits(program, table, config, length);
    let word = instruction_bits(program.instructions[i], table, names, first, config);
    let binary = table[program.instructions[i].opcode].binary as nat;
    lemma_code_words(program.instructions, table, names, first, config);
    lemma_instruction_length(program.instructions[i], table, names, first, config);
    assert(0 <= i * w && (i + 1) * w == i * w + w && (i + 1) * w <= program.instructions.len() * w)
        by (nonlinear_arith)
        requires
            0 <= i < program.instructions.len(),
            0 < w,
    ;
    assert(code.subrange(i * w, (i + 1) * w) == word);
    assert(bits.subrange(i * w, i * w + o) =~= word.take(o));
    lemma_field_round_trip(binary, o as nat);
    lemma_small_mod(binary, pow2(o as nat));
}

/// With words of one byte, the address of a variable is the place of its
/// value in the image: where a file is generated onto whole bytes, its
/// instructions take one word each and its variables are all declared, the
/// byte at the address of each variable referred to holds the declared value.
pub proof fn lemma_address_holds_value(
    program: Program,
    table: Map<Seq<char>, Opcode>,
    config: Config,
    before: Seq<bool>,
    name: Seq<char>,
)
    requires
        config.wf(),
        config.word_size == 8,
        before.len() % 8 == 0,
        one_word_each(program.instructions),
        generated_result(program) is Ok,
        refers_to(program.instructions, name),
    ensures
        ({
            let names = references(program.instructions);
            let first = first_address(before.len(), program.instructions.len(), config);
            let address = address_of(name, names, first, config) as int;
            let image = before + generated_bits(program, table, config, before.len());
            image.subrange(8 * address, 8 * address + 8) == field_bits(
                program.variables[name] as nat,
                8,
            )
        }),
{
    let names = references(program.instructions);
    let count = program.instructions.len() as int;
    let first = first_address(before.len(), program.instructions.len(), config);
    let code = code_bits(program.instructions, table, names, first, config);
    let data = data_bits(names, program.variables, config);
    let appended = generated_bits(program, table, config, before.len());
    let k = names.index_of(name);
    let value = field_bits(program.variables[name] as nat, 8);
    assert(0 <= k < names.len() && names[k] == name) by {
        lemma_references_are_operands(program.instructions, name);
    }
    assert(code.len() == 8 * count) by {
        lemma_code_words(program.instructions, table, names, first, config);
        assert(count * config.word_size == 8 * count) by (nonlinear_arith)
            requires
                config.word_size == 8,
        ;
    }
    assert(data.len() == 8 * names.len() && data.subrange(8 * k, 8 * k + 8) == value) by {
        lemma_data_words(names, program.variables, config);
        assert(names.len() * config.word_size == 8 * names.len() && k * config.word_size == 8 * k
            && (k + 1) * config.word_size == 8 * k + 8) by (nonlinear_arith)
            requires
                config.word_size == 8,
        ;
    }
    assert(appended == code + data) by {
        lemma_declared_run_ends(names, program.variables);
        assert(names.take(names.len() as int) =~= names);
    }
    let address = address_of(name, names, first, config) as int;
    assert(address == before.len() / 8 + count + k) by {
        assert(config.word_bytes() == 1);
        assert(before.len() / (config.word_size as nat) == before.len() / 8);
        assert(count * config.word_bytes() == count && k * config.word_bytes() == k)
            by (nonlinear_arith)
            requires
                config.word_bytes() == 1,
        ;
    }
    assert((before + (code + data)).subrange(8 * address, 8 * address + 8) =~= data.subrange(
        8 * k,
        8 * k + 8,
    )) by {
        assert(8 * address == before.len() + code.len() + 8 * k);
        assert(8 * k + 8 <= data.len());
    }
}

} // verus!
