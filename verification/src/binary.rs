//! From instructions and declarations to bits.
//!
//! Every instruction takes one opcode field and one operand field for each
//! operand (one operand field of zeros where it has no operand), so an
//! instruction with one operand at most takes one word. The values of the
//! variables that the instructions refer to follow the instructions, one
//! word each, in the order in which the variables were first referred to.
//!
//! A variable gets its address at its first reference. The first address of
//! a file is the number of words in the buffer before the file plus the
//! bytes of the file's instructions, and each further variable lies one
//! word's bytes after the one before. With words of one byte this is the
//! place of the variable's value in the image.

use crate::bitset::{field_bits, Bitset};
use crate::config::Config;
use crate::error::{AsmError, AsmErrorView};
use crate::opcode::{Opcode, OpcodeTable};
use crate::parser::{
    is_operand, program_of, InstructionView, ParserResult, Program, Token, TokenView,
};
use vstd::hash_map::StringHashMap;
use vstd::prelude::*;

verus! {

/// Instructions that can be encoded with a table: the table defines each
/// mnemonic, and each operand is a reference or a number.
pub open spec fn encodable(
    instructions: Seq<InstructionView>,
    table: Map<Seq<char>, Opcode>,
) -> bool {
    forall|i: int|
        0 <= i < instructions.len() ==> {
            &&& table.contains_key((#[trigger] instructions[i]).opcode)
            &&& forall|j: int|
                0 <= j < instructions[i].operands.len() ==> is_operand(
                    #[trigger] instructions[i].operands[j],
                )
        }
}

/// The names referred to so far, with the one that `token` refers to added if
/// it is new.
pub open spec fn with_reference(names: Seq<Seq<char>>, token: TokenView) -> Seq<Seq<char>> {
    match token {
        TokenView::Operand(name) => if names.contains(name) {
            names
        } else {
            names.push(name)
        },
        _ => names,
    }
}

/// `names`, followed by the new names that `operands` refer to.
pub open spec fn references_in(names: Seq<Seq<char>>, operands: Seq<TokenView>) -> Seq<Seq<char>>
    decreases operands.len(),
{
    if operands.len() == 0 {
        names
    } else {
        with_reference(references_in(names, operands.drop_last()), operands.last())
    }
}

/// The variables that instructions refer to: each one once, in the order of
/// their first reference.
pub open spec fn references(instructions: Seq<InstructionView>) -> Seq<Seq<char>>
    decreases instructions.len(),
{
    if instructions.len() == 0 {
        Seq::empty()
    } else {
        references_in(references(instructions.drop_last()), instructions.last().operands)
    }
}

/// The address of the first variable of a file: the number of words that the
/// buffer holds before the file, plus the bytes of the file's instructions.
pub open spec fn first_address(length: nat, count: nat, config: Config) -> nat {
    length / (config.word_size as nat) + count * config.word_bytes()
}

/// The address of variable `name`: variables lie one after the other from
/// `first`, in the order of `names`.
pub open spec fn address_of(
    name: Seq<char>,
    names: Seq<Seq<char>>,
    first: nat,
    config: Config,
) -> nat {
    (first + names.index_of(name) * config.word_bytes()) as nat
}

/// The bit pattern of a number: the number itself, or its two's complement
/// in the machine's word if it is negative.
pub open spec fn number_pattern(number: isize) -> nat {
    if number >= 0 {
        number as nat
    } else {
        (number + usize::MAX + 1) as nat
    }
}

/// What an operand field holds: the address of the variable referred to, or
/// the number.
pub open spec fn operand_value(
    token: TokenView,
    names: Seq<Seq<char>>,
    first: nat,
    config: Config,
) -> nat {
    match token {
        TokenView::Operand(name) => address_of(name, names, first, config),
        TokenView::Number(number) => number_pattern(number),
        _ => 0,
    }
}

/// One operand field for each operand, in order.
pub open spec fn operand_bits(
    operands: Seq<TokenView>,
    names: Seq<Seq<char>>,
    first: nat,
    config: Config,
) -> Seq<bool>
    decreases operands.len(),
{
    if operands.len() == 0 {
        Seq::empty()
    } else {
        operand_bits(operands.drop_last(), names, first, config) + field_bits(
            operand_value(operands.last(), names, first, config),
            config.operand_size(),
        )
    }
}

/// The bits of one instruction: the opcode field, then the operand fields;
/// an instruction without operands has one operand field of zeros.
pub open spec fn instruction_bits(
    instruction: InstructionView,
    table: Map<Seq<char>, Opcode>,
    names: Seq<Seq<char>>,
    first: nat,
    config: Config,
) -> Seq<bool> {
    let opcode = field_bits(table[instruction.opcode].binary as nat, config.opcode_size as nat);
    if instruction.operands.len() == 0 {
        opcode + field_bits(0, config.operand_size())
    } else {
        opcode + operand_bits(instruction.operands, names, first, config)
    }
}

/// The bits of instructions, in order.
pub open spec fn code_bits(
    instructions: Seq<InstructionView>,
    table: Map<Seq<char>, Opcode>,
    names: Seq<Seq<char>>,
    first: nat,
    config: Config,
) -> Seq<bool>
    decreases instructions.len(),
{
    if instructions.len() == 0 {
        Seq::empty()
    } else {
        code_bits(instructions.drop_last(), table, names, first, config) + instruction_bits(
            instructions.last(),
            table,
            names,
            first,
            config,
        )
    }
}

/// The declared values of `names`, one word each, in order.
pub open spec fn data_bits(
    names: Seq<Seq<char>>,
    variables: Map<Seq<char>, u8>,
    config: Config,
) -> Seq<bool>
    decreases names.len(),
{
    if names.len() == 0 {
        Seq::empty()
    } else {
        data_bits(names.drop_last(), variables, config) + field_bits(
            variables[names.last()] as nat,
            config.word_size as nat,
        )
    }
}

/// How many of `names`, from the first on, are declared before one is not.
pub open spec fn declared_run(names: Seq<Seq<char>>, variables: Map<Seq<char>, u8>) -> nat
    decreases names.len(),
{
    if names.len() == 0 || !variables.contains_key(names[0]) {
        0
    } else {
        1 + declared_run(names.drop_first(), variables)
    }
}

/// What generating a file appends to the buffer: the bits of its
/// instructions, then the values of the variables referred to, up to the
/// first one that is not declared. `length` is the length of the buffer
/// before.
pub open spec fn generated_bits(
    program: Program,
    table: Map<Seq<char>, Opcode>,
    config: Config,
    length: nat,
) -> Seq<bool> {
    let names = references(program.instructions);
    let first = first_address(length, program.instructions.len(), config);
    code_bits(program.instructions, table, names, first, config) + data_bits(
        names.take(declared_run(names, program.variables) as int),
        program.variables,
        config,
    )
}

/// How generating a file ends: well if every variable referred to is
/// declared, and else with the first one that is not.
pub open spec fn generated_result(program: Program) -> Result<(), AsmErrorView> {
    let names = references(program.instructions);
    let run = declared_run(names, program.variables);
    if run < names.len() {
        Err(AsmErrorView::UndefinedVariable(names[run as int]))
    } else {
        Ok(())
    }
}

/// The mathematical value of what [`generate_binary`] returns.
pub open spec fn result_view(result: Result<(), AsmError>) -> Result<(), AsmErrorView> {
    match result {
        Ok(()) => Ok(()),
        Err(error) => Err(error@),
    }
}

/// Adding references keeps the names there are, in their places, and adds
/// no name twice.
proof fn lemma_references_in_grow(names: Seq<Seq<char>>, operands: Seq<TokenView>)
    ensures
        names.is_prefix_of(references_in(names, operands)),
        names.no_duplicates() ==> references_in(names, operands).no_duplicates(),
    decreases operands.len(),
{
    if operands.len() > 0 {
        lemma_references_in_grow(names, operands.drop_last());
    }
}

/// The names known after some of the operands stay in their places when the
/// rest is read.
proof fn lemma_references_in_take(names: Seq<Seq<char>>, operands: Seq<TokenView>, j: int)
    requires
        0 <= j <= operands.len(),
    ensures
        references_in(names, operands.take(j)).is_prefix_of(references_in(names, operands)),
    decreases operands.len(),
{
    if j == operands.len() {
        assert(operands.take(j) =~= operands);
    } else {
        assert(operands.drop_last().take(j) =~= operands.take(j));
        lemma_references_in_take(names, operands.drop_last(), j);
    }
}

/// The names known after some of the instructions stay in their places when
/// the rest is read, and no name is known twice.
pub(crate) proof fn lemma_references_take(instructions: Seq<InstructionView>, i: int)
    requires
        0 <= i <= instructions.len(),
    ensures
        references(instructions.take(i)).is_prefix_of(references(instructions)),
        references(instructions).no_duplicates(),
    decreases instructions.len(),
{
    if instructions.len() > 0 {
        let before = instructions.drop_last();
        lemma_references_in_grow(references(before), instructions.last().operands);
        if i == instructions.len() {
            assert(instructions.take(i) =~= instructions);
            lemma_references_take(before, i - 1);
        } else {
            assert(before.take(i) =~= instructions.take(i));
            lemma_references_take(before, i);
        }
    } else {
        assert(instructions.take(i) =~= instructions);
    }
}

/// Where no name occurs twice, a name is found at its own place.
proof fn lemma_index_of_place(names: Seq<Seq<char>>, k: int)
    requires
        names.no_duplicates(),
        0 <= k < names.len(),
    ensures
        names.index_of(names[k]) == k,
{
    let found = names.index_of(names[k]);
    assert(0 <= found < names.len() && names[found] == names[k]);
}

/// The run of declared names ends at `k` if the names before `k` are declared
/// and the one at `k` is not, or there is none at `k`.
proof fn lemma_declared_run(names: Seq<Seq<char>>, variables: Map<Seq<char>, u8>, k: int)
    requires
        0 <= k <= names.len(),
        forall|j: int| 0 <= j < k ==> variables.contains_key(#[trigger] names[j]),
        k < names.len() ==> !variables.contains_key(names[k]),
    ensures
        declared_run(names, variables) == k,
    decreases names.len(),
{
    if k > 0 {
        let rest = names.drop_first();
        assert(variables.contains_key(names[0]));
        assert forall|j: int| 0 <= j < k - 1 implies variables.contains_key(
            #[trigger] rest[j],
        ) by {
            assert(rest[j] == names[j + 1]);
        }
        lemma_declared_run(rest, variables, k - 1);
    }
}

/// The variables referred to so far, in the order of their first reference,
/// and the address of each.
struct Bindings {
    names: Vec<String>,
    addresses: StringHashMap<u128>,
    first: u128,
    step: u128,
    next: u128,
}

impl Bindings {
    /// The names bound, in order.
    spec fn names(&self) -> Seq<Seq<char>> {
        self.names.deep_view()
    }

    /// The name at place `k` has the address `first + k * step`, the lookup
    /// table knows the same names, and the cursor is past the last address.
    spec fn wf(&self) -> bool {
        &&& self.names().no_duplicates()
        &&& forall|name: Seq<char>|
            self.addresses@.contains_key(name) <==> self.names().contains(name)
        &&& forall|k: int|
            0 <= k < self.names().len() ==> self.addresses@[#[trigger] self.names()[k]]
                == self.first + k * self.step
        &&& self.next == self.first + self.names().len() * self.step
        &&& self.first <= 32 * usize::MAX
        &&& self.step <= 31
    }

    /// No names yet; the first one will get the address `first`.
    fn new(first: u128, step: u128) -> (bindings: Bindings)
        requires
            first <= 32 * usize::MAX,
            step <= 31,
        ensures
            bindings.wf(),
            bindings.names() == Seq::<Seq<char>>::empty(),
            bindings.first == first,
            bindings.step == step,
    {
        let bindings = Bindings {
            names: Vec::new(),
            addresses: StringHashMap::new(),
            first,
            step,
            next: first,
        };
        assert(bindings.names() =~= Seq::<Seq<char>>::empty());
        bindings
    }

    /// The address of `name`, which is bound to the next free address if it
    /// is new.
    fn resolve(&mut self, name: &String) -> (address: u128)
        requires
            old(self).wf(),
        ensures
            final(self).wf(),
            final(self).first == old(self).first,
            final(self).step == old(self).step,
            final(self).names() == with_reference(old(self).names(), TokenView::Operand(name@)),
            final(self).names().contains(name@),
            address == final(self).first + final(self).names().index_of(name@) * final(self).step,
    {
        let ghost before = self.names();
        match self.addresses.get(name.as_str()) {
            Some(address) => {
                proof {
                    let k = before.index_of(name@);
                    assert(before.contains(name@));
                }
                *address
            },
            None => {
                let address = self.next;
                assert(self.names.len() * self.step <= usize::MAX * 31) by (nonlinear_arith)
                    requires
                        self.names.len() <= usize::MAX,
                        self.step <= 31,
                ;
                self.names.push(name.clone());
                self.addresses.insert(name.clone(), address);
                self.next = self.next + self.step;
                proof {
                    let after = self.names();
                    assert(after =~= before.push(name@));
                    assert(!before.contains(name@));
                    assert(after[before.len() as int] == name@);
                    assert forall|other: Seq<char>|
                        self.addresses@.contains_key(other) <==> after.contains(other) by {
                        if before.contains(other) {
                            let k = before.index_of(other);
                            assert(after[k] == other);
                        }
                    }
                    assert(after.no_duplicates());
                    lemma_index_of_place(after, before.len() as int);
                    assert((before.len() + 1) * self.step == before.len() * self.step + self.step)
                        by (nonlinear_arith);
                }
                address
            },
        }
    }
}

/// The bit pattern of a number.
fn pattern_of(number: isize) -> (pattern: u128)
    ensures
        pattern == number_pattern(number),
{
    if number >= 0 {
        number as u128
    } else {
        let below: usize = (-(number + 1)) as usize;
        (usize::MAX - below) as u128
    }
}

/// Appends the encoding of a file to `output`: its instructions, then the
/// declared values of the variables that they refer to.
///
/// A variable gets its address at its first reference. Where a variable
/// referred to is not declared, the result is the error that names the first
/// such variable, and `output` holds what was written before it was found.
pub fn generate_binary(
    parser_result: &ParserResult,
    opcode_def: &OpcodeTable,
    config: &Config,
    output: &mut Bitset,
) -> (result: Result<(), AsmError>)
    requires
        config.wf(),
        encodable(parser_result.0.deep_view(), opcode_def@),
    ensures
        final(output)@ == old(output)@ + generated_bits(
            program_of(parser_result),
            opcode_def@,
            *config,
            old(output)@.len(),
        ),
        result_view(result) == generated_result(program_of(parser_result)),
{
    let instructions = &parser_result.0;
    let variables = &parser_result.1;
    let ghost program = instructions.deep_view();
    let ghost all = references(program);
    let ghost table = opcode_def@;
    let ghost start = old(output)@;
    let operand_size: u8 = config.word_size - config.opcode_size;
    let step: u128 = (config.word_size / 8) as u128;
    let words: usize = output.length() / (config.word_size as usize);
    assert(instructions.len() * step <= usize::MAX * 31) by (nonlinear_arith)
        requires
            instructions.len() <= usize::MAX,
            step <= 31,
    ;
    let first: u128 = words as u128 + (instructions.len() as u128) * step;
    let ghost base = first as nat;
    assert(base == first_address(start.len(), program.len(), *config));
    let mut bindings = Bindings::new(first, step);
    let mut i: usize = 0;
    assert(program.take(0) =~= Seq::<InstructionView>::empty());
    while i < instructions.len()
        invariant
            i <= instructions.len(),
            program == instructions.deep_view(),
            all == references(program),
            table == opcode_def@,
            encodable(program, table),
            config.wf(),
            operand_size == config.operand_size(),
            step == config.word_bytes(),
            base == first,
            bindings.wf(),
            bindings.first == first,
            bindings.step == step,
            bindings.names() == references(program.take(i as int)),
            output@ == start + code_bits(program.take(i as int), table, all, base, *config),
        decreases instructions.len() - i,
    {
        let instruction = &instructions[i];
        let ghost operands = instruction.operands.deep_view();
        let ghost known = references(program.take(i as int));
        let ghost done = code_bits(program.take(i as int), table, all, base, *config);
        proof {
            assert(program[i as int] == instruction@);
            assert(program.take(i + 1).drop_last() =~= program.take(i as int));
            assert(program.take(i + 1).last() == instruction@);
            assert(operands.take(0) =~= Seq::<TokenView>::empty());
        }
        let info = match opcode_def.get(instruction.opcode.as_str()) {
            Some(info) => info,
            None => {
                assert(false);
                Opcode { binary: 0, operands: 0 }
            },
        };
        output.append(info.binary as u128, config.opcode_size);
        let ghost head = field_bits(info.binary as nat, config.opcode_size as nat);
        let mut j: usize = 0;
        while j < instruction.operands.len()
            invariant
                j <= instruction.operands.len(),
                i < instructions.len(),
                program == instructions.deep_view(),
                all == references(program),
                instruction@ == program[i as int],
                operands == instruction.operands.deep_view(),
                known == references(program.take(i as int)),
                encodable(program, table),
                config.wf(),
                operand_size == config.operand_size(),
                step == config.word_bytes(),
                base == first,
                bindings.wf(),
                bindings.first == first,
                bindings.step == step,
                bindings.names() == references_in(known, operands.take(j as int)),
                output@ == start + done + head + operand_bits(
                    operands.take(j as int),
                    all,
                    base,
                    *config,
                ),
            decreases instruction.operands.len() - j,
        {
            let ghost written = operand_bits(operands.take(j as int), all, base, *config);
            proof {
                assert(operands[j as int] == instruction.operands[j as int]@);
                assert(operands.take(j + 1).drop_last() =~= operands.take(j as int));
                assert(operands.take(j + 1).last() == operands[j as int]);
                assert(is_operand(program[i as int].operands[j as int]));
            }
            let value = match &instruction.operands[j] {
                Token::Operand(name) => {
                    let address = bindings.resolve(name);
                    proof {
                        // The name keeps its place when the rest is read.
                        let now = bindings.names();
                        let next = references_in(known, operands);
                        lemma_references_in_take(known, operands, j + 1);
                        lemma_references_take(program, i + 1);
                        assert(program.take(i + 1).drop_last() =~= program.take(i as int));
                        assert(next == references(program.take(i + 1)));
                        let k = now.index_of(name@);
                        assert(0 <= k < now.len() && now[k] == name@);
                        assert(next[k] == name@);
                        assert(all[k] == name@);
                        lemma_index_of_place(all, k);
                    }
                    address
                },
                Token::Number(number) => pattern_of(*number),
                _ => {
                    assert(false);
                    0
                },
            };
            output.append(value, operand_size);
            assert(output@ =~= start + done + head + (written + field_bits(
                value as nat,
                operand_size as nat,
            )));
            j = j + 1;
        }
        assert(operands.take(j as int) =~= operands);
        if instruction.operands.len() == 0 {
            output.append(0, operand_size);
        }
        assert(output@ =~= start + (done + instruction_bits(
            instruction@,
            table,
            all,
            base,
            *config,
        )));
        i = i + 1;
    }
    assert(program.take(i as int) =~= program);
    let ghost code = code_bits(program, table, all, base, *config);
    let mut k: usize = 0;
    assert(all.take(0) =~= Seq::<Seq<char>>::empty());
    while k < bindings.names.len()
        invariant
            k <= bindings.names.len(),
            bindings.names() == all,
            config.wf(),
            start == old(output)@,
            program_of(parser_result) == (Program { instructions: program, variables: variables@ }),
            all == references(program),
            base == first_address(start.len(), program.len(), *config),
            code == code_bits(program, table, all, base, *config),
            table == opcode_def@,
            forall|j: int| 0 <= j < k ==> variables@.contains_key(#[trigger] all[j]),
            output@ == start + code + data_bits(all.take(k as int), variables@, *config),
        decreases bindings.names.len() - k,
    {
        let ghost written = data_bits(all.take(k as int), variables@, *config);
        proof {
            assert(all[k as int] == bindings.names[k as int]@);
            assert(all.take(k + 1).drop_last() =~= all.take(k as int));
            assert(all.take(k + 1).last() == all[k as int]);
        }
        match variables.get(bindings.names[k].as_str()) {
            Some(value) => {
                output.append(value as u128, config.word_size);
                assert(output@ =~= start + code + (written + field_bits(
                    value as nat,
                    config.word_size as nat,
                )));
            },
            None => {
                proof {
                    lemma_declared_run(all, variables@, k as int);
                    assert(output@ =~= start + (code + written));
                }
                return Err(AsmError::UndefinedVariable(bindings.names[k].clone()));
            },
        }
        k = k + 1;
    }
    proof {
        lemma_declared_run(all, variables@, k as int);
        assert(all.take(k as int) =~= all);
        assert(output@ =~= start + (code + data_bits(all, variables@, *config)));
    }
    Ok(())
}

} // verus!
