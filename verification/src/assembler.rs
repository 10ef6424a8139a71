//! The whole way from source text to the image: each file goes through the
//! lexer, the parser and the generator, and all files write into one buffer.

use crate::binary::{generate_binary, generated_bits, generated_result, references, result_view};
use crate::binary_laws::{lemma_generated_length, one_word_each};
use crate::bitset::{packed, Bitset};
use crate::config::Config;
use crate::error::{AsmError, AsmErrorView};
use crate::opcode::{Opcode, OpcodeTable};
use crate::parser::{lexed, lexer, parsed, parser};
use crate::parser_laws::{lemma_lexed_is_lexical, lemma_parsed_instructions};
use vstd::prelude::*;

verus! {

/// How assembling a text ends: with the error of the parser, or else as
/// generating what the parser found ends.
pub open spec fn assembled_result(text: Seq<char>, table: Map<Seq<char>, Opcode>) -> Result<
    (),
    AsmErrorView,
> {
    match parsed(lexed(text, table), table) {
        Ok(program) => generated_result(program),
        Err(error) => Err(error),
    }
}

/// The buffer after assembling a text onto `before`. It is `before` if the
/// parser finds an error, and else `before` with what the generator appends.
pub open spec fn assembled_bits(
    text: Seq<char>,
    table: Map<Seq<char>, Opcode>,
    config: Config,
    before: Seq<bool>,
) -> Seq<bool> {
    match parsed(lexed(text, table), table) {
        Ok(program) => before + generated_bits(program, table, config, before.len()),
        Err(_) => before,
    }
}

/// The image of source texts: each assembled in turn onto what the ones
/// before it gave. The first text that fails ends it, with its place among
/// the texts and its error.
pub open spec fn image(
    sources: Seq<Seq<char>>,
    table: Map<Seq<char>, Opcode>,
    config: Config,
) -> Result<Seq<bool>, (nat, AsmErrorView)>
    decreases sources.len(),
{
    if sources.len() == 0 {
        Ok(Seq::empty())
    } else {
        match image(sources.drop_last(), table, config) {
            Err(failure) => Err(failure),
            Ok(bits) => match assembled_result(sources.last(), table) {
                Ok(()) => Ok(assembled_bits(sources.last(), table, config, bits)),
                Err(error) => Err(((sources.len() - 1) as nat, error)),
            },
        }
    }
}

/// Once a text has failed, more texts do not change the failure.
proof fn lemma_failure_stays(
    sources: Seq<Seq<char>>,
    table: Map<Seq<char>, Opcode>,
    config: Config,
    n: int,
)
    requires
        0 <= n <= sources.len(),
        image(sources.take(n), table, config) is Err,
    ensures
        image(sources, table, config) == image(sources.take(n), table, config),
    decreases sources.len(),
{
    if n == sources.len() {
        assert(sources.take(n) =~= sources);
    } else {
        assert(sources.drop_last().take(n) =~= sources.take(n));
        lemma_failure_stays(sources.drop_last(), table, config, n);
    }
}

/// Assembles one source text onto `output`.
///
/// Where the parser finds an error, `output` stays as it is. Where the
/// generator finds a variable that is not declared, `output` holds what was
/// written before that.
pub fn assemble(
    input: &str,
    opcode_def: &OpcodeTable,
    config: &Config,
    output: &mut Bitset,
) -> (result: Result<(), AsmError>)
    requires
        config.wf(),
    ensures
        result_view(result) == assembled_result(input@, opcode_def@),
        final(output)@ == assembled_bits(input@, opcode_def@, *config, old(output)@),
{
    let tokens = lexer(input, opcode_def);
    match parser(tokens, opcode_def) {
        Ok(found) => {
            proof {
                lemma_lexed_is_lexical(input@, opcode_def@);
                lemma_parsed_instructions(lexed(input@, opcode_def@), opcode_def@);
            }
            generate_binary(&found, opcode_def, config, output)
        },
        Err(error) => Err(error),
    }
}

/// Assembles source texts, in order, into one image. The first text that
/// fails ends the run: the result then holds its place among the texts,
/// counted from 0, and its error.
pub fn process_input(
    sources: &Vec<String>,
    opcode_def: &OpcodeTable,
    config: &Config,
) -> (result: Result<Bitset, (usize, AsmError)>)
    requires
        config.wf(),
    ensures
        (match image(sources.deep_view(), opcode_def@, *config) {
            Ok(bits) => result matches Ok(output) && output@ == bits,
            Err(failure) => result matches Err(found) && found.0 == failure.0 && found.1@
                == failure.1,
        }),
{
    let mut output = Bitset::new();
    let mut i: usize = 0;
    assert(sources.deep_view().take(0) =~= Seq::<Seq<char>>::empty());
    while i < sources.len()
        invariant
            i <= sources.len(),
            config.wf(),
            image(sources.deep_view().take(i as int), opcode_def@, *config) == Ok::<
                Seq<bool>,
                (nat, AsmErrorView),
            >(output@),
        decreases sources.len() - i,
    {
        let ghost texts = sources.deep_view();
        proof {
            assert(texts.take(i + 1).drop_last() =~= texts.take(i as int));
            assert(texts.take(i + 1).last() == sources[i as int]@);
        }
        match assemble(sources[i].as_str(), opcode_def, config, &mut output) {
            Ok(()) => {},
            Err(error) => {
                proof {
                    lemma_failure_stays(texts, opcode_def@, *config, i + 1);
                }
                return Err((i, error));
            },
        }
        i = i + 1;
    }
    assert(sources.deep_view().take(i as int) =~= sources.deep_view());
    Ok(output)
}

/// The words that a text asks for: one for each instruction and one for each
/// variable that its instructions refer to.
pub open spec fn text_words(text: Seq<char>, table: Map<Seq<char>, Opcode>) -> nat {
    match parsed(lexed(text, table), table) {
        Ok(program) => program.instructions.len() + references(program.instructions).len(),
        Err(_) => 0,
    }
}

/// The words that texts ask for, taken together.
pub open spec fn total_words(sources: Seq<Seq<char>>, table: Map<Seq<char>, Opcode>) -> nat
    decreases sources.len(),
{
    if sources.len() == 0 {
        0
    } else {
        total_words(sources.drop_last(), table) + text_words(sources.last(), table)
    }
}

/// Where no mnemonic takes more than one operand, the image of texts that
/// assemble holds one word for each instruction and one for each variable
/// that a text refers to, summed over the texts. With words of one byte the
/// image is exported as one byte for each of these words.
pub proof fn lemma_image_length(
    sources: Seq<Seq<char>>,
    table: Map<Seq<char>, Opcode>,
    config: Config,
)
    requires
        config.wf(),
        forall|name: Seq<char>| table.contains_key(name) ==> (#[trigger] table[name]).operands <= 1,
        image(sources, table, config) is Ok,
    ensures
        image(sources, table, config) matches Ok(bits) && bits.len() == total_words(sources, table)
            * config.word_size && (config.word_size == 8 ==> packed(bits).len() == total_words(
            sources,
            table,
        )),
    decreases sources.len(),
{
    if sources.len() > 0 {
        let before = sources.drop_last();
        let text = sources.last();
        lemma_image_length(before, table, config);
        let bits = image(before, table, config)->Ok_0;
        let program = parsed(lexed(text, table), table)->Ok_0;
        lemma_parsed_instructions(lexed(text, table), table);
        assert(one_word_each(program.instructions));
        lemma_generated_length(program, table, config, bits.len());
        assert((total_words(before, table) + text_words(text, table)) * config.word_size
            == total_words(before, table) * config.word_size + text_words(text, table)
            * config.word_size) by (nonlinear_arith);
    } else {
        assert(total_words(sources, table) * config.word_size == 0) by (nonlinear_arith)
            requires
                total_words(sources, table) == 0,
        ;
    }
}

} // verus!
