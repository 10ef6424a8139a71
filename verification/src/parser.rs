//! From source text to tokens, and from tokens to instructions and variable
//! declarations.

use crate::error::{AsmError, AsmErrorView};
use crate::opcode::{Opcode, OpcodeTable};
use crate::text::{is_space, is_whitespace, lines, number_value, parse_number, split_lines, words};
use crate::variables::Variables;
use vstd::prelude::*;

verus! {

/// One word of a source line, classified.
#[derive(Debug, PartialEq, Eq)]
pub enum Token {
    /// The first word of a line, where the opcode table defines it.
    Opcode(String),
    /// The first word of a line, where the table does not define it: the
    /// name that the line declares.
    Variable(String),
    /// A later word that is not a number: a reference to a variable.
    Operand(String),
    /// A later word that is a number.
    Number(isize),
}

/// The mathematical value of a [`Token`].
pub enum TokenView {
    Opcode(Seq<char>),
    Variable(Seq<char>),
    Operand(Seq<char>),
    Number(isize),
}

impl View for Token {
    type V = TokenView;

    open spec fn view(&self) -> TokenView {
        match *self {
            Token::Opcode(name) => TokenView::Opcode(name@),
            Token::Variable(name) => TokenView::Variable(name@),
            Token::Operand(name) => TokenView::Operand(name@),
            Token::Number(number) => TokenView::Number(number),
        }
    }
}

impl DeepView for Token {
    type V = TokenView;

    open spec fn deep_view(&self) -> TokenView {
        self@
    }
}

impl Clone for Token {
    fn clone(&self) -> (copy: Token)
        ensures
            copy@ == self@,
    {
        match self {
            Token::Opcode(name) => Token::Opcode(name.clone()),
            Token::Variable(name) => Token::Variable(name.clone()),
            Token::Operand(name) => Token::Operand(name.clone()),
            Token::Number(number) => Token::Number(*number),
        }
    }
}

/// One validated instruction: a mnemonic of the opcode table with as many
/// operands as the table asks for.
#[derive(Debug, PartialEq, Eq)]
pub struct Instruction {
    pub opcode: String,
    pub operands: Vec<Token>,
}

/// The mathematical value of an [`Instruction`].
pub struct InstructionView {
    pub opcode: Seq<char>,
    pub operands: Seq<TokenView>,
}

impl View for Instruction {
    type V = InstructionView;

    open spec fn view(&self) -> InstructionView {
        InstructionView { opcode: self.opcode@, operands: self.operands.deep_view() }
    }
}

impl DeepView for Instruction {
    type V = InstructionView;

    open spec fn deep_view(&self) -> InstructionView {
        self@
    }
}

/// What the parser makes of a file: its instructions in source order, and
/// the values it declares.
pub type ParserResult = (Vec<Instruction>, Variables);

/// The token for the first word of a line.
pub open spec fn head_token(word: Seq<char>, table: Map<Seq<char>, Opcode>) -> TokenView {
    if table.contains_key(word) {
        TokenView::Opcode(word)
    } else {
        TokenView::Variable(word)
    }
}

/// The token for a word that is not the first of its line.
pub open spec fn operand_token(word: Seq<char>) -> TokenView {
    match number_value(word) {
        Some(number) => TokenView::Number(number),
        None => TokenView::Operand(word),
    }
}

/// A token that can stand as an operand: a reference to a variable or a
/// number.
pub open spec fn is_operand(token: TokenView) -> bool {
    token is Operand || token is Number
}

/// The tokens of a run of words.
pub open spec fn word_tokens(run: Seq<Seq<char>>, table: Map<Seq<char>, Opcode>) -> Seq<
    TokenView,
> {
    Seq::new(
        run.len(),
        |i: int|
            if i == 0 {
                head_token(run[i], table)
            } else {
                operand_token(run[i])
            },
    )
}

/// The tokens of one line: one for each of its words.
pub open spec fn line_tokens(line: Seq<char>, table: Map<Seq<char>, Opcode>) -> Seq<TokenView> {
    word_tokens(words(line), table)
}

/// The tokens of a text, line by line. An empty line has no tokens.
pub open spec fn lexed(text: Seq<char>, table: Map<Seq<char>, Opcode>) -> Seq<Seq<TokenView>> {
    Seq::new(lines(text).len(), |i: int| line_tokens(lines(text)[i], table))
}

/// Classifies a word, given how many tokens its line has so far.
fn classify(word: String, position: usize, opcode_def: &OpcodeTable) -> (token: Token)
    ensures
        token@ == (if position == 0 {
            head_token(word@, opcode_def@)
        } else {
            operand_token(word@)
        }),
{
    if position == 0 {
        if opcode_def.contains(word.as_str()) {
            Token::Opcode(word)
        } else {
            Token::Variable(word)
        }
    } else {
        match parse_number(word.as_str()) {
            Some(number) => Token::Number(number),
            None => Token::Operand(word),
        }
    }
}

/// Turns one line into its tokens.
fn lex_line(line: &str, opcode_def: &OpcodeTable) -> (tokens: Vec<Token>)
    ensures
        tokens.deep_view() == line_tokens(line@, opcode_def@),
{
    let mut tokens: Vec<Token> = Vec::new();
    let mut word = String::new();
    let mut open = false;
    for c in it: line.chars()
        invariant
            it.seq() == line@,
            open == (it.index() > 0 && !is_space(line@[it.index() - 1])),
            open ==> words(line@.take(it.index())).len() > 0 && word@ == words(
                line@.take(it.index()),
            ).last() && tokens.deep_view() == word_tokens(
                words(line@.take(it.index())).drop_last(),
                opcode_def@,
            ),
            !open ==> word@.len() == 0 && tokens.deep_view() == word_tokens(
                words(line@.take(it.index())),
                opcode_def@,
            ),
    {
        let ghost i = it.index();
        let ghost made = tokens.deep_view();
        assert(line@.take(i + 1).drop_last() =~= line@.take(i));
        if is_whitespace(c) {
            if open {
                let token = classify(word, tokens.len(), opcode_def);
                tokens.push(token);
                word = String::new();
                open = false;
                assert(tokens.deep_view() =~= made.push(token@));
            }
        } else {
            word.push(c);
            open = true;
        }
    }
    assert(line@.take(line@.len() as int) =~= line@);
    if open {
        let ghost made = tokens.deep_view();
        let token = classify(word, tokens.len(), opcode_def);
        tokens.push(token);
        assert(tokens.deep_view() =~= made.push(token@));
    }
    tokens
}

/// Turns source text into tokens, one list for each line and in the order of
/// the lines. The first word of a line is an opcode if the table defines it
/// and a variable name if not; each later word is a number if it reads as one
/// and a reference to a variable if not.
pub fn lexer(input: &str, opcode_def: &OpcodeTable) -> (tokens: Vec<Vec<Token>>)
    ensures
        tokens.deep_view() == lexed(input@, opcode_def@),
{
    let source = split_lines(input);
    let mut tokens: Vec<Vec<Token>> = Vec::new();
    let mut i: usize = 0;
    while i < source.len()
        invariant
            i <= source.len(),
            source.deep_view() == lines(input@),
            tokens.deep_view() == lexed(input@, opcode_def@).take(i as int),
        decreases source.len() - i,
    {
        let ghost made = tokens.deep_view();
        let line = lex_line(source[i].as_str(), opcode_def);
        tokens.push(line);
        assert(tokens.deep_view() =~= made.push(line.deep_view()));
        i = i + 1;
    }
    tokens
}

/// What one line of tokens means.
pub enum LineMeaning {
    /// Nothing: the line has no tokens.
    Blank,
    /// An instruction.
    Instruction(InstructionView),
    /// A declaration of a variable and its value.
    Declaration(Seq<char>, u8),
    /// Nothing valid.
    Error(AsmErrorView),
}

/// What a file means: its instructions in source order, and the value that
/// it declares for each variable.
#[verifier::ext_equal]
pub struct Program {
    pub instructions: Seq<InstructionView>,
    pub variables: Map<Seq<char>, u8>,
}

/// A number narrowed to 8 bits: its remainder modulo 256.
pub open spec fn narrowed(number: isize) -> u8 {
    (number as int % 256) as u8
}

/// What the tokens of line number `line` mean.
///
/// A line that starts with an opcode is an instruction and must have as many
/// further tokens as the table asks for. A line that starts with a variable
/// is a declaration: two further tokens, of which the second is the number
/// declared. Nothing else can start a line.
pub open spec fn line_meaning(
    tokens: Seq<TokenView>,
    line: nat,
    table: Map<Seq<char>, Opcode>,
) -> LineMeaning {
    if tokens.len() == 0 {
        LineMeaning::Blank
    } else {
        let given = (tokens.len() - 1) as nat;
        match tokens[0] {
            TokenView::Opcode(name) => {
                if !table.contains_key(name) {
                    LineMeaning::Error(AsmErrorView::UnknownOpcode(name))
                } else if given != table[name].operands {
                    LineMeaning::Error(
                        AsmErrorView::OperandCountMismatch(
                            line,
                            name,
                            table[name].operands as nat,
                            given,
                        ),
                    )
                } else {
                    LineMeaning::Instruction(
                        InstructionView { opcode: name, operands: tokens.skip(1) },
                    )
                }
            },
            TokenView::Variable(name) => {
                if given != 2 {
                    LineMeaning::Error(
                        AsmErrorView::OperandCountMismatch(line, "<declaration>"@, 2, given),
                    )
                } else {
                    match tokens[2] {
                        TokenView::Number(number) => LineMeaning::Declaration(
                            name,
                            narrowed(number),
                        ),
                        _ => LineMeaning::Error(AsmErrorView::UnexpectedOperand(line)),
                    }
                }
            },
            _ => LineMeaning::Error(AsmErrorView::UnexpectedToken(line)),
        }
    }
}

/// What the lines of a file mean together: the instructions in order and the
/// declarations, a later one replacing an earlier one of the same name; or
/// the error of the first line that has one.
pub open spec fn parsed(lines: Seq<Seq<TokenView>>, table: Map<Seq<char>, Opcode>) -> Result<
    Program,
    AsmErrorView,
>
    decreases lines.len(),
{
    if lines.len() == 0 {
        Ok(Program { instructions: Seq::empty(), variables: Map::empty() })
    } else {
        match parsed(lines.drop_last(), table) {
            Err(error) => Err(error),
            Ok(program) => match line_meaning(lines.last(), lines.len(), table) {
                LineMeaning::Blank => Ok(program),
                LineMeaning::Instruction(instruction) => Ok(
                    Program {
                        instructions: program.instructions.push(instruction),
                        variables: program.variables,
                    },
                ),
                LineMeaning::Declaration(name, value) => Ok(
                    Program {
                        instructions: program.instructions,
                        variables: program.variables.insert(name, value),
                    },
                ),
                LineMeaning::Error(error) => Err(error),
            },
        }
    }
}

/// The mathematical value of what [`parser`] found in a file.
pub open spec fn program_of(found: &ParserResult) -> Program {
    Program { instructions: found.0.deep_view(), variables: found.1@ }
}

/// The mathematical value of what [`parser`] returns.
pub open spec fn outcome(result: Result<ParserResult, AsmError>) -> Result<Program, AsmErrorView> {
    match result {
        Ok(found) => Ok(program_of(&found)),
        Err(error) => Err(error@),
    }
}

/// Once a line has an error, more lines do not change it.
proof fn lemma_error_stays(lines: Seq<Seq<TokenView>>, table: Map<Seq<char>, Opcode>, n: int)
    requires
        0 <= n <= lines.len(),
        parsed(lines.take(n), table) is Err,
    ensures
        parsed(lines, table) == parsed(lines.take(n), table),
    decreases lines.len(),
{
    if n == lines.len() {
        assert(lines.take(n) =~= lines);
    } else {
        assert(lines.drop_last().take(n) =~= lines.take(n));
        lemma_error_stays(lines.drop_last(), table, n);
    }
}

/// One line, parsed.
enum Line {
    Blank,
    Instruction(Instruction),
    Declaration(String, u8),
    Error(AsmError),
}

impl Line {
    spec fn meaning(&self) -> LineMeaning {
        match *self {
            Line::Blank => LineMeaning::Blank,
            Line::Instruction(instruction) => LineMeaning::Instruction(instruction@),
            Line::Declaration(name, value) => LineMeaning::Declaration(name@, value),
            Line::Error(error) => LineMeaning::Error(error@),
        }
    }
}

/// Narrows a number to 8 bits.
fn narrow(number: isize) -> (byte: u8)
    ensures
        byte == narrowed(number),
{
    if number >= 0 {
        (number % 256) as u8
    } else {
        let below: isize = -(number + 1);
        (255 - below % 256) as u8
    }
}

/// Copies the tokens of a line but the first.
fn operands_of(tokens: &Vec<Token>) -> (operands: Vec<Token>)
    requires
        tokens.len() > 0,
    ensures
        operands.deep_view() == tokens.deep_view().skip(1),
{
    let mut operands: Vec<Token> = Vec::new();
    let mut i: usize = 1;
    while i < tokens.len()
        invariant
            1 <= i <= tokens.len(),
            operands.deep_view() == tokens.deep_view().subrange(1, i as int),
        decreases tokens.len() - i,
    {
        let ghost copied = operands.deep_view();
        let token = tokens[i].clone();
        operands.push(token);
        assert(operands.deep_view() =~= copied.push(token@));
        i = i + 1;
    }
    operands
}

/// Parses the tokens of line number `line`.
fn parse_line(tokens: &Vec<Token>, line: usize, opcode_def: &OpcodeTable) -> (parsed: Line)
    ensures
        parsed.meaning() == line_meaning(tokens.deep_view(), line as nat, opcode_def@),
{
    if tokens.len() == 0 {
        return Line::Blank;
    }
    let given: usize = tokens.len() - 1;
    match &tokens[0] {
        Token::Opcode(opcode) => {
            match opcode_def.get(opcode.as_str()) {
                None => Line::Error(AsmError::UnknownOpcode(opcode.clone())),
                Some(info) => {
                    if given != info.operands {
                        Line::Error(
                            AsmError::OperandCountMismatch(
                                line,
                                opcode.clone(),
                                info.operands,
                                given,
                            ),
                        )
                    } else {
                        Line::Instruction(
                            Instruction { opcode: opcode.clone(), operands: operands_of(tokens) },
                        )
                    }
                },
            }
        },
        Token::Variable(name) => {
            if given != 2 {
                Line::Error(
                    AsmError::OperandCountMismatch(
                        line,
                        String::from_str("<declaration>"),
                        2,
                        given,
                    ),
                )
            } else {
                match &tokens[2] {
                    Token::Number(number) => Line::Declaration(name.clone(), narrow(*number)),
                    _ => Line::Error(AsmError::UnexpectedOperand(line)),
                }
            }
        },
        _ => Line::Error(AsmError::UnexpectedToken(line)),
    }
}

/// Parses the lines of a file, numbered from 1. Lines without tokens are
/// skipped. The result holds the instructions in source order and the
/// declared values, or the error of the first line that has one.
pub fn parser(input: Vec<Vec<Token>>, opcode_def: &OpcodeTable) -> (result: Result<
    ParserResult,
    AsmError,
>)
    ensures
        outcome(result) == parsed(input.deep_view(), opcode_def@),
{
    let mut instructions: Vec<Instruction> = Vec::new();
    let mut variables = Variables::new();
    let mut i: usize = 0;
    while i < input.len()
        invariant
            i <= input.len(),
            parsed(input.deep_view().take(i as int), opcode_def@) matches Ok(program)
                && program.instructions == instructions.deep_view() && program.variables
                == variables@,
        decreases input.len() - i,
    {
        let ghost lines = input.deep_view();
        let ghost made = instructions.deep_view();
        assert(lines.take(i + 1).drop_last() =~= lines.take(i as int));
        match parse_line(&input[i], i + 1, opcode_def) {
            Line::Blank => {},
            Line::Instruction(instruction) => {
                instructions.push(instruction);
                assert(instructions.deep_view() =~= made.push(instruction@));
            },
            Line::Declaration(name, value) => {
                variables.insert(name, value);
            },
            Line::Error(error) => {
                proof {
                    lemma_error_stays(lines, opcode_def@, i + 1);
                }
                return Err(error);
            },
        }
        i = i + 1;
    }
    assert(input.deep_view().take(i as int) =~= input.deep_view());
    Ok((instructions, variables))
}

} // verus!
