use sapxc::error::AsmError;
use sapxc::opcode::{Opcode, OpcodeTable};
use sapxc::parser::{lexer, parser, Instruction, Token};

fn parser_table() -> OpcodeTable {
    let mut table = OpcodeTable::new();
    table.insert("NOP", Opcode { binary: 0b0000, operands: 0 });
    table.insert("LDA", Opcode { binary: 0b0001, operands: 1 });
    table.insert("ADD", Opcode { binary: 0b0010, operands: 1 });
    table.insert("MOV", Opcode { binary: 0b0011, operands: 2 });
    table
}

fn parse(source: &str) -> Result<(Vec<Instruction>, Vec<(String, Option<u8>)>), AsmError> {
    let table = parser_table();
    let (instructions, variables) = parser(lexer(source, &table), &table)?;
    let names = ["A", "B", "X", "Y"];
    let values = names.iter().map(|name| (name.to_string(), variables.get(name))).collect();
    Ok((instructions, values))
}

fn value_of(source: &str, name: &str) -> Option<u8> {
    let table = parser_table();
    parser(lexer(source, &table), &table).unwrap().1.get(name)
}

#[test]
fn instructions_come_in_source_order() {
    let (instructions, _) = parse("LDA A\nNOP\nADD 3\nMOV A 7").unwrap();
    assert_eq!(
        instructions,
        vec![
            Instruction {
                opcode: "LDA".to_string(),
                operands: vec![Token::Operand("A".to_string())]
            },
            Instruction { opcode: "NOP".to_string(), operands: vec![] },
            Instruction { opcode: "ADD".to_string(), operands: vec![Token::Number(3)] },
            Instruction {
                opcode: "MOV".to_string(),
                operands: vec![Token::Operand("A".to_string()), Token::Number(7)]
            },
        ]
    );
}

#[test]
fn declarations_bind_names_to_values() {
    assert_eq!(value_of("A = 5\nB = 7", "A"), Some(5));
    assert_eq!(value_of("A = 5\nB = 7", "B"), Some(7));
    assert_eq!(value_of("A = 5\nB = 7", "X"), None);
}

#[test]
fn declaration_separator_is_not_read() {
    assert_eq!(value_of("A = 5", "A"), Some(5));
    assert_eq!(value_of("A is 6", "A"), Some(6));
    assert_eq!(value_of("A 0 7", "A"), Some(7));
    assert_eq!(value_of("A LDA 8", "A"), Some(8));
}

#[test]
fn declared_values_are_narrowed_to_a_byte() {
    assert_eq!(value_of("A = 255", "A"), Some(255));
    assert_eq!(value_of("A = 256", "A"), Some(0));
    assert_eq!(value_of("A = 300", "A"), Some(44));
    assert_eq!(value_of("A = -1", "A"), Some(255));
    assert_eq!(value_of("A = -256", "A"), Some(0));
    assert_eq!(value_of("A = -300", "A"), Some(212));
    let text = format!("A = {}\nB = {}", isize::MAX, isize::MIN);
    assert_eq!(value_of(&text, "A"), Some(255));
    assert_eq!(value_of(&text, "B"), Some(0));
}

#[test]
fn later_declaration_replaces_earlier_one() {
    assert_eq!(value_of("X = 5\nX = 9", "X"), Some(9));
    assert_eq!(value_of("X = 5\nLDA X\nX = 9\nY = 1", "X"), Some(9));
    assert_eq!(value_of("X = 9\nX = 5", "X"), Some(5));
}

#[test]
fn lines_without_tokens_are_skipped() {
    let (instructions, values) = parse("\n\nNOP\n   \n\nA = 1\n").unwrap();
    assert_eq!(instructions.len(), 1);
    assert_eq!(values[0], ("A".to_string(), Some(1)));
}

#[test]
fn empty_input_parses_to_nothing() {
    let table = parser_table();
    let (instructions, variables) = parser(vec![], &table).unwrap();
    assert_eq!(instructions, vec![]);
    assert_eq!(variables.get("A"), None);
}

#[test]
fn too_few_operands_is_a_count_mismatch() {
    assert_eq!(parse("ADD"), Err(AsmError::OperandCountMismatch(1, "ADD".to_string(), 1, 0)));
    assert_eq!(parse("MOV 1"), Err(AsmError::OperandCountMismatch(1, "MOV".to_string(), 2, 1)));
}

#[test]
fn too_many_operands_is_a_count_mismatch() {
    assert_eq!(parse("NOP 1"), Err(AsmError::OperandCountMismatch(1, "NOP".to_string(), 0, 1)));
    assert_eq!(
        parse("LDA A B C"),
        Err(AsmError::OperandCountMismatch(1, "LDA".to_string(), 1, 3))
    );
}

#[test]
fn declaration_needs_two_more_tokens() {
    let name = "<declaration>".to_string();
    assert_eq!(parse("A"), Err(AsmError::OperandCountMismatch(1, name.clone(), 2, 0)));
    assert_eq!(parse("A 5"), Err(AsmError::OperandCountMismatch(1, name.clone(), 2, 1)));
    assert_eq!(parse("A = 5 6"), Err(AsmError::OperandCountMismatch(1, name.clone(), 2, 3)));
    assert_eq!(parse("LDA A\nA 5"), Err(AsmError::OperandCountMismatch(2, name, 2, 1)));
}

#[test]
fn declared_value_must_be_a_number() {
    assert_eq!(parse("A = B"), Err(AsmError::UnexpectedOperand(1)));
    assert_eq!(parse("NOP\nA = 5x"), Err(AsmError::UnexpectedOperand(2)));
    assert_eq!(parse("A 5 ="), Err(AsmError::UnexpectedOperand(1)));
}

#[test]
fn a_line_must_start_with_opcode_or_variable() {
    let table = parser_table();
    assert_eq!(
        parser(vec![vec![Token::Number(5)]], &table).err(),
        Some(AsmError::UnexpectedToken(1))
    );
    assert_eq!(
        parser(vec![vec![], vec![Token::Operand("A".to_string()), Token::Number(1)]], &table)
            .err(),
        Some(AsmError::UnexpectedToken(2))
    );
}

#[test]
fn opcode_token_must_be_in_the_table() {
    let table = parser_table();
    assert_eq!(
        parser(vec![vec![Token::Opcode("JMP".to_string()), Token::Number(1)]], &table).err(),
        Some(AsmError::UnknownOpcode("JMP".to_string()))
    );
    let wider = {
        let mut table = parser_table();
        table.insert("JMP", Opcode { binary: 9, operands: 1 });
        table
    };
    assert_eq!(
        parser(lexer("JMP 1", &wider), &table).err(),
        Some(AsmError::UnknownOpcode("JMP".to_string()))
    );
}

#[test]
fn error_lines_count_from_one_with_blank_lines() {
    assert_eq!(
        parse("NOP\n\nADD"),
        Err(AsmError::OperandCountMismatch(3, "ADD".to_string(), 1, 0))
    );
    assert_eq!(parse("\n\n\n\nA = B"), Err(AsmError::UnexpectedOperand(5)));
}

#[test]
fn first_error_is_reported() {
    assert_eq!(
        parse("NOP\nADD\nA 5\nA = B"),
        Err(AsmError::OperandCountMismatch(2, "ADD".to_string(), 1, 0))
    );
    assert_eq!(parse("A = B\nADD"), Err(AsmError::UnexpectedOperand(1)));
}

#[test]
fn operands_are_the_tokens_after_the_opcode() {
    let table = parser_table();
    let tokens = vec![vec![
        Token::Opcode("MOV".to_string()),
        Token::Number(-1),
        Token::Operand("A".to_string()),
    ]];
    let (instructions, _) = parser(tokens, &table).unwrap();
    assert_eq!(
        instructions,
        vec![Instruction {
            opcode: "MOV".to_string(),
            operands: vec![Token::Number(-1), Token::Operand("A".to_string())]
        }]
    );
}
