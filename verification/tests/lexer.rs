use sapxc::opcode::{Opcode, OpcodeTable};
use sapxc::parser::{lexer, Token};

fn lexer_table() -> OpcodeTable {
    let mut table = OpcodeTable::new();
    table.insert("NOP", Opcode { binary: 0b0000, operands: 0 });
    table.insert("LDA", Opcode { binary: 0b0001, operands: 1 });
    table.insert("ADD", Opcode { binary: 0b0010, operands: 1 });
    table
}

fn opcode(name: &str) -> Token {
    Token::Opcode(name.to_string())
}

fn variable(name: &str) -> Token {
    Token::Variable(name.to_string())
}

fn operand(name: &str) -> Token {
    Token::Operand(name.to_string())
}

#[test]
fn first_word_is_opcode_or_variable() {
    let table = lexer_table();
    assert_eq!(lexer("LDA", &table), vec![vec![opcode("LDA")]]);
    assert_eq!(lexer("lda", &table), vec![vec![variable("lda")]]);
    assert_eq!(lexer("A", &table), vec![vec![variable("A")]]);
    assert_eq!(lexer("5", &table), vec![vec![variable("5")]]);
}

#[test]
fn later_words_are_numbers_or_operands() {
    let table = lexer_table();
    assert_eq!(
        lexer("LDA A 5 -3 +7 x9 LDA", &table),
        vec![vec![
            opcode("LDA"),
            operand("A"),
            Token::Number(5),
            Token::Number(-3),
            Token::Number(7),
            operand("x9"),
            operand("LDA"),
        ]]
    );
}

#[test]
fn a_literal_too_large_is_an_operand() {
    let table = lexer_table();
    assert_eq!(
        lexer("LDA 99999999999999999999999999", &table),
        vec![vec![opcode("LDA"), operand("99999999999999999999999999")]]
    );
}

#[test]
fn one_token_list_for_each_line() {
    let table = lexer_table();
    assert_eq!(
        lexer("LDA A\nA = 5\nNOP\n", &table),
        vec![
            vec![opcode("LDA"), operand("A")],
            vec![variable("A"), operand("="), Token::Number(5)],
            vec![opcode("NOP")],
        ]
    );
}

#[test]
fn blank_lines_have_no_tokens() {
    let table = lexer_table();
    assert_eq!(
        lexer("NOP\n\n   \nNOP", &table),
        vec![vec![opcode("NOP")], vec![], vec![], vec![opcode("NOP")]]
    );
    assert_eq!(lexer("\n", &table), vec![Vec::<Token>::new()]);
    assert_eq!(lexer("  \t ", &table), vec![Vec::<Token>::new()]);
}

#[test]
fn empty_text_has_no_token_lists() {
    let table = lexer_table();
    assert_eq!(lexer("", &table), Vec::<Vec<Token>>::new());
}

#[test]
fn any_white_space_separates_words() {
    let table = lexer_table();
    let expected = vec![vec![opcode("LDA"), operand("A")], vec![opcode("ADD"), Token::Number(1)]];
    assert_eq!(lexer("LDA A\nADD 1", &table), expected);
    assert_eq!(lexer("  LDA \t  A  \r\n\tADD\u{a0}1 \r\n", &table), expected);
    assert_eq!(lexer("LDA\u{3000}A\nADD\u{2003}1", &table), expected);
    assert_eq!(lexer("LDA\u{b}A\u{c}\nADD\r1", &table), expected);
}

#[test]
fn words_keep_their_characters() {
    let table = lexer_table();
    assert_eq!(
        lexer("caf\u{e9} \u{3b1}\u{3b2} x\u{200b}y", &table),
        vec![vec![variable("caf\u{e9}"), operand("\u{3b1}\u{3b2}"), operand("x\u{200b}y")]]
    );
}

#[test]
fn words_agree_with_std() {
    let table = lexer_table();
    let texts = [
        "LDA A\nA = 5",
        "  leading and trailing  \n\n\tmixed \u{2009} kinds\u{3000}of\u{a0}space \r\n",
        "one",
        "a\u{85}b\u{1680}c\u{2028}d\u{2029}e\u{202f}f\u{205f}g",
        "x 1 22 -333 +4444 five",
        "\r\n\r\n",
    ];
    for text in texts {
        let ours: Vec<Vec<String>> = lexer(text, &table)
            .iter()
            .map(|line| {
                line.iter()
                    .map(|token| match token {
                        Token::Opcode(word) | Token::Variable(word) | Token::Operand(word) => {
                            word.clone()
                        }
                        Token::Number(number) => number.to_string(),
                    })
                    .collect()
            })
            .collect();
        let theirs: Vec<Vec<String>> = text
            .lines()
            .map(|line| {
                line.split_whitespace()
                    .map(|word| match word.parse::<isize>() {
                        Ok(number) => number.to_string(),
                        Err(_) => word.to_string(),
                    })
                    .collect()
            })
            .collect();
        assert_eq!(ours, theirs, "{:?}", text);
    }
}

#[test]
fn lexer_reads_the_table_only_for_the_first_word() {
    let mut table = OpcodeTable::new();
    table.insert("7", Opcode { binary: 7, operands: 1 });
    assert_eq!(lexer("7 7", &table), vec![vec![opcode("7"), Token::Number(7)]]);
}

#[test]
fn cloned_token_equals_the_token() {
    let tokens = vec![opcode("LDA"), variable("A"), operand("x"), Token::Number(-4)];
    for token in &tokens {
        assert_eq!(&token.clone(), token);
    }
}
