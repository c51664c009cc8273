use git_ferro::config_deserializer::lexer::{CharPosition, Token, TokenType, TomlValue};
use git_ferro::config_deserializer::parser::{ParseError, Parser, Table, Value};
use git_ferro::config_deserializer::scanner_logic::scanner::Scanner;

fn at(line: usize, column: usize) -> CharPosition {
    CharPosition { line, column }
}

fn token(token_type: TokenType, lexeme: &str, line: usize, column: usize) -> Token {
    Token { token_type, lexeme: lexeme.to_string(), literal: None, line_position: at(line, column) }
}

fn text(value: &str) -> Value {
    Value::String(value.to_string())
}

fn parse_text(source: &str) -> Result<Table, ParseError> {
    Parser::run(Scanner::deserialize(source).unwrap())
}

fn section<'a>(table: &'a Table, name: &str) -> &'a Vec<Table> {
    match table.get(name) {
        Some(Value::Array(tables)) => tables,
        other => panic!("no section {}: {:?}", name, other),
    }
}

#[test]
fn no_tokens_give_an_empty_table() {
    let table = Parser::run(Vec::new()).unwrap();
    assert!(table.is_empty());
    assert_eq!(table.len(), 0);
}

#[test]
fn comments_and_whitespace_give_an_empty_table() {
    for source in ["", "   \n\t\n", "# only a comment", "\n# one\n  # two = \"x\"\n\n#", " \t # [[x]]\n"] {
        let table = parse_text(source).unwrap();
        assert!(table.is_empty(), "{:?}", source);
        assert_eq!(table, Table::new());
    }
}

#[test]
fn single_pair_gives_a_single_key() {
    let table = parse_text("name = \"value\"").unwrap();
    assert_eq!(table.len(), 1);
    assert_eq!(table.get("name"), Some(&text("value")));
    assert_eq!(table.get("value"), None);
}

#[test]
fn pairs_before_any_header_go_to_the_root() {
    let table = parse_text("a = \"1\"\nb = \"2\"\n# note\nc = \"3\"").unwrap();
    assert_eq!(table.len(), 3);
    assert_eq!(table.get("a"), Some(&text("1")));
    assert_eq!(table.get("b"), Some(&text("2")));
    assert_eq!(table.get("c"), Some(&text("3")));
}

#[test]
fn last_write_to_a_key_wins() {
    let table = parse_text("a = \"1\"\nb = \"2\"\na = \"3\"").unwrap();
    assert_eq!(table.len(), 2);
    assert_eq!(table.get("a"), Some(&text("3")));
    assert_eq!(table.get("b"), Some(&text("2")));
}

#[test]
fn two_credentials_give_two_entries_in_order() {
    let source = "[[credential]]\nusername = \"a\"\nhost = \"h\"\n[[credential]]\nusername = \"b\"\nhost = \"h2\"";
    let table = parse_text(source).unwrap();
    assert_eq!(table.len(), 1);
    let entries = section(&table, "credential");
    assert_eq!(entries.len(), 2);
    assert_eq!(entries[0].len(), 2);
    assert_eq!(entries[0].get("username"), Some(&text("a")));
    assert_eq!(entries[0].get("host"), Some(&text("h")));
    assert_eq!(entries[1].len(), 2);
    assert_eq!(entries[1].get("username"), Some(&text("b")));
    assert_eq!(entries[1].get("host"), Some(&text("h2")));
}

#[test]
fn entries_do_not_share_keys() {
    let source = "[[credential]]\nusername = \"a\"\ntoken = \"t\"\n[[credential]]\nhost = \"h2\"";
    let table = parse_text(source).unwrap();
    let entries = section(&table, "credential");
    assert_eq!(entries[0].get("host"), None);
    assert_eq!(entries[1].get("username"), None);
    assert_eq!(entries[1].get("token"), None);
    assert_eq!(entries[1].len(), 1);
}

#[test]
fn each_header_appends_one_entry() {
    for count in 1..6 {
        let source = "[[s]]\n".repeat(count);
        let table = parse_text(&source).unwrap();
        let entries = section(&table, "s");
        assert_eq!(entries.len(), count);
        assert!(entries.iter().all(|entry| entry.is_empty()));
    }
}

#[test]
fn headers_of_other_sections_do_not_count() {
    let table = parse_text("[[a]]\n[[b]]\n[[a]]\n[[c]]\n[[a]]").unwrap();
    assert_eq!(table.len(), 3);
    assert_eq!(section(&table, "a").len(), 3);
    assert_eq!(section(&table, "b").len(), 1);
    assert_eq!(section(&table, "c").len(), 1);
}

#[test]
fn pair_after_a_header_goes_to_the_newest_entry() {
    let source = "top = \"r\"\n[[s]]\nk = \"1\"\n[[s]]\nk = \"2\"\nj = \"3\"";
    let table = parse_text(source).unwrap();
    assert_eq!(table.len(), 2);
    assert_eq!(table.get("top"), Some(&text("r")));
    assert_eq!(table.get("k"), None);
    assert_eq!(table.get("j"), None);
    let entries = section(&table, "s");
    assert_eq!(entries[0].get("k"), Some(&text("1")));
    assert_eq!(entries[0].get("j"), None);
    assert_eq!(entries[1].get("k"), Some(&text("2")));
    assert_eq!(entries[1].get("j"), Some(&text("3")));
}

#[test]
fn pair_goes_to_the_section_opened_last() {
    let table = parse_text("[[a]]\n[[b]]\n[[a]]\nk = \"v\"\n").unwrap();
    assert_eq!(section(&table, "a")[0].len(), 0);
    assert_eq!(section(&table, "a")[1].get("k"), Some(&text("v")));
    assert_eq!(section(&table, "b")[0].len(), 0);
}

#[test]
fn pair_named_like_its_section_stays_inside_it() {
    let table = parse_text("[[s]]\ns = \"v\"").unwrap();
    assert_eq!(table.len(), 1);
    assert_eq!(section(&table, "s")[0].get("s"), Some(&text("v")));
}

#[test]
fn last_write_wins_inside_an_entry() {
    let table = parse_text("[[s]]\nk = \"1\"\nk = \"2\"").unwrap();
    let entries = section(&table, "s");
    assert_eq!(entries[0].len(), 1);
    assert_eq!(entries[0].get("k"), Some(&text("2")));
}

#[test]
fn comments_between_productions_are_skipped() {
    let table = parse_text("# a\n[[s]] # b\n# c\nk = \"v\" # d\n").unwrap();
    assert_eq!(section(&table, "s")[0].get("k"), Some(&text("v")));
}

#[test]
fn unexpected_token_at_top_level() {
    assert_eq!(
        parse_text("= \"v\""),
        Err(ParseError::UnexpectedToken { found: TokenType::EqualsSign, position: at(1, 2) })
    );
    assert_eq!(
        parse_text("a = \"v\"\n \"w\""),
        Err(ParseError::UnexpectedToken { found: TokenType::StringBasic, position: at(2, 1) })
    );
    assert_eq!(
        parse_text("[table]"),
        Err(ParseError::UnexpectedToken { found: TokenType::BracketOpened, position: at(1, 2) })
    );
    assert_eq!(
        parse_text("]]"),
        Err(ParseError::UnexpectedToken {
            found: TokenType::DoubleBracketsClosed,
            position: at(1, 2)
        })
    );
}

#[test]
fn header_without_a_name() {
    assert_eq!(
        parse_text("[[]]"),
        Err(ParseError::ExpectedToken {
            expected: TokenType::Identifier,
            found: TokenType::DoubleBracketsClosed,
            position: at(1, 4),
        })
    );
}

#[test]
fn header_with_a_string_for_a_name() {
    assert_eq!(
        parse_text("[[\"s\"]]"),
        Err(ParseError::ExpectedToken {
            expected: TokenType::Identifier,
            found: TokenType::StringBasic,
            position: at(1, 4),
        })
    );
}

#[test]
fn header_without_its_closing_brackets() {
    assert_eq!(
        parse_text("[[s]\nk = \"v\""),
        Err(ParseError::ExpectedToken {
            expected: TokenType::DoubleBracketsClosed,
            found: TokenType::BracketClosed,
            position: at(1, 5),
        })
    );
    assert_eq!(
        parse_text("[[s k"),
        Err(ParseError::ExpectedToken {
            expected: TokenType::DoubleBracketsClosed,
            found: TokenType::Identifier,
            position: at(1, 6),
        })
    );
}

#[test]
fn header_cut_short_by_the_end() {
    assert_eq!(
        parse_text("a = \"v\"\n[["),
        Err(ParseError::UnexpectedEndOfInput { position: at(2, 0) })
    );
    assert_eq!(parse_text("[[s"), Err(ParseError::UnexpectedEndOfInput { position: at(1, 4) }));
}

#[test]
fn header_for_a_name_that_holds_a_string() {
    assert_eq!(
        parse_text("s = \"v\"\n[[s]]"),
        Err(ParseError::ExpectedArrayOfTables { position: at(2, 2) })
    );
}

#[test]
fn key_without_an_equals_sign() {
    assert_eq!(
        parse_text("a \"v\""),
        Err(ParseError::ExpectedToken {
            expected: TokenType::EqualsSign,
            found: TokenType::StringBasic,
            position: at(1, 4),
        })
    );
    assert_eq!(
        parse_text("a b"),
        Err(ParseError::ExpectedToken {
            expected: TokenType::EqualsSign,
            found: TokenType::Identifier,
            position: at(1, 4),
        })
    );
}

#[test]
fn pair_without_a_string_value() {
    assert_eq!(
        parse_text("a = b"),
        Err(ParseError::ExpectedValue { found: TokenType::Identifier, position: at(1, 6) })
    );
    assert_eq!(
        parse_text("a = [[s]]"),
        Err(ParseError::ExpectedValue {
            found: TokenType::DoubleBracketsOpened,
            position: at(1, 6)
        })
    );
    assert_eq!(
        parse_text("a = # c"),
        Err(ParseError::ExpectedValue { found: TokenType::Comment, position: at(1, 6) })
    );
}

#[test]
fn pair_cut_short_by_the_end() {
    assert_eq!(parse_text("a"), Err(ParseError::UnexpectedEndOfInput { position: at(1, 2) }));
    assert_eq!(parse_text("a ="), Err(ParseError::UnexpectedEndOfInput { position: at(1, 4) }));
}

#[test]
fn string_token_without_a_literal() {
    let tokens = vec![
        token(TokenType::Identifier, "a", 1, 3),
        token(TokenType::EqualsSign, "=", 1, 5),
        token(TokenType::StringBasic, "\"v\"", 1, 7),
    ];
    assert_eq!(Parser::run(tokens), Err(ParseError::MissingLiteral { position: at(1, 7) }));
}

#[test]
fn value_is_the_literal_and_not_the_lexeme() {
    let tokens = vec![
        token(TokenType::Identifier, "a", 1, 3),
        token(TokenType::EqualsSign, "=", 1, 5),
        Token {
            token_type: TokenType::StringBasic,
            lexeme: "\"seen\"".to_string(),
            literal: Some(TomlValue::String("stored".to_string())),
            line_position: at(1, 7),
        },
    ];
    let table = Parser::run(tokens).unwrap();
    assert_eq!(table.get("a"), Some(&text("stored")));
}

#[test]
fn literal_on_another_kind_of_token_is_ignored() {
    let tokens = vec![Token {
        token_type: TokenType::Comment,
        lexeme: "#".to_string(),
        literal: Some(TomlValue::String("x".to_string())),
        line_position: at(1, 3),
    }];
    assert!(Parser::run(tokens).unwrap().is_empty());
}

#[test]
fn error_after_good_productions_gives_no_table() {
    assert_eq!(
        parse_text("a = \"1\"\n[[s]]\nk = \"2\"\n]"),
        Err(ParseError::UnexpectedToken { found: TokenType::BracketClosed, position: at(4, 0) })
    );
}

#[test]
fn first_error_ends_the_parse() {
    assert_eq!(
        parse_text("a b\n[[]]"),
        Err(ParseError::ExpectedToken {
            expected: TokenType::EqualsSign,
            found: TokenType::Identifier,
            position: at(1, 4),
        })
    );
}

#[test]
fn parsing_twice_gives_equal_tables() {
    let source = "default_username = \"a\"\n[[credential]]\nusername = \"a\"\nhost = \"h\"\n[[credential]]\nusername = \"b\"\n";
    let first = parse_text(source).unwrap();
    let second = parse_text(source).unwrap();
    assert_eq!(first, second);
    assert_eq!(parse_text("[[s]"), parse_text("[[s]"));
}
