use git_ferro::config_deserializer::lexer::{CharPosition, LexError, Token, TokenType, TomlValue};
use git_ferro::config_deserializer::scanner_logic::scanner::Scanner;

fn at(line: usize, column: usize) -> CharPosition {
    CharPosition { line, column }
}

fn plain(token_type: TokenType, lexeme: &str, line: usize, column: usize) -> Token {
    Token { token_type, lexeme: lexeme.to_string(), literal: None, line_position: at(line, column) }
}

fn string(lexeme: &str, literal: &str, line: usize, column: usize) -> Token {
    Token {
        token_type: TokenType::StringBasic,
        lexeme: lexeme.to_string(),
        literal: Some(TomlValue::String(literal.to_string())),
        line_position: at(line, column),
    }
}

fn kinds(text: &str) -> Vec<TokenType> {
    Scanner::deserialize(text).unwrap().iter().map(|token| token.token_type).collect()
}

#[test]
fn empty_text_has_no_tokens() {
    assert_eq!(Scanner::deserialize(""), Ok(vec![]));
}

#[test]
fn separators_give_no_tokens() {
    assert_eq!(Scanner::deserialize(" ,\t\n , \n"), Ok(vec![]));
}

#[test]
fn key_value_line_gives_three_tokens() {
    let tokens = Scanner::deserialize("name = \"value\"").unwrap();
    assert_eq!(
        tokens,
        vec![
            plain(TokenType::Identifier, "name", 1, 2),
            plain(TokenType::EqualsSign, "=", 1, 7),
            string("\"value\"", "value", 1, 9),
        ]
    );
}

#[test]
fn column_restarts_after_each_newline() {
    let tokens = Scanner::deserialize("a\nb\n\n  c").unwrap();
    assert_eq!(
        tokens,
        vec![
            plain(TokenType::Identifier, "a", 1, 2),
            plain(TokenType::Identifier, "b", 2, 0),
            plain(TokenType::Identifier, "c", 4, 2),
        ]
    );
}

#[test]
fn comment_runs_to_the_end_of_its_line() {
    let tokens = Scanner::deserialize("# first = \"x\" [[\nkey").unwrap();
    assert_eq!(
        tokens,
        vec![
            plain(TokenType::Comment, "# first = \"x\" [[", 1, 2),
            plain(TokenType::Identifier, "key", 2, 0),
        ]
    );
}

#[test]
fn comment_at_the_end_of_the_text() {
    let tokens = Scanner::deserialize("x #tail").unwrap();
    assert_eq!(
        tokens,
        vec![plain(TokenType::Identifier, "x", 1, 2), plain(TokenType::Comment, "#tail", 1, 4)]
    );
}

#[test]
fn lone_comment_marker_is_a_comment() {
    assert_eq!(Scanner::deserialize("#"), Ok(vec![plain(TokenType::Comment, "#", 1, 2)]));
}

#[test]
fn brackets_pair_up_from_the_left() {
    let tokens = Scanner::deserialize("[[[]]]").unwrap();
    assert_eq!(
        tokens,
        vec![
            plain(TokenType::DoubleBracketsOpened, "[[", 1, 2),
            plain(TokenType::BracketOpened, "[", 1, 4),
            plain(TokenType::DoubleBracketsClosed, "]]", 1, 5),
            plain(TokenType::BracketClosed, "]", 1, 7),
        ]
    );
}

#[test]
fn brackets_apart_stay_single() {
    assert_eq!(
        kinds("[ [ ] ]"),
        vec![
            TokenType::BracketOpened,
            TokenType::BracketOpened,
            TokenType::BracketClosed,
            TokenType::BracketClosed,
        ]
    );
}

#[test]
fn header_line_gives_three_tokens() {
    let tokens = Scanner::deserialize("[[credential]]").unwrap();
    assert_eq!(
        tokens,
        vec![
            plain(TokenType::DoubleBracketsOpened, "[[", 1, 2),
            plain(TokenType::Identifier, "credential", 1, 4),
            plain(TokenType::DoubleBracketsClosed, "]]", 1, 14),
        ]
    );
}

#[test]
fn identifier_takes_letters_digits_and_underscores() {
    let tokens = Scanner::deserialize("_a1_B2=").unwrap();
    assert_eq!(
        tokens,
        vec![plain(TokenType::Identifier, "_a1_B2", 1, 2), plain(TokenType::EqualsSign, "=", 1, 8)]
    );
}

#[test]
fn identifier_stops_at_the_first_other_character() {
    let tokens = Scanner::deserialize("ab,cd").unwrap();
    assert_eq!(
        tokens,
        vec![plain(TokenType::Identifier, "ab", 1, 2), plain(TokenType::Identifier, "cd", 1, 5)]
    );
}

#[test]
fn empty_string_has_an_empty_literal() {
    assert_eq!(Scanner::deserialize("\"\""), Ok(vec![string("\"\"", "", 1, 2)]));
}

#[test]
fn string_keeps_every_character_up_to_the_next_quote() {
    let tokens = Scanner::deserialize("\"a # [[ = , \t]] b\"").unwrap();
    assert_eq!(tokens, vec![string("\"a # [[ = , \t]] b\"", "a # [[ = , \t]] b", 1, 2)]);
}

#[test]
fn backslash_does_not_escape_a_quote() {
    let tokens = Scanner::deserialize("\"a\\\"b").unwrap();
    assert_eq!(
        tokens,
        vec![string("\"a\\\"", "a\\", 1, 2), plain(TokenType::Identifier, "b", 1, 6)]
    );
}

#[test]
fn string_may_span_lines() {
    let tokens = Scanner::deserialize("\"a\nbc\" d").unwrap();
    assert_eq!(
        tokens,
        vec![string("\"a\nbc\"", "a\nbc", 1, 2), plain(TokenType::Identifier, "d", 2, 4)]
    );
}

#[test]
fn string_holds_non_ascii_text() {
    let tokens = Scanner::deserialize("k = \"höst ✓\"").unwrap();
    assert_eq!(tokens[2], string("\"höst ✓\"", "höst ✓", 1, 6));
}

#[test]
fn unterminated_string_is_an_error() {
    assert_eq!(
        Scanner::deserialize("name = \"value"),
        Err(LexError::UnterminatedString { position: at(1, 9) })
    );
}

#[test]
fn unterminated_string_on_a_later_line() {
    assert_eq!(
        Scanner::deserialize("a = \"x\"\nb = \"never\nclosed"),
        Err(LexError::UnterminatedString { position: at(2, 4) })
    );
}

#[test]
fn unexpected_character_is_an_error() {
    assert_eq!(
        Scanner::deserialize("name = 5"),
        Err(LexError::UnexpectedCharacter { character: '5', position: at(1, 9) })
    );
}

#[test]
fn unexpected_character_after_a_newline() {
    assert_eq!(
        Scanner::deserialize("a\n  !"),
        Err(LexError::UnexpectedCharacter { character: '!', position: at(2, 2) })
    );
}

#[test]
fn carriage_return_is_no_separator() {
    assert_eq!(
        Scanner::deserialize("a\r\nb"),
        Err(LexError::UnexpectedCharacter { character: '\r', position: at(1, 3) })
    );
}

#[test]
fn non_ascii_letter_starts_no_identifier() {
    assert_eq!(
        Scanner::deserialize("é"),
        Err(LexError::UnexpectedCharacter { character: 'é', position: at(1, 2) })
    );
}

#[test]
fn digit_starts_no_identifier() {
    assert_eq!(
        Scanner::deserialize("1a"),
        Err(LexError::UnexpectedCharacter { character: '1', position: at(1, 2) })
    );
}

#[test]
fn first_error_wins() {
    assert_eq!(
        Scanner::deserialize("? \"open"),
        Err(LexError::UnexpectedCharacter { character: '?', position: at(1, 2) })
    );
}

#[test]
fn lexemes_are_the_source_without_separators() {
    let text = "[[a]]\nb= \"c d\" #e\n";
    let tokens = Scanner::deserialize(text).unwrap();
    let joined: String = tokens.iter().map(|token| token.lexeme.as_str()).collect();
    assert_eq!(joined, "[[a]]b=\"c d\"#e");
}

#[test]
fn scanning_twice_gives_the_same_tokens() {
    let text = "# c\n[[s]]\nk = \"v\"\n";
    assert_eq!(Scanner::deserialize(text), Scanner::deserialize(text));
}

#[test]
fn column_start_resets_the_column_only() {
    let mut position = at(7, 9);
    position.column_start();
    assert_eq!(position, at(7, 0));
}

#[test]
fn advance_column_moves_one_to_the_right() {
    let mut position = at(7, 9);
    position.advance_column();
    assert_eq!(position, at(7, 10));
}

#[test]
fn start_new_line_moves_to_the_next_line() {
    let mut position = at(7, 9);
    position.start_new_line();
    assert_eq!(position, at(8, 0));
}

fn scanner_on(text: &str, offset: usize, line: usize, column: usize) -> Scanner {
    Scanner {
        token_stream: Vec::new(),
        source_chars: text.chars().collect(),
        offset,
        char_position: at(line, column),
    }
}

#[test]
fn add_token_takes_the_lexeme_from_the_source() {
    let mut scanner = scanner_on("abc def", 3, 1, 5);
    scanner.add_token(TokenType::Identifier, None, 1, at(4, 2));
    assert_eq!(scanner.token_stream, vec![plain(TokenType::Identifier, "bc", 4, 2)]);
    assert_eq!(scanner.offset, 3);
    assert_eq!(scanner.char_position, at(1, 5));
}

#[test]
fn add_token_with_an_empty_lexeme() {
    let mut scanner = scanner_on("abc", 2, 1, 4);
    scanner.add_token(TokenType::Comment, None, 2, at(1, 4));
    assert_eq!(scanner.token_stream, vec![plain(TokenType::Comment, "", 1, 4)]);
}

#[test]
fn scan_identifier_runs_to_the_end_of_the_key() {
    let mut scanner = scanner_on("key_1 = x", 1, 1, 3);
    scanner.scan_identifier(0);
    assert_eq!(scanner.token_stream, vec![plain(TokenType::Identifier, "key_1", 1, 2)]);
    assert_eq!(scanner.offset, 5);
    assert_eq!(scanner.char_position, at(1, 7));
}

#[test]
fn scan_identifier_at_the_end_of_the_source() {
    let mut scanner = scanner_on("k", 1, 1, 3);
    scanner.scan_identifier(0);
    assert_eq!(scanner.token_stream, vec![plain(TokenType::Identifier, "k", 1, 2)]);
    assert_eq!(scanner.offset, 1);
}

#[test]
fn scan_string_stops_past_the_closing_quote() {
    let mut scanner = scanner_on("\"ab\" c", 1, 1, 3);
    assert_eq!(scanner.scan_string(0), Ok(()));
    assert_eq!(scanner.token_stream, vec![string("\"ab\"", "ab", 1, 2)]);
    assert_eq!(scanner.offset, 4);
    assert_eq!(scanner.char_position, at(1, 6));
}

#[test]
fn scan_string_without_a_closing_quote_adds_no_token() {
    let mut scanner = scanner_on("\"ab\nc", 1, 1, 3);
    assert_eq!(scanner.scan_string(0), Err(LexError::UnterminatedString { position: at(1, 2) }));
    assert_eq!(scanner.token_stream, vec![]);
    assert_eq!(scanner.offset, 5);
    assert_eq!(scanner.char_position, at(2, 1));
}

#[test]
fn ordinary_texts_fit_the_cursor() {
    assert!(Scanner::fits(""));
    assert!(Scanner::fits("name = \"value\"\n"));
}

#[test]
fn new_scanner_stands_at_the_start() {
    let scanner = Scanner::new("a\nb");
    assert_eq!(scanner.source_chars, vec!['a', '\n', 'b']);
    assert_eq!(scanner.offset, 0);
    assert_eq!(scanner.char_position, at(1, 2));
    assert_eq!(scanner.token_stream, vec![]);
}

#[test]
fn scan_string_goes_by_the_cursor_it_is_given() {
    let mut scanner = scanner_on("\"a\nb\"", 1, 1, 1);
    assert_eq!(scanner.scan_string(0), Ok(()));
    assert_eq!(scanner.token_stream, vec![string("\"a\nb\"", "a\nb", 1, 0)]);
    assert_eq!(scanner.offset, 5);
    assert_eq!(scanner.char_position, at(2, 2));
}

#[test]
fn scan_identifier_goes_by_the_cursor_it_is_given() {
    let mut scanner = scanner_on("ab1_c=", 1, 1, 1);
    scanner.scan_identifier(0);
    assert_eq!(scanner.token_stream, vec![plain(TokenType::Identifier, "ab1_c", 1, 0)]);
    assert_eq!(scanner.offset, 5);
    assert_eq!(scanner.char_position, at(1, 5));
}

#[test]
fn token_after_a_newline_stands_at_column_zero() {
    let tokens = Scanner::deserialize("a\nb").unwrap();
    assert_eq!(tokens.len(), 2);
    assert_eq!(tokens[1].line_position, at(2, 0));
}
