use git_ferro::config_deserializer::lexer::{CharPosition, LexError, TokenType};
use git_ferro::config_deserializer::parser::{ParseError, Parser};
use git_ferro::config_deserializer::scanner_logic::scanner::Scanner;
use git_ferro::config_deserializer::table::{Table, Value};
use git_ferro::profile::{extract_string, Credential, ProfileError};

const CONFIG: &str = "# accounts\ndefault_username = \"ann\"\n\n[[credential]] # first\nusername = \"ann\"\nhost = \"example.org\"\nprotocol = \"https\"\ntoken = \"s3cr3t, with = signs # and more\"\n\n[[credential]]\nusername = \"bob\"\nhost = \"example.net\"\nprotocol = \"ssh\"\ntoken = \"\"\n";

fn load(source: &str) -> Table {
    Parser::run(Scanner::deserialize(source).unwrap()).unwrap()
}

fn at(line: usize, column: usize) -> CharPosition {
    CharPosition { line, column }
}

#[test]
fn config_gives_root_keys_and_one_section() {
    let table = load(CONFIG);
    assert_eq!(table.len(), 2);
    assert_eq!(table.get("default_username"), Some(&Value::String("ann".to_string())));
    match table.get("credential") {
        Some(Value::Array(entries)) => {
            assert_eq!(entries.len(), 2);
            assert_eq!(entries[0].len(), 4);
            assert_eq!(entries[1].len(), 4);
        }
        other => panic!("no section: {:?}", other),
    }
}

#[test]
fn config_gives_the_profile_of_each_user() {
    let table = load(CONFIG);
    let ann = Credential::get_config(&table, "ann").unwrap();
    assert_eq!(ann.host, "example.org");
    assert_eq!(ann.protocol, "https");
    assert_eq!(ann.username, "ann");
    assert_eq!(ann.token, "s3cr3t, with = signs # and more");
    let bob = Credential::get_config(&table, "bob").unwrap();
    assert_eq!(bob.host, "example.net");
    assert_eq!(bob.protocol, "ssh");
    assert_eq!(bob.username, "bob");
    assert_eq!(bob.token, "");
    assert_eq!(extract_string(&table, "default_username"), Ok("ann".to_string()));
}

#[test]
fn default_user_has_a_profile() {
    let table = load(CONFIG);
    let name = extract_string(&table, "default_username").unwrap();
    assert_eq!(Credential::get_config(&table, &name).unwrap().host, "example.org");
}

#[test]
fn user_names_are_compared_whole() {
    let table = load(CONFIG);
    for name in ["", "a", "an", "anna", "Ann", "ann ", "bo"] {
        assert_eq!(
            Credential::get_config(&table, name),
            Err(ProfileError::NoCredential { username: name.to_string() })
        );
    }
}

#[test]
fn blank_config_has_no_section() {
    let table = load("# nothing here\n\n   # at all\n");
    assert!(table.is_empty());
    assert_eq!(Credential::get_config(&table, "ann"), Err(ProfileError::MissingSection));
}

#[test]
fn failures_are_told_apart() {
    let unterminated = Scanner::deserialize("a = \"b").unwrap_err();
    let unexpected = Scanner::deserialize("a = b?").unwrap_err();
    let malformed = Parser::run(Scanner::deserialize("[[a]").unwrap()).unwrap_err();
    assert_eq!(unterminated, LexError::UnterminatedString { position: at(1, 6) });
    assert_eq!(unexpected, LexError::UnexpectedCharacter { character: '?', position: at(1, 7) });
    assert_ne!(unterminated, unexpected);
    assert_eq!(
        malformed,
        ParseError::ExpectedToken {
            expected: TokenType::DoubleBracketsClosed,
            found: TokenType::BracketClosed,
            position: at(1, 5),
        }
    );
}

#[test]
fn same_text_gives_the_same_table_every_time() {
    let first = load(CONFIG);
    for _ in 0..3 {
        assert_eq!(load(CONFIG), first);
    }
}

#[test]
fn crowded_line_scans_like_spaced_lines() {
    let crowded = load("[[s]]a=\"1\",b=\"2\"[[s]]c=\"3\"#end");
    let spaced = load("[[s]]\na = \"1\"\nb = \"2\"\n\n[[s]]\nc = \"3\"\n# end\n");
    assert_eq!(crowded, spaced);
}
