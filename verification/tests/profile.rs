use git_ferro::config_deserializer::parser::Parser;
use git_ferro::config_deserializer::scanner_logic::scanner::Scanner;
use git_ferro::config_deserializer::table::{Table, Value};
use git_ferro::profile::{extract_string, Credential, ProfileError};

fn table_of(source: &str) -> Table {
    Parser::run(Scanner::deserialize(source).unwrap()).unwrap()
}

fn key(name: &str) -> String {
    name.to_string()
}

const TWO_USERS: &str = "default_username = \"ann\"\n\
[[credential]]\nusername = \"ann\"\nhost = \"example.org\"\nprotocol = \"https\"\ntoken = \"t1\"\n\
[[credential]]\nusername = \"bob\"\nhost = \"example.net\"\nprotocol = \"ssh\"\ntoken = \"t2\"\n";

#[test]
fn credential_of_the_first_user() {
    let table = table_of(TWO_USERS);
    assert_eq!(
        Credential::get_config(&table, "ann"),
        Ok(Credential {
            host: key("example.org"),
            protocol: key("https"),
            username: key("ann"),
            token: key("t1"),
        })
    );
}

#[test]
fn credential_of_a_later_user() {
    let table = table_of(TWO_USERS);
    assert_eq!(
        Credential::get_config(&table, "bob"),
        Ok(Credential {
            host: key("example.net"),
            protocol: key("ssh"),
            username: key("bob"),
            token: key("t2"),
        })
    );
}

#[test]
fn first_entry_for_a_user_is_taken() {
    let table = table_of(
        "[[credential]]\nusername = \"ann\"\nhost = \"h1\"\nprotocol = \"https\"\ntoken = \"t1\"\n\
         [[credential]]\nusername = \"ann\"\nhost = \"h2\"\nprotocol = \"ssh\"\ntoken = \"t2\"\n",
    );
    assert_eq!(Credential::get_config(&table, "ann").unwrap().host, "h1");
}

#[test]
fn unknown_user_has_no_credential() {
    let table = table_of(TWO_USERS);
    assert_eq!(
        Credential::get_config(&table, "eve"),
        Err(ProfileError::NoCredential { username: key("eve") })
    );
    assert_eq!(
        Credential::get_config(&table, "an"),
        Err(ProfileError::NoCredential { username: key("an") })
    );
}

#[test]
fn table_without_the_section() {
    assert_eq!(
        Credential::get_config(&table_of("default_username = \"ann\""), "ann"),
        Err(ProfileError::MissingSection)
    );
    assert_eq!(Credential::get_config(&Table::new(), "ann"), Err(ProfileError::MissingSection));
}

#[test]
fn section_name_that_holds_a_string() {
    assert_eq!(
        Credential::get_config(&table_of("credential = \"ann\""), "ann"),
        Err(ProfileError::ExpectedArrayOfTables)
    );
}

#[test]
fn entry_without_a_username_ends_the_search() {
    let table = table_of(
        "[[credential]]\nhost = \"h\"\n[[credential]]\nusername = \"ann\"\nhost = \"h\"\nprotocol = \"p\"\ntoken = \"t\"\n",
    );
    assert_eq!(
        Credential::get_config(&table, "ann"),
        Err(ProfileError::MissingKey { key: key("username") })
    );
}

#[test]
fn entry_after_the_match_is_not_read() {
    let table = table_of(
        "[[credential]]\nusername = \"ann\"\nhost = \"h\"\nprotocol = \"p\"\ntoken = \"t\"\n[[credential]]\nhost = \"h\"\n",
    );
    assert!(Credential::get_config(&table, "ann").is_ok());
    assert_eq!(
        Credential::get_config(&table, "bob"),
        Err(ProfileError::MissingKey { key: key("username") })
    );
}

#[test]
fn missing_fields_are_named_in_order() {
    let table = table_of("[[credential]]\nusername = \"ann\"\n");
    assert_eq!(
        Credential::get_config(&table, "ann"),
        Err(ProfileError::MissingKey { key: key("host") })
    );
    let table = table_of("[[credential]]\nusername = \"ann\"\nhost = \"h\"\ntoken = \"t\"\n");
    assert_eq!(
        Credential::get_config(&table, "ann"),
        Err(ProfileError::MissingKey { key: key("protocol") })
    );
    let table = table_of("[[credential]]\nusername = \"ann\"\nhost = \"h\"\nprotocol = \"p\"\n");
    assert_eq!(
        Credential::get_config(&table, "ann"),
        Err(ProfileError::MissingKey { key: key("token") })
    );
}

#[test]
fn field_that_holds_an_array() {
    let mut entry = Table::new();
    entry.insert(key("username"), Value::String(key("ann")));
    entry.insert(key("host"), Value::Array(Vec::new()));
    let mut table = Table::new();
    table.insert(key("credential"), Value::Array(vec![entry]));
    assert_eq!(
        Credential::get_config(&table, "ann"),
        Err(ProfileError::ExpectedString { key: key("host") })
    );
}

#[test]
fn username_that_holds_an_array() {
    let mut entry = Table::new();
    entry.insert(key("username"), Value::Array(Vec::new()));
    let mut table = Table::new();
    table.insert(key("credential"), Value::Array(vec![entry]));
    assert_eq!(
        Credential::get_config(&table, "ann"),
        Err(ProfileError::ExpectedString { key: key("username") })
    );
}

#[test]
fn empty_section_has_no_credential() {
    let mut table = Table::new();
    table.insert(key("credential"), Value::Array(Vec::new()));
    assert_eq!(
        Credential::get_config(&table, "ann"),
        Err(ProfileError::NoCredential { username: key("ann") })
    );
}

#[test]
fn extract_string_reads_a_top_level_key() {
    let table = table_of(TWO_USERS);
    assert_eq!(extract_string(&table, "default_username"), Ok(key("ann")));
    assert_eq!(
        extract_string(&table, "default_host"),
        Err(ProfileError::MissingKey { key: key("default_host") })
    );
    assert_eq!(
        extract_string(&table, "credential"),
        Err(ProfileError::ExpectedString { key: key("credential") })
    );
}

#[test]
fn lookup_twice_gives_the_same_credential() {
    let table = table_of(TWO_USERS);
    assert_eq!(Credential::get_config(&table, "bob"), Credential::get_config(&table, "bob"));
}
