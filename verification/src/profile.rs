//! Looking up a credential profile in a parsed table.

use crate::config_deserializer::table::{table_views, Table, TableView, Value, ValueView};
use vstd::prelude::*;

verus! {

/// The credentials of one user on one host.
#[derive(Debug, PartialEq, Default)]
pub struct Credential {
    pub host: String,
    pub protocol: String,
    pub username: String,
    pub token: String,
}

/// The mathematical model of a [`Credential`].
pub struct CredentialView {
    pub host: Seq<char>,
    pub protocol: Seq<char>,
    pub username: Seq<char>,
    pub token: Seq<char>,
}

impl Credential {
    pub open spec fn view(&self) -> CredentialView {
        CredentialView {
            host: self.host@,
            protocol: self.protocol@,
            username: self.username@,
            token: self.token@,
        }
    }
}

/// Why no credential could be read from a table.
#[derive(Debug, PartialEq)]
pub enum ProfileError {
    /// The table has no such key.
    MissingKey { key: String },
    /// The key holds an array of tables where a string is needed.
    ExpectedString { key: String },
    /// No entry of the `credential` section is for this user.
    NoCredential { username: String },
    /// `credential` holds a string where an array of tables is needed.
    ExpectedArrayOfTables,
    /// The table has no `credential` section.
    MissingSection,
}

/// The mathematical model of a [`ProfileError`].
pub enum ProfileErrorView {
    MissingKey { key: Seq<char> },
    ExpectedString { key: Seq<char> },
    NoCredential { username: Seq<char> },
    ExpectedArrayOfTables,
    MissingSection,
}

impl ProfileError {
    pub open spec fn view(&self) -> ProfileErrorView {
        match self {
            ProfileError::MissingKey { key } => ProfileErrorView::MissingKey { key: key@ },
            ProfileError::ExpectedString { key } => ProfileErrorView::ExpectedString { key: key@ },
            ProfileError::NoCredential { username } => ProfileErrorView::NoCredential {
                username: username@,
            },
            ProfileError::ExpectedArrayOfTables => ProfileErrorView::ExpectedArrayOfTables,
            ProfileError::MissingSection => ProfileErrorView::MissingSection,
        }
    }
}

/// The string that `table` holds under `key`.
pub open spec fn string_at(table: TableView, key: Seq<char>) -> Result<
    Seq<char>,
    ProfileErrorView,
> {
    if !table.contains_key(key) {
        Err(ProfileErrorView::MissingKey { key })
    } else {
        match table[key] {
            ValueView::String(text) => Ok(text),
            ValueView::Array(_) => Err(ProfileErrorView::ExpectedString { key }),
        }
    }
}

/// The credential that `table` describes for `username`: its `host`,
/// `protocol` and `token` strings, or the error of the first of them, in
/// that order, that is not there as a string.
pub open spec fn credential_in(table: TableView, username: Seq<char>) -> Result<
    CredentialView,
    ProfileErrorView,
> {
    let host = string_at(table, "host"@);
    let protocol = string_at(table, "protocol"@);
    let token = string_at(table, "token"@);
    if host is Err {
        Err(host->Err_0)
    } else if protocol is Err {
        Err(protocol->Err_0)
    } else if token is Err {
        Err(token->Err_0)
    } else {
        Ok(
            CredentialView {
                host: host->Ok_0,
                protocol: protocol->Ok_0,
                username,
                token: token->Ok_0,
            },
        )
    }
}

/// The credential of the first table at or after `from` whose `username` is
/// `username`. A table before it whose `username` is not there as a string
/// ends the search with that error.
pub open spec fn find_credential(tables: Seq<TableView>, from: int, username: Seq<char>) -> Result<
    CredentialView,
    ProfileErrorView,
>
    decreases tables.len() - from,
{
    if !(0 <= from < tables.len()) {
        Err(ProfileErrorView::NoCredential { username })
    } else {
        match string_at(tables[from], "username"@) {
            Err(error) => Err(error),
            Ok(name) => if name == username {
                credential_in(tables[from], username)
            } else {
                find_credential(tables, from + 1, username)
            },
        }
    }
}

/// The credential that the `credential` section of `root` holds for
/// `username`.
pub open spec fn lookup(root: TableView, username: Seq<char>) -> Result<
    CredentialView,
    ProfileErrorView,
> {
    if !root.contains_key("credential"@) {
        Err(ProfileErrorView::MissingSection)
    } else {
        match root["credential"@] {
            ValueView::Array(tables) => find_credential(tables, 0, username),
            ValueView::String(_) => Err(ProfileErrorView::ExpectedArrayOfTables),
        }
    }
}

/// Reads the string stored under `key`.
pub fn extract_string(table: &Table, key: &str) -> (result: Result<String, ProfileError>)
    ensures
        match result {
            Ok(text) => string_at(table@, key@) == Ok::<Seq<char>, ProfileErrorView>(text@),
            Err(error) => string_at(table@, key@) == Err::<Seq<char>, ProfileErrorView>(error@),
        },
{
    match table.get(key) {
        Some(Value::String(text)) => Ok(text.clone()),
        Some(_) => Err(ProfileError::ExpectedString { key: key.to_owned() }),
        None => Err(ProfileError::MissingKey { key: key.to_owned() }),
    }
}

/// Reads the fields of the credential that `table` describes for `username`.
fn read_credential(table: &Table, username: String) -> (result: Result<Credential, ProfileError>)
    ensures
        match result {
            Ok(credential) => credential_in(table@, username@) == Ok::<
                CredentialView,
                ProfileErrorView,
            >(credential@),
            Err(error) => credential_in(table@, username@) == Err::<
                CredentialView,
                ProfileErrorView,
            >(error@),
        },
{
    let host = extract_string(table, "host")?;
    let protocol = extract_string(table, "protocol")?;
    let token = extract_string(table, "token")?;
    Ok(Credential { host, protocol, username, token })
}

/// Searches the `credential` section of `table` for the entry of `user_name`.
fn parse_credential(table: &Table, user_name: &str) -> (result: Result<Credential, ProfileError>)
    ensures
        match result {
            Ok(credential) => lookup(table@, user_name@) == Ok::<CredentialView, ProfileErrorView>(
                credential@,
            ),
            Err(error) => lookup(table@, user_name@) == Err::<CredentialView, ProfileErrorView>(
                error@,
            ),
        },
{
    match table.get("credential") {
        Some(Value::Array(entries)) => {
            let mut i: usize = 0;
            while i < entries.len()
                invariant
                    i <= entries@.len(),
                    lookup(table@, user_name@) == find_credential(
                        table_views(entries@),
                        0,
                        user_name@,
                    ),
                    find_credential(table_views(entries@), i as int, user_name@)
                        == find_credential(table_views(entries@), 0, user_name@),
                decreases entries@.len() - i,
            {
                let name = extract_string(&entries[i], "username")?;
                if name.as_str().eq(user_name) {
                    return read_credential(&entries[i], name);
                }
                i += 1;
            }
            Err(ProfileError::NoCredential { username: user_name.to_owned() })
        },
        Some(_) => Err(ProfileError::ExpectedArrayOfTables),
        None => Err(ProfileError::MissingSection),
    }
}

impl Credential {
    /// The credential that the `credential` section of `table` holds for
    /// `user_name`: that of the first entry whose `username` is `user_name`.
    pub fn get_config(table: &Table, user_name: &str) -> (result: Result<
        Credential,
        ProfileError,
    >)
        ensures
            match result {
                Ok(credential) => lookup(table@, user_name@) == Ok::<
                    CredentialView,
                    ProfileErrorView,
                >(credential@),
                Err(error) => lookup(table@, user_name@) == Err::<
                    CredentialView,
                    ProfileErrorView,
                >(error@),
            },
    {
        parse_credential(table, user_name)
    }
}

} // verus!
