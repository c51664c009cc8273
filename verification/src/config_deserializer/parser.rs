//! The parser: from tokens to the root table.

use super::lexer::{
    token_views, CharPosition, Token, TokenType, TokenView, TomlValue, TomlValueView, START_COLUMN,
    START_LINE,
};
pub use super::table::{Table, Value};
use super::table::{
    lemma_table_views_push, lemma_table_views_update, table_views, TableView, ValueView,
};
use vstd::prelude::*;

verus! {

/// Why a token sequence could not be parsed. Each error carries the position
/// of the token it is about.
#[derive(Debug, PartialEq, Eq, Clone, Copy, Structural)]
pub enum ParseError {
    /// A token that can start neither a key/value pair nor a section header.
    UnexpectedToken { found: TokenType, position: CharPosition },
    /// A production asked for one kind of token and met another.
    ExpectedToken { expected: TokenType, found: TokenType, position: CharPosition },
    /// The token after `=` is no value.
    ExpectedValue { found: TokenType, position: CharPosition },
    /// A string token that carries no literal.
    MissingLiteral { position: CharPosition },
    /// A section header whose name already belongs to a plain value.
    ExpectedArrayOfTables { position: CharPosition },
    /// A key/value pair for a section that has no table to take it.
    NoActiveTable { position: CharPosition },
    /// The tokens ended inside a production; the position is that of the
    /// last token.
    UnexpectedEndOfInput { position: CharPosition },
}

/// Where key/value pairs go: into the root table, or into the newest table
/// of the named section.
#[derive(Debug, PartialEq)]
pub enum ActiveSection {
    Root,
    Named(String),
}

impl ActiveSection {
    /// The name of the active section, if there is one.
    pub open spec fn view(&self) -> Option<Seq<char>> {
        match self {
            ActiveSection::Root => None,
            ActiveSection::Named(name) => Some(name@),
        }
    }
}

/// What the parser has built so far: the root table and the active section.
pub struct ParseState {
    pub root: TableView,
    pub section: Option<Seq<char>>,
}

/// The position to report where the tokens end too early: that of the last
/// token, or the start of the text where there is no token at all.
pub open spec fn end_position(tokens: Seq<TokenView>) -> CharPosition {
    if tokens.len() > 0 {
        tokens.last().line_position
    } else {
        CharPosition { line: START_LINE, column: START_COLUMN }
    }
}

/// Whether the token at `at` is of the kind `expected`, and the error if not.
pub open spec fn expect(tokens: Seq<TokenView>, at: int, expected: TokenType) -> Result<
    (),
    ParseError,
> {
    if !(0 <= at < tokens.len()) {
        Err(ParseError::UnexpectedEndOfInput { position: end_position(tokens) })
    } else if tokens[at].token_type == expected {
        Ok(())
    } else {
        Err(
            ParseError::ExpectedToken {
                expected,
                found: tokens[at].token_type,
                position: tokens[at].line_position,
            },
        )
    }
}

/// The string that the token at `at` stands for as a value, and the error if
/// it stands for none.
pub open spec fn value_at(tokens: Seq<TokenView>, at: int) -> Result<Seq<char>, ParseError> {
    if !(0 <= at < tokens.len()) {
        Err(ParseError::UnexpectedEndOfInput { position: end_position(tokens) })
    } else if tokens[at].token_type != TokenType::StringBasic {
        Err(
            ParseError::ExpectedValue {
                found: tokens[at].token_type,
                position: tokens[at].line_position,
            },
        )
    } else {
        match tokens[at].literal {
            Some(TomlValueView::String(text)) => Ok(text),
            None => Err(ParseError::MissingLiteral { position: tokens[at].line_position }),
        }
    }
}

/// The root table once a header for `name` is read: the section gains an
/// empty table at its end, and comes into being with that table where the
/// root did not have it. There is none where `name` holds a plain value.
pub open spec fn open_section(root: TableView, name: Seq<char>) -> Option<TableView> {
    if !root.contains_key(name) {
        Some(root.insert(name, ValueView::Array(seq![Map::empty()])))
    } else {
        match root[name] {
            ValueView::Array(tables) => Some(
                root.insert(name, ValueView::Array(tables.push(Map::empty()))),
            ),
            ValueView::String(_) => None,
        }
    }
}

/// The root table once the pair of `key` and `value` is stored: in the root
/// itself while no section is active, else in the last table of the active
/// section, with the last write to a key winning. There is none where the
/// active section has no table.
pub open spec fn store_pair(state: ParseState, key: Seq<char>, value: Seq<char>) -> Option<
    TableView,
> {
    match state.section {
        None => Some(state.root.insert(key, ValueView::String(value))),
        Some(name) => {
            if state.root.contains_key(name) {
                match state.root[name] {
                    ValueView::Array(tables) => {
                        if tables.len() > 0 {
                            Some(
                                state.root.insert(
                                    name,
                                    ValueView::Array(
                                        tables.update(
                                            tables.len() - 1,
                                            tables.last().insert(key, ValueView::String(value)),
                                        ),
                                    ),
                                ),
                            )
                        } else {
                            None
                        }
                    },
                    ValueView::String(_) => None,
                }
            } else {
                None
            }
        },
    }
}

/// The section header `[[name]]` that begins at `at`: the state it leads to,
/// or the error of the first slot that does not hold what it should.
pub open spec fn array_table(tokens: Seq<TokenView>, at: int, state: ParseState) -> Result<
    ParseState,
    ParseError,
> {
    let opened = expect(tokens, at, TokenType::DoubleBracketsOpened);
    let named = expect(tokens, at + 1, TokenType::Identifier);
    let closed = expect(tokens, at + 2, TokenType::DoubleBracketsClosed);
    if opened is Err {
        Err(opened->Err_0)
    } else if named is Err {
        Err(named->Err_0)
    } else if closed is Err {
        Err(closed->Err_0)
    } else {
        let name = tokens[at + 1].lexeme;
        match open_section(state.root, name) {
            Some(root) => Ok(ParseState { root, section: Some(name) }),
            None => Err(
                ParseError::ExpectedArrayOfTables { position: tokens[at + 1].line_position },
            ),
        }
    }
}

/// The pair `key = "value"` that begins at `at`: the state it leads to, or
/// the error of the first slot that does not hold what it should.
pub open spec fn key_value(tokens: Seq<TokenView>, at: int, state: ParseState) -> Result<
    ParseState,
    ParseError,
> {
    let key = expect(tokens, at, TokenType::Identifier);
    let equals = expect(tokens, at + 1, TokenType::EqualsSign);
    let value = value_at(tokens, at + 2);
    if key is Err {
        Err(key->Err_0)
    } else if equals is Err {
        Err(equals->Err_0)
    } else if value is Err {
        Err(value->Err_0)
    } else {
        match store_pair(state, tokens[at].lexeme, value->Ok_0) {
            Some(root) => Ok(ParseState { root, section: state.section }),
            None => Err(ParseError::NoActiveTable { position: tokens[at].line_position }),
        }
    }
}

/// The root table that the tokens from `at` on lead to from `state`, or the
/// first error met. Comments are passed over; a key starts a pair, `[[` a
/// section header, and both take three tokens; any other token is an error.
pub open spec fn parse_from(tokens: Seq<TokenView>, at: int, state: ParseState) -> Result<
    TableView,
    ParseError,
>
    decreases tokens.len() - at,
{
    if 0 <= at < tokens.len() {
        match tokens[at].token_type {
            TokenType::Comment => parse_from(tokens, at + 1, state),
            TokenType::Identifier => match key_value(tokens, at, state) {
                Ok(after) => parse_from(tokens, at + 3, after),
                Err(error) => Err(error),
            },
            TokenType::DoubleBracketsOpened => match array_table(tokens, at, state) {
                Ok(after) => parse_from(tokens, at + 3, after),
                Err(error) => Err(error),
            },
            found => Err(
                ParseError::UnexpectedToken { found, position: tokens[at].line_position },
            ),
        }
    } else {
        Ok(state.root)
    }
}

/// The number of tokens that a parser reads of the pair that begins at
/// `at`: the slots that hold what they should, up to the first that does
/// not.
pub open spec fn pair_slots(tokens: Seq<TokenView>, at: int) -> int {
    if expect(tokens, at, TokenType::Identifier) is Err {
        0
    } else if expect(tokens, at + 1, TokenType::EqualsSign) is Err {
        1
    } else if value_at(tokens, at + 2) is Err {
        2
    } else {
        3
    }
}

/// The number of tokens that a parser reads of the section header that
/// begins at `at`: the slots that hold what they should, up to the first
/// that does not.
pub open spec fn header_slots(tokens: Seq<TokenView>, at: int) -> int {
    if expect(tokens, at, TokenType::DoubleBracketsOpened) is Err {
        0
    } else if expect(tokens, at + 1, TokenType::Identifier) is Err {
        1
    } else if expect(tokens, at + 2, TokenType::DoubleBracketsClosed) is Err {
        2
    } else {
        3
    }
}

/// Where a parse ends: the number of tokens read and the state built.
pub struct ParseEnd {
    pub cursor: int,
    pub state: ParseState,
}

/// Where the parse of the tokens from `at` on ends when it starts in
/// `state`. A parse that succeeds ends past the last token, in the state
/// that the last production leads to. A parse that fails ends in the state
/// that the productions before the failing one lead to, past the slots of
/// the failing production that hold what they should.
pub open spec fn parse_end_from(tokens: Seq<TokenView>, at: int, state: ParseState) -> ParseEnd
    decreases tokens.len() - at,
{
    if 0 <= at < tokens.len() {
        match tokens[at].token_type {
            TokenType::Comment => parse_end_from(tokens, at + 1, state),
            TokenType::Identifier => match key_value(tokens, at, state) {
                Ok(after) => parse_end_from(tokens, at + 3, after),
                Err(_) => ParseEnd { cursor: at + pair_slots(tokens, at), state },
            },
            TokenType::DoubleBracketsOpened => match array_table(tokens, at, state) {
                Ok(after) => parse_end_from(tokens, at + 3, after),
                Err(_) => ParseEnd { cursor: at + header_slots(tokens, at), state },
            },
            _ => ParseEnd { cursor: at, state },
        }
    } else {
        ParseEnd { cursor: at, state }
    }
}

/// The table that a parse yields is the root of the state it ends in, and a
/// parse that succeeds ends past the last token.
pub proof fn lemma_parse_end(tokens: Seq<TokenView>, at: int, state: ParseState)
    requires
        0 <= at <= tokens.len(),
        parse_from(tokens, at, state) is Ok,
    ensures
        parse_from(tokens, at, state) == Ok::<TableView, ParseError>(
            parse_end_from(tokens, at, state).state.root,
        ),
        parse_end_from(tokens, at, state).cursor == tokens.len(),
    decreases tokens.len() - at,
{
    if at < tokens.len() {
        match tokens[at].token_type {
            TokenType::Comment => {
                lemma_parse_end(tokens, at + 1, state);
            },
            TokenType::Identifier => {
                lemma_parse_end(tokens, at + 3, key_value(tokens, at, state)->Ok_0);
            },
            TokenType::DoubleBracketsOpened => {
                lemma_parse_end(tokens, at + 3, array_table(tokens, at, state)->Ok_0);
            },
            _ => {},
        }
    }
}

/// The state every parse starts from: an empty root and no active section.
pub open spec fn initial_state() -> ParseState {
    ParseState { root: Map::empty(), section: None }
}

/// The root table that `tokens` stand for, or the first error met.
pub open spec fn parse(tokens: Seq<TokenView>) -> Result<TableView, ParseError> {
    parse_from(tokens, 0, initial_state())
}

/// A parse in progress: the tokens, how many of them are consumed, the root
/// table built so far and the section that takes the next pairs.
pub struct Parser {
    tokens: Vec<Token>,
    current: usize,
    root: Table,
    current_array: ActiveSection,
}

impl Parser {
    /// Whether the cursor lies inside the tokens and the root is well formed.
    spec fn wf(&self) -> bool {
        &&& self.current <= self.tokens@.len()
        &&& self.root.wf()
    }

    /// The models of the tokens.
    spec fn input(&self) -> Seq<TokenView> {
        token_views(self.tokens@)
    }

    /// The number of tokens consumed.
    spec fn cursor(&self) -> int {
        self.current as int
    }

    /// The root built so far and the active section.
    spec fn state(&self) -> ParseState {
        ParseState { root: self.root@, section: self.current_array@ }
    }

    /// Where the parser stands: the number of tokens consumed and the state
    /// built.
    spec fn stands_at(&self) -> ParseEnd {
        ParseEnd { cursor: self.cursor(), state: self.state() }
    }

    /// Parses the tokens that are left. The parser ends where the parse of
    /// these tokens ends: past the last token when it succeeds.
    fn parse(&mut self) -> (result: Result<(), ParseError>)
        requires
            old(self).wf(),
        ensures
            final(self).wf(),
            final(self).tokens == old(self).tokens,
            final(self).stands_at() == parse_end_from(
                old(self).input(),
                old(self).cursor(),
                old(self).state(),
            ),
            match result {
                Ok(()) => {
                    &&& parse_from(old(self).input(), old(self).cursor(), old(self).state())
                        == Ok::<TableView, ParseError>(final(self).root@)
                    &&& final(self).cursor() == final(self).input().len()
                },
                Err(error) => parse_from(old(self).input(), old(self).cursor(), old(self).state())
                    == Err::<TableView, ParseError>(error),
            },
    {
        while !self.is_at_end()
            invariant
                self.wf(),
                self.tokens == old(self).tokens,
                parse_from(self.input(), self.cursor(), self.state()) == parse_from(
                    old(self).input(),
                    old(self).cursor(),
                    old(self).state(),
                ),
                parse_end_from(self.input(), self.cursor(), self.state()) == parse_end_from(
                    old(self).input(),
                    old(self).cursor(),
                    old(self).state(),
                ),
            decreases self.tokens@.len() - self.current,
        {
            let token = &self.tokens[self.current];
            let found = token.token_type;
            let position = token.line_position;
            match found {
                TokenType::Comment => {
                    self.advance();
                },
                TokenType::Identifier => {
                    self.parse_key_value()?;
                },
                TokenType::DoubleBracketsOpened => {
                    self.parse_array_table()?;
                },
                _ => {
                    return Err(ParseError::UnexpectedToken { found, position });
                },
            }
        }
        Ok(())
    }

    /// Parses the section header that begins at the cursor. Where it fails,
    /// the root and the active section stay as they were.
    fn parse_array_table(&mut self) -> (result: Result<(), ParseError>)
        requires
            old(self).wf(),
        ensures
            final(self).wf(),
            final(self).tokens == old(self).tokens,
            final(self).cursor() == old(self).cursor() + header_slots(
                old(self).input(),
                old(self).cursor(),
            ),
            match result {
                Ok(()) => {
                    &&& array_table(old(self).input(), old(self).cursor(), old(self).state())
                        == Ok::<ParseState, ParseError>(final(self).state())
                    &&& final(self).cursor() == old(self).cursor() + 3
                },
                Err(error) => {
                    &&& array_table(old(self).input(), old(self).cursor(), old(self).state())
                        == Err::<ParseState, ParseError>(error)
                    &&& final(self).state() == old(self).state()
                },
            },
    {
        self.consume(TokenType::DoubleBracketsOpened)?;
        let name = self.consume_identifier()?;
        let position = self.previous().line_position;
        self.consume(TokenType::DoubleBracketsClosed)?;

        proof {
            let root = self.root@;
            assert(root.contains_key(name@) ==> root.insert(name@, root[name@]) =~= root);
        }
        match self.root.get_mut(name.as_str()) {
            Some(Value::Array(tables)) => {
                let table = Table::new();
                proof {
                    lemma_table_views_push(tables@, table);
                }
                tables.push(table);
            },
            Some(_) => {
                return Err(ParseError::ExpectedArrayOfTables { position });
            },
            None => {
                let mut tables = Vec::new();
                tables.push(Table::new());
                assert(table_views(tables@) =~= seq![Map::empty()]);
                self.root.insert(name.clone(), Value::Array(tables));
            },
        }

        self.current_array = ActiveSection::Named(name);
        Ok(())
    }

    /// Parses the key/value pair that begins at the cursor. Where it fails,
    /// the root and the active section stay as they were.
    fn parse_key_value(&mut self) -> (result: Result<(), ParseError>)
        requires
            old(self).wf(),
        ensures
            final(self).wf(),
            final(self).tokens == old(self).tokens,
            final(self).cursor() == old(self).cursor() + pair_slots(
                old(self).input(),
                old(self).cursor(),
            ),
            match result {
                Ok(()) => {
                    &&& key_value(old(self).input(), old(self).cursor(), old(self).state())
                        == Ok::<ParseState, ParseError>(final(self).state())
                    &&& final(self).cursor() == old(self).cursor() + 3
                },
                Err(error) => {
                    &&& key_value(old(self).input(), old(self).cursor(), old(self).state())
                        == Err::<ParseState, ParseError>(error)
                    &&& final(self).state() == old(self).state()
                },
            },
    {
        let key = self.consume_identifier()?;
        let key_position = self.previous().line_position;
        self.consume(TokenType::EqualsSign)?;

        let value = match self.peek() {
            Some(token) => match token.token_type {
                TokenType::StringBasic => match &token.literal {
                    Some(TomlValue::String(text)) => Value::String(text.clone()),
                    None => {
                        return Err(ParseError::MissingLiteral { position: token.line_position });
                    },
                },
                found => {
                    return Err(ParseError::ExpectedValue { found, position: token.line_position });
                },
            },
            None => {
                return Err(ParseError::UnexpectedEndOfInput { position: self.last_position() });
            },
        };
        self.advance();
        let ghost key_text = key@;
        let ghost value_text = value@->String_0;

        match &self.current_array {
            ActiveSection::Named(array_name) => {
                proof {
                    let root = self.root@;
                    let name = array_name@;
                    assert(root.contains_key(name) ==> root.insert(name, root[name]) =~= root);
                }
                match self.root.get_mut(array_name.as_str()) {
                    Some(Value::Array(tables)) => {
                        let count = tables.len();
                        if count == 0 {
                            return Err(ParseError::NoActiveTable { position: key_position });
                        }
                        let ghost earlier = tables@;
                        tables[count - 1].insert(key, value);
                        proof {
                            lemma_table_views_update(earlier, count - 1);
                            assert(table_views(tables@) == table_views(earlier).update(
                                count - 1,
                                table_views(earlier).last().insert(
                                    key_text,
                                    ValueView::String(value_text),
                                ),
                            ));
                        }
                    },
                    _ => {
                        return Err(ParseError::NoActiveTable { position: key_position });
                    },
                }
            },
            ActiveSection::Root => {
                self.root.insert(key, value);
            },
        }

        Ok(())
    }

    /// Consumes the token at the cursor if it is of the kind `expected`.
    fn consume(&mut self, expected: TokenType) -> (result: Result<(), ParseError>)
        requires
            old(self).wf(),
        ensures
            final(self).wf(),
            final(self).tokens == old(self).tokens,
            final(self).root == old(self).root,
            final(self).current_array == old(self).current_array,
            result == expect(old(self).input(), old(self).cursor(), expected),
            final(self).cursor() == if result is Ok {
                old(self).cursor() + 1
            } else {
                old(self).cursor()
            },
    {
        match self.peek() {
            Some(token) => {
                if token.token_type == expected {
                    self.advance();
                    Ok(())
                } else {
                    Err(
                        ParseError::ExpectedToken {
                            expected,
                            found: token.token_type,
                            position: token.line_position,
                        },
                    )
                }
            },
            None => Err(ParseError::UnexpectedEndOfInput { position: self.last_position() }),
        }
    }

    /// Consumes the key at the cursor and hands back its name.
    fn consume_identifier(&mut self) -> (result: Result<String, ParseError>)
        requires
            old(self).wf(),
        ensures
            final(self).wf(),
            final(self).tokens == old(self).tokens,
            final(self).root == old(self).root,
            final(self).current_array == old(self).current_array,
            match result {
                Ok(name) => {
                    &&& expect(old(self).input(), old(self).cursor(), TokenType::Identifier) is Ok
                    &&& name@ == old(self).input()[old(self).cursor()].lexeme
                    &&& final(self).cursor() == old(self).cursor() + 1
                },
                Err(error) => {
                    &&& expect(old(self).input(), old(self).cursor(), TokenType::Identifier)
                        == Err::<(), ParseError>(error)
                    &&& final(self).cursor() == old(self).cursor()
                },
            },
    {
        match self.peek() {
            Some(token) => {
                if token.token_type == TokenType::Identifier {
                    let name = token.lexeme.clone();
                    self.advance();
                    Ok(name)
                } else {
                    Err(
                        ParseError::ExpectedToken {
                            expected: TokenType::Identifier,
                            found: token.token_type,
                            position: token.line_position,
                        },
                    )
                }
            },
            None => Err(ParseError::UnexpectedEndOfInput { position: self.last_position() }),
        }
    }

    /// Moves the cursor past the token it is at.
    fn advance(&mut self)
        requires
            old(self).wf(),
            old(self).cursor() < old(self).input().len(),
        ensures
            final(self).wf(),
            final(self).tokens == old(self).tokens,
            final(self).root == old(self).root,
            final(self).current_array == old(self).current_array,
            final(self).cursor() == old(self).cursor() + 1,
    {
        assert(self.tokens.len() == self.input().len());
        self.current += 1;
    }

    /// The token at the cursor, if any is left.
    fn peek(&self) -> (token: Option<&Token>)
        requires
            self.wf(),
        ensures
            match token {
                Some(token) => {
                    &&& self.cursor() < self.input().len()
                    &&& token@ == self.input()[self.cursor()]
                },
                None => self.cursor() >= self.input().len(),
            },
    {
        if self.is_at_end() {
            None
        } else {
            Some(&self.tokens[self.current])
        }
    }

    /// The token just before the cursor.
    fn previous(&self) -> (token: &Token)
        requires
            self.wf(),
            self.cursor() > 0,
        ensures
            token@ == self.input()[self.cursor() - 1],
    {
        &self.tokens[self.current - 1]
    }

    /// Whether every token is consumed.
    fn is_at_end(&self) -> (at_end: bool)
        ensures
            at_end == (self.cursor() >= self.input().len()),
    {
        self.current >= self.tokens.len()
    }

    /// The position to report where the tokens end too early.
    fn last_position(&self) -> (position: CharPosition)
        ensures
            position == end_position(self.input()),
    {
        let count = self.tokens.len();
        if count > 0 {
            self.tokens[count - 1].line_position
        } else {
            CharPosition { line: START_LINE, column: START_COLUMN }
        }
    }

    /// Parses `tokens` into the root table they describe.
    ///
    /// The first token that fits no production ends the parse, and the error
    /// alone is returned.
    pub fn run(tokens: Vec<Token>) -> (result: Result<Table, ParseError>)
        ensures
            match result {
                Ok(table) => table.wf() && parse(token_views(tokens@)) == Ok::<
                    TableView,
                    ParseError,
                >(table@),
                Err(error) => parse(token_views(tokens@)) == Err::<TableView, ParseError>(error),
            },
    {
        let mut parser = Parser {
            tokens,
            current: 0,
            root: Table::new(),
            current_array: ActiveSection::Root,
        };

        parser.parse()?;
        Ok(parser.root)
    }
}

} // verus!
