//! The token model: kinds of token, their literal values and the source
//! positions attached to them.

use vstd::prelude::*;

verus! {

/// The closed set of lexical units of the format.
#[derive(Debug, PartialEq, Eq, Clone, Copy, Structural)]
pub enum TokenType {
    /// `=`
    EqualsSign,
    /// `#` and the rest of its line
    Comment,
    /// `[`
    BracketOpened,
    /// `]`
    BracketClosed,
    /// `[[`
    DoubleBracketsOpened,
    /// `]]`
    DoubleBracketsClosed,
    /// A bare key such as `name`
    Identifier,
    /// A quoted string such as `"text"`
    StringBasic,
}

/// The decoded value that a token may carry.
#[derive(Debug, PartialEq)]
pub enum TomlValue {
    /// The content of a basic string, without its quotes.
    String(String),
}

/// The mathematical model of a [`TomlValue`].
pub enum TomlValueView {
    String(Seq<char>),
}

impl TomlValue {
    /// The text that the value holds.
    pub open spec fn view(&self) -> TomlValueView {
        match self {
            TomlValue::String(s) => TomlValueView::String(s@),
        }
    }
}

/// Line every scan starts on.
pub const START_LINE: usize = 1;

/// Column every scan starts at.
pub const START_COLUMN: usize = 2;

/// A line and column cursor into the source text.
///
/// A token's position is the cursor at the token's first character, before
/// that character is consumed.
#[derive(Debug, PartialEq, Eq, Clone, Copy, Structural)]
pub struct CharPosition {
    pub line: usize,
    pub column: usize,
}

impl CharPosition {
    /// Resets the column to the start of the line.
    pub fn column_start(&mut self)
        ensures
            final(self).line == old(self).line,
            final(self).column == 0,
    {
        self.column = 0
    }

    /// Moves one column to the right.
    pub fn advance_column(&mut self)
        requires
            old(self).column < usize::MAX,
        ensures
            final(self).line == old(self).line,
            final(self).column == old(self).column + 1,
    {
        self.column += 1;
    }

    /// The cursor once `c` is consumed at this one: the start of the next
    /// line after a newline, one column to the right after any other
    /// character.
    pub open spec fn past(self, c: char) -> CharPosition {
        if c == '\n' {
            CharPosition { line: (self.line + 1) as usize, column: 0 }
        } else {
            CharPosition { line: self.line, column: (self.column + 1) as usize }
        }
    }

    /// The cursor one column to the left of this one.
    pub open spec fn one_back(self) -> CharPosition {
        CharPosition { line: self.line, column: (self.column - 1) as usize }
    }

    /// Moves to the start of the next line.
    pub fn start_new_line(&mut self)
        requires
            old(self).line < usize::MAX,
        ensures
            final(self).line == old(self).line + 1,
            final(self).column == 0,
    {
        self.line += 1;
        self.column_start();
    }
}

/// The line that a cursor on `line` reaches once the characters of `source`
/// from `from` up to `to` are consumed: `line` and the number of newlines
/// among them.
pub open spec fn line_past(source: Seq<char>, from: int, to: int, line: nat) -> nat
    decreases to - from,
{
    if to <= from {
        line
    } else if source[to - 1] == '\n' {
        line_past(source, from, to - 1, line) + 1
    } else {
        line_past(source, from, to - 1, line)
    }
}

/// The column that a cursor at `column` reaches once the characters of
/// `source` from `from` up to `to` are consumed: the number of characters
/// consumed since the last newline, counted from `column` where there was
/// none and from zero else.
pub open spec fn column_past(source: Seq<char>, from: int, to: int, column: nat) -> nat
    decreases to - from,
{
    if to <= from {
        column
    } else if source[to - 1] == '\n' {
        0
    } else {
        column_past(source, from, to - 1, column) + 1
    }
}

/// The cursor every scan starts with.
pub open spec fn start_position() -> CharPosition {
    CharPosition { line: START_LINE, column: START_COLUMN }
}

/// The cursor reached once the first `n` characters of `source` are consumed:
/// the position of the character at `n`.
pub open spec fn position_after(source: Seq<char>, n: int) -> CharPosition {
    CharPosition {
        line: line_past(source, 0, n, START_LINE as nat) as usize,
        column: column_past(source, 0, n, START_COLUMN as nat) as usize,
    }
}

/// Whether every position in `source` fits the cursor's fields.
pub open spec fn fits_cursor(source: Seq<char>) -> bool {
    source.len() + START_COLUMN <= usize::MAX
}

/// No cursor runs further than the characters consumed allow.
pub proof fn lemma_cursor_bounds(source: Seq<char>, from: int, to: int, line: nat, column: nat)
    requires
        from <= to,
    ensures
        line <= line_past(source, from, to, line) <= line + (to - from),
        column_past(source, from, to, column) <= column + (to - from),
    decreases to - from,
{
    if from < to {
        lemma_cursor_bounds(source, from, to - 1, line, column);
    }
}

/// Consuming a stretch of the source in two parts leads to the same cursor
/// as consuming it in one.
pub proof fn lemma_cursor_splits(
    source: Seq<char>,
    from: int,
    mid: int,
    to: int,
    line: nat,
    column: nat,
)
    requires
        from <= mid <= to,
    ensures
        line_past(source, from, to, line) == line_past(
            source,
            mid,
            to,
            line_past(source, from, mid, line),
        ),
        column_past(source, from, to, column) == column_past(
            source,
            mid,
            to,
            column_past(source, from, mid, column),
        ),
    decreases to - mid,
{
    if mid < to {
        lemma_cursor_splits(source, from, mid, to - 1, line, column);
    }
}

/// Consuming one character moves the cursor to the next line where the
/// character is a newline, and one column to the right where it is not.
pub proof fn lemma_cursor_step(source: Seq<char>, at: int, line: nat, column: nat)
    ensures
        line_past(source, at, at + 1, line) == line + if source[at] == '\n' {
            1nat
        } else {
            0nat
        },
        column_past(source, at, at + 1, column) == if source[at] == '\n' {
            0
        } else {
            column + 1
        },
{
    reveal_with_fuel(line_past, 2);
    reveal_with_fuel(column_past, 2);
}

/// From the position of one character, consuming the source up to another
/// leads to the position of that other character.
pub proof fn lemma_position_extends(source: Seq<char>, from: int, to: int)
    requires
        0 <= from <= to <= source.len(),
        fits_cursor(source),
    ensures
        line_past(source, from, to, position_after(source, from).line as nat) == position_after(
            source,
            to,
        ).line,
        column_past(source, from, to, position_after(source, from).column as nat)
            == position_after(source, to).column,
{
    lemma_cursor_bounds(source, 0, from, START_LINE as nat, START_COLUMN as nat);
    lemma_cursor_bounds(source, 0, to, START_LINE as nat, START_COLUMN as nat);
    lemma_cursor_splits(source, 0, from, to, START_LINE as nat, START_COLUMN as nat);
}

/// The column counts the characters since the last newline: where the
/// characters from `from` up to `to` hold no newline it is their number past
/// `column`, and where their last newline stands at `newline` it is the
/// number of characters that follow that newline.
pub proof fn lemma_column_counts_from_last_newline(
    source: Seq<char>,
    from: int,
    to: int,
    column: nat,
    newline: int,
)
    requires
        from <= to,
        from - 1 <= newline < to,
        newline >= from ==> source[newline] == '\n',
        forall|i: int| newline < i < to && from <= i ==> source[i] != '\n',
    ensures
        column_past(source, from, to, column) == if newline < from {
            column + (to - from)
        } else {
            to - newline - 1
        },
    decreases to - from,
{
    if from < to && newline < to - 1 {
        lemma_column_counts_from_last_newline(source, from, to - 1, column, newline);
    }
}

/// A lexical unit with the exact source text it was made from.
#[derive(Debug, PartialEq)]
pub struct Token {
    pub token_type: TokenType,
    pub lexeme: String,
    pub literal: Option<TomlValue>,
    pub line_position: CharPosition,
}

/// The mathematical model of a [`Token`].
pub struct TokenView {
    pub token_type: TokenType,
    pub lexeme: Seq<char>,
    pub literal: Option<TomlValueView>,
    pub line_position: CharPosition,
}

/// The model of the literal that a token may carry.
pub open spec fn literal_view(literal: Option<TomlValue>) -> Option<TomlValueView> {
    match literal {
        Some(value) => Some(value@),
        None => None,
    }
}

impl Token {
    /// The token with its texts as sequences of characters.
    pub open spec fn view(&self) -> TokenView {
        TokenView {
            token_type: self.token_type,
            lexeme: self.lexeme@,
            literal: literal_view(self.literal),
            line_position: self.line_position,
        }
    }
}

/// The models of a sequence of tokens, in order.
pub open spec fn token_views(tokens: Seq<Token>) -> Seq<TokenView> {
    tokens.map_values(|t: Token| t@)
}

/// Why a text could not be scanned.
#[derive(Debug, PartialEq, Eq, Clone, Copy, Structural)]
pub enum LexError {
    /// A character that starts no token, with its position.
    UnexpectedCharacter { character: char, position: CharPosition },
    /// A string whose closing quote never comes, with the position of its
    /// opening quote.
    UnterminatedString { position: CharPosition },
}

} // verus!
