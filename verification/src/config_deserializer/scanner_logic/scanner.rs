//! The scanner's state, what scanning a text means, and the pass itself.

use super::super::lexer::{
    column_past, fits_cursor, lemma_cursor_splits, lemma_cursor_step, lemma_position_extends,
    line_past, literal_view, position_after, start_position, token_views, CharPosition, LexError,
    Token, TokenType, TokenView, TomlValue, TomlValueView, START_COLUMN, START_LINE,
};
use super::identifiers::{identifier_end, is_identifier_start, lemma_identifier_end};
use vstd::prelude::*;

verus! {

/// A scan in progress: the source, how far it has been read, the cursor at
/// that point and the tokens found so far.
pub struct Scanner {
    pub token_stream: Vec<Token>,
    pub source_chars: Vec<char>,
    pub offset: usize,
    pub char_position: CharPosition,
}

/// The first index at or after `from` that holds `stop`, or the length of
/// `source` where `stop` does not occur again.
pub open spec fn find_char(source: Seq<char>, from: int, stop: char) -> int
    decreases source.len() - from,
{
    if from < source.len() && source[from] != stop {
        find_char(source, from + 1, stop)
    } else {
        from
    }
}

/// `find_char` is the least index at or after `from` that holds `stop`.
pub proof fn lemma_find_char(source: Seq<char>, from: int, stop: char)
    requires
        0 <= from <= source.len(),
    ensures
        from <= find_char(source, from, stop) <= source.len(),
        forall|i: int| from <= i < find_char(source, from, stop) ==> source[i] != stop,
        find_char(source, from, stop) < source.len() ==> source[find_char(source, from, stop)]
            == stop,
    decreases source.len() - from,
{
    if from < source.len() && source[from] != stop {
        lemma_find_char(source, from + 1, stop);
    }
}

/// What the scanner makes of the text at one offset.
pub enum ScanStep {
    /// A token, and the offset just past it.
    Emit { token: TokenView, next: int },
    /// A separator, and the offset just past it.
    Skip { next: int },
    /// No token can start here.
    Fail { error: LexError },
}

/// Whether `c` separates tokens without being one.
pub open spec fn is_skipped(c: char) -> bool {
    c == ',' || c == ' ' || c == '\t' || c == '\n'
}

/// A token without a literal that spans `source` from `offset` to `end` and
/// stands at `position`.
pub open spec fn plain_token(
    token_type: TokenType,
    source: Seq<char>,
    offset: int,
    end: int,
    position: CharPosition,
) -> ScanStep {
    ScanStep::Emit {
        token: TokenView {
            token_type,
            lexeme: source.subrange(offset, end),
            literal: None,
            line_position: position,
        },
        next: end,
    }
}

/// The step that the character at `offset` calls for when the cursor there
/// is `position`. A token and an error carry that cursor: the position of
/// their first character.
///
/// A bracket that is followed by the same bracket forms a double bracket
/// with it. A comment runs up to the next newline, a key as far as key
/// characters follow, a string up to and including the next `"`.
pub open spec fn scan_step_at(source: Seq<char>, offset: int, position: CharPosition) -> ScanStep
    recommends
        0 <= offset < source.len(),
{
    let c = source[offset];
    let doubled = offset + 1 < source.len() && source[offset + 1] == c;
    if c == '#' {
        plain_token(
            TokenType::Comment,
            source,
            offset,
            find_char(source, offset + 1, '\n'),
            position,
        )
    } else if c == '[' {
        if doubled {
            plain_token(TokenType::DoubleBracketsOpened, source, offset, offset + 2, position)
        } else {
            plain_token(TokenType::BracketOpened, source, offset, offset + 1, position)
        }
    } else if c == ']' {
        if doubled {
            plain_token(TokenType::DoubleBracketsClosed, source, offset, offset + 2, position)
        } else {
            plain_token(TokenType::BracketClosed, source, offset, offset + 1, position)
        }
    } else if c == '=' {
        plain_token(TokenType::EqualsSign, source, offset, offset + 1, position)
    } else if is_skipped(c) {
        ScanStep::Skip { next: offset + 1 }
    } else if c == '"' {
        let close = find_char(source, offset + 1, '"');
        if close < source.len() {
            ScanStep::Emit {
                token: TokenView {
                    token_type: TokenType::StringBasic,
                    lexeme: source.subrange(offset, close + 1),
                    literal: Some(TomlValueView::String(source.subrange(offset + 1, close))),
                    line_position: position,
                },
                next: close + 1,
            }
        } else {
            ScanStep::Fail { error: LexError::UnterminatedString { position } }
        }
    } else if is_identifier_start(c) {
        plain_token(
            TokenType::Identifier,
            source,
            offset,
            identifier_end(source, offset + 1),
            position,
        )
    } else {
        ScanStep::Fail { error: LexError::UnexpectedCharacter { character: c, position } }
    }
}

/// The offset at which a step from `offset` leaves the scanner: past the
/// token or the separator, past a character that begins nothing, and at the
/// end of the source after a string that is never closed.
pub open spec fn step_end(source: Seq<char>, offset: int) -> int {
    match scan_step_at(source, offset, start_position()) {
        ScanStep::Emit { token, next } => next,
        ScanStep::Skip { next } => next,
        ScanStep::Fail { error } => if error is UnterminatedString {
            source.len() as int
        } else {
            offset + 1
        },
    }
}

/// The step that the character at `offset` calls for in a scan of `source`
/// from its start.
pub open spec fn scan_step(source: Seq<char>, offset: int) -> ScanStep
    recommends
        0 <= offset < source.len(),
{
    scan_step_at(source, offset, position_after(source, offset))
}

/// Every step that does not fail moves forward and stays inside the source.
pub proof fn lemma_scan_step_advances(source: Seq<char>, offset: int)
    requires
        0 <= offset < source.len(),
    ensures
        match scan_step(source, offset) {
            ScanStep::Emit { token, next } => offset < next <= source.len(),
            ScanStep::Skip { next } => offset < next <= source.len(),
            ScanStep::Fail { error } => true,
        },
        offset < step_end(source, offset) <= source.len(),
{
    lemma_find_char(source, offset + 1, '\n');
    lemma_find_char(source, offset + 1, '"');
    lemma_identifier_end(source, offset + 1);
}

/// `tokens` followed by what `rest` holds, or the error of `rest`.
pub open spec fn prepend(
    tokens: Seq<TokenView>,
    rest: Result<Seq<TokenView>, LexError>,
) -> Result<Seq<TokenView>, LexError> {
    match rest {
        Ok(more) => Ok(tokens + more),
        Err(error) => Err(error),
    }
}

/// The tokens of `source` from `offset` on, or the first error met.
pub open spec fn scan_from(source: Seq<char>, offset: int) -> Result<Seq<TokenView>, LexError>
    decreases source.len() - offset,
    via scan_from_decreases
{
    if 0 <= offset < source.len() {
        match scan_step(source, offset) {
            ScanStep::Emit { token, next } => prepend(seq![token], scan_from(source, next)),
            ScanStep::Skip { next } => scan_from(source, next),
            ScanStep::Fail { error } => Err(error),
        }
    } else {
        Ok(Seq::empty())
    }
}

#[via_fn]
proof fn scan_from_decreases(source: Seq<char>, offset: int) {
    if 0 <= offset < source.len() {
        lemma_scan_step_advances(source, offset);
    }
}

/// The tokens of `source` in the order they occur, or the first error met.
pub open spec fn scan(source: Seq<char>) -> Result<Seq<TokenView>, LexError> {
    scan_from(source, 0)
}

proof fn lemma_prepend_push(
    tokens: Seq<TokenView>,
    token: TokenView,
    rest: Result<Seq<TokenView>, LexError>,
)
    ensures
        prepend(tokens.push(token), rest) == prepend(tokens, prepend(seq![token], rest)),
{
    if let Ok(more) = rest {
        assert(tokens.push(token) + more =~= tokens + (seq![token] + more));
    }
}

impl Scanner {
    /// Whether the offset lies inside the source and the cursor has room for
    /// every character that is left.
    pub open spec fn wf(&self) -> bool {
        &&& self.offset <= self.source_chars@.len()
        &&& self.char_position.line + (self.source_chars@.len() - self.offset) <= usize::MAX
        &&& self.char_position.column + (self.source_chars@.len() - self.offset) <= usize::MAX
    }

    /// Whether the cursor is the one that consuming the source from its
    /// start up to the offset leads to.
    pub open spec fn on_course(&self) -> bool {
        self.char_position == position_after(self.source_chars@, self.offset as int)
    }

    /// Whether the cursor is the one that `before`'s cursor becomes once the
    /// source from `before`'s offset up to this offset is consumed.
    pub open spec fn cursor_follows(&self, before: &Scanner) -> bool {
        &&& self.char_position.line == line_past(
            self.source_chars@,
            before.offset as int,
            self.offset as int,
            before.char_position.line as nat,
        )
        &&& self.char_position.column == column_past(
            self.source_chars@,
            before.offset as int,
            self.offset as int,
            before.char_position.column as nat,
        )
    }

    /// Whether `toml` is short enough for every position in it to fit the
    /// cursor, as scanning it asks.
    pub fn fits(toml: &str) -> (fits: bool)
        ensures
            fits == fits_cursor(toml@),
    {
        toml.unicode_len() <= usize::MAX - START_COLUMN
    }

    /// A scanner at the start of `toml`, with no token found yet.
    ///
    /// The text has to be short enough for every position in it to fit the
    /// cursor.
    pub fn new(toml: &str) -> (scanner: Scanner)
        requires
            fits_cursor(toml@),
        ensures
            scanner.wf(),
            scanner.on_course(),
            scanner.source_chars@ == toml@,
            scanner.offset == 0,
            scanner.char_position == start_position(),
            scanner.token_stream@.len() == 0,
    {
        let mut source_chars: Vec<char> = Vec::new();
        for c in it: toml.chars()
            invariant
                source_chars@ == it.seq().take(it.index() as int),
        {
            source_chars.push(c);
        }
        Scanner {
            source_chars,
            token_stream: Vec::new(),
            offset: 0,
            char_position: CharPosition { line: START_LINE, column: START_COLUMN },
        }
    }

    /// Scans `toml` into its tokens, first to last.
    ///
    /// The pass stops at the first character that starts no token and at a
    /// string that is never closed, and then returns the error alone. The
    /// text has to be short enough for every position in it to fit the
    /// cursor.
    pub fn deserialize(toml: &str) -> (result: Result<Vec<Token>, LexError>)
        requires
            fits_cursor(toml@),
        ensures
            match result {
                Ok(tokens) => scan(toml@) == Ok::<Seq<TokenView>, LexError>(token_views(tokens@)),
                Err(error) => scan(toml@) == Err::<Seq<TokenView>, LexError>(error),
            },
    {
        let mut scanner = Scanner::new(toml);
        while !scanner.is_at_end()
            invariant
                fits_cursor(toml@),
                scanner.wf(),
                scanner.on_course(),
                scanner.source_chars@ == toml@,
                prepend(
                    token_views(scanner.token_stream@),
                    scan_from(toml@, scanner.offset as int),
                ) == scan(toml@),
            decreases scanner.source_chars@.len() - scanner.offset,
        {
            let start = scanner.offset;
            let ghost before = token_views(scanner.token_stream@);
            proof {
                lemma_scan_step_advances(toml@, start as int);
                lemma_position_extends(toml@, start as int, step_end(toml@, start as int));
                if let ScanStep::Emit { token, next } = scan_step(toml@, start as int) {
                    lemma_prepend_push(before, token, scan_from(toml@, next));
                }
            }
            match scanner.scan_token(start) {
                Ok(()) => {},
                Err(error) => {
                    return Err(error);
                },
            }
        }
        Ok(scanner.token_stream)
    }

    /// Scans the one token or separator that begins at `start`, the offset
    /// of the scanner. The cursor on entry is the position of the token, and
    /// of the character that an error reports.
    fn scan_token(&mut self, start: usize) -> (result: Result<(), LexError>)
        requires
            old(self).wf(),
            start == old(self).offset,
            start < old(self).source_chars@.len(),
        ensures
            final(self).wf(),
            final(self).source_chars == old(self).source_chars,
            final(self).offset == step_end(old(self).source_chars@, start as int),
            final(self).cursor_follows(old(self)),
            match scan_step_at(old(self).source_chars@, start as int, old(self).char_position) {
                ScanStep::Emit { token, next } => {
                    &&& result is Ok
                    &&& token_views(final(self).token_stream@) == token_views(
                        old(self).token_stream@,
                    ).push(token)
                },
                ScanStep::Skip { next } => {
                    &&& result is Ok
                    &&& final(self).token_stream@ == old(self).token_stream@
                },
                ScanStep::Fail { error } => {
                    &&& result == Err::<(), LexError>(error)
                    &&& final(self).token_stream@ == old(self).token_stream@
                },
            },
    {
        let start_position = self.char_position;
        let c = self.advance();
        proof {
            lemma_find_char(self.source_chars@, start + 1, '\n');
            lemma_find_char(self.source_chars@, start + 1, '"');
            lemma_identifier_end(self.source_chars@, start + 1);
            lemma_cursor_splits(
                self.source_chars@,
                start as int,
                start + 1,
                step_end(self.source_chars@, start as int),
                start_position.line as nat,
                start_position.column as nat,
            );
        }

        match c {
            '#' => {
                loop
                    invariant
                        self.wf(),
                        start < self.offset,
                        start == old(self).offset,
                        self.source_chars == old(self).source_chars,
                        self.token_stream == old(self).token_stream,
                        self.char_position.line == line_past(
                            self.source_chars@,
                            start as int,
                            self.offset as int,
                            old(self).char_position.line as nat,
                        ),
                        self.char_position.column == column_past(
                            self.source_chars@,
                            start as int,
                            self.offset as int,
                            old(self).char_position.column as nat,
                        ),
                        find_char(self.source_chars@, self.offset as int, '\n') == find_char(
                            self.source_chars@,
                            start + 1,
                            '\n',
                        ),
                    ensures
                        self.offset == find_char(self.source_chars@, start + 1, '\n'),
                    decreases self.source_chars@.len() - self.offset,
                {
                    match self.peek() {
                        Some('\n') => {
                            break ;
                        },
                        None => {
                            break ;
                        },
                        Some(_) => {
                            self.advance();
                        },
                    }
                }
                self.add_token(TokenType::Comment, None, start, start_position);
                Ok(())
            },
            '[' => {
                let token = match self.peek() {
                    Some('[') => {
                        self.advance();
                        TokenType::DoubleBracketsOpened
                    },
                    _ => TokenType::BracketOpened,
                };
                self.add_token(token, None, start, start_position);
                Ok(())
            },
            ']' => {
                let token = match self.peek() {
                    Some(']') => {
                        self.advance();
                        TokenType::DoubleBracketsClosed
                    },
                    _ => TokenType::BracketClosed,
                };
                self.add_token(token, None, start, start_position);
                Ok(())
            },
            '=' => {
                self.add_token(TokenType::EqualsSign, None, start, start_position);
                Ok(())
            },
            ',' | ' ' | '\t' | '\n' => Ok(()),
            '"' => self.scan_string(start),
            c if self.is_ident_start(c) => {
                self.scan_identifier(start);
                Ok(())
            },
            _ => Err(LexError::UnexpectedCharacter { character: c, position: start_position }),
        }
    }

    /// Consumes the next character and moves the cursor past it. At the end
    /// of the source nothing is consumed and the result is the NUL character.
    pub(crate) fn advance(&mut self) -> (c: char)
        requires
            old(self).wf(),
        ensures
            final(self).wf(),
            final(self).source_chars == old(self).source_chars,
            final(self).token_stream == old(self).token_stream,
            old(self).offset < old(self).source_chars@.len() ==> {
                &&& c == old(self).source_chars@[old(self).offset as int]
                &&& final(self).offset == old(self).offset + 1
                &&& final(self).char_position == old(self).char_position.past(c)
                &&& final(self).cursor_follows(old(self))
            },
            old(self).offset >= old(self).source_chars@.len() ==> {
                &&& c == '\0'
                &&& final(self).offset == old(self).offset
                &&& final(self).char_position == old(self).char_position
            },
    {
        if self.is_at_end() {
            return '\0';
        }
        proof {
            lemma_cursor_step(
                self.source_chars@,
                self.offset as int,
                self.char_position.line as nat,
                self.char_position.column as nat,
            );
        }
        let c = self.source_chars[self.offset];
        assert(self.offset < self.source_chars.len());
        self.offset += 1;

        if c == '\n' {
            self.char_position.start_new_line();
        } else {
            self.char_position.advance_column();
        }

        c
    }

    /// The next character, without consuming it.
    fn peek(&self) -> (next: Option<char>)
        ensures
            next == if self.offset < self.source_chars@.len() {
                Some(self.source_chars@[self.offset as int])
            } else {
                None
            },
    {
        if self.offset < self.source_chars.len() {
            Some(self.source_chars[self.offset])
        } else {
            None
        }
    }

    /// Whether the whole source has been consumed.
    fn is_at_end(&self) -> (at_end: bool)
        ensures
            at_end == (self.offset >= self.source_chars@.len()),
    {
        self.offset >= self.source_chars.len()
    }

    /// Adds a token whose lexeme is the source from `start` up to the offset.
    pub fn add_token(
        &mut self,
        token_type: TokenType,
        literal: Option<TomlValue>,
        start: usize,
        line_position: CharPosition,
    )
        requires
            start <= old(self).offset <= old(self).source_chars@.len(),
        ensures
            final(self).source_chars == old(self).source_chars,
            final(self).offset == old(self).offset,
            final(self).char_position == old(self).char_position,
            token_views(final(self).token_stream@) == token_views(old(self).token_stream@).push(
                TokenView {
                    token_type,
                    lexeme: old(self).source_chars@.subrange(start as int, old(self).offset as int),
                    literal: literal_view(literal),
                    line_position,
                },
            ),
    {
        let mut lexeme = String::new();
        let mut i: usize = start;
        while i < self.offset
            invariant
                start <= i <= self.offset <= self.source_chars@.len(),
                lexeme@ == self.source_chars@.subrange(start as int, i as int),
            decreases self.offset - i,
        {
            lexeme.push(self.source_chars[i]);
            i += 1;
        }
        let token = Token { token_type, literal, lexeme, line_position };
        self.token_stream.push(token);
    }
}

} // verus!
