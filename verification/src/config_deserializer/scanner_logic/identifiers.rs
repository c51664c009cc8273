//! Bare keys.

use super::super::lexer::{
    column_past, line_past, token_views, CharPosition, TokenType, TokenView,
};
use super::scanner::Scanner;
use vstd::prelude::*;

verus! {

/// Whether `c` may start a bare key: an ASCII letter or `_`.
pub open spec fn is_identifier_start(c: char) -> bool {
    ('a' <= c && c <= 'z') || ('A' <= c && c <= 'Z') || c == '_'
}

/// Whether `c` may continue a bare key: an ASCII letter, an ASCII digit or `_`.
pub open spec fn is_identifier_part(c: char) -> bool {
    is_identifier_start(c) || ('0' <= c && c <= '9')
}

/// The end of the run of key characters that begins at `from`: the first
/// index at or after `from` that holds no key character, or the length of
/// `source`.
pub open spec fn identifier_end(source: Seq<char>, from: int) -> int
    decreases source.len() - from,
{
    if from < source.len() && is_identifier_part(source[from]) {
        identifier_end(source, from + 1)
    } else {
        from
    }
}

/// `identifier_end` is the least index at or after `from` that stops a key.
pub proof fn lemma_identifier_end(source: Seq<char>, from: int)
    requires
        0 <= from <= source.len(),
    ensures
        from <= identifier_end(source, from) <= source.len(),
        forall|i: int|
            from <= i < identifier_end(source, from) ==> is_identifier_part(#[trigger] source[i]),
        identifier_end(source, from) < source.len() ==> !is_identifier_part(
            source[identifier_end(source, from)],
        ),
    decreases source.len() - from,
{
    if from < source.len() && is_identifier_part(source[from]) {
        lemma_identifier_end(source, from + 1);
    }
}

impl Scanner {
    /// Scans the rest of a bare key whose first character, at `start`, was
    /// just consumed, and adds the key as a token that begins at `start`.
    /// The token stands one column before the cursor on entry: at its first
    /// character.
    pub fn scan_identifier(&mut self, start: usize)
        requires
            old(self).wf(),
            old(self).offset == start + 1,
            old(self).char_position.column >= 1,
        ensures
            final(self).wf(),
            final(self).source_chars == old(self).source_chars,
            final(self).offset == identifier_end(
                old(self).source_chars@,
                old(self).offset as int,
            ),
            final(self).cursor_follows(old(self)),
            token_views(final(self).token_stream@) == token_views(old(self).token_stream@).push(
                TokenView {
                    token_type: TokenType::Identifier,
                    lexeme: old(self).source_chars@.subrange(
                        start as int,
                        identifier_end(old(self).source_chars@, old(self).offset as int),
                    ),
                    literal: None,
                    line_position: old(self).char_position.one_back(),
                },
            ),
    {
        let start_position = CharPosition {
            line: self.char_position.line,
            column: self.char_position.column - 1,
        };
        while self.offset < self.source_chars.len() && self.is_ident_continue(
            self.source_chars[self.offset],
        )
            invariant
                self.wf(),
                old(self).offset == start + 1,
                old(self).offset <= self.offset,
                self.source_chars == old(self).source_chars,
                self.token_stream == old(self).token_stream,
                self.char_position.line == line_past(
                    self.source_chars@,
                    old(self).offset as int,
                    self.offset as int,
                    old(self).char_position.line as nat,
                ),
                self.char_position.column == column_past(
                    self.source_chars@,
                    old(self).offset as int,
                    self.offset as int,
                    old(self).char_position.column as nat,
                ),
                identifier_end(self.source_chars@, self.offset as int) == identifier_end(
                    self.source_chars@,
                    old(self).offset as int,
                ),
            decreases self.source_chars@.len() - self.offset,
        {
            self.advance();
        }
        self.add_token(TokenType::Identifier, None, start, start_position);
    }

    /// Whether `c` may start a bare key.
    pub(crate) fn is_ident_start(&self, c: char) -> (start: bool)
        ensures
            start == is_identifier_start(c),
    {
        (c >= 'a' && c <= 'z') || (c >= 'A' && c <= 'Z') || c == '_'
    }

    /// Whether `c` may continue a bare key.
    fn is_ident_continue(&self, c: char) -> (part: bool)
        ensures
            part == is_identifier_part(c),
    {
        self.is_ident_start(c) || (c >= '0' && c <= '9')
    }
}

} // verus!
