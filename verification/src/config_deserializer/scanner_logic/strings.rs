//! Basic strings.

use super::super::lexer::{
    column_past, line_past, token_views, CharPosition, LexError, TokenType, TokenView, TomlValue,
    TomlValueView,
};
use super::scanner::{find_char, Scanner};
use vstd::prelude::*;

verus! {

/// `String::push`: appends one character to the end of the string.
pub assume_specification[ std::string::String::push ](
    text: &mut std::string::String,
    ch: char,
)
    ensures
        final(text)@ == old(text)@.push(ch),
;

impl Scanner {
    /// Scans a quoted string whose opening quote, at `start`, was just
    /// consumed, and adds it as a token that begins at `start`. The token
    /// stands one column before the cursor on entry: at its opening quote.
    ///
    /// Every character up to the next `"` goes into the literal as it is,
    /// newlines included. Where no `"` follows, the rest of the source is
    /// consumed, no token is added and the error carries the position of the
    /// opening quote.
    pub fn scan_string(&mut self, start: usize) -> (result: Result<(), LexError>)
        requires
            old(self).wf(),
            old(self).offset == start + 1,
            old(self).char_position.column >= 1,
        ensures
            final(self).wf(),
            final(self).source_chars == old(self).source_chars,
            final(self).cursor_follows(old(self)),
            ({
                let source = old(self).source_chars@;
                let opened = old(self).offset as int;
                let close = find_char(source, opened, '"');
                if close < source.len() {
                    &&& result is Ok
                    &&& final(self).offset == close + 1
                    &&& token_views(final(self).token_stream@) == token_views(
                        old(self).token_stream@,
                    ).push(
                        TokenView {
                            token_type: TokenType::StringBasic,
                            lexeme: source.subrange(start as int, close + 1),
                            literal: Some(TomlValueView::String(source.subrange(opened, close))),
                            line_position: old(self).char_position.one_back(),
                        },
                    )
                } else {
                    &&& result == Err::<(), LexError>(
                        LexError::UnterminatedString {
                            position: old(self).char_position.one_back(),
                        },
                    )
                    &&& final(self).offset == source.len()
                    &&& final(self).token_stream@ == old(self).token_stream@
                }
            }),
    {
        let start_position = CharPosition {
            line: self.char_position.line,
            column: self.char_position.column - 1,
        };
        let mut literal_value = String::new();
        while self.offset < self.source_chars.len()
            invariant
                self.wf(),
                start_position == old(self).char_position.one_back(),
                old(self).offset == start + 1,
                old(self).offset <= self.offset,
                self.source_chars == old(self).source_chars,
                self.token_stream == old(self).token_stream,
                self.char_position.line == line_past(
                    self.source_chars@,
                    old(self).offset as int,
                    self.offset as int,
                    old(self).char_position.line as nat,
                ),
                self.char_position.column == column_past(
                    self.source_chars@,
                    old(self).offset as int,
                    self.offset as int,
                    old(self).char_position.column as nat,
                ),
                literal_value@ == self.source_chars@.subrange(
                    old(self).offset as int,
                    self.offset as int,
                ),
                find_char(self.source_chars@, self.offset as int, '"') == find_char(
                    self.source_chars@,
                    old(self).offset as int,
                    '"',
                ),
            decreases self.source_chars@.len() - self.offset,
        {
            let c = self.advance();
            if c == '"' {
                self.add_token(
                    TokenType::StringBasic,
                    Some(TomlValue::String(literal_value)),
                    start,
                    start_position,
                );
                return Ok(());
            }
            literal_value.push(c);
        }
        Err(LexError::UnterminatedString { position: start_position })
    }
}

} // verus!
