//! What holds of every scan and every parse.

use super::lexer::{
    position_after, token_views, LexError, Token, TokenType, TokenView, TomlValueView,
};
use super::parser::{
    array_table, expect, initial_state, key_value, lemma_parse_end, open_section, parse,
    parse_end_from, parse_from, store_pair, value_at, ParseError, ParseState,
};
use super::scanner_logic::identifiers::{
    is_identifier_part, is_identifier_start, lemma_identifier_end,
};
use super::scanner_logic::scanner::{
    find_char, is_skipped, lemma_find_char, lemma_scan_step_advances, scan, scan_from, scan_step,
    ScanStep,
};
use super::table::{Table, TableView, ValueView};
use vstd::prelude::*;

verus! {

/// Whether `token` has the shape that the grammar gives its kind, and a
/// literal exactly where it is a string: then the literal is the lexeme
/// without its quotes.
pub open spec fn well_formed_token(token: TokenView) -> bool {
    let text = token.lexeme;
    match token.token_type {
        TokenType::EqualsSign => text == seq!['='] && token.literal is None,
        TokenType::BracketOpened => text == seq!['['] && token.literal is None,
        TokenType::BracketClosed => text == seq![']'] && token.literal is None,
        TokenType::DoubleBracketsOpened => text == seq!['[', '['] && token.literal is None,
        TokenType::DoubleBracketsClosed => text == seq![']', ']'] && token.literal is None,
        TokenType::Comment => {
            &&& text.len() >= 1
            &&& text[0] == '#'
            &&& forall|i: int| 0 <= i < text.len() ==> text[i] != '\n'
            &&& token.literal is None
        },
        TokenType::Identifier => {
            &&& text.len() >= 1
            &&& is_identifier_start(text[0])
            &&& forall|i: int| 0 <= i < text.len() ==> is_identifier_part(text[i])
            &&& token.literal is None
        },
        TokenType::StringBasic => {
            &&& token.literal matches Some(TomlValueView::String(content))
            &&& text == seq!['"'] + content + seq!['"']
            &&& forall|i: int| 0 <= i < content.len() ==> content[i] != '"'
        },
    }
}

/// The token that a step yields is well formed, its lexeme is the source
/// from the step's offset up to the next one, and it is as long as it can
/// be: a comment ends before a newline or with the source, a key before a
/// character that no key can hold or with the source.
pub proof fn lemma_step_token(source: Seq<char>, offset: int)
    requires
        0 <= offset < source.len(),
        scan_step(source, offset) is Emit,
    ensures
        ({
            let token = scan_step(source, offset)->Emit_token;
            let next = scan_step(source, offset)->Emit_next;
            &&& offset < next <= source.len()
            &&& token.lexeme == source.subrange(offset, next)
            &&& well_formed_token(token)
            &&& token.token_type == TokenType::Comment ==> next == source.len() || source[next]
                == '\n'
            &&& token.token_type == TokenType::Identifier ==> next == source.len()
                || !is_identifier_part(source[next])
        }),
{
    let token = scan_step(source, offset)->Emit_token;
    let next = scan_step(source, offset)->Emit_next;
    lemma_scan_step_advances(source, offset);
    lemma_find_char(source, offset + 1, '\n');
    lemma_find_char(source, offset + 1, '"');
    lemma_identifier_end(source, offset + 1);
    match token.token_type {
        TokenType::EqualsSign => {
            assert(token.lexeme =~= seq!['=']);
        },
        TokenType::BracketOpened => {
            assert(token.lexeme =~= seq!['[']);
        },
        TokenType::BracketClosed => {
            assert(token.lexeme =~= seq![']']);
        },
        TokenType::DoubleBracketsOpened => {
            assert(token.lexeme =~= seq!['[', '[']);
        },
        TokenType::DoubleBracketsClosed => {
            assert(token.lexeme =~= seq![']', ']']);
        },
        TokenType::Comment => {},
        TokenType::Identifier => {},
        TokenType::StringBasic => {
            let content = source.subrange(offset + 1, next - 1);
            assert(token.lexeme =~= seq!['"'] + content + seq!['"']);
        },
    }
}

/// Whether every token in `tokens` is well formed.
pub open spec fn well_formed_tokens(tokens: Seq<TokenView>) -> bool {
    forall|i: int| 0 <= i < tokens.len() ==> well_formed_token(#[trigger] tokens[i])
}

proof fn lemma_scan_from_well_formed(source: Seq<char>, offset: int)
    requires
        0 <= offset,
        scan_from(source, offset) is Ok,
    ensures
        well_formed_tokens(scan_from(source, offset)->Ok_0),
    decreases source.len() - offset,
{
    if offset < source.len() {
        lemma_scan_step_advances(source, offset);
        match scan_step(source, offset) {
            ScanStep::Emit { token, next } => {
                lemma_step_token(source, offset);
                lemma_scan_from_well_formed(source, next);
            },
            ScanStep::Skip { next } => {
                lemma_scan_from_well_formed(source, next);
            },
            ScanStep::Fail { error } => {},
        }
    }
}

/// Every token that a scan yields is well formed.
pub proof fn lemma_scanned_tokens_well_formed(source: Seq<char>)
    requires
        scan(source) is Ok,
    ensures
        well_formed_tokens(scan(source)->Ok_0),
{
    lemma_scan_from_well_formed(source, 0);
}

/// Whether no token and no separator begins with `c`.
pub open spec fn begins_nothing(c: char) -> bool {
    &&& c != '#' && c != '[' && c != ']' && c != '=' && c != '"'
    &&& !is_skipped(c)
    &&& !is_identifier_start(c)
}

/// Whether `source` holds what `error` reports, where it reports it: a
/// character that begins nothing, or a `"` that no other `"` follows, at the
/// position that the error carries.
pub open spec fn is_cause_of(source: Seq<char>, error: LexError) -> bool {
    match error {
        LexError::UnexpectedCharacter { character, position } => exists|offset: int|
            {
                &&& 0 <= offset < source.len()
                &&& #[trigger] source[offset] == character
                &&& begins_nothing(character)
                &&& position == position_after(source, offset)
            },
        LexError::UnterminatedString { position } => exists|offset: int|
            {
                &&& 0 <= offset < source.len()
                &&& #[trigger] source[offset] == '"'
                &&& forall|i: int| offset < i < source.len() ==> source[i] != '"'
                &&& position == position_after(source, offset)
            },
    }
}

proof fn lemma_scan_from_error(source: Seq<char>, offset: int)
    requires
        0 <= offset,
        scan_from(source, offset) is Err,
    ensures
        is_cause_of(source, scan_from(source, offset)->Err_0),
    decreases source.len() - offset,
{
    lemma_scan_step_advances(source, offset);
    match scan_step(source, offset) {
        ScanStep::Emit { token, next } => {
            lemma_scan_from_error(source, next);
        },
        ScanStep::Skip { next } => {
            lemma_scan_from_error(source, next);
        },
        ScanStep::Fail { error } => {
            lemma_find_char(source, offset + 1, '"');
        },
    }
}

/// A scan fails only for a cause that the text holds, and the error says
/// where: at a character that begins nothing, or at the opening quote of a
/// string that is never closed.
pub proof fn lemma_scan_error_has_its_cause(source: Seq<char>)
    requires
        scan(source) is Err,
    ensures
        is_cause_of(source, scan(source)->Err_0),
{
    lemma_scan_from_error(source, 0);
}

/// Whether a scan that starts at `from` begins a step at `upto`: it has not
/// failed before, and `upto` lies inside no token.
pub open spec fn scan_reaches(source: Seq<char>, from: int, upto: int) -> bool
    decreases source.len() - from,
    via scan_reaches_decreases
{
    if from == upto {
        true
    } else if 0 <= from < source.len() && from < upto {
        match scan_step(source, from) {
            ScanStep::Emit { token, next } => scan_reaches(source, next, upto),
            ScanStep::Skip { next } => scan_reaches(source, next, upto),
            ScanStep::Fail { error } => false,
        }
    } else {
        false
    }
}

#[via_fn]
proof fn scan_reaches_decreases(source: Seq<char>, from: int, upto: int) {
    if 0 <= from < source.len() {
        lemma_scan_step_advances(source, from);
    }
}

proof fn lemma_scan_fails_from(source: Seq<char>, from: int, offset: int)
    requires
        0 <= from,
        0 <= offset < source.len(),
        scan_reaches(source, from, offset),
        scan_step(source, offset) is Fail,
    ensures
        scan_from(source, from) == Err::<Seq<TokenView>, LexError>(
            scan_step(source, offset)->Fail_error,
        ),
    decreases source.len() - from,
{
    if from != offset {
        lemma_scan_step_advances(source, from);
        match scan_step(source, from) {
            ScanStep::Emit { token, next } => {
                lemma_scan_fails_from(source, next, offset);
            },
            ScanStep::Skip { next } => {
                lemma_scan_fails_from(source, next, offset);
            },
            ScanStep::Fail { error } => {},
        }
    }
}

/// Where a scan begins a step at a character that begins nothing, or at a
/// `"` that no other `"` follows, it fails with the error for that
/// character and the character's position: no tokens come back.
pub proof fn lemma_bad_character_fails_the_scan(source: Seq<char>, offset: int)
    requires
        0 <= offset < source.len(),
        scan_reaches(source, 0, offset),
        begins_nothing(source[offset]) || (source[offset] == '"' && forall|i: int|
            offset < i < source.len() ==> source[i] != '"'),
    ensures
        scan(source) == Err::<Seq<TokenView>, LexError>(
            if source[offset] == '"' {
                LexError::UnterminatedString { position: position_after(source, offset) }
            } else {
                LexError::UnexpectedCharacter {
                    character: source[offset],
                    position: position_after(source, offset),
                }
            },
        ),
{
    if source[offset] == '"' {
        lemma_find_char_is(source, offset + 1, '"', source.len() as int);
    }
    lemma_scan_fails_from(source, 0, offset);
}

/// Whether `c` is a space, a tab or a newline.
pub open spec fn is_whitespace(c: char) -> bool {
    c == ' ' || c == '\t' || c == '\n'
}

/// Whether the character at `i` belongs to a comment: a `#` stands at or
/// before it, with no newline from the `#` up to `i`.
pub open spec fn in_comment(source: Seq<char>, i: int) -> bool {
    exists|j: int|
        0 <= j <= i && #[trigger] source[j] == '#' && forall|k: int|
            j <= k <= i ==> source[k] != '\n'
}

/// Whether `source` holds nothing but whitespace and comments.
pub open spec fn only_comments_and_whitespace(source: Seq<char>) -> bool {
    forall|i: int|
        0 <= i < source.len() ==> is_whitespace(#[trigger] source[i]) || in_comment(source, i)
}

/// Whether every token in `tokens` is a comment.
pub open spec fn only_comments(tokens: Seq<TokenView>) -> bool {
    forall|i: int| 0 <= i < tokens.len() ==> (#[trigger] tokens[i]).token_type == TokenType::Comment
}

/// Whether every comment that begins before `offset` has ended by then.
spec fn comments_ended(source: Seq<char>, offset: int) -> bool {
    forall|j: int|
        0 <= j < offset && #[trigger] source[j] == '#' ==> find_char(source, j, '\n') <= offset
}

proof fn lemma_find_char_is(source: Seq<char>, from: int, stop: char, end: int)
    requires
        0 <= from <= end <= source.len(),
        forall|i: int| from <= i < end ==> source[i] != stop,
        end == source.len() || source[end] == stop,
    ensures
        find_char(source, from, stop) == end,
    decreases end - from,
{
    if from < end {
        lemma_find_char_is(source, from + 1, stop, end);
    }
}

proof fn lemma_outside_comment(source: Seq<char>, offset: int)
    requires
        only_comments_and_whitespace(source),
        0 <= offset < source.len(),
        comments_ended(source, offset),
        !is_whitespace(source[offset]),
    ensures
        source[offset] == '#',
{
    assert(in_comment(source, offset));
    let j = choose|j: int|
        0 <= j <= offset && #[trigger] source[j] == '#' && forall|k: int|
            j <= k <= offset ==> source[k] != '\n';
    if j < offset {
        lemma_find_char(source, j, '\n');
        let newline = find_char(source, j, '\n');
        assert(j <= newline <= offset);
        assert(source[newline] == '\n');
    }
}

proof fn lemma_comment_ends(source: Seq<char>, offset: int)
    requires
        0 <= offset < source.len(),
        source[offset] == '#',
        comments_ended(source, offset),
    ensures
        offset < find_char(source, offset + 1, '\n') <= source.len(),
        comments_ended(source, find_char(source, offset + 1, '\n')),
{
    let end = find_char(source, offset + 1, '\n');
    lemma_find_char(source, offset + 1, '\n');
    assert forall|j: int| 0 <= j < end && #[trigger] source[j] == '#' implies find_char(
        source,
        j,
        '\n',
    ) <= end by {
        if j >= offset {
            lemma_find_char_is(source, j, '\n', end);
        }
    }
}

proof fn lemma_blank_scan(source: Seq<char>, offset: int)
    requires
        only_comments_and_whitespace(source),
        0 <= offset <= source.len(),
        comments_ended(source, offset),
    ensures
        scan_from(source, offset) is Ok,
        only_comments(scan_from(source, offset)->Ok_0),
    decreases source.len() - offset,
{
    if offset < source.len() {
        if is_whitespace(source[offset]) {
            assert(scan_step(source, offset) == ScanStep::Skip { next: offset + 1 });
            lemma_blank_scan(source, offset + 1);
        } else {
            lemma_outside_comment(source, offset);
            lemma_comment_ends(source, offset);
            let end = find_char(source, offset + 1, '\n');
            assert(scan_step(source, offset) is Emit);
            assert(scan_step(source, offset)->Emit_next == end);
            assert(scan_step(source, offset)->Emit_token.token_type == TokenType::Comment);
            lemma_blank_scan(source, end);
        }
    }
}

proof fn lemma_comments_parse(tokens: Seq<TokenView>, at: int, state: ParseState)
    requires
        only_comments(tokens),
        0 <= at,
    ensures
        parse_from(tokens, at, state) == Ok::<TableView, ParseError>(state.root),
    decreases tokens.len() - at,
{
    if at < tokens.len() {
        lemma_comments_parse(tokens, at + 1, state);
    }
}

/// A text that holds nothing but whitespace and comments scans without
/// error, and its tokens parse to the empty table.
pub proof fn lemma_blank_text_gives_empty_table(source: Seq<char>)
    requires
        only_comments_and_whitespace(source),
    ensures
        scan(source) is Ok,
        parse(scan(source)->Ok_0) == Ok::<TableView, ParseError>(Map::empty()),
{
    lemma_blank_scan(source, 0);
    lemma_comments_parse(scan(source)->Ok_0, 0, initial_state());
}

/// Whether a section header for `name` begins at `at`.
pub open spec fn is_header_for(tokens: Seq<TokenView>, at: int, name: Seq<char>) -> bool {
    &&& 0 <= at && at + 1 < tokens.len()
    &&& tokens[at].token_type == TokenType::DoubleBracketsOpened
    &&& tokens[at + 1].lexeme == name
}

/// The number of section headers for `name` that begin at or after `from`.
pub open spec fn header_count(tokens: Seq<TokenView>, name: Seq<char>, from: int) -> nat
    decreases tokens.len() - from,
{
    if 0 <= from < tokens.len() {
        if is_header_for(tokens, from, name) {
            1 + header_count(tokens, name, from + 1)
        } else {
            header_count(tokens, name, from + 1)
        }
    } else {
        0
    }
}

/// The number of tables that `root` holds in the section `name`: none where
/// `name` is no section.
pub open spec fn section_len(root: TableView, name: Seq<char>) -> nat {
    if root.contains_key(name) {
        match root[name] {
            ValueView::Array(tables) => tables.len(),
            ValueView::String(_) => 0,
        }
    } else {
        0
    }
}

/// What holds of every state that a parse reaches: no section of the root
/// is without a table, until the first header the root holds no section, and
/// from then on the active section is one of the root's.
pub open spec fn consistent(state: ParseState) -> bool {
    &&& forall|name: Seq<char>|
        state.root.contains_key(name) && #[trigger] state.root[name] is Array ==> section_len(
            state.root,
            name,
        ) > 0
    &&& match state.section {
        None => forall|name: Seq<char>| #[trigger] section_len(state.root, name) == 0,
        Some(active) => section_len(state.root, active) > 0,
    }
}

/// A section header keeps a state consistent, leaves every other key of the
/// root as it was, and appends one empty table to its section, which becomes
/// the active one: the tables that the section held before stay unchanged.
pub proof fn lemma_header_appends_empty_table(
    tokens: Seq<TokenView>,
    at: int,
    state: ParseState,
)
    requires
        array_table(tokens, at, state) is Ok,
    ensures
        ({
            let after = array_table(tokens, at, state)->Ok_0;
            let name = tokens[at + 1].lexeme;
            &&& is_header_for(tokens, at, name)
            &&& at + 3 <= tokens.len()
            &&& after.section == Some(name)
            &&& section_len(after.root, name) == section_len(state.root, name) + 1
            &&& after.root[name] is Array
            &&& after.root[name]->Array_0.last() == Map::<Seq<char>, ValueView>::empty()
            &&& forall|i: int|
                0 <= i < section_len(state.root, name) ==> after.root[name]->Array_0[i]
                    == state.root[name]->Array_0[i]
            &&& forall|other: Seq<char>|
                other != name ==> after.root.contains_key(other) == state.root.contains_key(other)
                    && after.root[other] == state.root[other]
            &&& consistent(state) ==> consistent(after)
        }),
{
    let after = array_table(tokens, at, state)->Ok_0;
    let name = tokens[at + 1].lexeme;
    assert(open_section(state.root, name) == Some(after.root));
    if consistent(state) {
        assert forall|other: Seq<char>|
            after.root.contains_key(other) && #[trigger] after.root[other] is Array implies
            section_len(after.root, other) > 0 by {
            if other != name {
                assert(state.root.contains_key(other));
                assert(state.root[other] is Array);
            }
        }
    }
}

/// Whether `after` differs from `before` in the last table of the section
/// `name` at most: both have that section active, their roots have the same
/// keys and hold the same values under every other key, and the section has
/// the same length and the same tables but for the last.
pub open spec fn same_but_newest_table(
    before: ParseState,
    after: ParseState,
    name: Seq<char>,
) -> bool {
    &&& before.section == Some(name)
    &&& after.section == Some(name)
    &&& after.root.dom() == before.root.dom()
    &&& forall|other: Seq<char>| other != name ==> after.root[other] == before.root[other]
    &&& section_len(after.root, name) == section_len(before.root, name)
    &&& forall|i: int|
        0 <= i < section_len(before.root, name) - 1 ==> after.root[name]->Array_0[i]
            == before.root[name]->Array_0[i]
}

/// While a section is active, a key/value pair changes the last table of
/// that section and nothing else: the pair is inserted there, with the last
/// write to a key winning.
pub proof fn lemma_pair_goes_to_newest_table(
    tokens: Seq<TokenView>,
    at: int,
    state: ParseState,
    name: Seq<char>,
)
    requires
        state.section == Some(name),
        key_value(tokens, at, state) is Ok,
    ensures
        ({
            let after = key_value(tokens, at, state)->Ok_0;
            let key = tokens[at].lexeme;
            let value = ValueView::String(value_at(tokens, at + 2)->Ok_0);
            &&& same_but_newest_table(state, after, name)
            &&& state.root.contains_key(name)
            &&& state.root[name] is Array
            &&& after.root[name] is Array
            &&& section_len(state.root, name) > 0
            &&& after.root[name]->Array_0.last() == state.root[name]->Array_0.last().insert(
                key,
                value,
            )
        }),
{
    let after = key_value(tokens, at, state)->Ok_0;
    let pair = store_pair(state, tokens[at].lexeme, value_at(tokens, at + 2)->Ok_0);
    assert(pair == Some(after.root));
    assert(after.root.dom() =~= state.root.dom());
}

/// Before any section is opened, a key/value pair is written into the root
/// table: the root gains or overwrites that key and keeps every other.
pub proof fn lemma_pair_goes_to_root(tokens: Seq<TokenView>, at: int, state: ParseState)
    requires
        state.section is None,
        key_value(tokens, at, state) is Ok,
    ensures
        ({
            let after = key_value(tokens, at, state)->Ok_0;
            &&& after.section is None
            &&& after.root == state.root.insert(
                tokens[at].lexeme,
                ValueView::String(value_at(tokens, at + 2)->Ok_0),
            )
        }),
{
    let after = key_value(tokens, at, state)->Ok_0;
    assert(store_pair(state, tokens[at].lexeme, value_at(tokens, at + 2)->Ok_0) == Some(
        after.root,
    ));
}

/// A key/value pair keeps a state consistent, and in a consistent state it
/// never fails for want of a table to write to.
proof fn lemma_pair_keeps_consistent(tokens: Seq<TokenView>, at: int, state: ParseState)
    requires
        consistent(state),
    ensures
        match key_value(tokens, at, state) {
            Ok(after) => consistent(after) && at + 3 <= tokens.len() && forall|name: Seq<char>|
                section_len(after.root, name) == section_len(state.root, name),
            Err(error) => !(error is NoActiveTable),
        },
{
    match key_value(tokens, at, state) {
        Ok(after) => {
            match state.section {
                Some(name) => {
                    lemma_pair_goes_to_newest_table(tokens, at, state, name);
                },
                None => {
                    lemma_pair_goes_to_root(tokens, at, state);
                },
            }
            assert forall|other: Seq<char>|
                section_len(after.root, other) == section_len(state.root, other) by {
                assert(after.root.contains_key(other) ==> state.root.contains_key(other)
                    || other == tokens[at].lexeme);
                if state.section is None {
                    assert(section_len(state.root, other) == 0);
                }
            }
            assert forall|other: Seq<char>|
                after.root.contains_key(other) && #[trigger] after.root[other] is Array implies
                section_len(after.root, other) > 0 by {
                if state.section is None {
                    assert(section_len(state.root, other) == 0);
                } else if other != state.section->0 {
                    assert(state.root.contains_key(other));
                    assert(state.root[other] is Array);
                }
            }
        },
        Err(error) => {
            if let Some(name) = state.section {
                assert(section_len(state.root, name) > 0);
            }
        },
    }
}

proof fn lemma_no_header_at(tokens: Seq<TokenView>, name: Seq<char>, at: int)
    requires
        0 <= at < tokens.len(),
        tokens[at].token_type != TokenType::DoubleBracketsOpened,
    ensures
        header_count(tokens, name, at) == header_count(tokens, name, at + 1),
{
}

proof fn lemma_count_sections(
    tokens: Seq<TokenView>,
    at: int,
    state: ParseState,
    name: Seq<char>,
)
    requires
        0 <= at,
        consistent(state),
    ensures
        match parse_from(tokens, at, state) {
            Ok(root) => {
                &&& section_len(root, name) == section_len(state.root, name) + header_count(
                    tokens,
                    name,
                    at,
                )
                &&& root.contains_key(name) && root[name] is Array ==> section_len(root, name) > 0
            },
            Err(error) => !(error is NoActiveTable),
        },
    decreases tokens.len() - at,
{
    if at < tokens.len() {
        match tokens[at].token_type {
            TokenType::Comment => {
                lemma_count_sections(tokens, at + 1, state, name);
            },
            TokenType::Identifier => {
                lemma_pair_keeps_consistent(tokens, at, state);
                if let Ok(after) = key_value(tokens, at, state) {
                    lemma_count_sections(tokens, at + 3, after, name);
                    lemma_no_header_at(tokens, name, at);
                    lemma_no_header_at(tokens, name, at + 1);
                    lemma_no_header_at(tokens, name, at + 2);
                }
            },
            TokenType::DoubleBracketsOpened => {
                if let Ok(after) = array_table(tokens, at, state) {
                    lemma_header_appends_empty_table(tokens, at, state);
                    lemma_count_sections(tokens, at + 3, after, name);
                    lemma_no_header_at(tokens, name, at + 1);
                    lemma_no_header_at(tokens, name, at + 2);
                    assert(is_header_for(tokens, at, name) <==> tokens[at + 1].lexeme == name);
                }
            },
            _ => {},
        }
    }
}

/// A parse that starts in a consistent state ends in one, whether it
/// succeeds or fails: the active section it ends with is none or one of the
/// root's, with a table in it.
pub proof fn lemma_parse_ends_consistent(tokens: Seq<TokenView>, at: int, state: ParseState)
    requires
        0 <= at,
        consistent(state),
    ensures
        consistent(parse_end_from(tokens, at, state).state),
    decreases tokens.len() - at,
{
    if at < tokens.len() {
        match tokens[at].token_type {
            TokenType::Comment => {
                lemma_parse_ends_consistent(tokens, at + 1, state);
            },
            TokenType::Identifier => {
                lemma_pair_keeps_consistent(tokens, at, state);
                if let Ok(after) = key_value(tokens, at, state) {
                    lemma_parse_ends_consistent(tokens, at + 3, after);
                }
            },
            TokenType::DoubleBracketsOpened => {
                if let Ok(after) = array_table(tokens, at, state) {
                    lemma_header_appends_empty_table(tokens, at, state);
                    lemma_parse_ends_consistent(tokens, at + 3, after);
                }
            },
            _ => {},
        }
    }
}

/// Whether every value of `table` is a string.
pub open spec fn strings_only(table: TableView) -> bool {
    forall|key: Seq<char>| table.contains_key(key) ==> #[trigger] table[key] is String
}

/// Whether no section of `root` holds a section: the tables of every section
/// hold strings alone.
pub open spec fn flat(root: TableView) -> bool {
    forall|name: Seq<char>, i: int|
        root.contains_key(name) && root[name] is Array && 0 <= i < root[name]->Array_0.len()
            ==> strings_only(#[trigger] root[name]->Array_0[i])
}

proof fn lemma_header_keeps_flat(tokens: Seq<TokenView>, at: int, state: ParseState)
    requires
        flat(state.root),
        array_table(tokens, at, state) is Ok,
    ensures
        flat(array_table(tokens, at, state)->Ok_0.root),
{
    let after = array_table(tokens, at, state)->Ok_0;
    let opened = tokens[at + 1].lexeme;
    assert(open_section(state.root, opened) == Some(after.root));
    assert forall|name: Seq<char>, i: int|
        after.root.contains_key(name) && after.root[name] is Array && 0 <= i
            < after.root[name]->Array_0.len() implies strings_only(
        #[trigger] after.root[name]->Array_0[i],
    ) by {
        if name != opened {
            assert(strings_only(state.root[name]->Array_0[i]));
        } else if i < section_len(state.root, opened) {
            assert(strings_only(state.root[name]->Array_0[i]));
        }
    }
}

proof fn lemma_pair_keeps_flat(tokens: Seq<TokenView>, at: int, state: ParseState)
    requires
        flat(state.root),
        key_value(tokens, at, state) is Ok,
    ensures
        flat(key_value(tokens, at, state)->Ok_0.root),
{
    let after = key_value(tokens, at, state)->Ok_0;
    let key = tokens[at].lexeme;
    let value = ValueView::String(value_at(tokens, at + 2)->Ok_0);
    assert(store_pair(state, key, value_at(tokens, at + 2)->Ok_0) == Some(after.root));
    assert forall|name: Seq<char>, i: int|
        after.root.contains_key(name) && after.root[name] is Array && 0 <= i
            < after.root[name]->Array_0.len() implies strings_only(
        #[trigger] after.root[name]->Array_0[i],
    ) by {
        match state.section {
            Some(active) => {
                if name == active && i == section_len(state.root, active) - 1 {
                    let before = state.root[name]->Array_0[i];
                    assert(strings_only(before));
                    assert(after.root[name]->Array_0[i] == before.insert(key, value));
                } else {
                    assert(strings_only(state.root[name]->Array_0[i]));
                }
            },
            None => {
                assert(strings_only(state.root[name]->Array_0[i]));
            },
        }
    }
}

/// Sections do not nest: the tables of every section that a parse has built
/// when it ends hold strings alone.
pub proof fn lemma_sections_hold_strings(tokens: Seq<TokenView>, at: int, state: ParseState)
    requires
        0 <= at,
        flat(state.root),
    ensures
        flat(parse_end_from(tokens, at, state).state.root),
    decreases tokens.len() - at,
{
    if at < tokens.len() {
        match tokens[at].token_type {
            TokenType::Comment => {
                lemma_sections_hold_strings(tokens, at + 1, state);
            },
            TokenType::Identifier => {
                if let Ok(after) = key_value(tokens, at, state) {
                    lemma_pair_keeps_flat(tokens, at, state);
                    lemma_sections_hold_strings(tokens, at + 3, after);
                }
            },
            TokenType::DoubleBracketsOpened => {
                if let Ok(after) = array_table(tokens, at, state) {
                    lemma_header_keeps_flat(tokens, at, state);
                    lemma_sections_hold_strings(tokens, at + 3, after);
                }
            },
            _ => {},
        }
    }
}

/// The table that a parse yields has a table in every section, and strings
/// alone in the tables of its sections.
pub proof fn lemma_parsed_table_is_flat(tokens: Seq<TokenView>)
    requires
        parse(tokens) is Ok,
    ensures
        flat(parse(tokens)->Ok_0),
        consistent(parse_end_from(tokens, 0, initial_state()).state),
        parse_end_from(tokens, 0, initial_state()).state.root == parse(tokens)->Ok_0,
{
    lemma_parse_end(tokens, 0, initial_state());
    lemma_sections_hold_strings(tokens, 0, initial_state());
    lemma_parse_ends_consistent(tokens, 0, initial_state());
}

/// Every header appends: in the table that a parse yields, a section holds
/// exactly one table for each header that names it.
pub proof fn lemma_one_table_per_header(tokens: Seq<TokenView>, name: Seq<char>)
    requires
        parse(tokens) is Ok,
    ensures
        section_len(parse(tokens)->Ok_0, name) == header_count(tokens, name, 0),
{
    lemma_count_sections(tokens, 0, initial_state(), name);
}

/// A section, once opened, is never without a table: no array in the table
/// that a parse yields is empty, and no parse fails for want of a table to
/// write a pair to.
pub proof fn lemma_sections_never_empty(tokens: Seq<TokenView>, name: Seq<char>)
    ensures
        match parse(tokens) {
            Ok(root) => root.contains_key(name) && root[name] is Array ==> root[name]->Array_0.len()
                > 0,
            Err(error) => !(error is NoActiveTable),
        },
{
    lemma_count_sections(tokens, 0, initial_state(), name);
}

/// The state in which a parse that starts at `at` in `state` arrives at the
/// token `upto`. There is none where the parse fails before it gets there,
/// and none where `upto` lies inside a production.
pub open spec fn state_at(tokens: Seq<TokenView>, at: int, state: ParseState, upto: int) -> Option<
    ParseState,
>
    decreases tokens.len() - at,
{
    if at == upto {
        Some(state)
    } else if 0 <= at < tokens.len() && at < upto {
        match tokens[at].token_type {
            TokenType::Comment => state_at(tokens, at + 1, state, upto),
            TokenType::Identifier => match key_value(tokens, at, state) {
                Ok(after) => state_at(tokens, at + 3, after, upto),
                Err(_) => None,
            },
            TokenType::DoubleBracketsOpened => match array_table(tokens, at, state) {
                Ok(after) => state_at(tokens, at + 3, after, upto),
                Err(_) => None,
            },
            _ => None,
        }
    } else {
        None
    }
}

/// A parse goes on from every state it arrives in: its outcome is that of
/// parsing the tokens from `upto` on in the state reached there.
pub proof fn lemma_parse_resumes(tokens: Seq<TokenView>, at: int, state: ParseState, upto: int)
    requires
        state_at(tokens, at, state, upto) is Some,
    ensures
        parse_from(tokens, at, state) == parse_from(
            tokens,
            upto,
            state_at(tokens, at, state, upto)->0,
        ),
    decreases tokens.len() - at,
{
    if at != upto {
        match tokens[at].token_type {
            TokenType::Comment => {
                lemma_parse_resumes(tokens, at + 1, state, upto);
            },
            TokenType::Identifier => {
                lemma_parse_resumes(tokens, at + 3, key_value(tokens, at, state)->Ok_0, upto);
            },
            TokenType::DoubleBracketsOpened => {
                lemma_parse_resumes(tokens, at + 3, array_table(tokens, at, state)->Ok_0, upto);
            },
            _ => {},
        }
    }
}

/// A header that lacks its name or its closing brackets ends the parse that
/// reads it, with the error of the first slot that does not hold what it
/// should: no table comes back.
pub proof fn lemma_malformed_header_fails(tokens: Seq<TokenView>, header: int)
    requires
        0 <= header < tokens.len(),
        state_at(tokens, 0, initial_state(), header) is Some,
        tokens[header].token_type == TokenType::DoubleBracketsOpened,
        expect(tokens, header + 1, TokenType::Identifier) is Err || expect(
            tokens,
            header + 2,
            TokenType::DoubleBracketsClosed,
        ) is Err,
    ensures
        parse(tokens) == Err::<TableView, ParseError>(
            if expect(tokens, header + 1, TokenType::Identifier) is Err {
                expect(tokens, header + 1, TokenType::Identifier)->Err_0
            } else {
                expect(tokens, header + 2, TokenType::DoubleBracketsClosed)->Err_0
            },
        ),
{
    lemma_parse_resumes(tokens, 0, initial_state(), header);
}

proof fn lemma_state_at_split(
    tokens: Seq<TokenView>,
    at: int,
    state: ParseState,
    mid: int,
    upto: int,
)
    requires
        mid <= upto,
        state_at(tokens, at, state, mid) is Some,
        state_at(tokens, at, state, upto) is Some,
    ensures
        state_at(tokens, at, state, upto) == state_at(
            tokens,
            mid,
            state_at(tokens, at, state, mid)->0,
            upto,
        ),
    decreases tokens.len() - at,
{
    if at != mid {
        match tokens[at].token_type {
            TokenType::Comment => {
                lemma_state_at_split(tokens, at + 1, state, mid, upto);
            },
            TokenType::Identifier => {
                lemma_state_at_split(tokens, at + 3, key_value(tokens, at, state)->Ok_0, mid, upto);
            },
            TokenType::DoubleBracketsOpened => {
                lemma_state_at_split(
                    tokens,
                    at + 3,
                    array_table(tokens, at, state)->Ok_0,
                    mid,
                    upto,
                );
            },
            _ => {},
        }
    }
}

proof fn lemma_section_stays_active(
    tokens: Seq<TokenView>,
    at: int,
    state: ParseState,
    upto: int,
    name: Seq<char>,
)
    requires
        state.section == Some(name),
        state_at(tokens, at, state, upto) is Some,
        forall|i: int|
            at <= i < upto ==> (#[trigger] tokens[i]).token_type != TokenType::DoubleBracketsOpened,
    ensures
        same_but_newest_table(state, state_at(tokens, at, state, upto)->0, name),
    decreases tokens.len() - at,
{
    if at != upto {
        match tokens[at].token_type {
            TokenType::Comment => {
                lemma_section_stays_active(tokens, at + 1, state, upto, name);
            },
            TokenType::Identifier => {
                let next = key_value(tokens, at, state)->Ok_0;
                let reached = state_at(tokens, at, state, upto)->0;
                lemma_pair_goes_to_newest_table(tokens, at, state, name);
                lemma_section_stays_active(tokens, at + 3, next, upto, name);
                assert(same_but_newest_table(next, reached, name));
                assert forall|i: int| 0 <= i < section_len(state.root, name) - 1 implies
                    reached.root[name]->Array_0[i] == state.root[name]->Array_0[i] by {
                    assert(reached.root[name]->Array_0[i] == next.root[name]->Array_0[i]);
                }
            },
            _ => {},
        }
    }
}

/// A key/value pair that follows a section header, with no other header in
/// between, goes into the table that this header opened and nowhere else.
///
/// `header` and `pair` are the indices at which a parse of `tokens` reads the
/// header and the pair. From the header up to and including the pair, the
/// parse changes nothing but the table that the header appended: the section
/// stays active and keeps its length and its earlier tables, and the root
/// keeps its keys and the values of its other keys. Reading the pair stores
/// it in that table.
pub proof fn lemma_pair_after_header(tokens: Seq<TokenView>, header: int, pair: int)
    requires
        0 <= header < pair,
        state_at(tokens, 0, initial_state(), header) is Some,
        array_table(tokens, header, state_at(tokens, 0, initial_state(), header)->0) is Ok,
        state_at(tokens, 0, initial_state(), pair) is Some,
        forall|i: int|
            header < i < pair ==> (#[trigger] tokens[i]).token_type
                != TokenType::DoubleBracketsOpened,
        key_value(tokens, pair, state_at(tokens, 0, initial_state(), pair)->0) is Ok,
    ensures
        ({
            let name = tokens[header + 1].lexeme;
            let opened = array_table(
                tokens,
                header,
                state_at(tokens, 0, initial_state(), header)->0,
            )->Ok_0;
            let before = state_at(tokens, 0, initial_state(), pair)->0;
            let after = key_value(tokens, pair, before)->Ok_0;
            let key = tokens[pair].lexeme;
            let value = ValueView::String(value_at(tokens, pair + 2)->Ok_0);
            let newest = section_len(opened.root, name) - 1;
            &&& newest >= 0
            &&& same_but_newest_table(opened, before, name)
            &&& same_but_newest_table(opened, after, name)
            &&& after.root[name]->Array_0[newest] == before.root[name]->Array_0[newest].insert(
                key,
                value,
            )
        }),
{
    let name = tokens[header + 1].lexeme;
    let start = state_at(tokens, 0, initial_state(), header)->0;
    let opened = array_table(tokens, header, start)->Ok_0;
    let before = state_at(tokens, 0, initial_state(), pair)->0;
    let after = key_value(tokens, pair, before)->Ok_0;
    lemma_state_at_split(tokens, 0, initial_state(), header, pair);
    lemma_header_appends_empty_table(tokens, header, start);
    assert(state_at(tokens, header, start, pair) == state_at(tokens, header + 3, opened, pair));
    lemma_section_stays_active(tokens, header + 3, opened, pair, name);
    lemma_pair_goes_to_newest_table(tokens, pair, before, name);
    assert forall|i: int| 0 <= i < section_len(opened.root, name) - 1 implies
        after.root[name]->Array_0[i] == opened.root[name]->Array_0[i] by {
        assert(after.root[name]->Array_0[i] == before.root[name]->Array_0[i]);
    }
}

proof fn lemma_well_formed_parse(tokens: Seq<TokenView>, at: int, state: ParseState)
    requires
        well_formed_tokens(tokens),
        0 <= at,
    ensures
        parse_from(tokens, at, state) is Err ==> !(parse_from(tokens, at, state)->Err_0
            is MissingLiteral),
    decreases tokens.len() - at,
{
    if at < tokens.len() {
        match tokens[at].token_type {
            TokenType::Comment => {
                lemma_well_formed_parse(tokens, at + 1, state);
            },
            TokenType::Identifier => {
                if let Ok(after) = key_value(tokens, at, state) {
                    lemma_well_formed_parse(tokens, at + 3, after);
                }
            },
            TokenType::DoubleBracketsOpened => {
                if let Ok(after) = array_table(tokens, at, state) {
                    lemma_well_formed_parse(tokens, at + 3, after);
                }
            },
            _ => {},
        }
    }
}

/// The strings that a scan yields carry their literals: parsing the tokens
/// of a scan never fails for want of one.
pub proof fn lemma_scanned_strings_carry_literals(source: Seq<char>)
    requires
        scan(source) is Ok,
    ensures
        parse(scan(source)->Ok_0) is Err ==> !(parse(scan(source)->Ok_0)->Err_0 is MissingLiteral),
{
    lemma_scanned_tokens_well_formed(source);
    lemma_well_formed_parse(scan(source)->Ok_0, 0, initial_state());
}

/// Whether `result` is an outcome that scanning `source` may have: what
/// `Scanner::deserialize` ensures of its result.
pub open spec fn is_scan_of(source: Seq<char>, result: Result<Vec<Token>, LexError>) -> bool {
    match result {
        Ok(tokens) => scan(source) == Ok::<Seq<TokenView>, LexError>(token_views(tokens@)),
        Err(error) => scan(source) == Err::<Seq<TokenView>, LexError>(error),
    }
}

/// Whether `result` is an outcome that parsing `tokens` may have: what
/// `Parser::run` ensures of its result.
pub open spec fn is_parse_of(tokens: Seq<Token>, result: Result<Table, ParseError>) -> bool {
    match result {
        Ok(table) => table.wf() && parse(token_views(tokens)) == Ok::<TableView, ParseError>(
            table@,
        ),
        Err(error) => parse(token_views(tokens)) == Err::<TableView, ParseError>(error),
    }
}

/// Scanning is repeatable: two scans of one text fail with the same error or
/// yield tokens with the same models.
pub proof fn lemma_scans_agree(
    source: Seq<char>,
    first: Result<Vec<Token>, LexError>,
    second: Result<Vec<Token>, LexError>,
)
    requires
        is_scan_of(source, first),
        is_scan_of(source, second),
    ensures
        match (first, second) {
            (Ok(a), Ok(b)) => token_views(a@) == token_views(b@),
            (Err(a), Err(b)) => a == b,
            _ => false,
        },
{
}

/// Parsing is repeatable: two parses of token sequences with the same models,
/// such as two scans of one text yield, fail with the same error or yield
/// tables that hold the same mapping.
pub proof fn lemma_parses_agree(
    first_tokens: Seq<Token>,
    second_tokens: Seq<Token>,
    first: Result<Table, ParseError>,
    second: Result<Table, ParseError>,
)
    requires
        token_views(first_tokens) == token_views(second_tokens),
        is_parse_of(first_tokens, first),
        is_parse_of(second_tokens, second),
    ensures
        match (first, second) {
            (Ok(a), Ok(b)) => a@ == b@,
            (Err(a), Err(b)) => a == b,
            _ => false,
        },
{
}

/// Scanning a text and parsing its tokens is repeatable: two runs on one
/// text fail with the same error or yield tables that hold the same mapping.
pub proof fn lemma_runs_agree(
    source: Seq<char>,
    first_tokens: Vec<Token>,
    second_tokens: Vec<Token>,
    first: Result<Table, ParseError>,
    second: Result<Table, ParseError>,
)
    requires
        is_scan_of(source, Ok(first_tokens)),
        is_scan_of(source, Ok(second_tokens)),
        is_parse_of(first_tokens@, first),
        is_parse_of(second_tokens@, second),
    ensures
        match (first, second) {
            (Ok(a), Ok(b)) => a@ == b@,
            (Err(a), Err(b)) => a == b,
            _ => false,
        },
{
    lemma_scans_agree(source, Ok(first_tokens), Ok(second_tokens));
    lemma_parses_agree(first_tokens@, second_tokens@, first, second);
}

} // verus!
