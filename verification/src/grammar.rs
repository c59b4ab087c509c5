//! What the tokens of a text are, stated over sequences of characters.
//!
//! A position in a text is the index of a character, or the length of the
//! text once every character has been read. From a position, the next token
//! is found by passing over whitespace, looking at one character, and
//! scanning on from it where that character opens a quoted text or a word.
//! Whatever was found, the position then moves one character further.

use crate::chars::{is_alphabetic_char, is_whitespace_char};
use crate::scan::{lemma_run_end, lemma_run_end_unique, run_end};
use crate::token::{expan_word, mod_word, word_token, TokenView};
use vstd::prelude::*;

verus! {

/// The characters that are passed over between tokens.
pub open spec fn blank() -> spec_fn(char) -> bool {
    |c: char| is_whitespace_char(c)
}

/// The characters that a bare word is made of: letters and the underscore.
/// Digits are not among them.
pub open spec fn word_char() -> spec_fn(char) -> bool {
    |c: char| is_alphabetic_char(c) || c == '_'
}

/// The characters that a quoted text may hold: all but the double quote.
pub open spec fn quoted_char() -> spec_fn(char) -> bool {
    |c: char| c != '"'
}

/// The token that a single character of punctuation stands for.
pub open spec fn punctuation(c: char) -> Option<TokenView> {
    if c == ',' {
        Some(TokenView::Comma)
    } else if c == '(' {
        Some(TokenView::LParen)
    } else if c == ')' {
        Some(TokenView::RParen)
    } else if c == '{' {
        Some(TokenView::LBrace)
    } else if c == '}' {
        Some(TokenView::RBrace)
    } else if c == '[' {
        Some(TokenView::LSquare)
    } else if c == ']' {
        Some(TokenView::RSquare)
    } else {
        None
    }
}

/// The character at a position, if the position is inside the text.
pub open spec fn peek(text: Seq<char>, cursor: int) -> Option<char> {
    if 0 <= cursor < text.len() {
        Some(text[cursor])
    } else {
        None
    }
}

/// The position one character further, and the same position at the end of
/// the text.
pub open spec fn advance(text: Seq<char>, cursor: int) -> int {
    if cursor < text.len() {
        cursor + 1
    } else {
        cursor
    }
}

/// A token together with a position in the text it was read from.
pub struct Scanned {
    pub token: TokenView,
    pub cursor: int,
}

/// The quoted text whose opening quote is at `cursor`: everything after
/// that quote up to the next double quote, or up to the end of the text
/// where there is none. The position is that of the closing quote, or the
/// end of the text.
pub open spec fn quoted_at(text: Seq<char>, cursor: int) -> Scanned {
    let start = advance(text, cursor);
    let end = run_end(text, start, quoted_char());
    Scanned { token: TokenView::Quoted(text.subrange(start, end)), cursor: end }
}

/// The word that starts at `cursor`: the longest run of word characters,
/// which is empty where the character at `cursor` is not one. The position
/// is that of the first character after the word.
pub open spec fn word_at(text: Seq<char>, cursor: int) -> Scanned {
    let end = run_end(text, cursor, word_char());
    Scanned { token: word_token(text.subrange(cursor, end)), cursor: end }
}

/// The token that the character at `cursor` begins, and the position at
/// which its scanning stops.
pub open spec fn token_at(text: Seq<char>, cursor: int) -> Scanned {
    match peek(text, cursor) {
        None => Scanned { token: TokenView::EOF, cursor },
        Some(c) => match punctuation(c) {
            Some(token) => Scanned { token, cursor },
            None => if c == '"' {
                quoted_at(text, cursor)
            } else {
                word_at(text, cursor)
            },
        },
    }
}

/// The next token from `cursor` on, and the position from which the token
/// after it is read: whitespace is passed over, one token is scanned, and
/// the position moves one character past the place where scanning stopped.
pub open spec fn next_token_at(text: Seq<char>, cursor: int) -> Scanned {
    let found = token_at(text, run_end(text, cursor, blank()));
    Scanned { token: found.token, cursor: advance(text, found.cursor) }
}

/// Reading a token never moves back and never leaves the text. The token is
/// the end marker exactly where nothing but whitespace is left; the
/// position is then the end of the text, and otherwise it has moved on.
pub proof fn lemma_next_token_moves(text: Seq<char>, cursor: int)
    requires
        0 <= cursor <= text.len(),
    ensures
        cursor <= next_token_at(text, cursor).cursor <= text.len(),
        next_token_at(text, cursor).token == TokenView::EOF <==> run_end(text, cursor, blank())
            == text.len(),
        next_token_at(text, cursor).token == TokenView::EOF ==> next_token_at(text, cursor).cursor
            == text.len(),
        next_token_at(text, cursor).token != TokenView::EOF ==> cursor < next_token_at(
            text,
            cursor,
        ).cursor,
{
    lemma_run_end(text, cursor, blank());
    let start = run_end(text, cursor, blank());
    if start < text.len() {
        lemma_run_end(text, start + 1, quoted_char());
        lemma_run_end(text, start, word_char());
    }
}

/// The tokens that are read from `cursor` on, one after the other, up to and
/// with the first end marker.
pub open spec fn token_stream(text: Seq<char>, cursor: int) -> Seq<TokenView>
    decreases text.len() - cursor,
    when 0 <= cursor <= text.len()
    via token_stream_decreases
{
    let next = next_token_at(text, cursor);
    if next.token == TokenView::EOF {
        seq![TokenView::EOF]
    } else {
        seq![next.token] + token_stream(text, next.cursor)
    }
}

#[via_fn]
proof fn token_stream_decreases(text: Seq<char>, cursor: int) {
    lemma_next_token_moves(text, cursor);
}

/// The tokens of a text: those of its stream without the end marker.
pub open spec fn lexical_units(text: Seq<char>) -> Seq<TokenView> {
    token_stream(text, 0).drop_last()
}

/// Where nothing but whitespace is left, the next token is the end marker.
pub proof fn lemma_blank_rest_is_eof(text: Seq<char>, cursor: int)
    requires
        0 <= cursor <= text.len(),
        forall|i: int| cursor <= i < text.len() ==> is_whitespace_char(#[trigger] text[i]),
    ensures
        next_token_at(text, cursor) == (Scanned { token: TokenView::EOF, cursor: text.len() as int }),
        token_stream(text, cursor) == seq![TokenView::EOF],
{
    lemma_run_end_unique(text, cursor, blank(), text.len() as int);
}

/// Once the end marker has been read, every further reading gives the end
/// marker again and leaves the position where it is.
pub proof fn lemma_eof_recurs(text: Seq<char>, cursor: int)
    requires
        0 <= cursor <= text.len(),
        next_token_at(text, cursor).token == TokenView::EOF,
    ensures
        next_token_at(text, next_token_at(text, cursor).cursor) == next_token_at(text, cursor),
{
    lemma_next_token_moves(text, cursor);
    lemma_run_end_unique(text, text.len() as int, blank(), text.len() as int);
}

/// A stream is finite: it holds at most one token for each character that
/// is left, and the end marker. The end marker is its last token and occurs
/// nowhere else in it.
pub proof fn lemma_stream_ends_once(text: Seq<char>, cursor: int)
    requires
        0 <= cursor <= text.len(),
    ensures
        1 <= token_stream(text, cursor).len() <= text.len() - cursor + 1,
        token_stream(text, cursor).last() == TokenView::EOF,
        forall|i: int|
            0 <= i < token_stream(text, cursor).len() - 1 ==> #[trigger] token_stream(
                text,
                cursor,
            )[i] != TokenView::EOF,
    decreases text.len() - cursor,
{
    lemma_next_token_moves(text, cursor);
    let next = next_token_at(text, cursor);
    if next.token != TokenView::EOF {
        lemma_stream_ends_once(text, next.cursor);
    }
}

/// The position after `calls` tokens have been read from `cursor` on.
pub open spec fn cursor_after(text: Seq<char>, cursor: int, calls: nat) -> int
    decreases calls,
{
    if calls == 0 {
        cursor
    } else {
        cursor_after(text, next_token_at(text, cursor).cursor, (calls - 1) as nat)
    }
}

/// The token that is read after `calls` tokens have been read from `cursor`
/// on.
pub open spec fn token_after(text: Seq<char>, cursor: int, calls: nat) -> TokenView {
    next_token_at(text, cursor_after(text, cursor, calls)).token
}

/// Reading token after token goes through the stream in order: the first
/// readings give its tokens before the end marker, one each, and the
/// reading after them, like every later one, gives the end marker.
pub proof fn lemma_readings_follow_stream(text: Seq<char>, cursor: int, calls: nat)
    requires
        0 <= cursor <= text.len(),
    ensures
        cursor <= cursor_after(text, cursor, calls) <= text.len(),
        calls < token_stream(text, cursor).len() ==> token_after(text, cursor, calls)
            == token_stream(text, cursor)[calls as int],
        calls >= token_stream(text, cursor).len() - 1 ==> token_after(text, cursor, calls)
            == TokenView::EOF,
    decreases calls,
{
    lemma_next_token_moves(text, cursor);
    lemma_stream_ends_once(text, cursor);
    let next = next_token_at(text, cursor);
    if calls > 0 {
        let fewer = (calls - 1) as nat;
        lemma_readings_follow_stream(text, next.cursor, fewer);
        if next.token == TokenView::EOF {
            lemma_eof_recurs(text, cursor);
            lemma_stream_ends_once(text, next.cursor);
            assert(token_stream(text, next.cursor) == seq![TokenView::EOF]) by {
                assert(next_token_at(text, next.cursor).token == TokenView::EOF);
            }
        }
    }
}

/// Tokenizing a text takes as many readings as the text has tokens, and one
/// more: each of the first readings gives a token of the text, in order,
/// and none of them the end marker; the next reading gives the end marker,
/// and so does every reading after it.
pub proof fn lemma_readings_until_eof(text: Seq<char>, calls: nat)
    ensures
        token_stream(text, 0).len() == lexical_units(text).len() + 1,
        calls < lexical_units(text).len() ==> token_after(text, 0, calls) == lexical_units(
            text,
        )[calls as int] && token_after(text, 0, calls) != TokenView::EOF,
        calls >= lexical_units(text).len() ==> token_after(text, 0, calls) == TokenView::EOF,
{
    lemma_stream_ends_once(text, 0);
    lemma_readings_follow_stream(text, 0, calls);
}

/// What the text of a token holds: an identifier is made of word characters
/// and is no keyword, and a quoted text holds no double quote.
pub proof fn lemma_token_texts(text: Seq<char>, cursor: int)
    requires
        0 <= cursor <= text.len(),
    ensures
        match next_token_at(text, cursor).token {
            TokenView::Ident(word) => {
                &&& word != expan_word()
                &&& word != mod_word()
                &&& forall|i: int| 0 <= i < word.len() ==> word_char()(#[trigger] word[i])
            },
            TokenView::Quoted(inner) => forall|i: int|
                0 <= i < inner.len() ==> #[trigger] inner[i] != '"',
            _ => true,
        },
{
    lemma_run_end(text, cursor, blank());
    let start = run_end(text, cursor, blank());
    if start < text.len() {
        lemma_run_end(text, start + 1, quoted_char());
        lemma_run_end(text, start, word_char());
    }
}

/// The scanning rules produce neither body text nor unknown characters.
pub proof fn lemma_reserved_tokens_unused(text: Seq<char>, cursor: int)
    ensures
        !(next_token_at(text, cursor).token is Body),
        !(next_token_at(text, cursor).token is Unknown),
{
}

} // verus!
