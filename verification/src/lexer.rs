//! The lexer: a cursor over a text that hands out one token per call.

use crate::chars::is_whitespace_char;
use crate::grammar::{
    advance, blank, lemma_next_token_moves, lexical_units, next_token_at, peek, quoted_at,
    quoted_char, token_stream, word_at, word_char,
};
use crate::scan::{lemma_run_end_unique, run_end};
use crate::text::{byte_len, byte_offset, char_at, lemma_offset_monotonic, lemma_offset_step, slice};
use crate::token::{Token, TokenView};
use vstd::prelude::*;

verus! {

/// The lexical context that the lexer is in.
#[derive(Debug, Clone, Copy, PartialEq, Eq, Structural)]
pub enum LexerState {
    /// Outside of any list or string.
    Outer,
    /// Inside the brackets of an expansion.
    ExpanList,
    /// Inside a pair of double quotes.
    QuotedString,
}

/// The place of the lexer in its input.
struct Cursor {
    /// The byte offset of the current character.
    position: usize,
    /// The number of characters before the current one.
    index: Ghost<int>,
    /// The current character, or `None` once the input is exhausted.
    ch: Option<char>,
}

/// A lexer over a borrowed text.
pub struct Lexer<'a> {
    /// The text that is read.
    input: &'a str,
    /// The length of the text in bytes.
    limit: usize,
    /// Where the lexer stands in the text.
    cursor: Cursor,
    /// The stack of lexical contexts, the innermost last.
    state: Vec<LexerState>,
}

/// A lexer as a mathematical value.
pub struct LexerView {
    /// The characters of the input.
    pub input: Seq<char>,
    /// The index of the current character, or the length of the input once
    /// it is exhausted.
    pub cursor: int,
    /// The stack of lexical contexts, the innermost last.
    pub states: Seq<LexerState>,
}

impl<'a> View for Lexer<'a> {
    type V = LexerView;

    closed spec fn view(&self) -> LexerView {
        LexerView { input: self.input@, cursor: self.cursor.index@, states: self.state@ }
    }
}

impl<'a> Lexer<'a> {
    #[verifier::type_invariant]
    spec fn well_formed(self) -> bool {
        &&& self.limit == byte_offset(self.input@, self.input@.len() as int)
        &&& 0 <= self.cursor.index@ <= self.input@.len()
        &&& self.cursor.position == byte_offset(self.input@, self.cursor.index@)
        &&& self.cursor.ch == peek(self.input@, self.cursor.index@)
    }

    /// A lexer at the first character of `input`, in the outer context.
    pub fn new(input: &'a str) -> (lexer: Self)
        ensures
            lexer@ == (LexerView { input: input@, cursor: 0, states: seq![LexerState::Outer] }),
    {
        proof {
            assert(input@.take(0) =~= Seq::<char>::empty());
            assert(input@.take(input@.len() as int) =~= input@);
        }
        let ch = char_at(input, 0, Ghost(0));
        let lexer = Lexer {
            input,
            limit: byte_len(input),
            cursor: Cursor { position: 0, index: Ghost(0), ch },
            state: vec![LexerState::Outer],
        };
        assert(lexer.state@ =~= seq![LexerState::Outer]);
        lexer
    }

    /// Advance past whitespace: the cursor stops at the first character
    /// that is not whitespace, or at the end of the input.
    pub fn advance_whitespace(&mut self)
        ensures
            0 <= old(self)@.cursor <= final(self)@.cursor <= old(self)@.input.len(),
            final(self)@ == (LexerView {
                cursor: run_end(old(self)@.input, old(self)@.cursor, blank()),
                ..old(self)@
            }),
    {
        proof {
            use_type_invariant(&*self);
        }
        loop
            invariant
                self.input@ == old(self).input@,
                self.state@ == old(self).state@,
                0 <= old(self).cursor.index@ <= self.cursor.index@ <= self.input@.len(),
                self.cursor.ch == peek(self.input@, self.cursor.index@),
                forall|i: int|
                    old(self).cursor.index@ <= i < self.cursor.index@ ==> is_whitespace_char(
                        #[trigger] self.input@[i],
                    ),
            ensures
                self.cursor.index@ < self.input@.len() ==> !is_whitespace_char(
                    self.input@[self.cursor.index@],
                ),
            decreases self.input@.len() - self.cursor.index@,
        {
            match self.cursor.ch {
                Some(ch) => {
                    if !ch.is_whitespace() {
                        break ;
                    }
                    self.read_char();
                },
                None => {
                    break ;
                },
            }
            proof {
                use_type_invariant(&*self);
            }
        }
        proof {
            lemma_run_end_unique(
                self.input@,
                old(self).cursor.index@,
                blank(),
                self.cursor.index@,
            );
        }
    }

    /// Read a character and advance the read position: the cursor moves to
    /// the next character, and stays where it is once the input is
    /// exhausted.
    fn read_char(&mut self)
        ensures
            final(self)@ == (LexerView {
                cursor: advance(old(self)@.input, old(self)@.cursor),
                ..old(self)@
            }),
    {
        proof {
            use_type_invariant(&*self);
        }
        if let Some(ch) = self.cursor.ch {
            proof {
                lemma_offset_step(self.input@, self.cursor.index@);
                lemma_offset_monotonic(
                    self.input@,
                    self.cursor.index@ + 1,
                    self.input@.len() as int,
                );
            }
            let position = self.cursor.position + ch.len_utf8();
            let index = Ghost(self.cursor.index@ + 1);
            let ch = if position >= self.limit {
                None
            } else {
                char_at(self.input, position, index)
            };
            self.cursor = Cursor { position, index, ch };
        }
    }

    /// Scans the quoted text whose opening quote is the current character.
    /// The cursor stops at the closing quote, or at the end of the input
    /// where the text is not closed.
    fn read_string(&mut self) -> (token: Token)
        ensures
            final(self)@ == (LexerView {
                cursor: quoted_at(old(self)@.input, old(self)@.cursor).cursor,
                ..old(self)@
            }),
            token@ == quoted_at(old(self)@.input, old(self)@.cursor).token,
    {
        self.read_char();
        proof {
            use_type_invariant(&*self);
        }
        let lhs = self.cursor.position;
        let ghost first = self.cursor.index@;
        loop
            invariant
                self.input@ == old(self).input@,
                self.state@ == old(self).state@,
                0 <= first <= self.cursor.index@ <= self.input@.len(),
                lhs == byte_offset(self.input@, first),
                self.cursor.position == byte_offset(self.input@, self.cursor.index@),
                self.cursor.ch == peek(self.input@, self.cursor.index@),
                forall|i: int| first <= i < self.cursor.index@ ==> #[trigger] self.input@[i] != '"',
            ensures
                self.cursor.index@ < self.input@.len() ==> self.input@[self.cursor.index@] == '"',
            decreases self.input@.len() - self.cursor.index@,
        {
            match self.cursor.ch {
                Some('"') | None => {
                    break ;
                },
                _ => (),
            }
            self.read_char();
            proof {
                use_type_invariant(&*self);
            }
        }
        proof {
            lemma_run_end_unique(self.input@, first, quoted_char(), self.cursor.index@);
        }
        Token::quoted(
            slice(self.input, lhs, self.cursor.position, Ghost(first), Ghost(self.cursor.index@)),
        )
    }

    /// Scans the word that starts at the current character. The cursor
    /// stops at the first character that no word holds, or at the end of
    /// the input.
    fn read_identifier(&mut self) -> (token: Token)
        ensures
            final(self)@ == (LexerView {
                cursor: word_at(old(self)@.input, old(self)@.cursor).cursor,
                ..old(self)@
            }),
            token@ == word_at(old(self)@.input, old(self)@.cursor).token,
    {
        proof {
            use_type_invariant(&*self);
        }
        let position = self.cursor.position;
        let ghost first = self.cursor.index@;
        loop
            invariant
                self.input@ == old(self).input@,
                self.state@ == old(self).state@,
                first == old(self).cursor.index@,
                0 <= first <= self.cursor.index@ <= self.input@.len(),
                position == byte_offset(self.input@, first),
                self.cursor.position == byte_offset(self.input@, self.cursor.index@),
                self.cursor.ch == peek(self.input@, self.cursor.index@),
                forall|i: int|
                    first <= i < self.cursor.index@ ==> word_char()(#[trigger] self.input@[i]),
            ensures
                self.cursor.index@ < self.input@.len() ==> !word_char()(
                    self.input@[self.cursor.index@],
                ),
            decreases self.input@.len() - self.cursor.index@,
        {
            match self.cursor.ch {
                Some(ch) => {
                    if ch.is_alphabetic() || ch == '_' {
                        self.read_char();
                    } else {
                        break ;
                    }
                },
                None => {
                    break ;
                },
            }
            proof {
                use_type_invariant(&*self);
            }
        }
        proof {
            lemma_run_end_unique(self.input@, first, word_char(), self.cursor.index@);
        }
        Token::ident(
            slice(
                self.input,
                position,
                self.cursor.position,
                Ghost(first),
                Ghost(self.cursor.index@),
            ),
        )
    }

    /// Produces the next token: passes over whitespace, scans one token, and
    /// moves the cursor one character past the place where scanning stopped.
    /// At the end of the input the token is `EOF`, on this call and on every
    /// later one.
    pub fn next_token(&mut self) -> (token: Token)
        ensures
            0 <= old(self)@.cursor <= final(self)@.cursor <= old(self)@.input.len(),
            final(self)@ == (LexerView {
                cursor: next_token_at(old(self)@.input, old(self)@.cursor).cursor,
                ..old(self)@
            }),
            token@ == next_token_at(old(self)@.input, old(self)@.cursor).token,
    {
        proof {
            use_type_invariant(&*self);
            lemma_next_token_moves(self@.input, self@.cursor);
        }
        self.advance_whitespace();
        proof {
            use_type_invariant(&*self);
        }
        let tok = match self.cursor.ch {
            Some(',') => Token::Comma,
            Some('(') => Token::LParen,
            Some(')') => Token::RParen,
            Some('{') => Token::LBrace,
            Some('}') => Token::RBrace,
            Some('[') => Token::LSquare,
            Some(']') => Token::RSquare,
            Some('"') => self.read_string(),
            Some(_) => self.read_identifier(),
            None => Token::EOF,
        };
        self.read_char();
        tok
    }
}

/// The mathematical values of a sequence of tokens.
pub open spec fn token_views(tokens: Seq<Token>) -> Seq<TokenView> {
    tokens.map_values(|token: Token| token@)
}

/// Reads `input` to its end and returns its tokens in order, without the
/// end marker.
pub fn tokenize(input: &str) -> (tokens: Vec<Token>)
    ensures
        token_views(tokens@) == lexical_units(input@),
{
    let mut lexer = Lexer::new(input);
    let mut tokens: Vec<Token> = Vec::new();
    proof {
        assert(token_views(tokens@) + token_stream(input@, 0) =~= token_stream(input@, 0));
    }
    loop
        invariant
            lexer@.input == input@,
            0 <= lexer@.cursor <= input@.len(),
            token_views(tokens@) + token_stream(input@, lexer@.cursor) == token_stream(input@, 0),
        ensures
            token_views(tokens@) + seq![TokenView::EOF] == token_stream(input@, 0),
        decreases input@.len() - lexer@.cursor,
    {
        let ghost before = lexer@.cursor;
        let ghost read = token_views(tokens@);
        let token = lexer.next_token();
        proof {
            lemma_next_token_moves(input@, before);
        }
        if let Token::EOF = token {
            break ;
        }
        tokens.push(token);
        proof {
            assert(token_views(tokens@) =~= read.push(token@));
            assert(read.push(token@) + token_stream(input@, lexer@.cursor) =~= read + (seq![
                token@,
            ] + token_stream(input@, lexer@.cursor)));
        }
    }
    proof {
        assert((token_views(tokens@) + seq![TokenView::EOF]).drop_last() =~= token_views(tokens@));
    }
    tokens
}

} // verus!
