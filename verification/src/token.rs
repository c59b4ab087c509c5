//! The tokens of the language, and the words that are reserved.

use crate::text::same_text;
use vstd::prelude::*;
use vstd::std_specs::cmp::PartialEqSpecImpl;

verus! {

/// One lexical unit.
#[derive(Debug)]
pub enum Token {
    /// The keyword `expan`.
    Expan,
    /// The keyword `mod`.
    Module,
    /// Any other bare word.
    Ident(String),
    /// The text between a pair of double quotes.
    Quoted(String),
    LBrace,
    RBrace,
    LSquare,
    RSquare,
    LParen,
    RParen,
    Comma,
    /// Raw body text. No scanning rule produces it yet.
    Body(String),
    /// The end of the input.
    EOF,
    /// A character that no rule accepts. No scanning rule produces it yet.
    Unknown(char),
}

/// A token as a mathematical value: its texts are sequences of characters.
pub enum TokenView {
    Expan,
    Module,
    Ident(Seq<char>),
    Quoted(Seq<char>),
    LBrace,
    RBrace,
    LSquare,
    RSquare,
    LParen,
    RParen,
    Comma,
    Body(Seq<char>),
    EOF,
    Unknown(char),
}

impl View for Token {
    type V = TokenView;

    open spec fn view(&self) -> TokenView {
        match self {
            Token::Expan => TokenView::Expan,
            Token::Module => TokenView::Module,
            Token::Ident(text) => TokenView::Ident(text@),
            Token::Quoted(text) => TokenView::Quoted(text@),
            Token::LBrace => TokenView::LBrace,
            Token::RBrace => TokenView::RBrace,
            Token::LSquare => TokenView::LSquare,
            Token::RSquare => TokenView::RSquare,
            Token::LParen => TokenView::LParen,
            Token::RParen => TokenView::RParen,
            Token::Comma => TokenView::Comma,
            Token::Body(text) => TokenView::Body(text@),
            Token::EOF => TokenView::EOF,
            Token::Unknown(c) => TokenView::Unknown(*c),
        }
    }
}

/// The reserved word that opens an expansion.
pub open spec fn expan_word() -> Seq<char> {
    seq!['e', 'x', 'p', 'a', 'n']
}

/// The reserved word that opens a module.
pub open spec fn mod_word() -> Seq<char> {
    seq!['m', 'o', 'd']
}

/// The token that a bare word stands for: a keyword where the whole word is
/// one, letter for letter, and an identifier otherwise.
pub open spec fn word_token(word: Seq<char>) -> TokenView {
    if word == expan_word() {
        TokenView::Expan
    } else if word == mod_word() {
        TokenView::Module
    } else {
        TokenView::Ident(word)
    }
}

impl Token {
    /// The token for the bare word `s`.
    pub fn ident(s: &str) -> (token: Token)
        ensures
            token@ == word_token(s@),
    {
        proof {
            reveal_strlit("expan");
            reveal_strlit("mod");
            assert("expan"@ =~= expan_word());
            assert("mod"@ =~= mod_word());
        }
        if same_text(s, "expan") {
            Token::Expan
        } else if same_text(s, "mod") {
            Token::Module
        } else {
            Token::Ident(s.to_owned())
        }
    }

    /// The token for the quoted text `s`, which is kept as it is.
    pub fn quoted(s: &str) -> (token: Token)
        ensures
            token@ == TokenView::Quoted(s@),
    {
        Token::Quoted(s.to_owned())
    }

    /// The token for the body text `s`, which is kept as it is.
    pub fn body(s: &str) -> (token: Token)
        ensures
            token@ == TokenView::Body(s@),
    {
        Token::Body(s.to_owned())
    }
}

impl PartialEq for Token {
    /// Two tokens are equal when they are the same kind of token and carry
    /// the same text.
    fn eq(&self, other: &Token) -> (same: bool) {
        match (self, other) {
            (Token::Expan, Token::Expan) => true,
            (Token::Module, Token::Module) => true,
            (Token::Ident(a), Token::Ident(b)) => same_text(a.as_str(), b.as_str()),
            (Token::Quoted(a), Token::Quoted(b)) => same_text(a.as_str(), b.as_str()),
            (Token::LBrace, Token::LBrace) => true,
            (Token::RBrace, Token::RBrace) => true,
            (Token::LSquare, Token::LSquare) => true,
            (Token::RSquare, Token::RSquare) => true,
            (Token::LParen, Token::LParen) => true,
            (Token::RParen, Token::RParen) => true,
            (Token::Comma, Token::Comma) => true,
            (Token::Body(a), Token::Body(b)) => same_text(a.as_str(), b.as_str()),
            (Token::EOF, Token::EOF) => true,
            (Token::Unknown(a), Token::Unknown(b)) => *a == *b,
            _ => false,
        }
    }
}

impl PartialEqSpecImpl for Token {
    open spec fn obeys_eq_spec() -> bool {
        true
    }

    open spec fn eq_spec(&self, other: &Token) -> bool {
        self@ == other@
    }
}

} // verus!
