use expan_lexer::{tokenize, Lexer, Token};

fn ident(text: &str) -> Token {
    Token::Ident(text.to_string())
}

fn quoted(text: &str) -> Token {
    Token::Quoted(text.to_string())
}

/// Reads tokens up to and with the first `EOF`, at most `limit` of them.
fn read_all(input: &str, limit: usize) -> Vec<Token> {
    let mut lexer = Lexer::new(input);
    let mut tokens = Vec::new();
    while tokens.len() < limit {
        let token = lexer.next_token();
        let done = token == Token::EOF;
        tokens.push(token);
        if done {
            break;
        }
    }
    tokens
}

#[test]
fn empty_input_gives_eof() {
    let mut lexer = Lexer::new("");
    assert_eq!(lexer.next_token(), Token::EOF);
}

#[test]
fn whitespace_only_gives_eof_first() {
    for input in [" ", "    ", "\t", "\n", "\r\n", " \t\r\n \n\n\t  ", "\u{b}\u{c}"] {
        let mut lexer = Lexer::new(input);
        assert_eq!(lexer.next_token(), Token::EOF, "input {:?}", input);
    }
}

#[test]
fn unicode_whitespace_only_gives_eof_first() {
    for input in ["\u{a0}", "\u{85}", "\u{1680}", "\u{2003}\u{2028}\u{2029}", " \u{3000} \u{205f}"] {
        let mut lexer = Lexer::new(input);
        assert_eq!(lexer.next_token(), Token::EOF, "input {:?}", input);
    }
}

#[test]
fn eof_recurs_after_the_end() {
    let mut lexer = Lexer::new("foo");
    assert_eq!(lexer.next_token(), ident("foo"));
    for _ in 0..5 {
        assert_eq!(lexer.next_token(), Token::EOF);
    }
}

#[test]
fn eof_recurs_on_empty_input() {
    let mut lexer = Lexer::new("");
    for _ in 0..5 {
        assert_eq!(lexer.next_token(), Token::EOF);
    }
}

#[test]
fn eof_comes_after_as_many_calls_as_there_are_tokens() {
    let input = "expan foo [ \"a\" \"b\" ] mod m { }";
    let units = tokenize(input);
    assert_eq!(units.len(), 10);
    let mut lexer = Lexer::new(input);
    for unit in units.iter() {
        let token = lexer.next_token();
        assert_ne!(token, Token::EOF);
        assert_eq!(&token, unit);
    }
    assert_eq!(lexer.next_token(), Token::EOF);
    assert_eq!(lexer.next_token(), Token::EOF);
}

#[test]
fn every_input_ends_within_its_length() {
    for input in ["", "a", "a b c", "((((", "\"\"\"\"", "1 2 3", "a\"b\"c", "# $ %", ",,,"] {
        let tokens = read_all(input, input.chars().count() + 1);
        assert_eq!(tokens.last(), Some(&Token::EOF), "input {:?}", input);
        let eofs = tokens.iter().filter(|t| **t == Token::EOF).count();
        assert_eq!(eofs, 1, "input {:?}", input);
    }
}

#[test]
fn keyword_expan_alone() {
    assert_eq!(read_all("expan", 10), vec![Token::Expan, Token::EOF]);
}

#[test]
fn keyword_mod_alone() {
    assert_eq!(read_all("mod", 10), vec![Token::Module, Token::EOF]);
}

#[test]
fn keyword_is_not_matched_as_a_prefix() {
    assert_eq!(read_all("expanded", 10), vec![ident("expanded"), Token::EOF]);
    assert_eq!(read_all("model", 10), vec![ident("model"), Token::EOF]);
    assert_eq!(read_all("xexpan", 10), vec![ident("xexpan"), Token::EOF]);
}

#[test]
fn keyword_is_case_sensitive() {
    assert_eq!(read_all("Expan MOD", 10), vec![ident("Expan"), ident("MOD"), Token::EOF]);
}

#[test]
fn quoted_text_is_kept_without_its_quotes() {
    assert_eq!(read_all("\"hello world\"", 10), vec![quoted("hello world"), Token::EOF]);
}

#[test]
fn quoted_text_may_be_empty() {
    assert_eq!(read_all("\"\"", 10), vec![quoted(""), Token::EOF]);
}

#[test]
fn quoted_text_keeps_keywords_and_punctuation() {
    assert_eq!(
        read_all("\"expan [ mod ] , #(cap #name)\"", 10),
        vec![quoted("expan [ mod ] , #(cap #name)"), Token::EOF]
    );
}

#[test]
fn quoted_text_keeps_line_breaks() {
    assert_eq!(read_all("\"a\n  b\tc\"", 10), vec![quoted("a\n  b\tc"), Token::EOF]);
}

#[test]
fn quoted_text_has_no_escapes() {
    assert_eq!(
        read_all("\"a\\\"b\"", 10),
        vec![quoted("a\\"), ident("b"), Token::EOF]
    );
    assert_eq!(read_all("\"a\\nb\"", 10), vec![quoted("a\\nb"), Token::EOF]);
}

#[test]
fn quoted_texts_side_by_side() {
    assert_eq!(read_all("\"a\"\"b\"", 10), vec![quoted("a"), quoted("b"), Token::EOF]);
}

#[test]
fn punctuation_sequence() {
    assert_eq!(
        read_all("[ ] { } ( ) ,", 20),
        vec![
            Token::LSquare,
            Token::RSquare,
            Token::LBrace,
            Token::RBrace,
            Token::LParen,
            Token::RParen,
            Token::Comma,
            Token::EOF,
        ]
    );
}

#[test]
fn punctuation_without_spaces() {
    assert_eq!(
        read_all("[]{}(),", 20),
        vec![
            Token::LSquare,
            Token::RSquare,
            Token::LBrace,
            Token::RBrace,
            Token::LParen,
            Token::RParen,
            Token::Comma,
            Token::EOF,
        ]
    );
}

#[test]
fn digits_do_not_continue_a_word() {
    let mut lexer = Lexer::new("foo1");
    assert_eq!(lexer.next_token(), ident("foo"));
    // The cursor moves one character past the word, which here is the digit.
    assert_eq!(lexer.next_token(), Token::EOF);
}

#[test]
fn digit_after_a_space_gives_an_empty_word() {
    assert_eq!(read_all("foo 1", 10), vec![ident("foo"), ident(""), Token::EOF]);
    assert_eq!(read_all("1", 10), vec![ident(""), Token::EOF]);
    assert_eq!(read_all("12", 10), vec![ident(""), ident(""), Token::EOF]);
}

#[test]
fn digits_split_a_word() {
    assert_eq!(read_all("foo1bar", 10), vec![ident("foo"), ident("bar"), Token::EOF]);
    assert_eq!(read_all("expan2", 10), vec![Token::Expan, Token::EOF]);
}

#[test]
fn underscore_continues_a_word() {
    assert_eq!(
        read_all("_foo foo_bar __ mod_", 10),
        vec![ident("_foo"), ident("foo_bar"), ident("__"), ident("mod_"), Token::EOF]
    );
}

#[test]
fn words_may_hold_letters_of_any_script() {
    assert_eq!(
        read_all("größe naïve 名前 имя", 10),
        vec![ident("größe"), ident("naïve"), ident("名前"), ident("имя"), Token::EOF]
    );
}

#[test]
fn quoted_text_may_hold_characters_of_any_width() {
    assert_eq!(
        read_all("é \"héllo wörld 越 🦀\" ü", 10),
        vec![ident("é"), quoted("héllo wörld 越 🦀"), ident("ü"), Token::EOF]
    );
}

#[test]
fn unrecognized_character_gives_an_empty_word() {
    assert_eq!(read_all("#", 10), vec![ident(""), Token::EOF]);
    assert_eq!(read_all("# foo", 10), vec![ident(""), ident("foo"), Token::EOF]);
    assert_eq!(read_all("🦀 foo", 10), vec![ident(""), ident("foo"), Token::EOF]);
}

#[test]
fn unterminated_quote_is_read_to_the_end() {
    let mut lexer = Lexer::new("\"abc");
    assert_eq!(lexer.next_token(), quoted("abc"));
    assert_eq!(lexer.next_token(), Token::EOF);
    assert_eq!(lexer.next_token(), Token::EOF);
}

#[test]
fn lone_quote_gives_empty_quoted_text() {
    assert_eq!(read_all("\"", 10), vec![quoted(""), Token::EOF]);
    assert_eq!(read_all("a \"", 10), vec![ident("a"), quoted(""), Token::EOF]);
}

#[test]
fn unterminated_quote_keeps_trailing_whitespace() {
    assert_eq!(read_all("\"abc \n", 10), vec![quoted("abc \n"), Token::EOF]);
}

#[test]
fn end_to_end_expansion() {
    assert_eq!(
        read_all("expan foo [ \"body text\" ]", 20),
        vec![
            Token::Expan,
            ident("foo"),
            Token::LSquare,
            quoted("body text"),
            Token::RSquare,
            Token::EOF,
        ]
    );
}

#[test]
fn character_after_a_word_is_passed_over() {
    assert_eq!(read_all("expan[", 10), vec![Token::Expan, Token::EOF]);
    assert_eq!(
        read_all("jerry, harry", 10),
        vec![ident("jerry"), ident("harry"), Token::EOF]
    );
    assert_eq!(
        read_all("jerry , harry", 10),
        vec![ident("jerry"), Token::Comma, ident("harry"), Token::EOF]
    );
}

#[test]
fn character_after_a_closing_quote_is_read() {
    assert_eq!(
        read_all("\"a\",\"b\"]", 10),
        vec![quoted("a"), Token::Comma, quoted("b"), Token::RSquare, Token::EOF]
    );
}

#[test]
fn character_after_punctuation_is_read() {
    assert_eq!(
        read_all("[foo](bar)", 10),
        vec![Token::LSquare, ident("foo"), Token::LParen, ident("bar"), Token::EOF]
    );
}

#[test]
fn leading_and_trailing_whitespace_is_passed_over() {
    assert_eq!(read_all("  \n\t foo \n ", 10), vec![ident("foo"), Token::EOF]);
}

#[test]
fn advance_whitespace_stops_at_a_token() {
    let mut lexer = Lexer::new("   \n\t, foo");
    lexer.advance_whitespace();
    lexer.advance_whitespace();
    assert_eq!(lexer.next_token(), Token::Comma);
    lexer.advance_whitespace();
    assert_eq!(lexer.next_token(), ident("foo"));
    lexer.advance_whitespace();
    assert_eq!(lexer.next_token(), Token::EOF);
}

#[test]
fn advance_whitespace_on_empty_input() {
    let mut lexer = Lexer::new("");
    lexer.advance_whitespace();
    assert_eq!(lexer.next_token(), Token::EOF);
}

#[test]
fn advance_whitespace_leaves_a_token_in_place() {
    let mut lexer = Lexer::new("foo");
    lexer.advance_whitespace();
    assert_eq!(lexer.next_token(), ident("foo"));
}

#[test]
fn lexers_are_independent() {
    let mut first = Lexer::new("a b");
    let mut second = Lexer::new("( )");
    assert_eq!(first.next_token(), ident("a"));
    assert_eq!(second.next_token(), Token::LParen);
    assert_eq!(first.next_token(), ident("b"));
    assert_eq!(second.next_token(), Token::RParen);
    assert_eq!(first.next_token(), Token::EOF);
    assert_eq!(second.next_token(), Token::EOF);
}

#[test]
fn sample_program() {
    let stmt = r#"
    expan foo [
        "This is the body of the expansion."
    ]
    expan name [
        jerry,
        harry,
        dave,
    ]
    expan bar [
        "Foo says: #foo"
        "baz:Foo says: #baz:foo"
        " #(cap #name)"
    ]
    mod baz {
        expan foo [
            "This is the body of another expansion."
        ]
    }
    "#;
    assert_eq!(
        read_all(stmt, 100),
        vec![
            Token::Expan,
            ident("foo"),
            Token::LSquare,
            quoted("This is the body of the expansion."),
            Token::RSquare,
            Token::Expan,
            ident("name"),
            Token::LSquare,
            ident("jerry"),
            ident("harry"),
            ident("dave"),
            Token::RSquare,
            Token::Expan,
            ident("bar"),
            Token::LSquare,
            quoted("Foo says: #foo"),
            quoted("baz:Foo says: #baz:foo"),
            quoted(" #(cap #name)"),
            Token::RSquare,
            Token::Module,
            ident("baz"),
            Token::LBrace,
            Token::Expan,
            ident("foo"),
            Token::LSquare,
            quoted("This is the body of another expansion."),
            Token::RSquare,
            Token::RBrace,
            Token::EOF,
        ]
    );
}

#[test]
fn tokenize_leaves_out_the_end_marker() {
    assert_eq!(
        tokenize("expan foo [ \"body text\" ]"),
        vec![Token::Expan, ident("foo"), Token::LSquare, quoted("body text"), Token::RSquare]
    );
}

#[test]
fn tokenize_of_nothing_is_empty() {
    assert_eq!(tokenize(""), Vec::<Token>::new());
    assert_eq!(tokenize(" \n\t "), Vec::<Token>::new());
}

#[test]
fn tokenize_agrees_with_repeated_reading() {
    for input in ["", "a", "expan mod", "\"q\" [ x ] ,", "foo1 2", "\"open", "é 越"] {
        let mut all = tokenize(input);
        all.push(Token::EOF);
        assert_eq!(all, read_all(input, 100), "input {:?}", input);
    }
}
