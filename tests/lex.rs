use occ::lex::{is_reserved_words, letter, split_digit, LexError, Token, TokenIter};

#[test]
fn test_return() {
    let mut iter = TokenIter::new("return returns");
    println!("{:?}", iter.next());
    assert_eq!(" returns", iter.s);
    println!("{:?}", iter.next());
    assert_eq!("", iter.s);
}

#[test]
fn test_expr() {
    let mut iter = TokenIter::new("1 + 2 * 3");
    println!("{:?}", iter.next());
    assert_eq!(" + 2 * 3", iter.s);
    println!("{:?}", iter.next());
    assert_eq!(" 2 * 3", iter.s);
}

#[test]
fn test_consume() {
    let mut iter = TokenIter::new("1 + 2 * 3");
    println!("{:?}", iter.consume("1"));
    assert_eq!(" + 2 * 3", iter.s);
    println!("{:?}", iter.consume("+"));
    assert_eq!(" 2 * 3", iter.s);
}

#[test]
fn whitespace_only_yields_no_token() {
    for src in ["", " ", "   ", "\t\n  \r", "\u{3000}\u{a0} "] {
        let mut iter = TokenIter::new(src);
        assert_eq!(iter.next(), Ok(None));
        assert_eq!(iter.s, "");
    }
}

#[test]
fn maximal_munch_less_equal() {
    let mut iter = TokenIter::new("<=");
    assert_eq!(iter.next(), Ok(Some(Token::Operand("<="))));
    assert_eq!(iter.next(), Ok(None));
}

#[test]
fn maximal_munch_arrow() {
    let mut iter = TokenIter::new("=>");
    assert_eq!(iter.next(), Ok(Some(Token::Operand("=>"))));
    assert_eq!(iter.next(), Ok(None));
}

#[test]
fn maximal_munch_double_equal() {
    let mut iter = TokenIter::new("a==b=c");
    assert_eq!(iter.next(), Ok(Some(Token::LVar("a"))));
    assert_eq!(iter.next(), Ok(Some(Token::Operand("=="))));
    assert_eq!(iter.next(), Ok(Some(Token::LVar("b"))));
    assert_eq!(iter.next(), Ok(Some(Token::Operand("="))));
    assert_eq!(iter.next(), Ok(Some(Token::LVar("c"))));
    assert_eq!(iter.next(), Ok(None));
}

#[test]
fn keyword_needs_exact_match() {
    let mut iter = TokenIter::new("return");
    assert_eq!(iter.next(), Ok(Some(Token::Reserved("return"))));
    let mut iter = TokenIter::new("returns");
    assert_eq!(iter.next(), Ok(Some(Token::LVar("returns"))));
}

#[test]
fn all_keywords_are_reserved() {
    for w in ["return", "if", "else", "for", "while"] {
        assert!(is_reserved_words(w));
        let mut iter = TokenIter::new(w);
        assert_eq!(iter.next(), Ok(Some(Token::Reserved(w))));
    }
    assert!(!is_reserved_words("returns"));
    assert!(!is_reserved_words("whil"));
    assert!(!is_reserved_words(""));
}

#[test]
fn identifier_takes_underscores_not_digits() {
    let mut iter = TokenIter::new("  foo_bar9");
    assert_eq!(iter.next(), Ok(Some(Token::LVar("foo_bar"))));
    assert_eq!(iter.next(), Ok(Some(Token::Num(9))));
    assert_eq!(iter.next(), Ok(None));
}

#[test]
fn unicode_letters_start_identifiers() {
    let mut iter = TokenIter::new("été=1");
    assert_eq!(iter.next(), Ok(Some(Token::LVar("été"))));
    assert_eq!(iter.s, "=1");
}

#[test]
fn numbers_and_operators() {
    let mut iter = TokenIter::new("12*(3-40)/5;");
    let mut toks = Vec::new();
    while let Ok(Some(t)) = iter.next() {
        toks.push(t);
    }
    assert_eq!(
        toks,
        vec![
            Token::Num(12),
            Token::Operand("*"),
            Token::Operand("("),
            Token::Num(3),
            Token::Operand("-"),
            Token::Num(40),
            Token::Operand(")"),
            Token::Operand("/"),
            Token::Num(5),
            Token::Operand(";"),
        ]
    );
}

#[test]
fn largest_number() {
    let mut iter = TokenIter::new("18446744073709551615");
    assert_eq!(iter.next(), Ok(Some(Token::Num(u64::MAX))));
    let mut iter = TokenIter::new("18446744073709551616 x");
    assert_eq!(
        iter.next(),
        Err(LexError { rest: "18446744073709551616 x".to_string() })
    );
}

#[test]
fn unknown_character_is_lexical_error() {
    let mut iter = TokenIter::new("1 + @");
    assert_eq!(iter.next(), Ok(Some(Token::Num(1))));
    assert_eq!(iter.next(), Ok(Some(Token::Operand("+"))));
    assert_eq!(iter.next(), Err(LexError { rest: "@".to_string() }));
}

#[test]
fn split_digit_splits_after_digits() {
    assert_eq!(split_digit("123abc"), ("123", "abc"));
    assert_eq!(split_digit("abc"), ("", "abc"));
    assert_eq!(split_digit("42"), ("42", ""));
}

#[test]
fn expect_num_gives_value() {
    assert_eq!(Token::Num(7).expect_num(), 7);
}

#[test]
fn consume_leaves_source_on_mismatch() {
    let mut iter = TokenIter::new("  x + 1");
    assert!(!iter.consume("+"));
    assert_eq!(iter.s, "  x + 1");
    assert!(iter.consume("x"));
    assert_eq!(iter.s, " + 1");
}

#[test]
fn consume_reserved_needs_whole_word() {
    let mut iter = TokenIter::new(" iffy");
    assert!(!iter.consume_reserved("if"));
    assert_eq!(iter.s, " iffy");
    let mut iter = TokenIter::new(" if(x)");
    assert!(iter.consume_reserved("if"));
    assert_eq!(iter.s, "(x)");
}

#[test]
fn leading_whitespace_does_not_change_token() {
    for src in ["x1", "<= 2", "return", "42;", "@"] {
        let padded = format!(" \t\n {}", src);
        let mut a = TokenIter::new(src);
        let mut b = TokenIter::new(&padded);
        assert_eq!(a.next(), b.next());
        assert_eq!(a.s, b.s);
    }
}

#[test]
fn letters_ascii_and_beyond() {
    assert!(letter('a') && letter('Z') && letter('é') && letter('京'));
    assert!(!letter('1') && !letter('_') && !letter(' ') && !letter('@') && !letter('💝'));
}
