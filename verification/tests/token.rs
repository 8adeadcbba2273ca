use easify::{classify, lex, punct_token, word_token, RawToken, Token};

fn word(text: &str) -> RawToken {
    RawToken::Word(text.to_string())
}

fn name(text: &str) -> Token {
    Token::Ident(text.to_string())
}

#[test]
fn three_marks_have_a_meaning() {
    assert_eq!(punct_token('*'), Token::Star);
    assert_eq!(punct_token(','), Token::Comma);
    assert_eq!(punct_token('='), Token::Assign);
}

#[test]
fn every_other_mark_is_out_of_place() {
    for c in [';', '+', '-', '&', '.', ':', '!', '<', ' ', 'a', '0'] {
        assert_eq!(punct_token(c), Token::Other);
    }
}

#[test]
fn mut_is_the_marker_whatever_else_is_known() {
    assert_eq!(word_token("mut", true), Token::Mut);
    assert_eq!(word_token("mut", false), Token::Mut);
}

#[test]
fn a_word_is_a_name_only_if_it_can_name() {
    assert_eq!(word_token("items", true), name("items"));
    assert_eq!(word_token("items", false), Token::Other);
    assert_eq!(word_token("mu", true), name("mu"));
    assert_eq!(word_token("mutt", true), name("mutt"));
    assert_eq!(word_token("", true), name(""));
}

#[test]
fn classify_takes_marks_by_their_character() {
    assert_eq!(classify(&RawToken::Punct('*')), Token::Star);
    assert_eq!(classify(&RawToken::Punct(',')), Token::Comma);
    assert_eq!(classify(&RawToken::Punct('=')), Token::Assign);
    assert_eq!(classify(&RawToken::Punct('#')), Token::Other);
    assert_eq!(classify(&RawToken::Other), Token::Other);
}

#[test]
fn classify_takes_identifiers_for_names() {
    assert_eq!(classify(&word("a")), name("a"));
    assert_eq!(classify(&word("unpacking")), name("unpacking"));
    assert_eq!(classify(&word("x1")), name("x1"));
    assert_eq!(classify(&word("_tail")), name("_tail"));
    assert_eq!(classify(&word("mut")), Token::Mut);
}

#[test]
fn classify_takes_no_keyword_for_a_name() {
    for keyword in ["fn", "let", "self", "Self", "match", "true", "_"] {
        assert_eq!(classify(&word(keyword)), Token::Other);
    }
}

#[test]
fn classify_takes_nothing_but_one_identifier_for_a_name() {
    for text in ["", "1x", "two words", "a,b", "a-b", "*", "(a)"] {
        assert_eq!(classify(&word(text)), Token::Other);
    }
}

#[test]
fn lex_classifies_one_for_one() {
    let raw = vec![
        RawToken::Punct('*'),
        word("mut"),
        word("a"),
        RawToken::Punct(','),
        word("b"),
        RawToken::Punct('='),
        word("xs"),
        RawToken::Other,
        word("fn"),
        RawToken::Punct('?'),
    ];
    assert_eq!(
        lex(&raw),
        vec![
            Token::Star,
            Token::Mut,
            name("a"),
            Token::Comma,
            name("b"),
            Token::Assign,
            name("xs"),
            Token::Other,
            Token::Other,
            Token::Other,
        ]
    );
    assert_eq!(lex(&[]), Vec::<Token>::new());
}
