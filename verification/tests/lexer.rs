use desert::lexer::{tokenize, Lexer, Token};

#[test]
fn test_basic_tokens() {
    let input = "let x = 10\ndef foo():\n    return x";
    let mut lexer = Lexer::new(input);

    assert_eq!(lexer.next().unwrap().unwrap().0, Token::Let);
    assert_eq!(
        lexer.next().unwrap().unwrap().0,
        Token::Ident("x".to_string())
    );
    assert_eq!(lexer.next().unwrap().unwrap().0, Token::Assign);
    assert_eq!(lexer.next().unwrap().unwrap().0, Token::Int(10));
    assert_eq!(lexer.next().unwrap().unwrap().0, Token::Def);
}

#[test]
fn indentation_produces_indent_and_dedent() {
    let tokens = tokenize("if x:\n    y\nz").unwrap();
    let kinds: Vec<Token> = tokens.into_iter().map(|(t, _)| t).collect();
    assert_eq!(
        kinds,
        vec![
            Token::If,
            Token::Ident("x".to_string()),
            Token::Colon,
            Token::Indent,
            Token::Ident("y".to_string()),
            Token::Dedent,
            Token::Ident("z".to_string()),
        ]
    );
}

#[test]
fn spans_are_character_offsets() {
    let tokens = tokenize("let x = 10").unwrap();
    assert_eq!(tokens[0].1, 0..3);
    assert_eq!(tokens[1].1, 4..5);
    assert_eq!(tokens[3].1, 8..10);
}

#[test]
fn float_literals_keep_shortest_text() {
    let tokens = tokenize("1.50 007.0 0.25").unwrap();
    assert_eq!(tokens[0].0, Token::Float("1.5".to_string()));
    assert_eq!(tokens[1].0, Token::Float("7".to_string()));
    assert_eq!(tokens[2].0, Token::Float("0.25".to_string()));
}

#[test]
fn bad_dedent_is_a_lexing_error() {
    assert!(tokenize("if x:\n        y\n    z").is_err());
}

#[test]
fn unknown_character_is_a_lexing_error() {
    assert!(tokenize("let x = ^").is_err());
}

#[test]
fn spans_are_byte_offsets() {
    let tokens = tokenize("let s = \"é\"\nlet t = 1").unwrap();
    let lets: Vec<std::ops::Range<usize>> = tokens
        .iter()
        .filter(|t| t.0 == Token::Let)
        .map(|t| t.1.clone())
        .collect();
    assert_eq!(lets, vec![0..3, 13..16]);
    let strings: Vec<std::ops::Range<usize>> = tokens
        .iter()
        .filter(|t| matches!(t.0, Token::String(_)))
        .map(|t| t.1.clone())
        .collect();
    assert_eq!(strings, vec![8..12]);
}
