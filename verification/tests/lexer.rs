use std::error::Error;

use lib::lexer::{
    Keyword, Lexer, Operator, OperatorTokenData, ParsingError, ParsingErrorKind, Separator,
    TokenKind,
};

#[test]
fn test_advance_by() {
    let code = "main()";
    let mut lexer = Lexer::new(code);
    lexer.skip_char_while(char::is_whitespace);
    lexer.advance_by("main".len());
    assert_eq!(lexer.peek_char().unwrap(), '(');
}

#[test]
fn test_dont_skip_char() {
    let code = "main()";
    let mut lexer = Lexer::new(code);
    assert!(lexer.tokenize_id().is_some());
    lexer.skip_char_while(char::is_whitespace);
    assert_eq!(lexer.peek_char().unwrap(), '(');

    let res = lexer.tokenize_separator();
    assert!(matches!(
        res.unwrap().kind(),
        TokenKind::Separator(Separator::BracketOpen)
    ));
}

#[test]
fn test_id_advance() {
    let code = "main()";
    let mut lexer = Lexer::new(code);
    lexer.skip_char_while(char::is_whitespace);
    let res = lexer.tokenize_id();
    assert!(res.is_some());
    assert_eq!(lexer.peek_char().unwrap(), '(');
}

#[test]
fn test_keyword_lexing() {
    let code = "let";
    let mut lexer = Lexer::new(code);

    let res = lexer.tokenize_keyword();
    assert!(res.is_some());
    assert!(matches!(
        res.unwrap().kind(),
        TokenKind::Keyword(Keyword::Let)
    ));
}

#[test]
fn test_keyword_lexing_boundry() {
    let code = "letting";
    let mut lexer = Lexer::new(code);

    let res = lexer.tokenize_keyword();
    assert!(res.is_none());
}

#[test]
fn test_id() {
    let code = "var1";
    let mut lexer = Lexer::new(code);
    let res = lexer.tokenize_id();
    assert!(res.is_some());
    assert!(matches!(
        res.unwrap().kind(),
        TokenKind::Identifier(s) if s == "var1"
    ));
}

#[test]
fn test_id_extra() {
    let code = "var1=";
    let mut lexer = Lexer::new(code);
    let res = lexer.tokenize_id();
    assert!(res.is_some());
    assert!(matches!(
        res.unwrap().kind(),
        TokenKind::Identifier(s) if s == "var1"
    ));
}

#[test]
fn test_id_extra2() {
    let code = " main(";
    let mut lexer = Lexer::new(code);
    lexer.skip_char_while(char::is_whitespace);
    let res = lexer.tokenize_id();
    assert!(res.is_some());
    assert!(matches!(
        res.unwrap().kind(),
        TokenKind::Identifier(s) if s == "main"
    ));
}

#[test]
fn test_id_boundary() {
    let code = "va_r1()";
    let mut lexer = Lexer::new(code);
    let res = lexer.tokenize_id();
    assert!(res.is_some());
    assert!(matches!(
        res.unwrap().kind(),
        TokenKind::Identifier(s) if s == "va_r1"
    ));
}

#[test]
fn test_string_full() {
    let code = r#""inner""#;
    let mut lexer = Lexer::new(code);
    let res = lexer.tokenize_string();
    assert!(res.is_some());
    match res.unwrap().kind() {
        TokenKind::ConstantString(s) => assert_eq!(*s, "inner".to_owned()),
        _ => panic!(),
    }
}

#[test]
fn test_string_with_special() {
    let code = r#""in\"n\"er""#;
    let mut lexer = Lexer::new(code);
    let res = lexer.tokenize_string();
    assert!(res.is_some());
    match res.unwrap().kind() {
        TokenKind::ConstantString(s) => assert_eq!(*s, "in\"n\"er".to_owned()),
        _ => panic!(),
    }
}

#[test]
fn test_string_incomplete() {
    let code = r#""inner"#;
    let mut lexer = Lexer::new(code);
    let res = lexer.tokenize_string();
    assert!(res.is_none());
}

#[test]
fn test_integer() {
    let code = "69420";
    let mut lexer = Lexer::new(code);
    let res = lexer.tokenize_integer();
    assert!(matches!(
        res.unwrap().unwrap().kind(),
        TokenKind::Integer(69420)
    ));
}

#[test]
fn test_number() {
    let code = "69.420";
    let mut lexer = Lexer::new(code);
    let res = lexer.tokenize_number();
    assert!(matches!(
        res.unwrap().unwrap().kind(),
        TokenKind::Number(s) if s.parse::<f64>().unwrap() == 69.420
    ));
}

#[test]
fn test_integer_incorrect() {
    let code = "v69420";
    let mut lexer = Lexer::new(code);
    let res = lexer.tokenize_integer();
    assert!(res.unwrap().is_none());
}

#[test]
fn test_integer_incorrect_too_large() {
    let code = "69420000000000000000000000000000";
    let mut lexer = Lexer::new(code);
    let res = lexer.tokenize_integer();
    assert!(res.is_err());
}

#[test]
fn test_separator() {
    let code = "(";
    let mut lexer = Lexer::new(code);
    let res = lexer.tokenize_separator();
    assert!(res.is_some());
    assert!(matches!(
        res.unwrap().kind(),
        TokenKind::Separator(Separator::BracketOpen)
    ));
}

#[test]
fn test_separator_fail() {
    let code = "0";
    let mut lexer = Lexer::new(code);
    let res = lexer.tokenize_separator();
    assert!(res.is_none());
}

#[test]
fn test_bool_true() {
    let code = "true";
    let mut lexer = Lexer::new(code);
    let res = lexer.tokenize_bool();
    assert!(matches!(res.unwrap().kind(), TokenKind::Boolean(true)));
}

#[test]
fn test_bool_false() {
    let code = "false";
    let mut lexer = Lexer::new(code);
    let res = lexer.tokenize_bool();
    assert!(matches!(res.unwrap().kind(), TokenKind::Boolean(false)));
}

#[test]
fn test_bool_true_with_extra() {
    let code = "trueer";
    let mut lexer = Lexer::new(code);
    let res = lexer.tokenize_bool();
    assert!(res.is_none());
}

#[test]
fn test_bool_true_with_extra2() {
    let code = "true()";
    let mut lexer = Lexer::new(code);
    let res = lexer.tokenize_bool();
    assert!(res.is_some());
    assert!(matches!(res.unwrap().kind(), TokenKind::Boolean(true)));
}

#[test]
fn test_tokenize_snippet() -> Result<(), Box<dyn Error>> {
    let code = "fun main() {}";
    let mut lexer = Lexer::new(code);
    lexer.tokenize().unwrap();
    let tokens = lexer.tokens();

    let expected = [
        TokenKind::Keyword(Keyword::Function),
        TokenKind::Identifier("main".to_string()),
        TokenKind::Separator(Separator::BracketOpen),
        TokenKind::Separator(Separator::BracketClose),
        TokenKind::Separator(Separator::BlockOpen),
        TokenKind::Separator(Separator::BlockClose),
    ];

    assert_eq!(tokens.len(), expected.len());
    for (t, e) in tokens.iter().zip(expected.iter()) {
        assert_eq!(t.kind(), e);
    }

    Ok(())
}

// Further cases.

#[test]
fn keyword_from_str_each_keyword() {
    assert_eq!(Keyword::from_str("fun"), Some(Keyword::Function));
    assert_eq!(Keyword::from_str("let"), Some(Keyword::Let));
    assert_eq!(Keyword::from_str("if"), Some(Keyword::If));
    assert_eq!(Keyword::from_str("else"), Some(Keyword::Else));
    assert_eq!(Keyword::from_str("elif"), Some(Keyword::Elif));
    assert_eq!(Keyword::from_str("lets"), None);
    assert_eq!(Keyword::from_str(""), None);
}

#[test]
fn operator_from_str_and_priorities() {
    assert_eq!(Operator::from_str("="), Some(Operator::Assign));
    assert_eq!(Operator::from_str("+"), None);
    let plus = OperatorTokenData { operator: Operator::Plus, unary: false };
    let minus = OperatorTokenData { operator: Operator::Minus, unary: true };
    let assign = OperatorTokenData { operator: Operator::Assign, unary: false };
    assert_eq!(plus.get_priority(), 6);
    assert_eq!(minus.get_priority(), 6);
    assert_eq!(assign.get_priority(), 1);
}

#[test]
fn separator_from_char_and_priorities() {
    let pairs = [
        ('(', Separator::BracketOpen),
        (')', Separator::BracketClose),
        ('{', Separator::BlockOpen),
        ('}', Separator::BlockClose),
        ('[', Separator::ArrayOpen),
        (']', Separator::ArrayClose),
        ('.', Separator::Dot),
        (',', Separator::Comma),
        (';', Separator::End),
        (':', Separator::Colon),
    ];
    for (c, s) in pairs.iter() {
        assert_eq!(Separator::from_char(*c), Some(*s));
    }
    assert_eq!(Separator::from_char('a'), None);
    assert_eq!(Separator::BlockOpen.get_priority(), 1);
    assert_eq!(Separator::BlockClose.get_priority(), 2);
    assert_eq!(Separator::Dot.get_priority(), 2);
    assert_eq!(Separator::Comma.get_priority(), -1);
}

#[test]
fn parsing_error_new_has_no_message() {
    let e = ParsingError::new(ParsingErrorKind::UnknownCharacter, 3, 7);
    assert_eq!(e.error_type, ParsingErrorKind::UnknownCharacter);
    assert_eq!(e.message, None);
    assert_eq!(e.row, 3);
    assert_eq!(e.column, 7);
}

#[test]
fn token_positions_and_priority() {
    let mut lexer = Lexer::new("a\n  b");
    lexer.tokenize().unwrap();
    let tokens = lexer.tokens();
    assert_eq!(tokens.len(), 2);
    assert_eq!(tokens[0].get_row(), 0);
    assert_eq!(tokens[0].get_column(), 0);
    assert_eq!(tokens[1].get_row(), 1);
    assert_eq!(tokens[1].get_column(), 2);
    assert_eq!(tokens[0].get_priority(), -1);
}

#[test]
fn tokenize_unknown_character_is_an_error() {
    let mut lexer = Lexer::new("a = 1");
    let err = lexer.tokenize().unwrap_err();
    assert_eq!(err.error_type, ParsingErrorKind::UnknownCharacter);
    assert_eq!(err.row, 0);
    assert_eq!(err.column, 1);
    assert_eq!(lexer.tokens().len(), 1);
}

#[test]
fn tokenize_integer_too_large_is_an_error() {
    let mut lexer = Lexer::new("99999999999999999999");
    let err = lexer.tokenize().unwrap_err();
    assert_eq!(err.error_type, ParsingErrorKind::InvalidIntegerConstant);
}

#[test]
fn tokenize_mixed_snippet() {
    let mut lexer = Lexer::new("let x 12; if true { y }");
    lexer.tokenize().unwrap();
    let kinds: Vec<TokenKind> = lexer.tokens().iter().map(|t| t.kind().clone()).collect();
    assert_eq!(
        kinds,
        vec![
            TokenKind::Keyword(Keyword::Let),
            TokenKind::Identifier("x".to_string()),
            TokenKind::Integer(12),
            TokenKind::Separator(Separator::End),
            TokenKind::Keyword(Keyword::If),
            TokenKind::Boolean(true),
            TokenKind::Separator(Separator::BlockOpen),
            TokenKind::Identifier("y".to_string()),
            TokenKind::Separator(Separator::BlockClose),
        ]
    );
}

#[test]
fn tokenize_ascii_refuses_other_characters() {
    let mut lexer = Lexer::new("let é");
    assert!(lexer.tokenize_ascii().is_none());
    assert_eq!(lexer.tokens().len(), 0);
    assert_eq!(lexer.peek_char(), Some('l'));

    let mut lexer = Lexer::new("fun f");
    assert_eq!(lexer.tokenize_ascii(), Some(Ok(())));
    assert_eq!(lexer.tokens().len(), 2);
}

#[test]
fn number_with_two_points_is_an_error() {
    let mut lexer = Lexer::new("1.2.3");
    let res = lexer.tokenize_number();
    assert_eq!(res.unwrap_err().error_type, ParsingErrorKind::InvalidNumberConstant);
}

#[test]
fn number_without_point() {
    let mut lexer = Lexer::new("42 ");
    let res = lexer.tokenize_number().unwrap().unwrap();
    assert!(matches!(res.kind(), TokenKind::Number(s) if s == "42"));
    assert_eq!(lexer.peek_char(), Some(' '));
}

#[test]
fn convert_special_and_bool_from_str() {
    assert_eq!(Lexer::convert_special("\\n"), Some('\n'));
    assert_eq!(Lexer::convert_special("\\\""), Some('"'));
    assert_eq!(Lexer::convert_special("\\'"), Some('\''));
    assert_eq!(Lexer::convert_special("\\t"), Some('\t'));
    assert_eq!(Lexer::convert_special("\\\\"), Some('\\'));
    assert_eq!(Lexer::convert_special("\\x"), None);
    assert_eq!(Lexer::convert_special("n"), None);
    assert_eq!(Lexer::bool_from_str("true"), Some(true));
    assert_eq!(Lexer::bool_from_str("false"), Some(false));
    assert_eq!(Lexer::bool_from_str("True"), None);
}

#[test]
fn is_string_and_collect() {
    let mut lexer = Lexer::new("hello world");
    assert!(lexer.is_string("hello"));
    assert!(!lexer.is_string("help"));
    let word = lexer.collect_char_while(char::is_alphabetic);
    assert_eq!(word, Some("hello".to_string()));
    lexer.skip_char_while(char::is_whitespace);
    assert_eq!(lexer.peek_char(), Some('w'));
    assert_eq!(lexer.take_string(), Some("world".to_string()));
}

#[test]
fn take_string_reads_no_quoted_literal() {
    let mut lexer = Lexer::new("\"ab\" rest");
    assert_eq!(lexer.take_string(), None);
    assert_eq!(lexer.peek_char(), Some('"'));
}

#[test]
fn string_token_moves_only_past_escapes_and_two_characters() {
    let mut lexer = Lexer::new("\"a\\tb\"");
    let tok = lexer.tokenize_string().unwrap();
    assert!(matches!(tok.kind(), TokenKind::ConstantString(s) if s == "a\tb"));
    assert_eq!(lexer.peek_char(), Some('t'));
}

#[test]
fn integer_at_the_end_of_the_code_is_followed_by_an_error() {
    let mut lexer = Lexer::new("12");
    let err = lexer.tokenize().unwrap_err();
    assert_eq!(err.error_type, ParsingErrorKind::UnknownCharacter);
    assert_eq!(lexer.tokens().len(), 1);
}

#[test]
fn identifier_with_digits_and_underscores() {
    let mut lexer = Lexer::new("x1_y2");
    let res = lexer.tokenize_id().unwrap();
    assert!(matches!(res.kind(), TokenKind::Identifier(s) if s == "x1_y2"));
    assert_eq!(lexer.peek_char(), None);
}

#[test]
fn white_space_is_what_char_says_it_is() {
    for u in 0u32..=0x10FFFF {
        if let Some(c) = char::from_u32(u) {
            assert_eq!(lib::chars::is_whitespace(c), c.is_whitespace(), "{:x}", u);
        }
    }
}
