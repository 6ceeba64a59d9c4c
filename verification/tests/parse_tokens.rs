use calculator::lexer::{lex, parse_tokens};
use calculator::token::{Token, TokenPrio, TokenType};

#[test]
fn parse_1_token() {
    let expected = vec![
        Token { value: (String::from("1")),     ttype: (TokenType::Number),     prio: (TokenPrio::NONE) },
    ];

    let input = String::from("1");
    let actual = parse_tokens(&input);

    assert_eq!(expected.len(), actual.len());
    for i in 0..expected.len() {
        assert_eq!(&expected[i], &actual[i]);
    }
}

#[test]
fn parse_3_tokens() {
    let expected = vec![
        Token { value: (String::from("109")),   ttype: (TokenType::Number),     prio: (TokenPrio::NONE) },
        Token { value: (String::from("*")),     ttype: (TokenType::Multiply),   prio: (TokenPrio::MUL)  },
        Token { value: (String::from("15")),    ttype: (TokenType::Number),     prio: (TokenPrio::NONE) },
    ];

    let input = String::from("109 * 15");
    let actual = parse_tokens(&input);

    assert_eq!(expected.len(), actual.len());
    for i in 0..expected.len() {
        assert_eq!(&expected[i], &actual[i]);
    }
}

#[test]
fn parse_parens() {
    let expected = vec![
        Token { value: (String::from("1")),     ttype: (TokenType::Number),     prio: (TokenPrio::NONE) },
        Token { value: (String::from("+")),     ttype: (TokenType::Addition),   prio: (TokenPrio::ADD)  },
        Token { value: (String::from("(")),     ttype: (TokenType::ParenOpen),  prio: (TokenPrio::PAR)  },
        Token { value: (String::from("3")),     ttype: (TokenType::Number),     prio: (TokenPrio::NONE) },
        Token { value: (String::from(")")),     ttype: (TokenType::ParenClose), prio: (TokenPrio::PAR)  },
    ];

    let input = String::from("1 + ( 3 )");
    let actual = parse_tokens(&input);

    assert_eq!(expected.len(), actual.len());
    for i in 0..expected.len() {
        assert_eq!(&expected[i], &actual[i]);
    }
}

#[test]
fn parse_exponents() {
    let expected = vec![
        Token { value: (String::from("2")),     ttype: (TokenType::Number),     prio: (TokenPrio::NONE) },
        Token { value: (String::from("^")),     ttype: (TokenType::Exponent),   prio: (TokenPrio::EXP)  },
        Token { value: (String::from("4")),     ttype: (TokenType::Number),     prio: (TokenPrio::NONE) },
    ];

    let input = String::from("2 ^ 4");
    let actual = parse_tokens(&input);

    assert_eq!(expected.len(), actual.len());
    for i in 0..expected.len() {
        assert_eq!(&expected[i], &actual[i]);
    }
}

#[test]
fn parse_negatives() {
    let expected = vec![
        Token { value: (String::from("-1")),    ttype: (TokenType::Number),     prio: (TokenPrio::NONE) },
        Token { value: (String::from("-")),     ttype: (TokenType::Subtract),   prio: (TokenPrio::SUB)  },
        Token { value: (String::from("(")),     ttype: (TokenType::ParenOpen),  prio: (TokenPrio::PAR)  },
        Token { value: (String::from("-1")),    ttype: (TokenType::Number),     prio: (TokenPrio::NONE) },
        Token { value: (String::from(")")),     ttype: (TokenType::ParenClose), prio: (TokenPrio::PAR)  },
    ];

    let input = String::from("-1 - ( -1 )");
    let actual = parse_tokens(&input);

    assert_eq!(expected.len(), actual.len());
    for i in 0..expected.len() {
        assert_eq!(&expected[i], &actual[i]);
    }
}

#[test]
fn parse_many() {
    let expected = vec![
        Token { value: (String::from("-1")),    ttype: (TokenType::Number),     prio: (TokenPrio::NONE) },
        Token { value: (String::from("+")),     ttype: (TokenType::Addition),   prio: (TokenPrio::ADD)  },
        Token { value: (String::from("2")),     ttype: (TokenType::Number),     prio: (TokenPrio::NONE) },
        Token { value: (String::from("*")),     ttype: (TokenType::Multiply),   prio: (TokenPrio::MUL)  },
        Token { value: (String::from("(")),     ttype: (TokenType::ParenOpen),  prio: (TokenPrio::PAR)  },
        Token { value: (String::from("-3")),    ttype: (TokenType::Number),     prio: (TokenPrio::NONE) },
        Token { value: (String::from("-")),     ttype: (TokenType::Subtract),   prio: (TokenPrio::SUB)  },
        Token { value: (String::from("(")),     ttype: (TokenType::ParenOpen),  prio: (TokenPrio::PAR)  },
        Token { value: (String::from("-5")),    ttype: (TokenType::Number),     prio: (TokenPrio::NONE) },
        Token { value: (String::from(")")),     ttype: (TokenType::ParenClose), prio: (TokenPrio::PAR)  },
        Token { value: (String::from(")")),     ttype: (TokenType::ParenClose), prio: (TokenPrio::PAR)  },
        Token { value: (String::from("^")),     ttype: (TokenType::Exponent),   prio: (TokenPrio::EXP)  },
        Token { value: (String::from("(")),     ttype: (TokenType::ParenOpen),  prio: (TokenPrio::PAR)  },
        Token { value: (String::from("4")),     ttype: (TokenType::Number),     prio: (TokenPrio::NONE) },
        Token { value: (String::from(")")),     ttype: (TokenType::ParenClose), prio: (TokenPrio::PAR)  },
    ];

    let input = String::from("-1 + 2 * ( -3 - ( -5 ) ) ^ ( 4 )");
    let actual = parse_tokens(&input);

    assert_eq!(expected.len(), actual.len());
    for i in 0..expected.len() {
        assert_eq!(&expected[i], &actual[i]);
    }
}

#[test]
fn parse_each_symbol() {
    let actual = parse_tokens(&String::from("+ - * / ^ ( )"));
    let kinds: Vec<TokenType> = actual.iter().map(|t| t.ttype).collect();
    assert_eq!(
        kinds,
        vec![
            TokenType::Addition,
            TokenType::Subtract,
            TokenType::Multiply,
            TokenType::Division,
            TokenType::Exponent,
            TokenType::ParenOpen,
            TokenType::ParenClose,
        ]
    );
    let prios: Vec<i8> = actual.iter().map(|t| t.prio).collect();
    assert_eq!(prios, vec![1, 1, 2, 2, 3, 4, 4]);
    let texts: Vec<&str> = actual.iter().map(|t| t.value.as_str()).collect();
    assert_eq!(texts, vec!["+", "-", "*", "/", "^", "(", ")"]);
}

#[test]
fn parse_empty_text_gives_no_token() {
    assert_eq!(parse_tokens(&String::from("")).len(), 0);
}

#[test]
fn parse_leaves_out_an_unknown_character_and_goes_on() {
    let out = lex(&String::from("1 a 2 & 3"));
    let texts: Vec<&str> = out.tokens.iter().map(|t| t.value.as_str()).collect();
    assert_eq!(texts, vec!["1", "2", "3"]);
    assert_eq!(out.unknown, vec![String::from("a"), String::from("&")]);
}

#[test]
fn parse_stops_at_a_longer_piece_that_is_no_number() {
    let out = lex(&String::from("1 + ab 2"));
    let texts: Vec<&str> = out.tokens.iter().map(|t| t.value.as_str()).collect();
    assert_eq!(texts, vec!["1", "+"]);
    assert_eq!(out.unknown.len(), 0);
}

#[test]
fn parse_stops_at_an_empty_piece() {
    let texts: Vec<String> =
        parse_tokens(&String::from("1  2")).into_iter().map(|t| t.value).collect();
    assert_eq!(texts, vec![String::from("1")]);
    let texts: Vec<String> =
        parse_tokens(&String::from("1 + ")).into_iter().map(|t| t.value).collect();
    assert_eq!(texts, vec![String::from("1"), String::from("+")]);
}

#[test]
fn parse_takes_the_special_numbers() {
    let actual = parse_tokens(&String::from("inf + -inf * NaN - 1e3 / .5"));
    let kinds: Vec<TokenType> = actual.iter().map(|t| t.ttype).collect();
    assert_eq!(
        kinds,
        vec![
            TokenType::Number,
            TokenType::Addition,
            TokenType::Number,
            TokenType::Multiply,
            TokenType::Number,
            TokenType::Subtract,
            TokenType::Number,
            TokenType::Division,
            TokenType::Number,
        ]
    );
}

#[test]
fn token_new_tags_by_kind() {
    let t = Token::new(String::from("^"), TokenType::Exponent);
    assert_eq!(t, Token { value: String::from("^"), ttype: TokenType::Exponent, prio: TokenPrio::EXP });
    assert_eq!(TokenType::Number.priority(), TokenPrio::NONE);
    assert_eq!(TokenType::ParenClose.priority(), TokenPrio::MAX);
    assert_eq!(t.duplicate(), t);
    assert!(TokenType::Division.is_binary());
    assert!(!TokenType::ParenOpen.is_binary());
    assert!(!TokenType::Number.is_binary());
}
