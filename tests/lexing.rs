use asmfront::lexer::{lex_content, Lexer, Token, TokenType};

fn all_tokens(text: &str) -> Vec<Token> {
    let mut l = Lexer::new(text.to_string());
    let mut out = vec![];
    let mut r = l.retrieve_next_token();
    while r.is_ok() {
        out.push(r.unwrap());
        r = l.retrieve_next_token();
    }
    out
}

fn kinds_and_literals(tokens: &[Token]) -> Vec<(TokenType, String)> {
    tokens.iter().map(|t| (t.token_type, t.literal.clone())).collect()
}

#[test]
fn lexing_content() {
    let mut l = Lexer::new("INCLUDE \"foo.asm\"\n; simple comment".to_string());

    let expected_tokens = vec![
        Token { literal: "INCLUDE".to_string(), token_type: TokenType::Identifier },
        Token { literal: " ".to_string(), token_type: TokenType::Space },
        Token { literal: "\"".to_string(), token_type: TokenType::DoubleQuote },
        Token { literal: "foo".to_string(), token_type: TokenType::Identifier },
        Token { literal: ".".to_string(), token_type: TokenType::Dot },
        Token { literal: "asm".to_string(), token_type: TokenType::Identifier },
        Token { literal: "\"".to_string(), token_type: TokenType::DoubleQuote },
        Token { literal: "\n".to_string(), token_type: TokenType::LineBreak },
        Token { literal: ";".to_string(), token_type: TokenType::SemiColon },
        Token { literal: " ".to_string(), token_type: TokenType::Space },
        Token { literal: "simple".to_string(), token_type: TokenType::Identifier },
        Token { literal: " ".to_string(), token_type: TokenType::Space },
        Token { literal: "comment".to_string(), token_type: TokenType::Identifier },
    ];

    let mut output_tokens = vec![];
    let mut r = l.retrieve_next_token();

    while r.is_ok() {
        output_tokens.push(r.unwrap());
        r = l.retrieve_next_token();
    }

    assert_eq!(expected_tokens.len(), output_tokens.len());
    for i in 0..expected_tokens.len() {
        let exp_tok: Token = expected_tokens[i].clone();
        let output_tok: Token = output_tokens[i].clone();

        assert_eq!(exp_tok.literal, output_tok.literal);
        assert_eq!(exp_tok.token_type, output_tok.token_type);
    }
}

#[test]
fn empty_text_has_no_tokens() {
    let mut l = Lexer::new(String::new());
    assert!(l.retrieve_next_token().is_err());
    assert!(l.retrieve_next_token().is_err());
}

#[test]
fn single_character_text_gives_one_token() {
    assert_eq!(kinds_and_literals(&all_tokens("x")), vec![(TokenType::Identifier, "x".to_string())]);
    assert_eq!(kinds_and_literals(&all_tokens(",")), vec![(TokenType::Comma, ",".to_string())]);
}

#[test]
fn punctuation_and_whitespace_kinds() {
    let got = kinds_and_literals(&all_tokens("/\",.;\t \n#"));
    let want = vec![
        (TokenType::Slash, "/".to_string()),
        (TokenType::DoubleQuote, "\"".to_string()),
        (TokenType::Comma, ",".to_string()),
        (TokenType::Dot, ".".to_string()),
        (TokenType::SemiColon, ";".to_string()),
        (TokenType::Tab, "\t".to_string()),
        (TokenType::Space, " ".to_string()),
        (TokenType::LineBreak, "\n".to_string()),
        (TokenType::Unknown, "#".to_string()),
    ];
    assert_eq!(got, want);
}

#[test]
fn identifier_is_the_maximal_run() {
    let got = kinds_and_literals(&all_tokens("ab_1c+d"));
    let want = vec![
        (TokenType::Identifier, "ab_1c".to_string()),
        (TokenType::Unknown, "+".to_string()),
        (TokenType::Identifier, "d".to_string()),
    ];
    assert_eq!(got, want);
}

#[test]
fn identifier_may_hold_letters_beyond_ascii() {
    let got = kinds_and_literals(&all_tokens("\u{e9}t\u{e9} x"));
    assert_eq!(got[0], (TokenType::Identifier, "\u{e9}t\u{e9}".to_string()));
    assert_eq!(got.len(), 3);
}

#[test]
fn digits_outside_a_number_are_unknown() {
    let got = kinds_and_literals(&all_tokens("12"));
    assert_eq!(got, vec![(TokenType::Unknown, "1".to_string()), (TokenType::Unknown, "2".to_string())]);
}

#[test]
fn number_holds_the_hex_digits_without_dollar() {
    let got = kinds_and_literals(&all_tokens("$1aF,$"));
    let want = vec![
        (TokenType::Number, "1aF".to_string()),
        (TokenType::Comma, ",".to_string()),
        (TokenType::Number, "".to_string()),
    ];
    assert_eq!(got, want);
}

#[test]
fn number_stops_at_the_first_non_hex_character() {
    let got = kinds_and_literals(&all_tokens("$12g"));
    assert_eq!(got, vec![(TokenType::Number, "12".to_string()), (TokenType::Identifier, "g".to_string())]);
}

#[test]
fn literals_join_back_to_the_text() {
    let text = "SECTION \"ROM0\", ROM0\n\tFOO EQU 1+2 ; note\n";
    let joined: String = all_tokens(text).iter().map(|t| t.literal.clone()).collect();
    assert_eq!(joined, text);
    assert_eq!(all_tokens(text).len(), 22);
}

#[test]
fn lex_content_ends_each_line_with_a_line_break() {
    let got = kinds_and_literals(&lex_content(vec!["a".to_string(), "".to_string(), "b c".to_string()]));
    let want = vec![
        (TokenType::Identifier, "a".to_string()),
        (TokenType::LineBreak, "\n".to_string()),
        (TokenType::LineBreak, "\n".to_string()),
        (TokenType::Identifier, "b".to_string()),
        (TokenType::Space, " ".to_string()),
        (TokenType::Identifier, "c".to_string()),
        (TokenType::LineBreak, "\n".to_string()),
    ];
    assert_eq!(got, want);
    assert!(lex_content(vec![]).is_empty());
}
