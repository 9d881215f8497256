use asmfront::ast::{Ast, CharMapStatement, Statement, StatementType};
use asmfront::lexer::{lex_content, Token, TokenType};
use asmfront::parser::{directive_of, parse_ast, Directive, ParseErrorKind, Parser, ParsingError};

fn parse(lines: &[&str]) -> Ast {
    parse_ast(lex_content(lines.iter().map(|l| l.to_string()).collect()))
}

fn error_kind(ast: &Ast) -> Option<ParseErrorKind> {
    ast.error.as_ref().map(|e| e.kind)
}

fn only_error(lines: &[&str]) -> Option<ParseErrorKind> {
    let ast = parse(lines);
    assert!(ast.statements.is_empty());
    error_kind(&ast)
}

#[test]
fn include_records_the_quoted_path() {
    let ast = parse(&["INCLUDE \"a/b.asm\""]);
    assert!(ast.error.is_none());
    assert_eq!(ast.statements.len(), 1);
    match &ast.statements[0] {
        Statement::Include(s) => {
            assert_eq!(s.path, "a/b.asm");
            assert!(!s.path.contains('"'));
        }
        other => panic!("unexpected statement {:?}", other),
    }
}

#[test]
fn section_takes_name_and_type() {
    let ast = parse(&["SECTION \"ROM0\", ROM0"]);
    assert!(ast.error.is_none());
    assert_eq!(ast.statements.len(), 1);
    match &ast.statements[0] {
        Statement::Section(s) => {
            assert_eq!(s.name, "ROM0");
            assert_eq!(s.section_type, "ROM0");
        }
        other => panic!("unexpected statement {:?}", other),
    }
}

#[test]
fn if_block_is_one_marker() {
    let ast = parse(&["IF SOME_COND", "  NEWCHARMAP Hidden", "  FOO EQU 3", "ENDC", "NEWCHARMAP After"]);
    assert!(ast.error.is_none());
    assert_eq!(ast.statements.len(), 2);
    assert!(matches!(ast.statements[0], Statement::If(_)));
    match &ast.statements[1] {
        Statement::NewCharMap(s) => assert_eq!(s.name, "After"),
        other => panic!("unexpected statement {:?}", other),
    }
}

#[test]
fn if_scan_is_flat_and_case_insensitive() {
    let ast = parse(&["IF A", "IF B", "endc", "NEWCHARMAP X", "ENDC"]);
    assert_eq!(ast.statements.len(), 2);
    assert!(matches!(ast.statements[0], Statement::If(_)));
    assert!(matches!(ast.statements[1], Statement::NewCharMap(_)));
    assert_eq!(error_kind(&ast), Some(ParseErrorKind::UnsupportedToken));
}

#[test]
fn if_without_endc_consumes_the_rest() {
    let ast = parse(&["IF A", "NEWCHARMAP X"]);
    assert!(ast.error.is_none());
    assert_eq!(ast.statements.len(), 1);
    assert!(matches!(ast.statements[0], Statement::If(_)));
}

#[test]
fn new_char_map_takes_the_name() {
    let ast = parse(&["NEWCHARMAP MyMap"]);
    assert!(ast.error.is_none());
    assert_eq!(ast.statements.len(), 1);
    match &ast.statements[0] {
        Statement::NewCharMap(s) => assert_eq!(s.name, "MyMap"),
        other => panic!("unexpected statement {:?}", other),
    }
}

#[test]
fn char_map_reads_the_code_in_base_sixteen() {
    let ast = parse(&["CHARMAP \"A\", $41"]);
    assert!(ast.error.is_none());
    assert_eq!(ast.statements.len(), 1);
    match &ast.statements[0] {
        Statement::CharMap(s) => {
            assert_eq!(s.value, "A");
            assert_eq!(s.code, 65);
        }
        other => panic!("unexpected statement {:?}", other),
    }
}

#[test]
fn char_map_code_extremes() {
    let ast = parse(&["CHARMAP \"x\", $fF", "CHARMAP \"y\", $7FFFFFFF", "CHARMAP \"z\", $0"]);
    assert!(ast.error.is_none());
    let codes: Vec<i32> = ast
        .statements
        .iter()
        .map(|s| match s {
            Statement::CharMap(c) => c.code,
            other => panic!("unexpected statement {:?}", other),
        })
        .collect();
    assert_eq!(codes, vec![255, i32::MAX, 0]);
}

#[test]
fn def_keeps_the_raw_value() {
    let ast = parse(&["FOO EQU 1+2"]);
    assert!(ast.error.is_none());
    assert_eq!(ast.statements.len(), 1);
    match &ast.statements[0] {
        Statement::Def(s) => {
            assert_eq!(s.name, "FOO");
            assert_eq!(s.value, "1+2");
        }
        other => panic!("unexpected statement {:?}", other),
    }
}

#[test]
fn def_value_runs_to_the_line_break() {
    let ast = parse(&["BAR\tequ   $10 * (2 / x) ", "NEWCHARMAP M"]);
    assert!(ast.error.is_none());
    assert_eq!(ast.statements.len(), 2);
    match &ast.statements[0] {
        Statement::Def(s) => {
            assert_eq!(s.name, "BAR");
            assert_eq!(s.value, "10 * (2 / x) ");
        }
        other => panic!("unexpected statement {:?}", other),
    }
}

#[test]
fn comment_line_yields_nothing() {
    let ast = parse(&["; anything \"at all\", $12 SECTION", "NEWCHARMAP Next"]);
    assert!(ast.error.is_none());
    assert_eq!(ast.statements.len(), 1);
    match &ast.statements[0] {
        Statement::NewCharMap(s) => assert_eq!(s.name, "Next"),
        other => panic!("unexpected statement {:?}", other),
    }
}

#[test]
fn empty_input_gives_nothing_and_no_error() {
    let ast = parse(&[]);
    assert!(ast.statements.is_empty());
    assert!(ast.error.is_none());
    let ast = parse(&["", "   ", "\t"]);
    assert!(ast.statements.is_empty());
    assert!(ast.error.is_none());
}

#[test]
fn missing_quote_after_include_keeps_earlier_statements() {
    let ast = parse(&["NEWCHARMAP First", "INCLUDE foo", "NEWCHARMAP Never"]);
    assert_eq!(ast.statements.len(), 1);
    assert!(matches!(ast.statements[0], Statement::NewCharMap(_)));
    assert_eq!(error_kind(&ast), Some(ParseErrorKind::MissingQuoteAfterInclude));
    assert_eq!(ast.error.unwrap().error_message(), "missing quote after include");
}

#[test]
fn keywords_match_in_any_case() {
    let ast = parse(&["Include \"x\"", "section \"S\", ROMX", "newCharMap n", "charmap \"c\", $a"]);
    assert!(ast.error.is_none());
    let types: Vec<StatementType> = ast.statements.iter().map(|s| s.my_type()).collect();
    assert_eq!(
        types,
        vec![StatementType::Include, StatementType::Section, StatementType::NewCharMap, StatementType::CharMap]
    );
}

#[test]
fn directive_of_lower_cased_keywords() {
    assert_eq!(directive_of(&"include".to_string()), Some(Directive::Include));
    assert_eq!(directive_of(&"section".to_string()), Some(Directive::Section));
    assert_eq!(directive_of(&"if".to_string()), Some(Directive::If));
    assert_eq!(directive_of(&"newcharmap".to_string()), Some(Directive::NewCharMap));
    assert_eq!(directive_of(&"charmap".to_string()), Some(Directive::CharMap));
    assert_eq!(directive_of(&"CHARMAP".to_string()), None);
    assert_eq!(directive_of(&"endc".to_string()), None);
}

#[test]
fn error_unsupported_token() {
    assert_eq!(only_error(&["FOO BAR"]), Some(ParseErrorKind::UnsupportedToken));
    assert_eq!(only_error(&["/"]), Some(ParseErrorKind::UnsupportedToken));
    assert_eq!(only_error(&["FOO"]), Some(ParseErrorKind::UnsupportedToken));
}

#[test]
fn error_missing_quote_after_section() {
    assert_eq!(only_error(&["SECTION ROM0, ROM0"]), Some(ParseErrorKind::MissingQuoteAfterSection));
}

#[test]
fn error_missing_comma_after_section_name() {
    assert_eq!(only_error(&["SECTION \"ROM0\" ROM0"]), Some(ParseErrorKind::MissingCommaAfterSectionName));
}

#[test]
fn error_missing_section_type() {
    let tokens = lex_content(vec!["SECTION \"ROM0\",".to_string()]);
    let ast = parse_ast(tokens);
    assert!(ast.statements.is_empty());
    assert_eq!(error_kind(&ast), Some(ParseErrorKind::MissingSectionType));
}

#[test]
fn error_no_identifier_after_new_char_map() {
    assert_eq!(only_error(&["NEWCHARMAP \"x\""]), Some(ParseErrorKind::NoIdentifierAfterNewCharMap));
    assert_eq!(only_error(&["NEWCHARMAP"]), Some(ParseErrorKind::NoIdentifierAfterNewCharMap));
}

#[test]
fn error_missing_comma_after_char_map_value() {
    assert_eq!(only_error(&["CHARMAP \"A\" $41"]), Some(ParseErrorKind::MissingCommaAfterCharMapValue));
}

#[test]
fn error_missing_number_after_char_map_value() {
    assert_eq!(only_error(&["CHARMAP \"A\", 41"]), Some(ParseErrorKind::MissingNumberAfterCharMapValue));
}

#[test]
fn error_invalid_number() {
    assert_eq!(only_error(&["CHARMAP \"A\", $"]), Some(ParseErrorKind::InvalidNumber));
    assert_eq!(only_error(&["CHARMAP \"A\", $80000000"]), Some(ParseErrorKind::InvalidNumber));
}

#[test]
fn error_invalid_number_on_non_hex_literal() {
    let tok = |literal: &str, token_type: TokenType| Token { literal: literal.to_string(), token_type };
    let tokens = vec![
        tok("CHARMAP", TokenType::Identifier),
        tok("\"", TokenType::DoubleQuote),
        tok("A", TokenType::Identifier),
        tok("\"", TokenType::DoubleQuote),
        tok(",", TokenType::Comma),
        tok("+41", TokenType::Number),
    ];
    let ast = parse_ast(tokens);
    assert!(ast.statements.is_empty());
    assert_eq!(error_kind(&ast), Some(ParseErrorKind::InvalidNumber));
}

#[test]
fn next_statement_reports_no_tokens_left() {
    let mut p = Parser::new(lex_content(vec!["NEWCHARMAP A".to_string()]));
    assert!(p.next_statement().is_ok());
    let e = p.next_statement().unwrap_err();
    assert_eq!(e.kind, ParseErrorKind::NoTokensLeft);
    assert_eq!(e.error_message(), "no tokens left");
}

#[test]
fn statements_describe_themselves() {
    let ast = parse(&[
        "INCLUDE \"a.asm\"",
        "SECTION \"S\", ROM0",
        "IF X",
        "ENDC",
        "NEWCHARMAP M",
        "CHARMAP \"A\", $41",
        "FOO EQU 3",
    ]);
    let lines: Vec<String> = ast.statements.iter().map(|s| s.to_string()).collect();
    assert_eq!(
        lines,
        vec![
            "INCLUDE \"a.asm\"".to_string(),
            "SECTION \"S\"".to_string(),
            "IF ".to_string(),
            "New Char Map M".to_string(),
            "Char Map \"A\" 65".to_string(),
            "DEF \"FOO\" 3".to_string(),
        ]
    );
}

#[test]
fn negative_code_is_described_with_a_sign() {
    let s = Statement::CharMap(CharMapStatement { value: "x".to_string(), code: -7 });
    assert_eq!(s.to_string(), "Char Map \"x\" -7");
    assert_eq!(s.my_type(), StatementType::CharMap);
}

#[test]
fn ast_listing() {
    let ast = parse(&["NEWCHARMAP M", "IF X", "ENDC"]);
    assert_eq!(ast.to_string(), "Ast\nStatements: [\nNew Char Map M\nIF \n]\n");
    assert_eq!(parse(&[]).to_string(), "Ast\nStatements: [\n]\n");
}

#[test]
fn def_value_stops_at_the_end_of_its_line() {
    let ast = parse(&["FOO EQU", "BAR EQU 3"]);
    assert!(ast.error.is_none());
    assert_eq!(ast.statements.len(), 2);
    match (&ast.statements[0], &ast.statements[1]) {
        (Statement::Def(a), Statement::Def(b)) => {
            assert_eq!((a.name.as_str(), a.value.as_str()), ("FOO", ""));
            assert_eq!((b.name.as_str(), b.value.as_str()), ("BAR", "3"));
        }
        other => panic!("unexpected statements {:?}", other),
    }
}

#[test]
fn error_messages_are_fixed() {
    let cases = [
        (ParseErrorKind::NoTokensLeft, "no tokens left"),
        (ParseErrorKind::UnsupportedToken, "unsupported token found"),
        (ParseErrorKind::MissingQuoteAfterInclude, "missing quote after include"),
        (ParseErrorKind::MissingQuoteAfterSection, "missing quote after section"),
        (ParseErrorKind::MissingCommaAfterSectionName, "missing comma after section name"),
        (ParseErrorKind::MissingSectionType, "missing type after section name"),
        (ParseErrorKind::NoIdentifierAfterNewCharMap, "no identifier after newcharmap"),
        (ParseErrorKind::MissingCommaAfterCharMapValue, "missing comma after charmap value"),
        (ParseErrorKind::MissingNumberAfterCharMapValue, "missing number after charmap value"),
        (ParseErrorKind::InvalidNumber, "invalid hexadecimal number"),
    ];
    for (kind, text) in cases {
        assert_eq!(ParsingError { kind }.error_message(), text);
    }
}
