use pale::numbers::parse_i64;
use pale::tokens::tokenize;
use pale::tokens::KeyWord;
use pale::tokens::Location;
use pale::tokens::Token;
use pale::tokens::TokenType;
use pale::types::LispValue;

fn loc(filename: &str, line: usize, col: usize) -> Location {
    Location { filename: filename.to_string(), line, col }
}

#[test]
fn test_tokenizer() {
    let expected_res = vec![
        Token { loc: loc("-", 0, 0), dat: TokenType::StartStmt },
        Token { loc: loc("-", 0, 1), dat: TokenType::Ident("+".to_string()) },
        Token { loc: loc("-", 0, 3), dat: TokenType::StartStmt },
        Token { loc: loc("-", 0, 4), dat: TokenType::Ident("-".to_string()) },
        Token { loc: loc("-", 0, 6), dat: TokenType::Recognizable(LispValue::Integer(1)) },
        Token { loc: loc("-", 0, 8), dat: TokenType::Recognizable(LispValue::Integer(23)) },
        Token { loc: loc("-", 0, 11), dat: TokenType::Recognizable(LispValue::Integer(23423423)) },
        Token { loc: loc("-", 0, 19), dat: TokenType::EndStmt },
        Token {
            loc: loc("-", 0, 21),
            dat: TokenType::Recognizable(LispValue::Str("sliijioo".to_string())),
        },
        Token { loc: loc("-", 0, 31), dat: TokenType::EndStmt },
    ];
    let toks = tokenize("(+ (- 1 23 23423423) \"sliijioo\")", "-".to_string()).unwrap();
    assert_eq!(toks, expected_res);
}

#[test]
fn keyword_tokens() {
    let toks = tokenize("let lambda ", "-".to_string()).unwrap();
    assert_eq!(
        toks,
        vec![
            Token { loc: loc("-", 0, 0), dat: TokenType::KeyWord(KeyWord::Let) },
            Token { loc: loc("-", 0, 4), dat: TokenType::KeyWord(KeyWord::Lambda) },
        ]
    );
}

#[test]
fn classification_priority() {
    // In order: integer before float, float before `nil`, `nil` before
    // identifier.
    let toks = tokenize("12 1.5 1e3 inf nil foo 99999999999999999999 ", "-".to_string()).unwrap();
    let kinds: Vec<TokenType> = toks.into_iter().map(|t| t.dat).collect();
    assert_eq!(
        kinds,
        vec![
            TokenType::Recognizable(LispValue::Integer(12)),
            TokenType::Recognizable(LispValue::Floating("1.5".to_string())),
            TokenType::Recognizable(LispValue::Floating("1e3".to_string())),
            TokenType::Recognizable(LispValue::Floating("inf".to_string())),
            TokenType::Recognizable(LispValue::Nil),
            TokenType::Ident("foo".to_string()),
            TokenType::Recognizable(LispValue::Floating("99999999999999999999".to_string())),
        ]
    );
}

#[test]
fn wrap_sugar_tokens() {
    let toks = tokenize("$print 5", "-".to_string()).unwrap();
    assert_eq!(
        toks,
        vec![
            Token { loc: loc("-", 0, 0), dat: TokenType::StartStmt },
            Token { loc: loc("-", 0, 1), dat: TokenType::Ident("print".to_string()) },
            Token { loc: loc("-", 0, 7), dat: TokenType::Recognizable(LispValue::Integer(5)) },
            Token { loc: loc("-", 0, 8), dat: TokenType::EndStmt },
        ]
    );
}

#[test]
fn wrap_closes_before_outer_paren() {
    let toks = tokenize("(print $+ 1 2)", "-".to_string()).unwrap();
    let kinds: Vec<TokenType> = toks.into_iter().map(|t| t.dat).collect();
    assert_eq!(
        kinds,
        vec![
            TokenType::StartStmt,
            TokenType::Ident("print".to_string()),
            TokenType::StartStmt,
            TokenType::Ident("+".to_string()),
            TokenType::Recognizable(LispValue::Integer(1)),
            TokenType::Recognizable(LispValue::Integer(2)),
            TokenType::EndStmt,
            TokenType::EndStmt,
        ]
    );
}

#[test]
fn string_token_positions_and_lines() {
    let toks = tokenize("\"ab\"\n x", "-".to_string()).unwrap();
    assert_eq!(
        toks,
        vec![
            Token { loc: loc("-", 0, 0), dat: TokenType::Recognizable(LispValue::Str("ab".to_string())) },
            Token { loc: loc("-", 1, 1), dat: TokenType::Ident("x".to_string()) },
        ]
    );
}

#[test]
fn carriage_returns_split_tokens() {
    let toks = tokenize("a\r\nb ", "-".to_string()).unwrap();
    assert_eq!(
        toks,
        vec![
            Token { loc: loc("-", 0, 0), dat: TokenType::Ident("a".to_string()) },
            Token { loc: loc("-", 1, 0), dat: TokenType::Ident("b".to_string()) },
        ]
    );
}

#[test]
fn unterminated_string_is_diagnosed() {
    let err = tokenize("(print \"abc", "-".to_string()).unwrap_err();
    assert_eq!(err.render(), "-:0:7 - Unterminated string literal!");
}

#[test]
fn negative_and_signed_integers() {
    let toks = tokenize("-12 +3 - ", "-".to_string()).unwrap();
    let kinds: Vec<TokenType> = toks.into_iter().map(|t| t.dat).collect();
    assert_eq!(
        kinds,
        vec![
            TokenType::Recognizable(LispValue::Integer(-12)),
            TokenType::Recognizable(LispValue::Integer(3)),
            TokenType::Ident("-".to_string()),
        ]
    );
}

#[test]
fn parse_i64_accepts_exactly_integer_tokens() {
    let as_chars = |s: &str| -> Vec<char> { s.chars().collect() };
    assert_eq!(parse_i64(&as_chars("0")), Some(0));
    assert_eq!(parse_i64(&as_chars("-12")), Some(-12));
    assert_eq!(parse_i64(&as_chars("+345")), Some(345));
    assert_eq!(parse_i64(&as_chars("9223372036854775807")), Some(i64::MAX));
    assert_eq!(parse_i64(&as_chars("-9223372036854775808")), Some(i64::MIN));
    assert_eq!(parse_i64(&as_chars("9223372036854775808")), None);
    assert_eq!(parse_i64(&as_chars("-9223372036854775809")), None);
    assert_eq!(parse_i64(&as_chars("")), None);
    assert_eq!(parse_i64(&as_chars("+")), None);
    assert_eq!(parse_i64(&as_chars("-")), None);
    assert_eq!(parse_i64(&as_chars("12a")), None);
    assert_eq!(parse_i64(&as_chars("1.5")), None);
}

#[test]
fn float_classification_follows_the_decimal_grammar() {
    let is_float = |s: &str| -> bool {
        let toks = tokenize(&format!("{s} "), "-".to_string()).unwrap();
        matches!(
            toks[0].dat,
            TokenType::Recognizable(LispValue::Floating(_))
        )
    };
    assert!(is_float("1.5"));
    assert!(is_float(".5"));
    assert!(is_float("5."));
    assert!(is_float("1e3"));
    assert!(is_float("1.5e-3"));
    assert!(is_float("-.5E+7"));
    assert!(is_float("Infinity"));
    assert!(is_float("NaN"));
    assert!(!is_float("."));
    assert!(!is_float("1.2.3"));
    assert!(!is_float("1e"));
    assert!(!is_float("e3"));
    assert!(!is_float("1e2e3"));
    assert!(!is_float("1_000"));
    assert!(!is_float("0x10"));
    assert!(!is_float("nane"));
}
