use clox::scanner::{Problem, Scanner, Token, TokenType};
use clox::vm::InterpretResult;

#[derive(Debug, PartialEq)]
struct TokenWithLexeme<'a> {
    token_type: TokenType,
    lexeme: &'a str,
}

fn tokens_to_tokens_with_lexeme<'a>(tokens: Vec<Token>, source: &'a String) -> Vec<TokenWithLexeme<'a>> {
    tokens
        .into_iter()
        .map(|t| TokenWithLexeme {
            token_type: t.token_type,
            lexeme: &source[t.span],
        })
        .collect::<Vec<TokenWithLexeme>>()
}

fn lexemes(source: &str) -> Vec<(TokenType, String)> {
    let source = String::from(source);
    let tokens = Scanner::new(&source).scan_tokens().unwrap();
    tokens
        .into_iter()
        .map(|t| (t.token_type, source[t.span].to_string()))
        .collect()
}

fn tl(token_type: TokenType, lexeme: &str) -> TokenWithLexeme<'_> {
    TokenWithLexeme { token_type, lexeme }
}

#[test]
fn single_char_scan_works() {
    let source = String::from("()[]{};,.?:");
    let scanner = Scanner::new(&source);
    let tokens = tokens_to_tokens_with_lexeme(scanner.scan_tokens().unwrap(), &source);
    assert_eq!(
        tokens,
        vec![
            tl(TokenType::LeftParen, "("),
            tl(TokenType::RightParen, ")"),
            tl(TokenType::LeftBracket, "["),
            tl(TokenType::RightBracket, "]"),
            tl(TokenType::LeftBrace, "{"),
            tl(TokenType::RightBrace, "}"),
            tl(TokenType::Semicolon, ";"),
            tl(TokenType::Comma, ","),
            tl(TokenType::Dot, "."),
            tl(TokenType::Question, "?"),
            tl(TokenType::Colon, ":"),
            tl(TokenType::Eof, ""),
        ]
    )
}

#[test]
fn double_char_scan_works() {
    let source = String::from("! != = == > >= < <= + += - -= * *= / /= % %=");
    let scanner = Scanner::new(&source);
    let tokens = tokens_to_tokens_with_lexeme(scanner.scan_tokens().unwrap(), &source);
    assert_eq!(
        tokens,
        vec![
            tl(TokenType::Bang, "!"),
            tl(TokenType::BangEqual, "!="),
            tl(TokenType::Equal, "="),
            tl(TokenType::EqualEqual, "=="),
            tl(TokenType::Greater, ">"),
            tl(TokenType::GreaterEqual, ">="),
            tl(TokenType::Less, "<"),
            tl(TokenType::LessEqual, "<="),
            tl(TokenType::Plus, "+"),
            tl(TokenType::PlusEqual, "+="),
            tl(TokenType::Minus, "-"),
            tl(TokenType::MinusEqual, "-="),
            tl(TokenType::Star, "*"),
            tl(TokenType::StarEqual, "*="),
            tl(TokenType::Slash, "/"),
            tl(TokenType::SlashEqual, "/="),
            tl(TokenType::Percent, "%"),
            tl(TokenType::PercentEqual, "%="),
            tl(TokenType::Eof, ""),
        ]
    )
}

#[test]
fn string_scan_works() {
    let source = String::from("\"hello world\" \"test\"");
    let scanner = Scanner::new(&source);
    let tokens = tokens_to_tokens_with_lexeme(scanner.scan_tokens().unwrap(), &source);
    assert_eq!(
        tokens,
        vec![
            tl(TokenType::String, "\"hello world\""),
            tl(TokenType::String, "\"test\""),
            tl(TokenType::Eof, ""),
        ]
    )
}

#[test]
fn number_scan_works() {
    let source = String::from("123 123.456 123.");
    let scanner = Scanner::new(&source);
    let tokens = tokens_to_tokens_with_lexeme(scanner.scan_tokens().unwrap(), &source);
    assert_eq!(
        tokens,
        vec![
            tl(TokenType::Number, "123"),
            tl(TokenType::Number, "123.456"),
            tl(TokenType::Number, "123"),
            tl(TokenType::Dot, "."),
            tl(TokenType::Eof, ""),
        ]
    )
}

#[test]
fn identifier_scan_works() {
    let source = String::from("hello world test 123.method");
    let scanner = Scanner::new(&source);
    let tokens = tokens_to_tokens_with_lexeme(scanner.scan_tokens().unwrap(), &source);
    assert_eq!(
        tokens,
        vec![
            tl(TokenType::Identifier, "hello"),
            tl(TokenType::Identifier, "world"),
            tl(TokenType::Identifier, "test"),
            tl(TokenType::Number, "123"),
            tl(TokenType::Dot, "."),
            tl(TokenType::Identifier, "method"),
            tl(TokenType::Eof, ""),
        ]
    )
}

#[test]
fn comments_and_whitespace_scan_works() {
    let source = String::from(
        " // hello world
        // test
        hello",
    );
    let scanner = Scanner::new(&source);
    let tokens = tokens_to_tokens_with_lexeme(scanner.scan_tokens().unwrap(), &source);
    assert_eq!(tokens, vec![tl(TokenType::Identifier, "hello"), tl(TokenType::Eof, "")])
}

#[test]
fn unterminated_string_fails() {
    let source = String::from("\"hello world");
    let scanner = Scanner::new(&source);
    let tokens = scanner.scan_tokens();
    assert!(tokens.is_err());
}

#[test]
fn unexpected_character_fails() {
    let source = String::from("#");
    let scanner = Scanner::new(&source);
    let tokens = scanner.scan_tokens();
    assert!(tokens.is_err());
}

#[test]
fn error_reporting_string_works() {
    let source = String::from("\n\n\n  \"hello world");
    let token = Token {
        token_type: TokenType::Error,
        span: 5..17,
    };
    assert_eq!(
        String::from_utf8(token.error(&source, "Unterminated string.", " at end")).unwrap(),
        "Error at end: Unterminated string.\n  | [4:3]   \"hello world\n            ^^^^^^^^^^^^\n",
    );
}

#[test]
fn punctuation_scenario_has_eleven_tokens_then_eof() {
    let source = String::from("()[]{};,.?:");
    let tokens = Scanner::new(&source).scan_tokens().unwrap();
    assert_eq!(tokens.len(), 12);
    for (k, t) in tokens.iter().take(11).enumerate() {
        assert_eq!(t.span, k..k + 1);
    }
    assert_eq!(tokens[11].token_type, TokenType::Eof);
    assert_eq!(tokens[11].span, 10..10);
}

#[test]
fn missing_closing_quote_reports_one_diagnostic() {
    let source = String::from("\"hello");
    let problems = Scanner::new(&source).scan().unwrap_err();
    assert_eq!(problems.len(), 1);
    assert_eq!(problems[0].problem, Problem::UnterminatedString);
    assert_eq!(problems[0].token.span, 0..6);
    assert!(Scanner::new(&source).scan_tokens().is_err());
    let text = String::from_utf8(problems[0].render(&source)).unwrap();
    assert_eq!(text, "Error at end: Unterminated string.\n  | [1:1] \"hello\n          ^^^^^^\n");
}

#[test]
fn operator_suffix_decides_kind_and_length() {
    assert_eq!(
        lexemes("!==<=>"),
        vec![
            (TokenType::BangEqual, "!=".to_string()),
            (TokenType::Equal, "=".to_string()),
            (TokenType::LessEqual, "<=".to_string()),
            (TokenType::Greater, ">".to_string()),
            (TokenType::Eof, "".to_string()),
        ]
    );
    assert_eq!(
        lexemes("+==")[..2],
        [(TokenType::PlusEqual, "+=".to_string()), (TokenType::Equal, "=".to_string())]
    );
}

#[test]
fn single_digit_and_single_letter_tokens_cover_their_byte() {
    assert_eq!(
        lexemes("7 x 1.5"),
        vec![
            (TokenType::Number, "7".to_string()),
            (TokenType::Identifier, "x".to_string()),
            (TokenType::Number, "1.5".to_string()),
            (TokenType::Eof, "".to_string()),
        ]
    );
}

#[test]
fn reserved_words_scan_as_keywords() {
    let words = "and class else extends false for fn in if let null or print return super this true while";
    let kinds: Vec<TokenType> = lexemes(words).into_iter().map(|(k, _)| k).collect();
    assert_eq!(
        kinds,
        vec![
            TokenType::And,
            TokenType::Class,
            TokenType::Else,
            TokenType::Extends,
            TokenType::False,
            TokenType::For,
            TokenType::Fn,
            TokenType::In,
            TokenType::If,
            TokenType::Let,
            TokenType::Null,
            TokenType::Or,
            TokenType::Print,
            TokenType::Return,
            TokenType::Super,
            TokenType::This,
            TokenType::True,
            TokenType::While,
            TokenType::Eof,
        ]
    );
}

#[test]
fn near_keywords_are_identifiers() {
    let kinds: Vec<TokenType> = lexemes("And classy _if fn_ whilst").into_iter().map(|(k, _)| k).collect();
    assert_eq!(kinds, vec![TokenType::Identifier; 5].into_iter().chain([TokenType::Eof]).collect::<Vec<_>>());
}

#[test]
fn comment_stops_at_line_break() {
    assert_eq!(
        lexemes("a // b c\nd"),
        vec![
            (TokenType::Identifier, "a".to_string()),
            (TokenType::Identifier, "d".to_string()),
            (TokenType::Eof, "".to_string()),
        ]
    );
    assert_eq!(lexemes("// only"), vec![(TokenType::Eof, "".to_string())]);
}

#[test]
fn empty_source_gives_eof_at_zero() {
    let source = String::new();
    let tokens = Scanner::new(&source).scan_tokens().unwrap();
    assert_eq!(tokens.len(), 1);
    assert_eq!(tokens[0].token_type, TokenType::Eof);
    assert_eq!(tokens[0].span, 0..0);
}

#[test]
fn every_diagnostic_is_collected() {
    let source = String::from("a # b @ \"open");
    let problems = Scanner::new(&source).scan().unwrap_err();
    assert_eq!(problems.len(), 3);
    assert_eq!(problems[0].problem, Problem::UnexpectedCharacter);
    assert_eq!(problems[0].token.span, 2..3);
    assert_eq!(problems[1].token.span, 6..7);
    assert_eq!(problems[2].problem, Problem::UnterminatedString);
    assert_eq!(problems[2].token.span, 8..13);
}

#[test]
fn unexpected_character_report_names_it() {
    let source = String::from("ok\n  x é");
    let problems = Scanner::new(&source).scan().unwrap_err();
    assert_eq!(problems.len(), 1);
    assert_eq!(problems[0].token.span, 7..9);
    let text = String::from_utf8(problems[0].render(&source)).unwrap();
    assert_eq!(text, "Error: Unexpected character 'é'.\n  | [2:5]   x é\n              ^^\n");
}

#[test]
fn failure_after_valid_tokens() {
    let source = String::from("let x = 1 + 2; $");
    assert_eq!(Scanner::new(&source).scan_tokens().unwrap_err(), InterpretResult::SyntaxError);
}

#[test]
fn crlf_line_is_reported_without_carriage_return() {
    let source = String::from("a\r\n#\r\nb");
    let problems = Scanner::new(&source).scan().unwrap_err();
    let text = String::from_utf8(problems[0].render(&source)).unwrap();
    assert_eq!(text, "Error: Unexpected character '#'.\n  | [2:1] #\n          ^\n");
}
