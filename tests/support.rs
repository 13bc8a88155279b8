use front::error::InterpretError;
use front::names::{join_path, last_segment, unique_name};
use front::tokens::{fetch_keyword, Token, TokenType};

#[test]
fn unique_names_are_hash_and_decimal() {
    assert_eq!(unique_name(0), "#0");
    assert_eq!(unique_name(7), "#7");
    assert_eq!(unique_name(12), "#12");
    assert_eq!(unique_name(1005), "#1005");
}

#[test]
fn paths_join_with_dots() {
    assert_eq!(join_path(&vec!["Option".to_string(), "Some".to_string()]), "Option.Some");
    assert_eq!(join_path(&vec!["A".to_string()]), "A");
    assert_eq!(join_path(&vec![]), "");
}

#[test]
fn last_segment_follows_the_last_dot() {
    assert_eq!(last_segment(&"Option.Some".to_string()), "Some");
    assert_eq!(last_segment(&"a.b.c".to_string()), "c");
    assert_eq!(last_segment(&"plain".to_string()), "plain");
    assert_eq!(last_segment(&"trailing.".to_string()), "");
}

#[test]
fn keywords_are_recognised() {
    assert_eq!(fetch_keyword("if"), Some(TokenType::If));
    assert_eq!(fetch_keyword("elseif"), Some(TokenType::ElseIf));
    assert_eq!(fetch_keyword("rescue"), Some(TokenType::Rescue));
    assert_eq!(fetch_keyword("mod"), Some(TokenType::Mod));
    assert_eq!(fetch_keyword("nil"), Some(TokenType::Nil));
    assert_eq!(fetch_keyword("iff"), None);
    assert_eq!(fetch_keyword(""), None);
}

#[test]
fn default_token_is_end_of_file() {
    let t = Token::default();
    assert_eq!(t, Token { line: 0, column: 0, token: TokenType::Eof });
    assert_eq!(TokenType::default(), TokenType::Eof);
}

#[test]
fn error_message_shows_its_position() {
    let err = InterpretError::new("unexpected token".to_string(), 3, 14);
    assert_eq!(err.message(), "[3:14] unexpected token");
    assert_eq!(err.line, 3);
    assert_eq!(err.column, 14);
}

#[test]
fn token_text_matches_source_spelling() {
    assert_eq!(TokenType::Num(42).text(), "42");
    assert_eq!(TokenType::Num(-7).text(), "-7");
    assert_eq!(TokenType::Num(i64::MIN).text(), "-9223372036854775808");
    assert_eq!(TokenType::Str("hi".to_string()).text(), "\"hi\"");
    assert_eq!(TokenType::Sym("ok".to_string()).text(), ":ok");
    assert_eq!(TokenType::Name("x".to_string()).text(), "x");
    assert_eq!(TokenType::ElseIf.text(), "elseif");
    assert_eq!(TokenType::BitXor.text(), "^^^");
    assert_eq!(TokenType::Sequence.text(), ">>");
    assert_eq!(TokenType::Pipe.text(), "|>");
    assert_eq!(TokenType::Eof.text(), "<eof>");
}
