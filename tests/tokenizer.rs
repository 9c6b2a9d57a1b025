use emdrive::tokenizer::{tokenize_statement, DataTypeRaw, Delimiter, Function, Keyword, Token, TokenValue};

fn t(value: TokenValue, line_number: usize) -> Token {
    Token { value, line_number }
}

fn kw(k: Keyword, line: usize) -> Token {
    t(TokenValue::Const(k), line)
}

fn delim(d: Delimiter, line: usize) -> Token {
    t(TokenValue::Delimiting(d), line)
}

fn arb(s: &str, line: usize) -> Token {
    t(TokenValue::Arbitrary(s.to_string()), line)
}

fn ty(d: DataTypeRaw, line: usize) -> Token {
    t(TokenValue::Type(d), line)
}

#[test]
fn tokenizer_tokenization_works_with_create_table() {
    let statement = "CREATE TABLE IF NOT EXISTS test (
            server_id nullable(UINT64),
            hash UINT128 METRIC KEY,
            sent_at TIMESTAMP
        );";
    let detected_tokens = tokenize_statement(statement);
    let expected_tokens = [
        kw(Keyword::Create, 1),
        kw(Keyword::Table, 1),
        kw(Keyword::If, 1),
        kw(Keyword::Not, 1),
        kw(Keyword::Exists, 1),
        arb("test", 1),
        delim(Delimiter::ParenthesisOpening, 1),
        arb("server_id", 2),
        kw(Keyword::Nullable, 2),
        delim(Delimiter::ParenthesisOpening, 2),
        ty(DataTypeRaw::UInt64, 2),
        delim(Delimiter::ParenthesisClosing, 2),
        delim(Delimiter::Comma, 2),
        arb("hash", 3),
        ty(DataTypeRaw::UInt128, 3),
        kw(Keyword::Metric, 3),
        kw(Keyword::Key, 3),
        delim(Delimiter::Comma, 3),
        arb("sent_at", 4),
        ty(DataTypeRaw::Timestamp, 4),
        delim(Delimiter::ParenthesisClosing, 5),
    ];
    assert_eq!(&detected_tokens, &expected_tokens)
}

#[test]
fn tokenizer_tokenization_is_case_sensitive_and_insensitive_properly() {
    let statement = "CREATE table If nOT exists TEST (
            serverId nullable(Uint64)
        )";
    let detected_tokens = tokenize_statement(statement);
    let expected_tokens = [
        kw(Keyword::Create, 1),
        kw(Keyword::Table, 1),
        kw(Keyword::If, 1),
        kw(Keyword::Not, 1),
        kw(Keyword::Exists, 1),
        arb("TEST", 1),
        delim(Delimiter::ParenthesisOpening, 1),
        arb("serverId", 2),
        kw(Keyword::Nullable, 2),
        delim(Delimiter::ParenthesisOpening, 2),
        ty(DataTypeRaw::UInt64, 2),
        delim(Delimiter::ParenthesisClosing, 2),
        delim(Delimiter::ParenthesisClosing, 3),
    ];
    assert_eq!(&detected_tokens, &expected_tokens)
}

#[test]
fn tokenization_supports_various_strings() {
    let statement = "INSERT INTO test
            (foo, bar, baz)
            VALUES ('123', '   x ', 'The \\'Moon\\'')";
    let detected_tokens = tokenize_statement(statement);
    let expected_tokens = [
        kw(Keyword::Insert, 1),
        kw(Keyword::Into, 1),
        arb("test", 1),
        delim(Delimiter::ParenthesisOpening, 2),
        arb("foo", 2),
        delim(Delimiter::Comma, 2),
        arb("bar", 2),
        delim(Delimiter::Comma, 2),
        arb("baz", 2),
        delim(Delimiter::ParenthesisClosing, 2),
        kw(Keyword::Values, 3),
        delim(Delimiter::ParenthesisOpening, 3),
        t(TokenValue::String("123".to_string()), 3),
        delim(Delimiter::Comma, 3),
        t(TokenValue::String("   x ".to_string()), 3),
        delim(Delimiter::Comma, 3),
        t(TokenValue::String("The \'Moon\'".to_string()), 3),
        delim(Delimiter::ParenthesisClosing, 3),
    ];
    assert_eq!(&detected_tokens, &expected_tokens)
}

#[test]
fn tokenize_create_table_on_one_line() {
    let statement =
        "CREATE TABLE IF NOT EXISTS test (server_id NULLABLE(UINT64), hash UINT128, sent_at TIMESTAMP);";
    let tokens = tokenize_statement(statement);
    assert_eq!(tokens.len(), 19);
    assert!(tokens.iter().all(|token| token.line_number == 1));
    assert_eq!(tokens[18], delim(Delimiter::ParenthesisClosing, 1));
}

#[test]
fn semicolon_ends_the_statement() {
    let tokens = tokenize_statement("SELECT * FROM t; DROP everything");
    assert_eq!(
        tokens,
        vec![
            kw(Keyword::Select, 1),
            kw(Keyword::Asterisk, 1),
            kw(Keyword::From, 1),
            arb("t", 1),
        ]
    );
}

#[test]
fn semicolon_inside_a_string_is_kept() {
    let tokens = tokenize_statement("'a;b' c");
    assert_eq!(tokens, vec![t(TokenValue::String("a;b".to_string()), 1), arb("c", 1)]);
}

#[test]
fn functions_and_equals_are_recognised() {
    let tokens = tokenize_statement("DEFAULT now() WHERE a=Ulid()");
    assert_eq!(
        tokens,
        vec![
            kw(Keyword::Default, 1),
            t(TokenValue::Function(Function::Now), 1),
            delim(Delimiter::ParenthesisOpening, 1),
            delim(Delimiter::ParenthesisClosing, 1),
            kw(Keyword::Where, 1),
            arb("a", 1),
            delim(Delimiter::Equal, 1),
            t(TokenValue::Function(Function::Ulid), 1),
            delim(Delimiter::ParenthesisOpening, 1),
            delim(Delimiter::ParenthesisClosing, 1),
        ]
    );
}

#[test]
fn empty_input_has_no_tokens() {
    assert_eq!(tokenize_statement(""), vec![]);
    assert_eq!(tokenize_statement("  \n\t "), vec![]);
}
