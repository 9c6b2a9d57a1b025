use emdrive::errors::SyntaxError;
use emdrive::expects::{
    expect_end_of_statement, expect_enclosure, expect_identity, expect_next_token,
    expect_token_value, expect_token_values_sequence, ExpectOk,
};
use emdrive::semantic::{expect_data_type, expect_identifier};
use emdrive::components::DataType;
use emdrive::tokenizer::{DataTypeRaw, Delimiter, Keyword, Token, TokenValue};

fn t(value: TokenValue) -> Token {
    Token { value, line_number: 1 }
}

fn if_not_exists() -> Vec<TokenValue> {
    vec![
        TokenValue::Const(Keyword::If),
        TokenValue::Const(Keyword::Not),
        TokenValue::Const(Keyword::Exists),
    ]
}

// Sequences of token values

#[test]
fn expects_returns_ok() {
    let tokens = [
        t(TokenValue::Const(Keyword::If)),
        t(TokenValue::Const(Keyword::Not)),
        t(TokenValue::Const(Keyword::Exists)),
    ];
    assert_eq!(
        expect_token_values_sequence(&tokens, &if_not_exists()),
        Ok(ExpectOk { rest: &[][..], tokens_consumed_count: 3, outcome: () })
    )
}

#[test]
fn expects_returns_error_if_third_token_invalid() {
    let tokens = [
        t(TokenValue::Const(Keyword::If)),
        t(TokenValue::Const(Keyword::Not)),
        t(TokenValue::Arbitrary("xyz".to_string())),
    ];
    assert_eq!(
        expect_token_values_sequence(&tokens, &if_not_exists()),
        Err(SyntaxError(
            "Expected keyword `EXISTS`, instead found arbitrary `xyz` at line 1.".to_string()
        ))
    )
}

#[test]
fn expects_returns_error_if_too_few_tokens() {
    let tokens = [t(TokenValue::Const(Keyword::If))];
    assert_eq!(
        expect_token_values_sequence(&tokens, &if_not_exists()),
        Err(SyntaxError("Expected keyword `NOT`, instead found end of statement.".to_string()))
    )
}

#[test]
fn expects_returns_error_if_eos() {
    assert_eq!(
        expect_token_values_sequence(&[], &if_not_exists()),
        Err(SyntaxError("Expected keyword `IF`, instead found end of statement.".to_string()))
    )
}

// Single token values

#[test]
fn expects_returns_ok_single_token() {
    let tokens = [
        t(TokenValue::Const(Keyword::Primary)),
        t(TokenValue::Arbitrary("foo".to_string())),
    ];
    assert_eq!(
        expect_token_value(&tokens, &TokenValue::Const(Keyword::Primary)),
        Ok(ExpectOk {
            rest: &[t(TokenValue::Arbitrary("foo".to_string()))][..],
            tokens_consumed_count: 1,
            outcome: ()
        })
    )
}

#[test]
fn expects_returns_error_if_const_token() {
    let tokens = [t(TokenValue::Const(Keyword::Create))];
    assert_eq!(
        expect_token_value(&tokens, &TokenValue::Const(Keyword::Primary)),
        Err(SyntaxError(
            "Expected keyword `PRIMARY`, instead found keyword `CREATE` at line 1.".to_string()
        ))
    )
}

#[test]
fn expects_returns_error_if_eos_single_token() {
    assert_eq!(
        expect_token_value(&[], &TokenValue::Const(Keyword::Primary)),
        Err(SyntaxError(
            "Expected keyword `PRIMARY`, instead found end of statement.".to_string()
        ))
    )
}

// Identifiers

#[test]
fn expects_returns_ok_identifier() {
    let tokens = [t(TokenValue::Arbitrary("foo".to_string()))];
    assert_eq!(
        expect_identifier(&tokens),
        Ok(ExpectOk { rest: &[][..], tokens_consumed_count: 1, outcome: "foo".to_string() })
    )
}

#[test]
fn expects_returns_error_if_const_token_identifier() {
    let tokens = [t(TokenValue::Const(Keyword::Create))];
    assert_eq!(
        expect_identifier(&tokens),
        Err(SyntaxError(
            "Expected an identifier, instead found keyword `CREATE` at line 1.".to_string()
        ))
    )
}

#[test]
fn expects_returns_error_if_eos_identifier() {
    assert_eq!(
        expect_identifier(&[]),
        Err(SyntaxError("Expected an identifier, instead found end of statement.".to_string()))
    )
}

// Data types

#[test]
fn expects_returns_ok_uint64() {
    let tokens = [t(TokenValue::Type(DataTypeRaw::UInt64))];
    assert_eq!(
        expect_data_type(&tokens),
        Ok(ExpectOk {
            rest: &[][..],
            tokens_consumed_count: 1,
            outcome: DataType { raw_type: DataTypeRaw::UInt64, is_nullable: false }
        })
    )
}

#[test]
fn expects_returns_ok_nullable_timestamp() {
    let tokens = [
        t(TokenValue::Const(Keyword::Nullable)),
        t(TokenValue::Delimiting(Delimiter::ParenthesisOpening)),
        t(TokenValue::Type(DataTypeRaw::Timestamp)),
        t(TokenValue::Delimiting(Delimiter::ParenthesisClosing)),
    ];
    assert_eq!(
        expect_data_type(&tokens),
        Ok(ExpectOk {
            rest: &[][..],
            tokens_consumed_count: 4,
            outcome: DataType { raw_type: DataTypeRaw::Timestamp, is_nullable: true }
        })
    )
}

#[test]
fn expects_returns_error_if_neos() {
    assert_eq!(
        expect_data_type(&[]),
        Err(SyntaxError("Expected a data type, instead found end of statement.".to_string()))
    )
}

#[test]
fn expects_returns_error_if_eos_but_nullable() {
    let tokens = [
        t(TokenValue::Const(Keyword::Nullable)),
        t(TokenValue::Delimiting(Delimiter::ParenthesisOpening)),
    ];
    assert_eq!(
        expect_data_type(&tokens),
        Err(SyntaxError("Expected a data type, instead found end of statement.".to_string()))
    )
}

// Other combinators

#[test]
fn next_token_is_returned_with_the_rest() {
    let tokens = [t(TokenValue::Arbitrary("a".to_string())), t(TokenValue::Arbitrary("b".to_string()))];
    let ok = expect_next_token(&tokens, "anything").unwrap();
    assert_eq!(ok.outcome, &tokens[0]);
    assert_eq!(ok.rest, &tokens[1..]);
    assert_eq!(
        expect_next_token(&[], "anything"),
        Err(SyntaxError("Expected anything, instead found end of statement.".to_string()))
    );
}

#[test]
fn end_of_statement_is_only_found_at_the_end() {
    assert_eq!(
        expect_end_of_statement(&[]),
        Ok(ExpectOk { rest: &[][..], tokens_consumed_count: 0, outcome: () })
    );
    let tokens = [t(TokenValue::Delimiting(Delimiter::Comma))];
    assert_eq!(
        expect_end_of_statement(&tokens),
        Err(SyntaxError("Expected end of statement, instead found comma `,` at line 1.".to_string()))
    );
}

#[test]
fn identity_takes_every_token() {
    let tokens = [t(TokenValue::String("x".to_string())), t(TokenValue::Const(Keyword::Null))];
    assert_eq!(
        expect_identity(&tokens),
        Ok(ExpectOk { rest: &[][..], tokens_consumed_count: 2, outcome: tokens.to_vec() })
    );
}

#[test]
fn enclosure_without_closing_is_an_error() {
    let tokens = [
        t(TokenValue::Delimiting(Delimiter::ParenthesisOpening)),
        t(TokenValue::Arbitrary("foo".to_string())),
    ];
    assert!(expect_enclosure(&tokens, Delimiter::ParenthesisOpening, Delimiter::ParenthesisClosing).is_err());
}
