use emdrive::errors::SyntaxError;
use emdrive::expects::{expect_enclosure, expect_token_value, expect_token_values_sequence, ExpectOk};
use emdrive::tokenizer::{DataTypeRaw, Delimiter, Keyword, Token, TokenValue};

fn t(value: TokenValue) -> Token {
    Token { value, line_number: 1 }
}

fn if_not_exists() -> Vec<TokenValue> {
    vec![
        TokenValue::Const(Keyword::If),
        TokenValue::Const(Keyword::Not),
        TokenValue::Const(Keyword::Exists),
    ]
}

#[test]
fn generic_returns_ok() {
    let tokens = [
        t(TokenValue::Const(Keyword::If)),
        t(TokenValue::Const(Keyword::Not)),
        t(TokenValue::Const(Keyword::Exists)),
    ];
    assert_eq!(
        expect_token_values_sequence(&tokens, &if_not_exists()),
        Ok(ExpectOk { rest: &[][..], tokens_consumed_count: 3, outcome: () })
    )
}

#[test]
fn generic_returns_error_if_third_token_invalid() {
    let tokens = [
        t(TokenValue::Const(Keyword::If)),
        t(TokenValue::Const(Keyword::Not)),
        t(TokenValue::Arbitrary("xyz".to_string())),
    ];
    assert_eq!(
        expect_token_values_sequence(&tokens, &if_not_exists()),
        Err(SyntaxError(
            "Expected keyword `EXISTS`, instead found arbitrary `xyz` at line 1.".to_string()
        ))
    )
}

#[test]
fn generic_returns_error_if_too_few_tokens() {
    let tokens = [t(TokenValue::Const(Keyword::If))];
    assert_eq!(
        expect_token_values_sequence(&tokens, &if_not_exists()),
        Err(SyntaxError("Expected keyword `NOT`, instead found end of statement.".to_string()))
    )
}

#[test]
fn generic_returns_error_if_eos() {
    assert_eq!(
        expect_token_values_sequence(&[], &if_not_exists()),
        Err(SyntaxError("Expected keyword `IF`, instead found end of statement.".to_string()))
    )
}

#[test]
fn generic_returns_ok_single_token() {
    let tokens = [
        t(TokenValue::Const(Keyword::Primary)),
        t(TokenValue::Arbitrary("foo".to_string())),
    ];
    assert_eq!(
        expect_token_value(&tokens, &TokenValue::Const(Keyword::Primary)),
        Ok(ExpectOk {
            rest: &[t(TokenValue::Arbitrary("foo".to_string()))][..],
            tokens_consumed_count: 1,
            outcome: ()
        })
    )
}

#[test]
fn generic_returns_error_if_const_token() {
    let tokens = [t(TokenValue::Const(Keyword::Create))];
    assert_eq!(
        expect_token_value(&tokens, &TokenValue::Const(Keyword::Primary)),
        Err(SyntaxError(
            "Expected keyword `PRIMARY`, instead found keyword `CREATE` at line 1.".to_string()
        ))
    )
}

#[test]
fn generic_returns_error_if_eos_single_token() {
    assert_eq!(
        expect_token_value(&[], &TokenValue::Const(Keyword::Primary)),
        Err(SyntaxError(
            "Expected keyword `PRIMARY`, instead found end of statement.".to_string()
        ))
    )
}

#[test]
fn generic_returns_ok_enclosure() {
    let tokens = [
        t(TokenValue::Delimiting(Delimiter::ParenthesisOpening)),
        t(TokenValue::Arbitrary("foo".to_string())),
        t(TokenValue::Const(Keyword::Nullable)),
        t(TokenValue::Delimiting(Delimiter::ParenthesisOpening)),
        t(TokenValue::Type(DataTypeRaw::UInt64)),
        t(TokenValue::Delimiting(Delimiter::ParenthesisClosing)),
        t(TokenValue::Delimiting(Delimiter::ParenthesisClosing)),
        t(TokenValue::Const(Keyword::Values)),
    ];
    assert_eq!(
        expect_enclosure(&tokens, Delimiter::ParenthesisOpening, Delimiter::ParenthesisClosing),
        Ok(ExpectOk {
            rest: &[t(TokenValue::Const(Keyword::Values))][..],
            tokens_consumed_count: 7,
            outcome: &[
                t(TokenValue::Arbitrary("foo".to_string())),
                t(TokenValue::Const(Keyword::Nullable)),
                t(TokenValue::Delimiting(Delimiter::ParenthesisOpening)),
                t(TokenValue::Type(DataTypeRaw::UInt64)),
                t(TokenValue::Delimiting(Delimiter::ParenthesisClosing)),
            ][..]
        })
    )
}
