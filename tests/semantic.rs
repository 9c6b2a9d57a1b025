use emdrive::components::{DataDefinition, DataInstance, DataInstanceRaw, DataType, Expression};
use emdrive::errors::SyntaxError;
use emdrive::expects::ExpectOk;
use emdrive::semantic::{
    expect_data_definition, expect_data_instance, expect_data_type, expect_expression,
    expect_function_call, expect_identifier, parse_u32,
};
use emdrive::tokenizer::{DataTypeRaw, Delimiter, Function, Keyword, Token, TokenValue};

fn t(value: TokenValue) -> Token {
    Token { value, line_number: 1 }
}

#[test]
fn semantic_returns_ok() {
    let tokens = [t(TokenValue::Arbitrary("foo".to_string()))];
    assert_eq!(
        expect_identifier(&tokens),
        Ok(ExpectOk { rest: &[][..], tokens_consumed_count: 1, outcome: "foo".to_string() })
    )
}

#[test]
fn semantic_returns_error_if_const_token() {
    let tokens = [t(TokenValue::Const(Keyword::Create))];
    assert_eq!(
        expect_identifier(&tokens),
        Err(SyntaxError(
            "Expected an identifier, instead found keyword `CREATE` at line 1.".to_string()
        ))
    )
}

#[test]
fn semantic_returns_error_if_eos() {
    assert_eq!(
        expect_identifier(&[]),
        Err(SyntaxError("Expected an identifier, instead found end of statement.".to_string()))
    )
}

#[test]
fn semantic_returns_ok_uint64() {
    let tokens = [t(TokenValue::Type(DataTypeRaw::UInt64))];
    assert_eq!(
        expect_data_type(&tokens),
        Ok(ExpectOk {
            rest: &[][..],
            tokens_consumed_count: 1,
            outcome: DataType { raw_type: DataTypeRaw::UInt64, is_nullable: false }
        })
    )
}

#[test]
fn semantic_returns_ok_nullable_timestamp() {
    let tokens = [
        t(TokenValue::Const(Keyword::Nullable)),
        t(TokenValue::Delimiting(Delimiter::ParenthesisOpening)),
        t(TokenValue::Type(DataTypeRaw::Timestamp)),
        t(TokenValue::Delimiting(Delimiter::ParenthesisClosing)),
    ];
    assert_eq!(
        expect_data_type(&tokens),
        Ok(ExpectOk {
            rest: &[][..],
            tokens_consumed_count: 4,
            outcome: DataType { raw_type: DataTypeRaw::Timestamp, is_nullable: true }
        })
    )
}

// This also stands for `expects_returns_error_if_nullable_not_closed`: that
// version expected "Expected delimiter `)`, instead found delimiter `,`", a
// wording no revision of the parser ever produced; the message below is the
// one the parser gives.
#[test]
fn semantic_returns_error_if_nullable_not_closed() {
    let tokens = [
        t(TokenValue::Const(Keyword::Nullable)),
        t(TokenValue::Delimiting(Delimiter::ParenthesisOpening)),
        t(TokenValue::Type(DataTypeRaw::Timestamp)),
        t(TokenValue::Delimiting(Delimiter::Comma)),
    ];
    assert_eq!(
        expect_data_type(&tokens),
        Err(SyntaxError(
            "Expected closing parenthesis `)`, instead found comma `,` at line 1.".to_string()
        ))
    )
}

// This also stands for `expects_returns_error_if_no_type`, which expected
// "Expected a type, ..."; the parser names what it expects "a data type".
#[test]
fn semantic_returns_error_if_no_type() {
    let tokens = [t(TokenValue::Arbitrary("foo".to_string()))];
    assert_eq!(
        expect_data_type(&tokens),
        Err(SyntaxError(
            "Expected a data type, instead found arbitrary `foo` at line 1.".to_string()
        ))
    )
}

#[test]
fn semantic_returns_error_if_neos() {
    assert_eq!(
        expect_data_type(&[]),
        Err(SyntaxError("Expected a data type, instead found end of statement.".to_string()))
    )
}

// This also stands for `expects_returns_error_if_no_type_but_nullable`, which
// expected "Expected a type, ..."; the parser says "a data type".
#[test]
fn semantic_returns_error_if_no_type_but_nullable() {
    let tokens = [
        t(TokenValue::Const(Keyword::Nullable)),
        t(TokenValue::Delimiting(Delimiter::ParenthesisOpening)),
        t(TokenValue::Arbitrary("bar".to_string())),
    ];
    assert_eq!(
        expect_data_type(&tokens),
        Err(SyntaxError(
            "Expected a data type, instead found arbitrary `bar` at line 1.".to_string()
        ))
    )
}

#[test]
fn semantic_returns_error_if_eos_but_nullable() {
    let tokens = [
        t(TokenValue::Const(Keyword::Nullable)),
        t(TokenValue::Delimiting(Delimiter::ParenthesisOpening)),
    ];
    assert_eq!(
        expect_data_type(&tokens),
        Err(SyntaxError("Expected a data type, instead found end of statement.".to_string()))
    )
}

#[test]
fn semantic_returns_ok_string() {
    let tokens = [t(TokenValue::String("foo".to_string()))];
    assert_eq!(
        expect_data_instance(&tokens),
        Ok(ExpectOk {
            rest: &[][..],
            tokens_consumed_count: 1,
            outcome: DataInstance::Direct(DataInstanceRaw::String("foo".into()))
        })
    )
}

#[test]
fn semantic_returns_ok_number() {
    let tokens = [t(TokenValue::Arbitrary("1227".to_string()))];
    assert_eq!(
        expect_data_instance(&tokens),
        Ok(ExpectOk {
            rest: &[][..],
            tokens_consumed_count: 1,
            outcome: DataInstance::Direct(DataInstanceRaw::UInt32(1227))
        })
    )
}

#[test]
fn returns_ok_with_no_args() {
    let tokens = [
        t(TokenValue::Function(Function::Ulid)),
        t(TokenValue::Delimiting(Delimiter::ParenthesisOpening)),
        t(TokenValue::Delimiting(Delimiter::ParenthesisClosing)),
    ];
    assert_eq!(
        expect_function_call(&tokens),
        Ok(ExpectOk { rest: &[][..], tokens_consumed_count: 3, outcome: Function::Ulid })
    )
}

#[test]
fn returns_error_if_no_opening_parenthesis() {
    let tokens = [t(TokenValue::Function(Function::Ulid))];
    assert_eq!(
        expect_function_call(&tokens),
        Err(SyntaxError(
            "Expected opening parenthesis `(`, instead found end of statement.".to_string()
        ))
    )
}

#[test]
fn null_literal_and_bad_number() {
    let tokens = [t(TokenValue::Const(Keyword::Null))];
    assert_eq!(expect_data_instance(&tokens).unwrap().outcome, DataInstance::Null);
    let tokens = [t(TokenValue::Arbitrary("12x".to_string()))];
    assert_eq!(
        expect_data_instance(&tokens),
        Err(SyntaxError("Expected a value, instead found arbitrary `12x` at line 1.".to_string()))
    );
}

#[test]
fn numbers_are_read_as_str_parse_does() {
    let chars = |s: &str| s.chars().collect::<Vec<char>>();
    assert_eq!(parse_u32(&chars("0")), Some(0));
    assert_eq!(parse_u32(&chars("+42")), Some(42));
    assert_eq!(parse_u32(&chars("007")), Some(7));
    assert_eq!(parse_u32(&chars("4294967295")), Some(u32::MAX));
    assert_eq!(parse_u32(&chars("4294967296")), None);
    assert_eq!(parse_u32(&chars("")), None);
    assert_eq!(parse_u32(&chars("+")), None);
    assert_eq!(parse_u32(&chars("-1")), None);
}

#[test]
fn definitions_prefer_calls_then_values_then_identifiers() {
    let call = [
        t(TokenValue::Function(Function::Now)),
        t(TokenValue::Delimiting(Delimiter::ParenthesisOpening)),
        t(TokenValue::Delimiting(Delimiter::ParenthesisClosing)),
    ];
    assert_eq!(
        expect_data_definition(&call).unwrap().outcome,
        DataDefinition::FunctionCall(Function::Now)
    );
    let number = [t(TokenValue::Arbitrary("5".to_string()))];
    assert_eq!(
        expect_data_definition(&number).unwrap().outcome,
        DataDefinition::Const(DataInstance::Direct(DataInstanceRaw::UInt32(5)))
    );
    let name = [t(TokenValue::Arbitrary("foo".to_string()))];
    assert_eq!(
        expect_data_definition(&name).unwrap().outcome,
        DataDefinition::Identifier("foo".to_string())
    );
    assert!(expect_data_definition(&[t(TokenValue::Const(Keyword::From))]).is_err());
}

#[test]
fn expressions_are_atoms_or_equalities() {
    let tokens = [
        t(TokenValue::Arbitrary("foo".to_string())),
        t(TokenValue::Delimiting(Delimiter::Equal)),
        t(TokenValue::String("bar".to_string())),
    ];
    let ok = expect_expression(&tokens).unwrap();
    assert_eq!(ok.tokens_consumed_count, 3);
    assert_eq!(
        ok.outcome,
        Expression::Equal(
            Box::new(Expression::Atom(DataDefinition::Identifier("foo".to_string()))),
            Box::new(Expression::Atom(DataDefinition::Const(DataInstance::Direct(
                DataInstanceRaw::String("bar".to_string())
            ))))
        )
    );
    let wrong_operator = [
        t(TokenValue::Arbitrary("foo".to_string())),
        t(TokenValue::Delimiting(Delimiter::Comma)),
        t(TokenValue::String("bar".to_string())),
    ];
    assert_eq!(
        expect_expression(&wrong_operator),
        Err(SyntaxError("Expected equals sign `=`, instead found comma `,` at line 1.".to_string()))
    );
}
