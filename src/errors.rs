//! Errors of the SQL front end, and the descriptions of tokens used in their messages.

use crate::text::decimal_string;
use crate::text::decimal;
use crate::tokenizer::{DataTypeRaw, Delimiter, Function, Keyword, Token, TokenValue};
use vstd::prelude::*;
use vstd::string::*;

verus! {

/// A statement that does not follow the grammar.
#[derive(Debug, PartialEq, Eq, Clone)]
pub struct SyntaxError(pub String);

/// A statement that follows the grammar but breaks a rule of the schema.
#[derive(Debug, PartialEq, Eq, Clone)]
pub struct ValidationError(pub String);

impl SyntaxError {
    /// The message, prefixed by the kind of error.
    pub fn to_string(&self) -> (r: String)
        ensures
            r@ == "SyntaxError: "@ + self.0@,
    {
        String::from_str("SyntaxError: ").concat(self.0.as_str())
    }
}

impl ValidationError {
    /// The message, prefixed by the kind of error.
    pub fn to_string(&self) -> (r: String)
        ensures
            r@ == "ValidationError: "@ + self.0@,
    {
        String::from_str("ValidationError: ").concat(self.0.as_str())
    }
}

pub open spec fn delimiter_text(d: Delimiter) -> Seq<char> {
    match d {
        Delimiter::Comma => "comma `,`"@,
        Delimiter::ParenthesisOpening => "opening parenthesis `(`"@,
        Delimiter::ParenthesisClosing => "closing parenthesis `)`"@,
        Delimiter::Equal => "equals sign `=`"@,
    }
}

pub open spec fn keyword_text(k: Keyword) -> Seq<char> {
    match k {
        Keyword::Create => "keyword `CREATE`"@,
        Keyword::Insert => "keyword `INSERT`"@,
        Keyword::Into => "keyword `INTO`"@,
        Keyword::Values => "keyword `VALUES`"@,
        Keyword::Table => "keyword `TABLE`"@,
        Keyword::If => "keyword `IF`"@,
        Keyword::Not => "keyword `NOT`"@,
        Keyword::Exists => "keyword `EXISTS`"@,
        Keyword::Nullable => "keyword `NULLABLE`"@,
        Keyword::Null => "keyword `NULL`"@,
        Keyword::Primary => "keyword `PRIMARY`"@,
        Keyword::Key => "keyword `KEY`"@,
        Keyword::Metric => "keyword `METRIC`"@,
        Keyword::Default => "keyword `DEFAULT`"@,
        Keyword::Select => "keyword `SELECT`"@,
        Keyword::From => "keyword `FROM`"@,
        Keyword::Where => "keyword `WHERE`"@,
        Keyword::Asterisk => "keyword `*`"@,
    }
}

pub open spec fn type_text(t: DataTypeRaw) -> Seq<char> {
    match t {
        DataTypeRaw::UInt8 => "type `UINT8`"@,
        DataTypeRaw::UInt16 => "type `UINT16`"@,
        DataTypeRaw::UInt32 => "type `UINT32`"@,
        DataTypeRaw::UInt64 => "type `UINT64`"@,
        DataTypeRaw::UInt128 => "type `UINT128`"@,
        DataTypeRaw::Bool => "type `BOOL`"@,
        DataTypeRaw::Timestamp => "type `TIMESTAMP`"@,
        DataTypeRaw::Uuid => "type `UUID`"@,
        DataTypeRaw::String => "type `STRING`"@,
    }
}

pub open spec fn function_text(f: Function) -> Seq<char> {
    match f {
        Function::Ulid => "function `ULID`"@,
        Function::Now => "function `NOW`"@,
    }
}

/// How a token value reads in a message.
pub open spec fn value_text(v: TokenValue) -> Seq<char> {
    match v {
        TokenValue::Delimiting(d) => delimiter_text(d),
        TokenValue::Const(k) => keyword_text(k),
        TokenValue::Type(t) => type_text(t),
        TokenValue::Function(f) => function_text(f),
        TokenValue::String(s) => "string `\""@ + s@ + "\"`"@,
        TokenValue::Arbitrary(s) => "arbitrary `"@ + s@ + "`"@,
    }
}

/// How a token reads in a message: its value and its line.
pub open spec fn token_text(t: Token) -> Seq<char> {
    value_text(t.value) + " at line "@ + decimal(t.line_number as nat)
}

/// The message for an expectation that met something else.
pub open spec fn mismatch_message(expected: Seq<char>, found: Seq<char>) -> Seq<char> {
    "Expected "@ + expected + ", instead found "@ + found + "."@
}

/// The message for an expectation that met the end of the statement.
pub open spec fn end_message(expected: Seq<char>) -> Seq<char> {
    "Expected "@ + expected + ", instead found end of statement."@
}

fn describe_delimiter(d: Delimiter) -> (r: String)
    ensures
        r@ == delimiter_text(d),
{
    match d {
        Delimiter::Comma => String::from_str("comma `,`"),
        Delimiter::ParenthesisOpening => String::from_str("opening parenthesis `(`"),
        Delimiter::ParenthesisClosing => String::from_str("closing parenthesis `)`"),
        Delimiter::Equal => String::from_str("equals sign `=`"),
    }
}

fn describe_keyword(k: Keyword) -> (r: String)
    ensures
        r@ == keyword_text(k),
{
    match k {
        Keyword::Create => String::from_str("keyword `CREATE`"),
        Keyword::Insert => String::from_str("keyword `INSERT`"),
        Keyword::Into => String::from_str("keyword `INTO`"),
        Keyword::Values => String::from_str("keyword `VALUES`"),
        Keyword::Table => String::from_str("keyword `TABLE`"),
        Keyword::If => String::from_str("keyword `IF`"),
        Keyword::Not => String::from_str("keyword `NOT`"),
        Keyword::Exists => String::from_str("keyword `EXISTS`"),
        Keyword::Nullable => String::from_str("keyword `NULLABLE`"),
        Keyword::Null => String::from_str("keyword `NULL`"),
        Keyword::Primary => String::from_str("keyword `PRIMARY`"),
        Keyword::Key => String::from_str("keyword `KEY`"),
        Keyword::Metric => String::from_str("keyword `METRIC`"),
        Keyword::Default => String::from_str("keyword `DEFAULT`"),
        Keyword::Select => String::from_str("keyword `SELECT`"),
        Keyword::From => String::from_str("keyword `FROM`"),
        Keyword::Where => String::from_str("keyword `WHERE`"),
        Keyword::Asterisk => String::from_str("keyword `*`"),
    }
}

fn describe_type(t: DataTypeRaw) -> (r: String)
    ensures
        r@ == type_text(t),
{
    match t {
        DataTypeRaw::UInt8 => String::from_str("type `UINT8`"),
        DataTypeRaw::UInt16 => String::from_str("type `UINT16`"),
        DataTypeRaw::UInt32 => String::from_str("type `UINT32`"),
        DataTypeRaw::UInt64 => String::from_str("type `UINT64`"),
        DataTypeRaw::UInt128 => String::from_str("type `UINT128`"),
        DataTypeRaw::Bool => String::from_str("type `BOOL`"),
        DataTypeRaw::Timestamp => String::from_str("type `TIMESTAMP`"),
        DataTypeRaw::Uuid => String::from_str("type `UUID`"),
        DataTypeRaw::String => String::from_str("type `STRING`"),
    }
}

/// How a token value reads in a message.
pub fn describe_value(v: &TokenValue) -> (r: String)
    ensures
        r@ == value_text(*v),
{
    match v {
        TokenValue::Delimiting(d) => describe_delimiter(*d),
        TokenValue::Const(k) => describe_keyword(*k),
        TokenValue::Type(t) => describe_type(*t),
        TokenValue::Function(f) => match f {
            Function::Ulid => String::from_str("function `ULID`"),
            Function::Now => String::from_str("function `NOW`"),
        },
        TokenValue::String(s) => String::from_str("string `\"").concat(s.as_str()).concat("\"`"),
        TokenValue::Arbitrary(s) => String::from_str("arbitrary `").concat(s.as_str()).concat("`"),
    }
}

/// How a token reads in a message: its value and its line.
pub fn describe_token(t: &Token) -> (r: String)
    ensures
        r@ == token_text(*t),
{
    let line = decimal_string(t.line_number);
    describe_value(&t.value).concat(" at line ").concat(line.as_str())
}

/// "Expected `expected`, instead found `found`."
pub fn mismatch_error(expected: &str, found: &str) -> (r: SyntaxError)
    ensures
        r.0@ == mismatch_message(expected@, found@),
{
    SyntaxError(String::from_str("Expected ").concat(expected).concat(", instead found ").concat(
        found,
    ).concat("."))
}

/// "Expected `expected`, instead found end of statement."
pub fn end_error(expected: &str) -> (r: SyntaxError)
    ensures
        r.0@ == end_message(expected@),
{
    SyntaxError(String::from_str("Expected ").concat(expected).concat(
        ", instead found end of statement.",
    ))
}

} // verus!
