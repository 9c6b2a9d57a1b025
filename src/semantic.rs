//! Expectations of the statement grammar's building blocks: identifiers, types,
//! values, function calls and expressions.

use crate::components::{DataDefinition, DataInstance, DataInstanceRaw, DataType, Expression};
use crate::errors::{
    describe_token, end_error, end_message, mismatch_error, mismatch_message, token_text, SyntaxError,
};
use crate::expects::{
    canonical_value, consumed_as, enclosed_spelled, expect_enclosed, expect_next_token, expect_token_value,
    expect_token_values_sequence, lemma_values_of_split, took, values_of, ExpectOk, ExpectResult,
};
use crate::text::chars_of;
use crate::tokenizer::{DataTypeRaw, Delimiter, Function, Keyword, Token, TokenValue};
use vstd::prelude::*;
use vstd::string::*;

verus! {

broadcast use crate::text::lemma_canonical;

// ---------------------------------------------------------------------------
// Numbers

pub open spec fn is_digit(c: char) -> bool {
    '0' <= c && c <= '9'
}

pub open spec fn digit_value(c: char) -> nat {
    ((c as u32) - ('0' as u32)) as nat
}

/// The number that a run of decimal digits stands for.
pub open spec fn digits_value(w: Seq<char>) -> nat
    decreases w.len(),
{
    if w.len() == 0 {
        0
    } else {
        digits_value(w.drop_last()) * 10 + digit_value(w.last())
    }
}

pub open spec fn all_digits(w: Seq<char>) -> bool {
    forall|i: int| 0 <= i < w.len() ==> is_digit(#[trigger] w[i])
}

/// The `u32` that a word spells: decimal digits, at least one, optionally after
/// a plus sign, with a value that fits.
pub open spec fn u32_of(w: Seq<char>) -> Option<u32> {
    let d = if w.len() > 0 && w[0] == '+' {
        w.skip(1)
    } else {
        w
    };
    if d.len() > 0 && all_digits(d) && digits_value(d) <= u32::MAX {
        Some(digits_value(d) as u32)
    } else {
        None
    }
}

proof fn lemma_digits_value_grows(w: Seq<char>, k: int)
    requires
        0 <= k <= w.len(),
        all_digits(w),
    ensures
        digits_value(w.take(k)) <= digits_value(w),
    decreases w.len() - k,
{
    if k < w.len() {
        lemma_digits_value_grows(w, k + 1);
        assert(w.take(k + 1).drop_last() =~= w.take(k));
    } else {
        assert(w.take(k) =~= w);
    }
}

/// Reads a `u32` written in decimal, as `str::parse` does.
pub fn parse_u32(w: &Vec<char>) -> (r: Option<u32>)
    ensures
        r == u32_of(w@),
{
    let n = w.len();
    let start: usize = if n > 0 && w[0] == '+' {
        1
    } else {
        0
    };
    let ghost d = if w@.len() > 0 && w@[0] == '+' {
        w@.skip(1)
    } else {
        w@
    };
    proof {
        assert(d =~= w@.skip(start as int));
    }
    if start == n {
        return None;
    }
    let mut value: u64 = 0;
    let mut i: usize = start;
    while i < n
        invariant
            n == w@.len(),
            start <= i <= n,
            d == w@.skip(start as int),
            d == (if w@.len() > 0 && w@[0] == '+' {
                w@.skip(1)
            } else {
                w@
            }),
            all_digits(d.take(i - start)),
            value as nat == digits_value(d.take(i - start)),
            value <= u32::MAX,
        decreases n - i,
    {
        let c = w[i];
        proof {
            assert(d.take(i - start + 1).drop_last() =~= d.take(i - start));
            assert(d.take(i - start + 1).last() == c);
        }
        if !('0' <= c && c <= '9') {
            proof {
                assert(!all_digits(d)) by {
                    assert(d[i - start] == c);
                }
                assert(u32_of(w@) is None);
            }
            return None;
        }
        let next: u64 = value * 10 + ((c as u32) - ('0' as u32)) as u64;
        if next > 0xffff_ffff {
            proof {
                let k = i - start + 1;
                assert(all_digits(d.take(k))) by {
                    assert forall|j: int| 0 <= j < k implies is_digit(#[trigger] d.take(k)[j]) by {
                        if j < k - 1 {
                            assert(d.take(k)[j] == d.take(k - 1)[j]);
                        }
                    }
                }
                assert(digits_value(d.take(k)) == digits_value(d.take(k - 1)) * 10 + digit_value(c));
                assert(digits_value(d.take(k)) > u32::MAX);
                if all_digits(d) {
                    lemma_digits_value_grows(d, k);
                }
                assert(u32_of(w@) is None);
            }
            return None;
        }
        proof {
            let k = i - start + 1;
            assert(all_digits(d.take(k))) by {
                assert forall|j: int| 0 <= j < k implies is_digit(#[trigger] d.take(k)[j]) by {
                    if j < k - 1 {
                        assert(d.take(k)[j] == d.take(k - 1)[j]);
                    }
                }
            }
        }
        value = next;
        i += 1;
    }
    proof {
        assert(d.take(n - start) =~= d);
    }
    Some(value as u32)
}

// ---------------------------------------------------------------------------
// How each construct is spelled

pub open spec fn identifier_spelled(s: String, vs: Seq<TokenValue>) -> bool {
    vs.len() == 1 && (vs[0] matches TokenValue::Arbitrary(w) && w@ == s@)
}

pub open spec fn data_type_raw_spelled(t: DataTypeRaw, vs: Seq<TokenValue>) -> bool {
    vs == seq![TokenValue::Type(t)]
}

pub open spec fn data_type_spelled(t: DataType, vs: Seq<TokenValue>) -> bool {
    if t.is_nullable {
        vs == seq![
            TokenValue::Const(Keyword::Nullable),
            TokenValue::Delimiting(Delimiter::ParenthesisOpening),
            TokenValue::Type(t.raw_type),
            TokenValue::Delimiting(Delimiter::ParenthesisClosing),
        ]
    } else {
        vs == seq![TokenValue::Type(t.raw_type)]
    }
}

/// A literal: `NULL`, a string, or a number, which reads as a `UInt32`.
pub open spec fn instance_spelled(d: DataInstance, vs: Seq<TokenValue>) -> bool {
    vs.len() == 1 && match d {
        DataInstance::Null => vs[0] == TokenValue::Const(Keyword::Null),
        DataInstance::Direct(DataInstanceRaw::String(s)) => (vs[0] matches TokenValue::String(w)
            && w@ == s@),
        DataInstance::Direct(DataInstanceRaw::UInt32(n)) => (vs[0] matches TokenValue::Arbitrary(w)
            && u32_of(w@) == Some(n)),
        _ => false,
    }
}

pub open spec fn function_call_spelled(f: Function, vs: Seq<TokenValue>) -> bool {
    vs == seq![
        TokenValue::Function(f),
        TokenValue::Delimiting(Delimiter::ParenthesisOpening),
        TokenValue::Delimiting(Delimiter::ParenthesisClosing),
    ]
}

/// A function call, a literal, or an identifier that is not a number.
pub open spec fn definition_spelled(d: DataDefinition, vs: Seq<TokenValue>) -> bool {
    match d {
        DataDefinition::FunctionCall(f) => function_call_spelled(f, vs),
        DataDefinition::Const(i) => instance_spelled(i, vs),
        DataDefinition::Identifier(s) => identifier_spelled(s, vs) && u32_of(s@) is None,
    }
}

/// An atom, or two atoms joined by `=`.
pub open spec fn expression_spelled(e: Expression, vs: Seq<TokenValue>) -> bool {
    match e {
        Expression::Atom(d) => definition_spelled(d, vs),
        Expression::Equal(a, b) => match (*a, *b) {
            (Expression::Atom(x), Expression::Atom(y)) => exists|i: int|
                0 <= i < vs.len() && vs[i] == TokenValue::Delimiting(Delimiter::Equal)
                    && definition_spelled(x, #[trigger] vs.take(i)) && definition_spelled(
                    y,
                    vs.skip(i + 1),
                ),
            _ => false,
        },
    }
}

// ---------------------------------------------------------------------------
// Where each construct can start

pub open spec fn starts_function_call(vs: Seq<TokenValue>) -> bool {
    vs.len() >= 3 && vs[0] is Function && vs[1] == TokenValue::Delimiting(
        Delimiter::ParenthesisOpening,
    ) && vs[2] == TokenValue::Delimiting(Delimiter::ParenthesisClosing)
}

pub open spec fn starts_data_type(vs: Seq<TokenValue>) -> bool {
    ||| vs.len() > 0 && vs[0] is Type
    ||| vs.len() >= 4 && vs[0] == TokenValue::Const(Keyword::Nullable) && vs[1]
        == TokenValue::Delimiting(Delimiter::ParenthesisOpening) && vs[2] is Type && vs[3]
        == TokenValue::Delimiting(Delimiter::ParenthesisClosing)
}

pub open spec fn starts_instance(vs: Seq<TokenValue>) -> bool {
    vs.len() > 0 && match vs[0] {
        TokenValue::Const(Keyword::Null) => true,
        TokenValue::String(_) => true,
        TokenValue::Arbitrary(w) => u32_of(w@) is Some,
        _ => false,
    }
}

pub open spec fn starts_definition(vs: Seq<TokenValue>) -> bool {
    starts_function_call(vs) || starts_instance(vs) || (vs.len() > 0 && vs[0] is Arbitrary)
}

/// How many tokens the definition at the start of `vs` takes.
pub open spec fn definition_len(vs: Seq<TokenValue>) -> int {
    if starts_function_call(vs) {
        3
    } else {
        1
    }
}

pub open spec fn starts_expression(vs: Seq<TokenValue>) -> bool {
    let k = definition_len(vs);
    starts_definition(vs) && (vs.len() == k || (vs[k] == TokenValue::Delimiting(Delimiter::Equal)
        && starts_definition(vs.skip(k + 1))))
}

/// How many tokens the data type at the start of `vs` takes.
pub open spec fn data_type_len_at(vs: Seq<TokenValue>) -> int {
    if vs.len() > 0 && vs[0] == TokenValue::Const(Keyword::Nullable) {
        4
    } else {
        1
    }
}

/// How many tokens the expression at the start of `vs` takes: a definition,
/// and if anything follows, `=` and a second definition.
pub open spec fn expression_len(vs: Seq<TokenValue>) -> int {
    let k = definition_len(vs);
    if vs.len() == k {
        k
    } else {
        k + 1 + definition_len(vs.skip(k + 1))
    }
}

/// A data type spelled by the first `m` values starts the values and takes `m`.
pub proof fn lemma_data_type_prefix(t: DataType, vs: Seq<TokenValue>, m: int)
    requires
        0 <= m <= vs.len(),
        data_type_spelled(t, vs.take(m)),
    ensures
        starts_data_type(vs),
        data_type_len_at(vs) == m,
{
    assert(vs.take(m).len() == m);
    assert(m >= 1);
    assert(vs.take(m)[0] == vs[0]);
    if t.is_nullable {
        assert(vs.take(m)[1] == vs[1]);
        assert(vs.take(m)[2] == vs[2]);
        assert(vs.take(m)[3] == vs[3]);
    }
}

/// A definition spelled by the first `m` values starts the values and takes `m`.
pub proof fn lemma_definition_prefix(d: DataDefinition, vs: Seq<TokenValue>, m: int)
    requires
        0 <= m <= vs.len(),
        definition_spelled(d, vs.take(m)),
    ensures
        starts_definition(vs),
        definition_len(vs) == m,
{
    assert(vs.take(m).len() == m);
    assert(m >= 1);
    assert(vs.take(m)[0] == vs[0]);
    if d is FunctionCall {
        assert(vs.take(m)[1] == vs[1]);
        assert(vs.take(m)[2] == vs[2]);
    }
}

/// An expression spelled by all the values starts them and takes them all.
pub proof fn lemma_expression_whole(e: Expression, vs: Seq<TokenValue>)
    requires
        expression_spelled(e, vs),
    ensures
        starts_expression(vs),
        expression_len(vs) == vs.len(),
{
    match e {
        Expression::Atom(d) => {
            assert(vs.take(vs.len() as int) =~= vs);
            lemma_definition_prefix(d, vs, vs.len() as int);
        },
        Expression::Equal(a, b) => {
            if let (Expression::Atom(x), Expression::Atom(y)) = (*a, *b) {
                let i = choose|i: int|
                    0 <= i < vs.len() && vs[i] == TokenValue::Delimiting(Delimiter::Equal)
                        && definition_spelled(x, #[trigger] vs.take(i)) && definition_spelled(y, vs.skip(i + 1));
                lemma_definition_prefix(x, vs, i);
                let rest = vs.skip(i + 1);
                assert(rest.take(rest.len() as int) =~= rest);
                lemma_definition_prefix(y, rest, rest.len() as int);
            }
        },
    }
}

proof fn lemma_values_of_skip(ts: Seq<Token>, k: int)
    requires
        0 <= k <= ts.len(),
    ensures
        values_of(ts.skip(k)) == values_of(ts).skip(k),
        values_of(ts.take(k)) == values_of(ts).take(k),
{
    assert(values_of(ts.skip(k)) =~= values_of(ts).skip(k));
    assert(values_of(ts.take(k)) =~= values_of(ts).take(k));
}

// ---------------------------------------------------------------------------
// Expectations

/// An identifier (or a number: the two are told apart by context).
pub fn expect_identifier<'t>(tokens: &'t [Token]) -> (r: ExpectResult<'t, String>)
    ensures
        r is Ok <==> tokens@.len() > 0 && tokens@[0].value is Arbitrary,
        consumed_as(r, tokens@, |o: String, vs: Seq<TokenValue>| identifier_spelled(o, vs)),
        r is Ok ==> took(r, tokens@, 1),
        forall|o: String, m: int|
            #![trigger identifier_spelled(o, values_of(tokens@.take(m)))]
            0 <= m <= tokens@.len() && identifier_spelled(o, values_of(tokens@.take(m))) ==> took(
                r,
                tokens@,
                m,
            ),
        r matches Err(e) ==> e.0@ == if tokens@.len() == 0 {
            end_message("an identifier"@)
        } else {
            mismatch_message("an identifier"@, token_text(tokens@[0]))
        },
{
    proof {
        assert forall|o: String, m: int|
            #![trigger identifier_spelled(o, values_of(tokens@.take(m)))]
            0 <= m <= tokens@.len() && identifier_spelled(o, values_of(tokens@.take(m))) implies m == 1
                && tokens@[0].value is Arbitrary by {
            assert(values_of(tokens@.take(m))[0] == canonical_value(tokens@[0].value));
        }
    }
    let ExpectOk { rest, tokens_consumed_count, outcome: found_token } = match expect_next_token(
        tokens,
        "an identifier",
    ) {
        Ok(ok) => ok,
        Err(e) => return Err(e),
    };
    proof {
        assert(values_of(tokens@.take(1)) =~= seq![canonical_value(tokens@[0].value)]);
    }
    match &found_token.value {
        TokenValue::Arbitrary(value) => Ok(
            ExpectOk { rest, tokens_consumed_count, outcome: value.clone() },
        ),
        _ => {
            let found = describe_token(found_token);
            Err(mismatch_error("an identifier", found.as_str()))
        },
    }
}

/// A primitive type name.
pub fn expect_data_type_raw<'t>(tokens: &'t [Token]) -> (r: ExpectResult<'t, DataTypeRaw>)
    ensures
        r is Ok <==> tokens@.len() > 0 && tokens@[0].value is Type,
        consumed_as(r, tokens@, |o: DataTypeRaw, vs: Seq<TokenValue>| data_type_raw_spelled(o, vs)),
        r is Ok ==> took(r, tokens@, 1),
        r matches Err(e) ==> e.0@ == if tokens@.len() == 0 {
            end_message("a data type"@)
        } else {
            mismatch_message("a data type"@, token_text(tokens@[0]))
        },
{
    let ExpectOk { rest, tokens_consumed_count, outcome: found_token } = match expect_next_token(
        tokens,
        "a data type",
    ) {
        Ok(ok) => ok,
        Err(e) => return Err(e),
    };
    proof {
        assert(values_of(tokens@.take(1)) =~= seq![canonical_value(tokens@[0].value)]);
    }
    match &found_token.value {
        TokenValue::Type(found_data_type) => Ok(
            ExpectOk { rest, tokens_consumed_count, outcome: *found_data_type },
        ),
        _ => {
            let found = describe_token(found_token);
            Err(mismatch_error("a data type", found.as_str()))
        },
    }
}

/// A data type: a primitive type name, or one wrapped in `NULLABLE( )`.
pub fn expect_data_type<'t>(tokens: &'t [Token]) -> (r: ExpectResult<'t, DataType>)
    ensures
        r is Ok <==> starts_data_type(values_of(tokens@)),
        consumed_as(r, tokens@, |o: DataType, vs: Seq<TokenValue>| data_type_spelled(o, vs)),
        r is Ok ==> took(r, tokens@, data_type_len_at(values_of(tokens@))),
{
    let is_nullable = expect_token_value(tokens, &TokenValue::Const(Keyword::Nullable)).is_ok();
    if is_nullable {
        let n = tokens.len();
        let tail = &tokens[1..n];
        proof {
            assert(tail@ =~= tokens@.skip(1));
            assert(canonical_value(tokens@[0].value) == TokenValue::Const(Keyword::Nullable));
            if n > 1 {
                assert(tail@[0] == tokens@[1]);
            }
            if n > 2 {
                assert(tail@.skip(1)[0] == tokens@[2]);
            }
            if n > 3 {
                assert(tail@.skip(1).skip(1)[0] == tokens@[3]);
            }
            let all = values_of(tokens@);
            assert(forall|k: int| 0 <= k < n ==> all[k] == #[trigger] canonical_value(tokens@[k].value));
        }
        let ExpectOk { rest, .. } = match expect_token_value(
            tail,
            &TokenValue::Delimiting(Delimiter::ParenthesisOpening),
        ) {
            Ok(ok) => ok,
            Err(e) => return Err(e),
        };
        let middle = rest;
        let ExpectOk { rest, outcome, .. } = match expect_data_type_raw(middle) {
            Ok(ok) => ok,
            Err(e) => return Err(e),
        };
        proof {
            assert(values_of(middle@.take(1))[0] == canonical_value(middle@[0].value));
            assert(middle@ == tail@.skip(1));
            assert(canonical_value(tokens@[2].value) == TokenValue::Type(outcome));
        }
        let ExpectOk { rest, .. } = match expect_token_value(
            rest,
            &TokenValue::Delimiting(Delimiter::ParenthesisClosing),
        ) {
            Ok(ok) => ok,
            Err(e) => return Err(e),
        };
        proof {
            assert(rest@ =~= tokens@.skip(4));
            assert(values_of(tokens@.take(4)) =~= seq![
                TokenValue::Const(Keyword::Nullable),
                TokenValue::Delimiting(Delimiter::ParenthesisOpening),
                TokenValue::Type(outcome),
                TokenValue::Delimiting(Delimiter::ParenthesisClosing),
            ]);
        }
        Ok(
            ExpectOk {
                rest,
                tokens_consumed_count: 4,
                outcome: DataType { raw_type: outcome, is_nullable: true },
            },
        )
    } else {
        let res = expect_data_type_raw(tokens);
        match res {
            Ok(ExpectOk { rest, tokens_consumed_count, outcome }) => {
                proof {
                    assert(values_of(tokens@)[0] == canonical_value(tokens@[0].value));
                }
                Ok(
                    ExpectOk {
                        rest,
                        tokens_consumed_count,
                        outcome: DataType { raw_type: outcome, is_nullable: false },
                    },
                )
            },
            Err(e) => {
                proof {
                    if tokens@.len() > 0 {
                        assert(values_of(tokens@)[0] == canonical_value(tokens@[0].value));
                    }
                }
                Err(e)
            },
        }
    }
}

/// A literal value: `NULL`, a string, or a number, read as a `UInt32`.
pub fn expect_data_instance<'t>(tokens: &'t [Token]) -> (r: ExpectResult<'t, DataInstance>)
    ensures
        r is Ok <==> starts_instance(values_of(tokens@)),
        consumed_as(r, tokens@, |o: DataInstance, vs: Seq<TokenValue>| instance_spelled(o, vs)),
        r is Ok ==> took(r, tokens@, 1),
        forall|o: DataInstance, m: int|
            #![trigger instance_spelled(o, values_of(tokens@.take(m)))]
            0 <= m <= tokens@.len() && instance_spelled(o, values_of(tokens@.take(m))) ==> took(
                r,
                tokens@,
                m,
            ),
{
    proof {
        assert forall|o: DataInstance, m: int|
            #![trigger instance_spelled(o, values_of(tokens@.take(m)))]
            0 <= m <= tokens@.len() && instance_spelled(o, values_of(tokens@.take(m))) implies m == 1
                && starts_instance(values_of(tokens@)) by {
            assert(values_of(tokens@.take(m))[0] == canonical_value(tokens@[0].value));
            assert(values_of(tokens@)[0] == canonical_value(tokens@[0].value));
        }
    }
    let ExpectOk { rest, tokens_consumed_count, outcome: found_token } = match expect_next_token(
        tokens,
        "a value",
    ) {
        Ok(ok) => ok,
        Err(e) => return Err(e),
    };
    proof {
        assert(values_of(tokens@.take(1)) =~= seq![canonical_value(tokens@[0].value)]);
        assert(values_of(tokens@)[0] == canonical_value(tokens@[0].value));
    }
    match &found_token.value {
        TokenValue::Const(Keyword::Null) => Ok(
            ExpectOk { rest, tokens_consumed_count, outcome: DataInstance::Null },
        ),
        TokenValue::String(found_string) => Ok(
            ExpectOk {
                rest,
                tokens_consumed_count,
                outcome: DataInstance::Direct(DataInstanceRaw::String(found_string.clone())),
            },
        ),
        TokenValue::Arbitrary(candidate) => {
            let chars = chars_of(candidate.as_str());
            match parse_u32(&chars) {
                Some(n) => Ok(
                    ExpectOk {
                        rest,
                        tokens_consumed_count,
                        outcome: DataInstance::Direct(DataInstanceRaw::UInt32(n)),
                    },
                ),
                None => {
                    let found = describe_token(found_token);
                    Err(mismatch_error("a value", found.as_str()))
                },
            }
        },
        _ => {
            let found = describe_token(found_token);
            Err(mismatch_error("a value", found.as_str()))
        },
    }
}

/// A call of a built-in function: its name, then `()`.
pub fn expect_function_call<'t>(tokens: &'t [Token]) -> (r: ExpectResult<'t, Function>)
    ensures
        r is Ok <==> starts_function_call(values_of(tokens@)),
        consumed_as(r, tokens@, |o: Function, vs: Seq<TokenValue>| function_call_spelled(o, vs)),
        r is Ok ==> took(r, tokens@, 3),
{
    let ExpectOk { rest, outcome: found_token, .. } = match expect_next_token(
        tokens,
        "a function name",
    ) {
        Ok(ok) => ok,
        Err(e) => return Err(e),
    };
    let ghost all = values_of(tokens@);
    proof {
        assert(all[0] == canonical_value(tokens@[0].value));
    }
    match &found_token.value {
        TokenValue::Function(found_function) => {
            let parentheses = [
                TokenValue::Delimiting(Delimiter::ParenthesisOpening),
                TokenValue::Delimiting(Delimiter::ParenthesisClosing),
            ];
            let res = expect_token_values_sequence(rest, &parentheses);
            proof {
                assert(rest@ == tokens@.skip(1));
                assert(parentheses@ == seq![
                    TokenValue::Delimiting(Delimiter::ParenthesisOpening),
                    TokenValue::Delimiting(Delimiter::ParenthesisClosing),
                ]);
                if tokens@.len() >= 3 {
                    assert(values_of(rest@.take(2)) =~= seq![all[1], all[2]]);
                }
            }
            match res {
                Ok(ExpectOk { rest: after, .. }) => {
                    proof {
                        assert(after@ =~= tokens@.skip(3));
                        assert(values_of(tokens@.take(3)) =~= seq![all[0], all[1], all[2]]);
                    }
                    Ok(ExpectOk { rest: after, tokens_consumed_count: 3, outcome: *found_function })
                },
                Err(e) => Err(e),
            }
        },
        _ => {
            let found = describe_token(found_token);
            Err(mismatch_error("a function name", found.as_str()))
        },
    }
}

/// A function call, a literal or an identifier, tried in that order.
pub fn expect_data_definition<'t>(tokens: &'t [Token]) -> (r: ExpectResult<'t, DataDefinition>)
    ensures
        r is Ok <==> starts_definition(values_of(tokens@)),
        consumed_as(r, tokens@, |o: DataDefinition, vs: Seq<TokenValue>| definition_spelled(o, vs)),
        r is Ok ==> took(r, tokens@, definition_len(values_of(tokens@))),
{
    if let Ok(ExpectOk { rest, tokens_consumed_count, outcome }) = expect_function_call(tokens) {
        return Ok(
            ExpectOk { rest, tokens_consumed_count, outcome: DataDefinition::FunctionCall(outcome) },
        );
    }
    if let Ok(ExpectOk { rest, tokens_consumed_count, outcome }) = expect_data_instance(tokens) {
        return Ok(ExpectOk { rest, tokens_consumed_count, outcome: DataDefinition::Const(outcome) });
    }
    match expect_identifier(tokens) {
        Ok(ExpectOk { rest, tokens_consumed_count, outcome }) => {
            proof {
                let vs = values_of(tokens@.take(1));
                assert(vs[0] == values_of(tokens@)[0]);
            }
            Ok(
                ExpectOk {
                    rest,
                    tokens_consumed_count,
                    outcome: DataDefinition::Identifier(outcome),
                },
            )
        },
        Err(_) => {
            proof {
                if tokens@.len() > 0 {
                    assert(values_of(tokens@)[0] == canonical_value(tokens@[0].value));
                }
            }
            let expected = "a function call, a constant value or an identifier";
            if tokens.len() == 0 {
                Err(end_error(expected))
            } else {
                let found = describe_token(&tokens[0]);
                Err(mismatch_error(expected, found.as_str()))
            }
        },
    }
}

/// An expression: a data definition, optionally followed by `=` and another.
pub fn expect_expression<'t>(tokens: &'t [Token]) -> (r: ExpectResult<'t, Expression>)
    ensures
        r is Ok <==> starts_expression(values_of(tokens@)),
        consumed_as(r, tokens@, |o: Expression, vs: Seq<TokenValue>| expression_spelled(o, vs)),
        r is Ok ==> took(r, tokens@, expression_len(values_of(tokens@))),
        r matches Ok(ok) ==> (ok.outcome is Equal <==> values_of(tokens@).len() > definition_len(
            values_of(tokens@),
        )),
{
    let n = tokens.len();
    let ExpectOk { rest: rest_atom, tokens_consumed_count: lhs_count, outcome: lhs } =
        match expect_data_definition(tokens) {
        Ok(ok) => ok,
        Err(e) => return Err(e),
    };
    let ghost all = values_of(tokens@);
    let ghost k = definition_len(all);
    proof {
        lemma_values_of_skip(tokens@, k);
    }
    if rest_atom.len() == 0 {
        return Ok(
            ExpectOk { rest: rest_atom, tokens_consumed_count: lhs_count, outcome: Expression::Atom(lhs) },
        );
    }
    let operator = &rest_atom[0];
    let payload = &rest_atom[1..rest_atom.len()];
    proof {
        assert(operator == tokens@[k]);
        assert(all[k] == canonical_value(tokens@[k].value));
        assert(payload@ =~= tokens@.skip(k + 1));
        lemma_values_of_skip(tokens@, k + 1);
        assert(values_of(payload@) == all.skip(k + 1));
    }
    let ExpectOk { rest, tokens_consumed_count: rhs_count, outcome: rhs } =
        match expect_data_definition(payload) {
        Ok(ok) => ok,
        Err(e) => return Err(e),
    };
    match &operator.value {
        TokenValue::Delimiting(Delimiter::Equal) => {
            let total = lhs_count + 1 + rhs_count;
            proof {
                let m = rhs_count as int;
                assert(rest@ =~= tokens@.skip(k + 1 + m));
                lemma_values_of_split(tokens@, k + 1, m);
                lemma_values_of_split(tokens@, k, 1);
                let vs = values_of(tokens@.take(k + 1 + m));
                assert(vs.take(k) =~= values_of(tokens@.take(k)));
                assert(vs.skip(k + 1) =~= values_of(payload@.take(m)));
                assert(vs[k] == all[k]);
            }
            Ok(
                ExpectOk {
                    rest,
                    tokens_consumed_count: total,
                    outcome: Expression::Equal(
                        Box::new(Expression::Atom(lhs)),
                        Box::new(Expression::Atom(rhs)),
                    ),
                },
            )
        },
        _ => {
            let found = describe_token(operator);
            Err(mismatch_error("equals sign `=`", found.as_str()))
        },
    }
}

} // verus!
