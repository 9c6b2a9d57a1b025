//! Parser combinators over token slices. Each one consumes a prefix of the
//! tokens and reports what it found, how many tokens it took and what is left.

use crate::errors::{
    describe_token, describe_value, end_error, end_message, mismatch_error, mismatch_message,
    token_text, value_text, SyntaxError,
};
use crate::text::canonical;
use crate::tokenizer::{Delimiter, Token, TokenValue};
use vstd::prelude::*;
use vstd::string::*;

verus! {

broadcast use crate::text::lemma_canonical;

/// A successful expectation.
#[derive(Debug, PartialEq, Eq)]
pub struct ExpectOk<'t, O> {
    /// The tokens after those consumed.
    pub rest: &'t [Token],
    pub tokens_consumed_count: usize,
    pub outcome: O,
}

pub type ExpectResult<'t, O> = Result<ExpectOk<'t, O>, SyntaxError>;

/// A token value with its text replaced by the canonical string of the same
/// characters, so that values read from the same words are equal.
pub open spec fn canonical_value(v: TokenValue) -> TokenValue {
    match v {
        TokenValue::String(s) => TokenValue::String(canonical(s)),
        TokenValue::Arbitrary(s) => TokenValue::Arbitrary(canonical(s)),
        _ => v,
    }
}

/// The values of a run of tokens, texts compared by their characters.
pub open spec fn values_of(ts: Seq<Token>) -> Seq<TokenValue> {
    ts.map_values(|t: Token| canonical_value(t.value))
}

/// Equality of token values, strings compared by their characters.
pub open spec fn value_eq(a: TokenValue, b: TokenValue) -> bool {
    match a {
        TokenValue::String(x) => b matches TokenValue::String(y) && x@ == y@,
        TokenValue::Arbitrary(x) => b matches TokenValue::Arbitrary(y) && x@ == y@,
        _ => a == b,
    }
}

/// Token-wise `value_eq` of two runs of values.
pub open spec fn values_eq(a: Seq<TokenValue>, b: Seq<TokenValue>) -> bool {
    a.len() == b.len() && forall|i: int| 0 <= i < a.len() ==> value_eq(#[trigger] a[i], b[i])
}

/// `r`, if it succeeded, took a prefix of `tokens` whose values spell its
/// outcome according to `spells`, and left the rest.
pub open spec fn consumed_as<'t, O>(
    r: ExpectResult<'t, O>,
    tokens: Seq<Token>,
    spells: spec_fn(O, Seq<TokenValue>) -> bool,
) -> bool {
    match r {
        Ok(ok) => {
            &&& ok.tokens_consumed_count <= tokens.len()
            &&& ok.rest@ == tokens.skip(ok.tokens_consumed_count as int)
            &&& spells(ok.outcome, values_of(tokens.take(ok.tokens_consumed_count as int)))
        },
        Err(_) => true,
    }
}

/// `r` succeeded by taking the first `n` tokens.
pub open spec fn took<'t, O>(r: ExpectResult<'t, O>, tokens: Seq<Token>, n: int) -> bool {
    r matches Ok(ok) && ok.tokens_consumed_count == n && n <= tokens.len() && ok.rest@
        == tokens.skip(n)
}

/// Equality of token values, strings compared by their characters.
pub fn same_value(a: &TokenValue, b: &TokenValue) -> (r: bool)
    ensures
        r == value_eq(*a, *b),
{
    match (a, b) {
        (TokenValue::Delimiting(x), TokenValue::Delimiting(y)) => *x == *y,
        (TokenValue::Const(x), TokenValue::Const(y)) => *x == *y,
        (TokenValue::Type(x), TokenValue::Type(y)) => *x == *y,
        (TokenValue::Function(x), TokenValue::Function(y)) => *x == *y,
        (TokenValue::String(x), TokenValue::String(y)) => x.eq(y),
        (TokenValue::Arbitrary(x), TokenValue::Arbitrary(y)) => x.eq(y),
        _ => false,
    }
}

/// A copy of a token.
pub fn copy_token(t: &Token) -> (r: Token)
    ensures
        r.line_number == t.line_number,
        value_eq(r.value, t.value),
{
    let value = match &t.value {
        TokenValue::Delimiting(x) => TokenValue::Delimiting(*x),
        TokenValue::Const(x) => TokenValue::Const(*x),
        TokenValue::Type(x) => TokenValue::Type(*x),
        TokenValue::Function(x) => TokenValue::Function(*x),
        TokenValue::String(x) => TokenValue::String(x.clone()),
        TokenValue::Arbitrary(x) => TokenValue::Arbitrary(x.clone()),
    };
    Token { value, line_number: t.line_number }
}

/// The next token, whatever it is; `description` says what was expected, for
/// the error at the end of the statement.
pub fn expect_next_token<'t>(tokens: &'t [Token], description: &str) -> (r: ExpectResult<
    't,
    &'t Token,
>)
    ensures
        r is Ok <==> tokens@.len() > 0,
        r matches Ok(ok) ==> took(r, tokens@, 1) && *ok.outcome == tokens@[0],
        r matches Err(e) ==> e.0@ == end_message(description@),
{
    if tokens.len() == 0 {
        return Err(end_error(description));
    }
    let rest = &tokens[1..tokens.len()];
    proof {
        assert(rest@ =~= tokens@.skip(1));
    }
    Ok(ExpectOk { rest, tokens_consumed_count: 1, outcome: &tokens[0] })
}

/// A token with the given value.
pub fn expect_token_value<'t>(tokens: &'t [Token], expected_token_value: &TokenValue) -> (r:
    ExpectResult<'t, ()>)
    ensures
        r is Ok <==> tokens@.len() > 0 && value_eq(tokens@[0].value, *expected_token_value),
        r is Ok ==> took(r, tokens@, 1),
        r matches Err(e) ==> e.0@ == if tokens@.len() == 0 {
            end_message(value_text(*expected_token_value))
        } else {
            mismatch_message(value_text(*expected_token_value), token_text(tokens@[0]))
        },
{
    let expected = describe_value(expected_token_value);
    let ExpectOk { rest, tokens_consumed_count, outcome: found_token } = match expect_next_token(
        tokens,
        expected.as_str(),
    ) {
        Ok(ok) => ok,
        Err(e) => return Err(e),
    };
    if same_value(&found_token.value, expected_token_value) {
        Ok(ExpectOk { rest, tokens_consumed_count, outcome: () })
    } else {
        let found = describe_token(found_token);
        Err(mismatch_error(expected.as_str(), found.as_str()))
    }
}

/// The message for the first mismatch, at `i`, of a sequence of expected values.
pub open spec fn sequence_mismatch_message(tokens: Seq<Token>, expected: Seq<TokenValue>, i: int) -> Seq<char> {
    if i >= tokens.len() {
        end_message(value_text(expected[i]))
    } else {
        mismatch_message(value_text(expected[i]), token_text(tokens[i]))
    }
}

/// Tokens with the given values, in order.
pub fn expect_token_values_sequence<'t>(
    tokens: &'t [Token],
    expected_token_values: &[TokenValue],
) -> (r: ExpectResult<'t, ()>)
    ensures
        r is Ok <==> tokens@.len() >= expected_token_values@.len() && values_eq(
            values_of(tokens@.take(expected_token_values@.len() as int)),
            expected_token_values@,
        ),
        r is Ok ==> took(r, tokens@, expected_token_values@.len() as int),
        r matches Err(e) ==> exists|i: int|
            0 <= i < expected_token_values@.len() && (forall|j: int|
                0 <= j < i ==> value_eq(#[trigger] tokens@[j].value, expected_token_values@[j]))
                && e.0@ == #[trigger] sequence_mismatch_message(tokens@, expected_token_values@, i),
{
    let n = expected_token_values.len();
    let mut i: usize = 0;
    while i < n
        invariant
            n == expected_token_values@.len(),
            i <= n,
            i <= tokens@.len(),
            forall|j: int| 0 <= j < i ==> value_eq(#[trigger] tokens@[j].value, expected_token_values@[j]),
        decreases n - i,
    {
        let tail = &tokens[i..tokens.len()];
        match expect_token_value(tail, &expected_token_values[i]) {
            Ok(_) => {},
            Err(e) => {
                proof {
                    if i < tokens@.len() {
                        assert(tail@[0] == tokens@[i as int]);
                    }
                    assert(e.0@ == sequence_mismatch_message(tokens@, expected_token_values@, i as int));
                    if tokens@.len() >= n {
                        assert(tail@[0] == tokens@[i as int]);
                        assert(values_of(tokens@.take(n as int))[i as int] == canonical_value(tokens@[i as int].value));
                    }
                }
                return Err(e);
            },
        }
        proof {
            assert(tail@[0] == tokens@[i as int]);
        }
        i += 1;
    }
    let rest = &tokens[n..tokens.len()];
    proof {
        assert(rest@ =~= tokens@.skip(n as int));
        assert forall|j: int| 0 <= j < n implies value_eq(
            #[trigger] values_of(tokens@.take(n as int))[j],
            expected_token_values@[j],
        ) by {
            assert(values_of(tokens@.take(n as int))[j] == canonical_value(tokens@[j].value));
        }
    }
    Ok(ExpectOk { rest, tokens_consumed_count: n, outcome: () })
}

/// No token at all.
pub fn expect_end_of_statement<'t>(tokens: &'t [Token]) -> (r: ExpectResult<'t, ()>)
    ensures
        r is Ok <==> tokens@.len() == 0,
        r is Ok ==> took(r, tokens@, 0),
        r matches Err(e) ==> e.0@ == mismatch_message("end of statement"@, token_text(tokens@[0])),
{
    if tokens.len() == 0 {
        proof {
            assert(tokens@ =~= tokens@.skip(0));
        }
        Ok(ExpectOk { rest: tokens, tokens_consumed_count: 0, outcome: () })
    } else {
        let found = describe_token(&tokens[0]);
        Err(mismatch_error("end of statement", found.as_str()))
    }
}

/// All the tokens, as they are.
pub fn expect_identity<'t>(tokens: &'t [Token]) -> (r: ExpectResult<'t, Vec<Token>>)
    ensures
        r matches Ok(ok) && took(r, tokens@, tokens@.len() as int) && ok.outcome@.len()
            == tokens@.len() && forall|i: int|
            0 <= i < tokens@.len() ==> (#[trigger] ok.outcome@[i]).line_number
                == tokens@[i].line_number && value_eq(ok.outcome@[i].value, tokens@[i].value),
{
    let mut outcome: Vec<Token> = Vec::new();
    let mut i: usize = 0;
    while i < tokens.len()
        invariant
            i <= tokens@.len(),
            outcome@.len() == i,
            forall|j: int|
                0 <= j < i ==> (#[trigger] outcome@[j]).line_number == tokens@[j].line_number
                    && value_eq(outcome@[j].value, tokens@[j].value),
        decreases tokens@.len() - i,
    {
        outcome.push(copy_token(&tokens[i]));
        i += 1;
    }
    let n = tokens.len();
    let rest = &tokens[n..n];
    proof {
        assert(rest@ =~= tokens@.skip(n as int));
    }
    Ok(ExpectOk { rest, tokens_consumed_count: n, outcome })
}

/// Balance of `opening` over `closing` delimiters among the first `n` tokens.
pub open spec fn nesting(ts: Seq<Token>, n: int, opening: Delimiter, closing: Delimiter) -> int
    decreases n,
{
    if n <= 0 {
        0
    } else {
        nesting(ts, n - 1, opening, closing) + if ts[n - 1].value == TokenValue::Delimiting(
            opening,
        ) {
            1int
        } else if ts[n - 1].value == TokenValue::Delimiting(closing) {
            -1int
        } else {
            0int
        }
    }
}

/// The token at `m` closes the enclosure that the tokens before `inner` opened.
pub open spec fn closes_at(inner: Seq<Token>, m: int, opening: Delimiter, closing: Delimiter) -> bool {
    0 <= m < inner.len() && inner[m].value == TokenValue::Delimiting(closing) && nesting(
        inner,
        m,
        opening,
        closing,
    ) == 0
}

/// An enclosure: an opening parenthesis, then everything up to the delimiter
/// that closes it. The outcome is what stands between the two.
pub fn expect_enclosure<'t>(tokens: &'t [Token], opening: Delimiter, closing: Delimiter) -> (r:
    ExpectResult<'t, &'t [Token]>)
    requires
        opening != closing,
    ensures
        r is Ok <==> tokens@.len() > 0 && tokens@[0].value == TokenValue::Delimiting(
            Delimiter::ParenthesisOpening,
        ) && exists|m: int| closes_at(tokens@.skip(1), m, opening, closing),
        r matches Ok(ok) ==> {
            let m = ok.outcome@.len() as int;
            &&& took(r, tokens@, m + 2)
            &&& ok.outcome@ == tokens@.subrange(1, m + 1)
            &&& closes_at(tokens@.skip(1), m, opening, closing)
            &&& forall|k: int| 0 <= k < m ==> !closes_at(tokens@.skip(1), k, opening, closing)
        },
{
    let open = TokenValue::Delimiting(Delimiter::ParenthesisOpening);
    let ExpectOk { rest, .. } = match expect_token_value(tokens, &open) {
        Ok(ok) => ok,
        Err(e) => return Err(e),
    };
    let ghost inner = tokens@.skip(1);
    let n = tokens.len();
    proof {
        assert(value_eq(tokens@[0].value, open));
        assert(canonical_value(tokens@[0].value) == open);
    }
    let mut depth: usize = 0;
    let mut m: usize = 0;
    while m < rest.len()
        invariant
            rest@ == inner,
            inner == tokens@.skip(1),
            tokens@.len() > 0,
            n == tokens@.len(),
            tokens@[0].value == TokenValue::Delimiting(Delimiter::ParenthesisOpening),
            m <= inner.len(),
            depth as int == nesting(inner, m as int, opening, closing),
            depth <= m,
            forall|k: int| 0 <= k < m ==> !closes_at(inner, k, opening, closing),
        decreases inner.len() - m,
    {
        if let TokenValue::Delimiting(d) = &rest[m].value {
            if depth == 0 && *d == closing {
                proof {
                    assert(inner.len() == tokens@.len() - 1);
                    assert(closes_at(inner, m as int, opening, closing));
                    assert(exists|k: int| closes_at(tokens@.skip(1), k, opening, closing));
                }
                let outcome = &rest[0..m];
                let after = &tokens[m + 2..n];
                proof {
                    assert(outcome@ =~= tokens@.subrange(1, m + 1));
                    assert(after@ =~= tokens@.skip(m + 2));
                }
                return Ok(ExpectOk { rest: after, tokens_consumed_count: m + 2, outcome });
            }
            if *d == opening {
                depth += 1;
            } else if *d == closing {
                depth -= 1;
            }
        }
        m += 1;
    }
    let found = describe_token(&tokens[0]);
    let message = String::from_str("Expected to find a matching closing delimiter for ").concat(
        found.as_str(),
    ).concat(", instead found end of statement.");
    Err(SyntaxError(message))
}

/// `vs` spells the items, in order, separated by commas.
pub open spec fn list_spelled<O>(
    items: Seq<O>,
    vs: Seq<TokenValue>,
    spells: spec_fn(O, Seq<TokenValue>) -> bool,
) -> bool
    decreases items.len(),
{
    if items.len() == 0 {
        false
    } else if items.len() == 1 {
        spells(items[0], vs)
    } else {
        exists|i: int|
            0 <= i < vs.len() && vs[i] == TokenValue::Delimiting(Delimiter::Comma) && list_spelled(
                items.drop_last(),
                #[trigger] vs.take(i),
                spells,
            ) && spells(items.last(), vs.skip(i + 1))
    }
}

/// `vs` is an opening delimiter, then what `spells` accepts, then a closing one.
pub open spec fn enclosed_spelled<O>(
    o: O,
    vs: Seq<TokenValue>,
    opening: Delimiter,
    closing: Delimiter,
    spells: spec_fn(O, Seq<TokenValue>) -> bool,
) -> bool {
    &&& vs.len() >= 2
    &&& vs[0] == TokenValue::Delimiting(opening)
    &&& vs[vs.len() - 1] == TokenValue::Delimiting(closing)
    &&& spells(o, vs.subrange(1, vs.len() - 1))
}

pub proof fn lemma_values_of_split(ts: Seq<Token>, a: int, b: int)
    requires
        0 <= a <= a + b <= ts.len(),
    ensures
        values_of(ts.take(a + b)) == values_of(ts.take(a)) + values_of(ts.skip(a).take(b)),
{
    assert(values_of(ts.take(a + b)) =~= values_of(ts.take(a)) + values_of(ts.skip(a).take(b)));
}

/// A construct spelled by `spells` takes the first `m` values, and what
/// follows it, if anything, is a value where it may stop.
pub open spec fn element_ends<O>(
    spells: spec_fn(O, Seq<TokenValue>) -> bool,
    stops: spec_fn(TokenValue) -> bool,
    vs: Seq<TokenValue>,
    m: int,
) -> bool {
    &&& 0 <= m <= vs.len()
    &&& exists|o: O| #[trigger] spells(o, vs.take(m))
    &&& (m == vs.len() || stops(vs[m]))
}

/// A list spelled by `spells` takes the first `k` values, and what follows it,
/// if anything, is a value where it may stop other than a comma.
pub open spec fn list_ends<O>(
    spells: spec_fn(O, Seq<TokenValue>) -> bool,
    stops: spec_fn(TokenValue) -> bool,
    vs: Seq<TokenValue>,
    items: Seq<O>,
    k: int,
) -> bool {
    &&& 0 <= k <= vs.len()
    &&& list_spelled(items, vs.take(k), spells)
    &&& (k == vs.len() || (stops(vs[k]) && vs[k] != TokenValue::Delimiting(Delimiter::Comma)))
}

/// How many values a list takes when elements take `elem_len` values each and
/// a comma after an element always brings another one.
pub open spec fn list_len(vs: Seq<TokenValue>, elem_len: spec_fn(Seq<TokenValue>) -> int) -> int
    decreases vs.len(),
{
    let i = elem_len(vs);
    if 0 <= i < vs.len() && vs[i] == TokenValue::Delimiting(Delimiter::Comma) {
        i + 1 + list_len(vs.skip(i + 1), elem_len)
    } else {
        i
    }
}

/// Element after element, each ending where it may stop, every comma bringing
/// another one.
pub open spec fn list_chain<O>(
    spells: spec_fn(O, Seq<TokenValue>) -> bool,
    stops: spec_fn(TokenValue) -> bool,
    elem_len: spec_fn(Seq<TokenValue>) -> int,
    vs: Seq<TokenValue>,
) -> bool
    decreases vs.len(),
{
    let i = elem_len(vs);
    element_ends(spells, stops, vs, i) && if 0 <= i < vs.len() && vs[i] == TokenValue::Delimiting(
        Delimiter::Comma,
    ) {
        list_chain(spells, stops, elem_len, vs.skip(i + 1))
    } else {
        true
    }
}

/// A list of two or more items splits after its first item and a comma.
pub proof fn lemma_list_front<O>(items: Seq<O>, w: Seq<TokenValue>, spells: spec_fn(O, Seq<TokenValue>) -> bool)
    requires
        items.len() >= 2,
        list_spelled(items, w, spells),
    ensures
        exists|i: int|
            0 <= i < w.len() && spells(items[0], #[trigger] w.take(i)) && w[i] == TokenValue::Delimiting(
                Delimiter::Comma,
            ) && list_spelled(items.drop_first(), w.skip(i + 1), spells),
    decreases items.len(),
{
    let j = choose|j: int|
        0 <= j < w.len() && w[j] == TokenValue::Delimiting(Delimiter::Comma) && list_spelled(
            items.drop_last(),
            #[trigger] w.take(j),
            spells,
        ) && spells(items.last(), w.skip(j + 1));
    if items.len() == 2 {
        assert(items.drop_last()[0] == items[0]);
        assert(items.drop_first()[0] == items.last());
        assert(w.take(j) == w.take(j));
    } else {
        let front = items.drop_last();
        lemma_list_front(front, w.take(j), spells);
        let i = choose|i: int|
            0 <= i < w.take(j).len() && spells(front[0], #[trigger] w.take(j).take(i)) && w.take(j)[i]
                == TokenValue::Delimiting(Delimiter::Comma) && list_spelled(
                front.drop_first(),
                w.take(j).skip(i + 1),
                spells,
            );
        assert(w.take(j).take(i) =~= w.take(i));
        assert(front[0] == items[0]);
        let tail = w.skip(i + 1);
        let rest = items.drop_first();
        let jj = j - i - 1;
        assert(rest.drop_last() =~= front.drop_first());
        assert(tail.take(jj) =~= w.take(j).skip(i + 1));
        assert(tail.skip(jj + 1) =~= w.skip(j + 1));
        assert(tail[jj] == w[j]);
        assert(rest.last() == items.last());
        assert(list_spelled(rest, tail, spells));
    }
}

/// A list that ends where it may stop takes exactly `list_len` values.
pub proof fn lemma_list_len<O>(
    spells: spec_fn(O, Seq<TokenValue>) -> bool,
    stops: spec_fn(TokenValue) -> bool,
    elem_len: spec_fn(Seq<TokenValue>) -> int,
    vs: Seq<TokenValue>,
    items: Seq<O>,
    k: int,
)
    requires
        list_ends(spells, stops, vs, items, k),
        stops(TokenValue::Delimiting(Delimiter::Comma)),
        forall|us: Seq<TokenValue>, m: int| #[trigger] element_ends(spells, stops, us, m) ==> elem_len(us) == m,
    ensures
        list_len(vs, elem_len) == k,
        element_ends(spells, stops, vs, elem_len(vs)),
        list_chain(spells, stops, elem_len, vs),
    decreases items.len(),
{
    let w = vs.take(k);
    if items.len() == 1 {
        assert(w.take(k) =~= vs.take(k));
        assert(spells(items[0], vs.take(k)));
        assert(element_ends(spells, stops, vs, k));
    } else {
        lemma_list_front(items, w, spells);
        let i = choose|i: int|
            0 <= i < w.len() && spells(items[0], #[trigger] w.take(i)) && w[i] == TokenValue::Delimiting(
                Delimiter::Comma,
            ) && list_spelled(items.drop_first(), w.skip(i + 1), spells);
        assert(w.take(i) =~= vs.take(i));
        assert(vs[i] == w[i]);
        assert(spells(items[0], vs.take(i)));
        assert(element_ends(spells, stops, vs, i));
        let tail = vs.skip(i + 1);
        assert(tail.take(k - i - 1) =~= w.skip(i + 1));
        if k < vs.len() {
            assert(tail[k - i - 1] == vs[k]);
        }
        lemma_list_len(spells, stops, elem_len, tail, items.drop_first(), k - i - 1);
    }
}

/// Elements separated by commas, as many as follow one another; a comma must
/// be followed by another element.
pub fn expect_comma_separated<'t, O, F>(
    tokens: &'t [Token],
    expect_element: F,
    Ghost(spells): Ghost<spec_fn(O, Seq<TokenValue>) -> bool>,
    Ghost(stops): Ghost<spec_fn(TokenValue) -> bool>,
    Ghost(elem_len): Ghost<spec_fn(Seq<TokenValue>) -> int>,
) -> (r: ExpectResult<'t, Vec<O>>) where F: Fn(&'t [Token]) -> ExpectResult<'t, O>
    requires
        forall|ts: &'t [Token]| #[trigger] expect_element.requires((ts,)),
        forall|ts: &'t [Token], res: ExpectResult<'t, O>|
            #[trigger] expect_element.ensures((ts,), res) ==> consumed_as(res, ts@, spells),
        stops(TokenValue::Delimiting(Delimiter::Comma)),
        forall|us: Seq<TokenValue>, m: int| #[trigger] element_ends(spells, stops, us, m) ==> elem_len(us) == m,
        forall|ts: &'t [Token], res: ExpectResult<'t, O>|
            #[trigger] expect_element.ensures((ts,), res) && element_ends(
                spells,
                stops,
                values_of(ts@),
                elem_len(values_of(ts@)),
            ) ==> took(res, ts@, elem_len(values_of(ts@))),
    ensures
        consumed_as(r, tokens@, |o: Vec<O>, vs: Seq<TokenValue>| list_spelled(o@, vs, spells)),
        r matches Ok(ok) ==> !(ok.rest@.len() > 0 && ok.rest@[0].value == TokenValue::Delimiting(
            Delimiter::Comma,
        )),
        forall|items: Seq<O>, k: int|
            #[trigger] list_ends(spells, stops, values_of(tokens@), items, k) ==> took(r, tokens@, k),
{
    let ghost target = exists|items: Seq<O>, k: int| list_ends(spells, stops, values_of(tokens@), items, k);
    let ghost vs_all = values_of(tokens@);
    proof {
        if target {
            let (items, k) = choose|items: Seq<O>, k: int| list_ends(spells, stops, values_of(tokens@), items, k);
            lemma_list_len(spells, stops, elem_len, vs_all, items, k);
        }
        assert(vs_all.skip(0) =~= vs_all);
    }
    let n = tokens.len();
    let mut total: usize = 0;
    let mut outcomes: Vec<O> = Vec::new();
    let comma = TokenValue::Delimiting(Delimiter::Comma);
    loop
        invariant
            n == tokens@.len(),
            total <= n,
            comma == TokenValue::Delimiting(Delimiter::Comma),
            forall|ts: &'t [Token]| #[trigger] expect_element.requires((ts,)),
            forall|ts: &'t [Token], res: ExpectResult<'t, O>|
                #[trigger] expect_element.ensures((ts,), res) ==> consumed_as(res, ts@, spells),
            outcomes@.len() == 0 ==> total == 0,
            outcomes@.len() > 0 ==> total >= 1 && list_spelled(
                outcomes@,
                values_of(tokens@.take(total - 1)),
                spells,
            ) && tokens@[total - 1].value == comma,
            vs_all == values_of(tokens@),
            target == exists|items: Seq<O>, k: int| list_ends(spells, stops, values_of(tokens@), items, k),
            stops(TokenValue::Delimiting(Delimiter::Comma)),
            forall|us: Seq<TokenValue>, m: int| #[trigger] element_ends(spells, stops, us, m) ==> elem_len(us) == m,
            forall|ts: &'t [Token], res: ExpectResult<'t, O>|
                #[trigger] expect_element.ensures((ts,), res) && element_ends(
                    spells,
                    stops,
                    values_of(ts@),
                    elem_len(values_of(ts@)),
                ) ==> took(res, ts@, elem_len(values_of(ts@))),
            target ==> list_chain(spells, stops, elem_len, vs_all.skip(total as int)) && total + list_len(
                vs_all.skip(total as int),
                elem_len,
            ) == list_len(vs_all, elem_len),
        decreases n - total,
    {
        let tail = &tokens[total..n];
        let res = expect_element(tail);
        let ghost vt = vs_all.skip(total as int);
        proof {
            assert(consumed_as(res, tail@, spells));
            assert(tail@ =~= tokens@.skip(total as int));
            assert(values_of(tail@) =~= vt);
            if target {
                assert(took(res, tail@, elem_len(vt)));
            }
        }
        let ExpectOk { tokens_consumed_count, outcome, .. } = match res {
            Ok(ok) => ok,
            Err(e) => {
                if total > 0 && total < n {
                    if let TokenValue::Delimiting(Delimiter::ParenthesisClosing) = &tokens[total].value {
                        let found = describe_token(&tokens[total - 1]);
                        return Err(SyntaxError(String::from_str("Found disallowed trailing ").concat(
                            found.as_str(),
                        ).concat(".")));
                    }
                }
                return Err(e);
            },
        };
        let ghost items = outcomes@;
        let ghost element = values_of(tail@.take(tokens_consumed_count as int));
        let after = total + tokens_consumed_count;
        proof {
            assert(tail@ =~= tokens@.skip(total as int));
            assert(spells(outcome, element));
            lemma_values_of_split(tokens@, total as int, tokens_consumed_count as int);
        }
        outcomes.push(outcome);
        proof {
            let all = values_of(tokens@.take(after as int));
            if items.len() == 0 {
                assert(all =~= element);
                assert(outcomes@ =~= seq![outcome]);
            } else {
                let i = total - 1;
                lemma_values_of_split(tokens@, i as int, 1);
                assert(all.take(i as int) =~= values_of(tokens@.take(i as int)));
                assert(all.skip(i + 1) =~= element);
                assert(all[i as int] == canonical_value(tokens@[i as int].value));
                assert(outcomes@.drop_last() =~= items);
                assert(outcomes@.last() == outcome);
                assert(list_spelled(outcomes@, all, spells));
            }
        }
        let rest = &tokens[after..n];
        match expect_token_value(rest, &comma) {
            Err(_) => {
                proof {
                    assert(rest@ =~= tokens@.skip(after as int));
                    if target {
                        let c = tokens_consumed_count as int;
                        if c < vt.len() {
                            assert(vt[c] == canonical_value(tokens@[after as int].value));
                            assert(rest@[0] == tokens@[after as int]);
                        }
                        assert(list_len(vt, elem_len) == c);
                        assert forall|items: Seq<O>, k: int|
                            #[trigger] list_ends(spells, stops, values_of(tokens@), items, k) implies took(
                            Ok::<ExpectOk<'t, Vec<O>>, SyntaxError>(
                                ExpectOk { rest, tokens_consumed_count: after, outcome: outcomes },
                            ),
                            tokens@,
                            k,
                        ) by {
                            lemma_list_len(spells, stops, elem_len, vs_all, items, k);
                        }
                    }
                }
                return Ok(ExpectOk { rest, tokens_consumed_count: after, outcome: outcomes });
            },
            Ok(_) => {
                proof {
                    assert(rest@[0] == tokens@[after as int]);
                    if target {
                        let c = tokens_consumed_count as int;
                        assert(vt[c] == canonical_value(tokens@[after as int].value));
                        assert(vt.skip(c + 1) =~= vs_all.skip(after + 1));
                    }
                }
                total = after + 1;
            },
        }
    }
}

/// What `expect_inside` accepts, between an opening and a closing delimiter.
pub fn expect_enclosed<'t, O, F>(
    tokens: &'t [Token],
    expect_inside: F,
    Ghost(spells): Ghost<spec_fn(O, Seq<TokenValue>) -> bool>,
    opening: Delimiter,
    closing: Delimiter,
) -> (r: ExpectResult<'t, O>) where F: Fn(&'t [Token]) -> ExpectResult<'t, O>
    requires
        forall|ts: &'t [Token]| #[trigger] expect_inside.requires((ts,)),
        forall|ts: &'t [Token], res: ExpectResult<'t, O>|
            #[trigger] expect_inside.ensures((ts,), res) ==> consumed_as(res, ts@, spells),
        forall|ts: &'t [Token], res: ExpectResult<'t, O>, o: O, m: int|
            #![trigger expect_inside.ensures((ts,), res), spells(o, values_of(ts@).take(m))]
            expect_inside.ensures((ts,), res) && 0 <= m < ts@.len() && spells(o, values_of(ts@).take(m))
                && values_of(ts@)[m] == TokenValue::Delimiting(closing) ==> took(res, ts@, m),
    ensures
        consumed_as(
            r,
            tokens@,
            |o: O, vs: Seq<TokenValue>| enclosed_spelled(o, vs, opening, closing, spells),
        ),
        forall|o: O, k: int|
            0 <= k <= tokens@.len() && #[trigger] enclosed_spelled(
                o,
                values_of(tokens@).take(k),
                opening,
                closing,
                spells,
            ) ==> took(r, tokens@, k),
        tokens@.len() == 0 || tokens@[0].value != TokenValue::Delimiting(opening) ==> r is Err,
        r is Err ==> tokens@.len() == 0 || tokens@[0].value != TokenValue::Delimiting(opening) || exists|
            ts: &'t [Token],
            res: ExpectResult<'t, O>,
        |
            ts@ == tokens@.skip(1) && #[trigger] expect_inside.ensures((ts,), res) && (res is Err || (
            res matches Ok(ok) && (ok.rest@.len() == 0 || ok.rest@[0].value != TokenValue::Delimiting(
                closing,
            )))),
{
    let n = tokens.len();
    let ExpectOk { rest, .. } = match expect_token_value(tokens, &TokenValue::Delimiting(opening)) {
        Ok(ok) => ok,
        Err(e) => return Err(e),
    };
    let res = expect_inside(rest);
    let ghost inner = res;
    let ghost vs = values_of(tokens@);
    proof {
        assert(consumed_as(res, rest@, spells));
        assert(rest@ =~= tokens@.skip(1));
        assert(expect_inside.ensures((rest,), inner));
        assert(values_of(rest@) =~= vs.skip(1));
        assert forall|o: O, k: int|
            0 <= k <= tokens@.len() && #[trigger] enclosed_spelled(o, vs.take(k), opening, closing, spells)
                implies took(inner, rest@, k - 2) && tokens@[k - 1].value == TokenValue::Delimiting(closing) by {
            let w = vs.take(k);
            assert(w.subrange(1, w.len() - 1) =~= values_of(rest@).take(k - 2));
            assert(values_of(rest@)[k - 2] == w[k - 1]);
            assert(w[k - 1] == canonical_value(tokens@[k - 1].value));
        }
    }
    let ExpectOk { rest: after_inside, tokens_consumed_count, outcome } = match res {
        Ok(ok) => ok,
        Err(e) => return Err(e),
    };
    let ExpectOk { rest: after, .. } = match expect_token_value(
        after_inside,
        &TokenValue::Delimiting(closing),
    ) {
        Ok(ok) => ok,
        Err(e) => {
            proof {
                assert(inner matches Ok(ok) && ok.rest == after_inside);
                assert forall|o: O, k: int|
                    0 <= k <= tokens@.len() && #[trigger] enclosed_spelled(o, vs.take(k), opening, closing, spells)
                        implies false by {
                    assert(took(inner, rest@, k - 2));
                    assert(after_inside@[0] == tokens@[k - 1]);
                }
            }
            return Err(e);
        },
    };
    let total = tokens_consumed_count + 2;
    proof {
        let c = tokens_consumed_count as int;
        assert(rest@ =~= tokens@.skip(1));
        assert(after_inside@ =~= tokens@.skip(1 + c));
        assert(after@ =~= tokens@.skip(c + 2));
        let vs = values_of(tokens@.take(c + 2));
        assert(vs.subrange(1, vs.len() - 1) =~= values_of(rest@.take(c)));
        assert(vs[0] == canonical_value(tokens@[0].value));
        assert(vs[vs.len() - 1] == canonical_value(after_inside@[0].value));
    }
    proof {
        assert forall|o: O, k: int|
            0 <= k <= tokens@.len() && #[trigger] enclosed_spelled(o, values_of(tokens@).take(k), opening, closing, spells)
                implies k == tokens_consumed_count + 2 by {
            assert(took(inner, rest@, k - 2));
        }
    }
    Ok(ExpectOk { rest: after, tokens_consumed_count: total, outcome })
}

/// What `expect_something` accepts, and then nothing more.
pub fn consume_all<'t, O, F>(
    tokens: &'t [Token],
    expect_something: F,
    Ghost(spells): Ghost<spec_fn(O, Seq<TokenValue>) -> bool>,
) -> (r: Result<O, SyntaxError>) where F: Fn(&'t [Token]) -> ExpectResult<'t, O>
    requires
        forall|ts: &'t [Token]| #[trigger] expect_something.requires((ts,)),
        forall|ts: &'t [Token], res: ExpectResult<'t, O>|
            #[trigger] expect_something.ensures((ts,), res) ==> consumed_as(res, ts@, spells),
        forall|ts: &'t [Token], res: ExpectResult<'t, O>, o: O|
            #![trigger expect_something.ensures((ts,), res), spells(o, values_of(ts@))]
            expect_something.ensures((ts,), res) && spells(o, values_of(ts@)) ==> took(res, ts@, ts@.len() as int),
    ensures
        r matches Ok(o) ==> spells(o, values_of(tokens@)),
        forall|o: O| #[trigger] spells(o, values_of(tokens@)) ==> r is Ok,
        r matches Err(e) ==> exists|res: ExpectResult<'t, O>|
            #[trigger] expect_something.ensures((tokens,), res) && (res == Err::<ExpectOk<'t, O>, SyntaxError>(e) || (
            res matches Ok(ok) && ok.rest@.len() > 0 && e.0@ == mismatch_message(
                "end of statement"@,
                token_text(ok.rest@[0]),
            ))),
{
    let res = expect_something(tokens);
    let ghost inner = res;
    proof {
        assert(consumed_as(res, tokens@, spells));
    }
    let ExpectOk { rest, tokens_consumed_count, outcome } = match res {
        Ok(ok) => ok,
        Err(e) => {
            proof {
                assert(expect_something.ensures((tokens,), inner));
            }
            return Err(e);
        },
    };
    proof {
        assert(expect_something.ensures((tokens,), inner));
    }
    match expect_end_of_statement(rest) {
        Ok(_) => {
            proof {
                assert(tokens@.take(tokens_consumed_count as int) =~= tokens@);
            }
            Ok(outcome)
        },
        Err(e) => Err(e),
    }
}

/// Where an element of a parenthesized list may end: before a comma or the
/// closing parenthesis.
pub open spec fn list_stop(v: TokenValue) -> bool {
    v == TokenValue::Delimiting(Delimiter::Comma) || v == TokenValue::Delimiting(
        Delimiter::ParenthesisClosing,
    )
}

/// A comma-separated list in parentheses.
pub open spec fn enclosed_list_spelled<O>(o: Vec<O>, vs: Seq<TokenValue>, spells: spec_fn(O, Seq<TokenValue>) -> bool) -> bool {
    enclosed_spelled(
        o,
        vs,
        Delimiter::ParenthesisOpening,
        Delimiter::ParenthesisClosing,
        |o: Vec<O>, ws: Seq<TokenValue>| list_spelled(o@, ws, spells),
    )
}

/// An element of a parenthesized list takes the first `m` values.
pub open spec fn list_element_ends<O>(spells: spec_fn(O, Seq<TokenValue>) -> bool, vs: Seq<TokenValue>, m: int) -> bool {
    element_ends(spells, |v: TokenValue| list_stop(v), vs, m)
}

/// Elements separated by commas, in parentheses; a trailing comma is refused.
pub fn expect_enclosed_comma_separated<'t, O, F>(
    tokens: &'t [Token],
    expect_element: F,
    Ghost(spells): Ghost<spec_fn(O, Seq<TokenValue>) -> bool>,
    Ghost(elem_len): Ghost<spec_fn(Seq<TokenValue>) -> int>,
) -> (r: ExpectResult<'t, Vec<O>>) where F: Fn(&'t [Token]) -> ExpectResult<'t, O>
    requires
        forall|ts: &'t [Token]| #[trigger] expect_element.requires((ts,)),
        forall|ts: &'t [Token], res: ExpectResult<'t, O>|
            #[trigger] expect_element.ensures((ts,), res) ==> consumed_as(res, ts@, spells),
        forall|us: Seq<TokenValue>, m: int|
            #[trigger] list_element_ends(spells, us, m) ==> elem_len(us) == m,
        forall|ts: &'t [Token], res: ExpectResult<'t, O>|
            #[trigger] expect_element.ensures((ts,), res) && list_element_ends(spells,
                values_of(ts@),
                elem_len(values_of(ts@)),
            ) ==> took(res, ts@, elem_len(values_of(ts@))),
    ensures
        forall|o: Vec<O>, k: int|
            0 <= k <= tokens@.len() && #[trigger] enclosed_list_spelled(o, values_of(tokens@).take(k), spells)
                ==> took(r, tokens@, k),
        consumed_as(
            r,
            tokens@,
            |o: Vec<O>, vs: Seq<TokenValue>|
                enclosed_spelled(
                    o,
                    vs,
                    Delimiter::ParenthesisOpening,
                    Delimiter::ParenthesisClosing,
                    |o: Vec<O>, vs: Seq<TokenValue>| list_spelled(o@, vs, spells),
                ),
        ),
{
    let element_spelling: Ghost<spec_fn(O, Seq<TokenValue>) -> bool> = Ghost(spells);
    let element_length: Ghost<spec_fn(Seq<TokenValue>) -> int> = Ghost(elem_len);
    let stops: Ghost<spec_fn(TokenValue) -> bool> = Ghost(|v: TokenValue| list_stop(v));
    let inside = |ts: &'t [Token]| -> (res: ExpectResult<'t, Vec<O>>)
        ensures
            consumed_as(
                res,
                ts@,
                |o: Vec<O>, vs: Seq<TokenValue>| list_spelled(o@, vs, element_spelling@),
            ),
            forall|o: Vec<O>, m: int|
                0 <= m < ts@.len() && #[trigger] list_spelled(o@, values_of(ts@).take(m), element_spelling@)
                    && values_of(ts@)[m] == TokenValue::Delimiting(Delimiter::ParenthesisClosing) ==> took(
                    res,
                    ts@,
                    m,
                ),
        {
            proof {
                assert forall|us: Seq<TokenValue>, m: int| #[trigger] element_ends(
                    element_spelling@,
                    stops@,
                    us,
                    m,
                ) implies element_length@(us) == m by {
                    assert(list_element_ends(element_spelling@, us, m));
                }
                assert forall|ts2: &'t [Token], r2: ExpectResult<'t, O>|
                    #[trigger] (&expect_element).ensures((ts2,), r2) && element_ends(
                        element_spelling@,
                        stops@,
                        values_of(ts2@),
                        element_length@(values_of(ts2@)),
                    ) implies took(r2, ts2@, element_length@(values_of(ts2@))) by {
                    assert(list_element_ends(element_spelling@, values_of(ts2@), element_length@(values_of(ts2@))));
                }
            }
            let res = expect_comma_separated(ts, &expect_element, element_spelling, stops, element_length);
            proof {
                assert forall|o: Vec<O>, m: int|
                    0 <= m < ts@.len() && #[trigger] list_spelled(o@, values_of(ts@).take(m), element_spelling@)
                        && values_of(ts@)[m] == TokenValue::Delimiting(Delimiter::ParenthesisClosing) implies took(
                        res,
                        ts@,
                        m,
                    ) by {
                    assert(list_ends(element_spelling@, stops@, values_of(ts@), o@, m));
                }
            }
            res
        };
    expect_enclosed(
        tokens,
        inside,
        Ghost(|o: Vec<O>, vs: Seq<TokenValue>| list_spelled(o@, vs, spells)),
        Delimiter::ParenthesisOpening,
        Delimiter::ParenthesisClosing,
    )
}

} // verus!
