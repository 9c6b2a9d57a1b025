//! Statements: their trees, their grammar and their validation.

use crate::components::{
    table_is_valid, ColumnDefinition, DataDefinition, DataInstance, DataType, Expression,
    TableDefinition,
};
use crate::errors::{describe_token, mismatch_error, SyntaxError, ValidationError};
use crate::expects::{
    canonical_value, enclosed_list_spelled, value_eq, values_eq, element_ends, list_element_ends, list_ends, list_stop, consume_all, consumed_as, enclosed_spelled, expect_comma_separated, expect_enclosed_comma_separated,
    expect_next_token, expect_token_value, expect_token_values_sequence, lemma_values_of_split,
    list_spelled, took, values_of, ExpectOk, ExpectResult,
};
use crate::text::canonical;
use crate::semantic::{
    lemma_expression_whole,    data_type_len_at, definition_len, lemma_data_type_prefix, lemma_definition_prefix, starts_data_type,
    starts_definition,
    data_type_spelled, definition_spelled, expect_data_definition, expect_data_instance,
    expect_data_type, expect_expression, expect_identifier, expression_spelled,
    identifier_spelled, instance_spelled,
};
use crate::tokenizer::{
    lex_words, token_of_word, tokenize_statement, tokens_of_words, Delimiter, Keyword, Token, TokenValue,
};
use vstd::prelude::*;
use vstd::string::*;

verus! {

broadcast use crate::text::lemma_canonical;

#[derive(Debug, PartialEq, Eq)]
pub struct CreateTableStatement {
    pub table: TableDefinition,
    pub if_not_exists: bool,
}

#[derive(Debug, PartialEq, Eq)]
pub struct InsertStatement {
    pub table_name: String,
    pub column_names: Vec<String>,
    /// One value per named column, in the same order.
    pub values: Vec<DataInstance>,
}

#[derive(Debug, PartialEq, Eq)]
pub enum SelectColumn {
    All,
    Identifier(String),
}

#[derive(Debug, PartialEq, Eq)]
pub struct SelectStatement {
    pub columns: Vec<SelectColumn>,
    pub source: String,
    pub where_clause: Option<Expression>,
}

#[derive(Debug, PartialEq, Eq)]
pub enum Statement {
    CreateTable(CreateTableStatement),
    Insert(InsertStatement),
    Select(SelectStatement),
}

// ---------------------------------------------------------------------------
// How each statement is spelled

pub open spec fn data_type_len(t: DataType) -> int {
    if t.is_nullable {
        4
    } else {
        1
    }
}

/// `name type [PRIMARY KEY] [DEFAULT definition]`
pub open spec fn column_spelled(c: ColumnDefinition, vs: Seq<TokenValue>) -> bool {
    let t = data_type_len(c.data_type);
    let p = if c.primary_key {
        2int
    } else {
        0int
    };
    &&& vs.len() >= 1 + t + p
    &&& identifier_spelled(c.name, vs.take(1))
    &&& data_type_spelled(c.data_type, vs.subrange(1, 1 + t))
    &&& c.primary_key ==> vs.subrange(1 + t, 3 + t) == seq![
        TokenValue::Const(Keyword::Primary),
        TokenValue::Const(Keyword::Key),
    ]
    &&& match c.default {
        None => vs.len() == 1 + t + p,
        Some(d) => vs.len() > 1 + t + p && vs[1 + t + p] == TokenValue::Const(Keyword::Default)
            && definition_spelled(d, vs.skip(2 + t + p)),
    }
}

/// `name ( column, ... )`
pub open spec fn table_spelled(t: TableDefinition, vs: Seq<TokenValue>) -> bool {
    vs.len() >= 1 && identifier_spelled(t.name, vs.take(1)) && enclosed_spelled(
        t.columns,
        vs.skip(1),
        Delimiter::ParenthesisOpening,
        Delimiter::ParenthesisClosing,
        |o: Vec<ColumnDefinition>, ws: Seq<TokenValue>|
            list_spelled(o@, ws, |c: ColumnDefinition, us: Seq<TokenValue>| column_spelled(c, us)),
    )
}

pub open spec fn if_not_exists_values() -> Seq<TokenValue> {
    seq![
        TokenValue::Const(Keyword::If),
        TokenValue::Const(Keyword::Not),
        TokenValue::Const(Keyword::Exists),
    ]
}

/// What follows `CREATE TABLE`: `[IF NOT EXISTS] table`
pub open spec fn create_table_spelled(s: CreateTableStatement, vs: Seq<TokenValue>) -> bool {
    if s.if_not_exists {
        vs.len() >= 3 && vs.take(3) == if_not_exists_values() && table_spelled(s.table, vs.skip(3))
    } else {
        table_spelled(s.table, vs)
    }
}

pub open spec fn names_spelled(o: Vec<String>, vs: Seq<TokenValue>) -> bool {
    enclosed_spelled(
        o,
        vs,
        Delimiter::ParenthesisOpening,
        Delimiter::ParenthesisClosing,
        |o: Vec<String>, ws: Seq<TokenValue>|
            list_spelled(o@, ws, |s: String, us: Seq<TokenValue>| identifier_spelled(s, us)),
    )
}

pub open spec fn instances_spelled(o: Vec<DataInstance>, vs: Seq<TokenValue>) -> bool {
    enclosed_spelled(
        o,
        vs,
        Delimiter::ParenthesisOpening,
        Delimiter::ParenthesisClosing,
        |o: Vec<DataInstance>, ws: Seq<TokenValue>|
            list_spelled(o@, ws, |d: DataInstance, us: Seq<TokenValue>| instance_spelled(d, us)),
    )
}

/// What follows `INSERT`: `INTO name ( column, ... ) VALUES ( value, ... )`
pub open spec fn insert_spelled(s: InsertStatement, vs: Seq<TokenValue>) -> bool {
    exists|i: int| #[trigger] insert_split(s, vs, i)
}

/// `insert_spelled` with the position of `VALUES` given.
pub open spec fn insert_split(s: InsertStatement, vs: Seq<TokenValue>, i: int) -> bool {
    2 <= i < vs.len() && vs[0] == TokenValue::Const(Keyword::Into) && identifier_spelled(
        s.table_name,
        vs.subrange(1, 2),
    ) && names_spelled(s.column_names, vs.subrange(2, i)) && vs[i] == TokenValue::Const(
        Keyword::Values,
    ) && instances_spelled(s.values, vs.skip(i + 1))
}

pub open spec fn select_column_spelled(c: SelectColumn, vs: Seq<TokenValue>) -> bool {
    match c {
        SelectColumn::All => vs == seq![TokenValue::Const(Keyword::Asterisk)],
        SelectColumn::Identifier(s) => identifier_spelled(s, vs),
    }
}

/// What follows `SELECT`: `column, ... FROM name [WHERE expression]`
pub open spec fn select_spelled(s: SelectStatement, vs: Seq<TokenValue>) -> bool {
    exists|i: int| #[trigger] select_split(s, vs, i)
}

/// `select_spelled` with the position of `FROM` given.
pub open spec fn select_split(s: SelectStatement, vs: Seq<TokenValue>, i: int) -> bool {
    0 <= i && i + 2 <= vs.len() && list_spelled(
        s.columns@,
        vs.take(i),
        |c: SelectColumn, us: Seq<TokenValue>| select_column_spelled(c, us),
    ) && vs[i] == TokenValue::Const(Keyword::From) && identifier_spelled(
        s.source,
        vs.subrange(i + 1, i + 2),
    ) && match s.where_clause {
        None => vs.len() == i + 2,
        Some(e) => vs.len() > i + 2 && vs[i + 2] == TokenValue::Const(Keyword::Where)
            && expression_spelled(e, vs.skip(i + 3)),
    }
}

/// A whole statement.
pub open spec fn statement_spelled(s: Statement, vs: Seq<TokenValue>) -> bool {
    match s {
        Statement::CreateTable(c) => vs.len() >= 2 && vs[0] == TokenValue::Const(Keyword::Create)
            && vs[1] == TokenValue::Const(Keyword::Table) && create_table_spelled(c, vs.skip(2)),
        Statement::Insert(i) => vs.len() >= 1 && vs[0] == TokenValue::Const(Keyword::Insert)
            && insert_spelled(i, vs.skip(1)),
        Statement::Select(q) => vs.len() >= 1 && vs[0] == TokenValue::Const(Keyword::Select)
            && select_spelled(q, vs.skip(1)),
    }
}

proof fn lemma_values_of_parts(ts: Seq<Token>, a: int, b: int)
    requires
        0 <= a <= b <= ts.len(),
    ensures
        values_of(ts.take(b)).take(a) == values_of(ts.take(a)),
        values_of(ts.take(b)).skip(a) == values_of(ts.skip(a).take(b - a)),
        values_of(ts.take(b)).subrange(a, b) == values_of(ts.skip(a).take(b - a)),
{
    assert(values_of(ts.take(b)).take(a) =~= values_of(ts.take(a)));
    assert(values_of(ts.take(b)).skip(a) =~= values_of(ts.skip(a).take(b - a)));
    assert(values_of(ts.take(b)).subrange(a, b) =~= values_of(ts.skip(a).take(b - a)));
}

// ---------------------------------------------------------------------------
// Expectations

/// How many values the column definition at the start of `vs` takes: a name,
/// a data type, `PRIMARY KEY` if it comes next, and `DEFAULT` with a data
/// definition if that comes next.
pub open spec fn column_len(vs: Seq<TokenValue>) -> int {
    let a = 1 + data_type_len_at(vs.skip(1));
    let b = if a < vs.len() && vs[a] == TokenValue::Const(Keyword::Primary) {
        a + 2
    } else {
        a
    };
    if b < vs.len() && vs[b] == TokenValue::Const(Keyword::Default) {
        b + 1 + definition_len(vs.skip(b + 1))
    } else {
        b
    }
}

/// A column definition takes the first `m` values and is followed by the end,
/// a comma or a closing parenthesis.
pub open spec fn column_ends(vs: Seq<TokenValue>, m: int) -> bool {
    &&& 0 <= m <= vs.len()
    &&& exists|c: ColumnDefinition| #[trigger] column_spelled(c, vs.take(m))
    &&& (m == vs.len() || list_stop(vs[m]))
}

pub proof fn lemma_column_ends(vs: Seq<TokenValue>, m: int)
    requires
        column_ends(vs, m),
    ensures
        column_len(vs) == m,
        vs.len() > 0 && vs[0] is Arbitrary,
        starts_data_type(vs.skip(1)),
        ({
            let a = 1 + data_type_len_at(vs.skip(1));
            let b = if a < vs.len() && vs[a] == TokenValue::Const(Keyword::Primary) {
                a + 2
            } else {
                a
            };
            &&& a <= vs.len()
            &&& (a < vs.len() && vs[a] == TokenValue::Const(Keyword::Primary)) ==> a + 1 < vs.len()
                && vs[a + 1] == TokenValue::Const(Keyword::Key)
            &&& b <= vs.len()
            &&& (b < vs.len() && vs[b] == TokenValue::Const(Keyword::Default)) ==> starts_definition(
                vs.skip(b + 1),
            ) && b + 1 + definition_len(vs.skip(b + 1)) <= vs.len()
        }),
{
    let c = choose|c: ColumnDefinition| #[trigger] column_spelled(c, vs.take(m));
    let w = vs.take(m);
    let t = data_type_len(c.data_type);
    assert(w.take(1)[0] == vs[0]);
    assert(vs.skip(1).take(t) =~= w.subrange(1, 1 + t));
    lemma_data_type_prefix(c.data_type, vs.skip(1), t);
    let a = 1 + t;
    let p = if c.primary_key { 2int } else { 0int };
    if c.primary_key {
        assert(w.subrange(1 + t, 3 + t)[0] == vs[a]);
        assert(w.subrange(1 + t, 3 + t)[1] == vs[a + 1]);
    } else if a < vs.len() {
        if c.default is Some {
            assert(w[a] == vs[a]);
        }
    }
    let b = a + p;
    match c.default {
        Some(d) => {
            assert(w[b] == vs[b]);
            let tail = vs.skip(b + 1);
            assert(tail.take(m - b - 1) =~= w.skip(b + 1));
            lemma_definition_prefix(d, tail, m - b - 1);
        },
        None => {},
    }
}

/// Where a column of `SELECT` may end: before a comma or `FROM`.
pub open spec fn select_stop(v: TokenValue) -> bool {
    v == TokenValue::Delimiting(Delimiter::Comma) || v == TokenValue::Const(Keyword::From)
}

/// A column definition of `CREATE TABLE`.
#[verifier::rlimit(100)]
pub fn expect_column_definition<'t>(tokens: &'t [Token]) -> (r: ExpectResult<'t, ColumnDefinition>)
    ensures
        consumed_as(r, tokens@, |o: ColumnDefinition, vs: Seq<TokenValue>| column_spelled(o, vs)),
        tokens@.len() == 0 || !(tokens@[0].value is Arbitrary) ==> r is Err,
        forall|m: int| #[trigger] column_ends(values_of(tokens@), m) ==> took(r, tokens@, m),
{
    let n = tokens.len();
    let ghost vs_all = values_of(tokens@);
    let ghost target = exists|m: int| column_ends(vs_all, m);
    let ghost tm: int = if target { choose|m: int| column_ends(vs_all, m) } else { 0 };
    proof {
        if target {
            lemma_column_ends(vs_all, tm);
            assert(vs_all[0] == canonical_value(tokens@[0].value));
        }
    }
    let ExpectOk { rest: after_name, outcome: name, .. } = match expect_identifier(tokens) {
        Ok(ok) => ok,
        Err(e) => return Err(e),
    };
    let ExpectOk { rest: after_type, tokens_consumed_count: t, outcome: data_type } =
        match expect_data_type(after_name) {
        Ok(ok) => ok,
        Err(e) => return Err(e),
    };
    let mut position: usize = 1 + t;
    proof {
        assert(after_type@ =~= tokens@.skip(position as int));
        lemma_values_of_parts(tokens@, 1, position as int);
        assert(values_of(after_name@.take(t as int)).len() == t);
        assert(t == data_type_len(data_type));
        assert(values_of(after_name@) =~= vs_all.skip(1));
        if position < n {
            assert(vs_all[position as int] == canonical_value(tokens@[position as int].value));
        }
        if position + 1 < n {
            assert(vs_all[position + 1] == canonical_value(tokens@[position + 1].value));
        }
    }
    let primary_key = expect_token_value(after_type, &TokenValue::Const(Keyword::Primary)).is_ok();
    if primary_key {
        let pk = [TokenValue::Const(Keyword::Primary), TokenValue::Const(Keyword::Key)];
        match expect_token_values_sequence(after_type, &pk) {
            Ok(_) => {
                proof {
                    assert(pk@ == seq![TokenValue::Const(Keyword::Primary), TokenValue::Const(Keyword::Key)]);
                    lemma_values_of_parts(tokens@, position as int, position + 2);
                    let vs = values_of(after_type@.take(2));
                    assert(vs =~= seq![TokenValue::Const(Keyword::Primary), TokenValue::Const(Keyword::Key)]);
                }
                position = position + 2;
            },
            Err(e) => return Err(e),
        }
    }
    let after_key = &tokens[position..n];
    proof {
        assert(after_key@ =~= tokens@.skip(position as int));
        if position < n {
            assert(vs_all[position as int] == canonical_value(tokens@[position as int].value));
        }
    }
    let has_default = expect_token_value(after_key, &TokenValue::Const(Keyword::Default)).is_ok();
    let mut default: Option<DataDefinition> = None;
    if has_default {
        let after_word = &tokens[position + 1..n];
        proof {
            assert(values_of(after_word@) =~= vs_all.skip(position + 1));
        }
        match expect_data_definition(after_word) {
            Ok(ExpectOk { tokens_consumed_count, outcome, .. }) => {
                proof {
                    assert(after_word@ =~= tokens@.skip(position + 1));
                    lemma_values_of_parts(tokens@, position + 1, position + 1 + tokens_consumed_count);
                    assert(values_of(tokens@.take(position + 1 + tokens_consumed_count))[position as int]
                        == tokens@[position as int].value);
                }
                default = Some(outcome);
                position = position + 1 + tokens_consumed_count;
            },
            Err(e) => return Err(e),
        }
    }
    let rest = &tokens[position..n];
    let column = ColumnDefinition { name, data_type, primary_key, default };
    proof {
        assert(rest@ =~= tokens@.skip(position as int));
        let vs = values_of(tokens@.take(position as int));
        lemma_values_of_parts(tokens@, 1, position as int);
        lemma_values_of_parts(tokens@, 1 + t, position as int);
        assert(vs.take(1) =~= values_of(tokens@.take(1)));
        assert(vs.subrange(1, 1 + t) =~= values_of(tokens@.take(1 + t)).subrange(1, 1 + t));
        if primary_key {
            assert(vs.subrange(1 + t, 3 + t) =~= values_of(tokens@.take(3 + t)).subrange(1 + t, 3 + t));
        }
        if has_default {
            let p = if primary_key { 2int } else { 0int };
            assert(vs.skip(2 + t + p) =~= values_of(tokens@.skip(2 + t + p).take(position - (2 + t + p))));
        }
        assert(column_spelled(column, vs));
        if target {
            assert(position == column_len(vs_all));
            assert forall|m: int| #[trigger] column_ends(vs_all, m) implies m == position by {
                lemma_column_ends(vs_all, m);
            }
        }
    }
    Ok(ExpectOk { rest, tokens_consumed_count: position, outcome: column })
}

/// The name of a table and its column definitions in parentheses.
pub fn expect_table_definition<'t>(tokens: &'t [Token]) -> (r: ExpectResult<'t, TableDefinition>)
    ensures
        consumed_as(r, tokens@, |o: TableDefinition, vs: Seq<TokenValue>| table_spelled(o, vs)),
        tokens@.len() == 0 || !(tokens@[0].value is Arbitrary) ==> r is Err,
        forall|t: TableDefinition| #[trigger] table_spelled(t, values_of(tokens@)) ==> took(
            r,
            tokens@,
            tokens@.len() as int,
        ),
{
    let ghost vs_all = values_of(tokens@);
    let ghost target = exists|t: TableDefinition| table_spelled(t, vs_all);
    proof {
        if target {
            assert(vs_all.take(1)[0] == canonical_value(tokens@[0].value));
        }
    }
    let ExpectOk { rest, outcome: name, .. } = match expect_identifier(tokens) {
        Ok(ok) => ok,
        Err(e) => return Err(e),
    };
    let ghost sp = |c: ColumnDefinition, us: Seq<TokenValue>| column_spelled(c, us);
    let ghost len_of = |us: Seq<TokenValue>| column_len(us);
    proof {
        assert forall|us: Seq<TokenValue>, m: int|
            #[trigger] list_element_ends(sp, us, m) implies len_of(us) == m by {
            assert(column_ends(us, m));
            lemma_column_ends(us, m);
        }
        assert forall|ts: &'t [Token], r2: ExpectResult<'t, ColumnDefinition>|
            #[trigger] expect_column_definition.ensures((ts,), r2) && list_element_ends(sp,
                values_of(ts@),
                len_of(values_of(ts@)),
            ) implies took(r2, ts@, len_of(values_of(ts@))) by {
            assert(column_ends(values_of(ts@), column_len(values_of(ts@))));
        }
    }
    let res = expect_enclosed_comma_separated(rest, expect_column_definition, Ghost(sp), Ghost(len_of));
    proof {
        if target {
            let t = choose|t: TableDefinition| table_spelled(t, vs_all);
            let k = tokens@.len() - 1;
            assert(values_of(rest@).take(k) =~= vs_all.skip(1));
            assert(enclosed_list_spelled(t.columns, values_of(rest@).take(k), sp));
            assert(took(res, rest@, k));
        }
    }
    let ExpectOk { rest: after, tokens_consumed_count, outcome: columns } = match res {
        Ok(ok) => ok,
        Err(e) => return Err(e),
    };
    let table = TableDefinition { name, columns };
    let n = tokens.len();
    proof {
        assert(rest@ == tokens@.skip(1));
        let c = tokens_consumed_count as int;
        assert(after@ =~= tokens@.skip(1 + c));
        lemma_values_of_parts(tokens@, 1, 1 + c);
        let vs = values_of(tokens@.take(1 + c));
        assert(vs.take(1) == values_of(tokens@.take(1)));
        assert(vs.skip(1) == values_of(rest@.take(c)));
        assert(table_spelled(table, vs));
        if target {
            assert forall|t: TableDefinition| #[trigger] table_spelled(t, vs_all) implies c == tokens@.len() - 1 by {
                let k = tokens@.len() - 1;
                assert(values_of(rest@).take(k) =~= vs_all.skip(1));
                assert(enclosed_list_spelled(t.columns, values_of(rest@).take(k), sp));
            }
        }
    }
    Ok(ExpectOk { rest: after, tokens_consumed_count: 1 + tokens_consumed_count, outcome: table })
}

/// What follows `CREATE TABLE`: an optional `IF NOT EXISTS`, then a table definition.
pub fn expect_create_table<'t>(tokens: &'t [Token]) -> (r: ExpectResult<'t, CreateTableStatement>)
    ensures
        consumed_as(
            r,
            tokens@,
            |o: CreateTableStatement, vs: Seq<TokenValue>| create_table_spelled(o, vs),
        ),
        forall|s: CreateTableStatement| #[trigger] create_table_spelled(s, values_of(tokens@)) ==> took(
            r,
            tokens@,
            tokens@.len() as int,
        ),
{
    let n = tokens.len();
    let ghost vs_all = values_of(tokens@);
    let words = [
        TokenValue::Const(Keyword::If),
        TokenValue::Const(Keyword::Not),
        TokenValue::Const(Keyword::Exists),
    ];
    let if_not_exists = expect_token_values_sequence(tokens, &words).is_ok();
    let skipped: usize = if if_not_exists {
        3
    } else {
        0
    };
    let tail = &tokens[skipped..n];
    proof {
        assert(tail@ =~= tokens@.skip(skipped as int));
        assert(values_of(tail@) =~= vs_all.skip(skipped as int));
        assert(words@ == if_not_exists_values());
        assert forall|s: CreateTableStatement| #[trigger] create_table_spelled(s, vs_all) implies table_spelled(
            s.table,
            values_of(tail@),
        ) by {
            if s.if_not_exists {
                assert(values_of(tokens@.take(3)) =~= vs_all.take(3));
                assert(values_eq(values_of(tokens@.take(3)), words@));
            } else {
                assert(vs_all.take(1)[0] == vs_all[0]);
                if if_not_exists {
                    assert(values_of(tokens@.take(3))[0] == vs_all[0]);
                    assert(value_eq(values_of(tokens@.take(3))[0], words@[0]));
                }
                assert(vs_all.skip(0) =~= vs_all);
            }
        }
    }
    let ExpectOk { rest, tokens_consumed_count, outcome: table } = match expect_table_definition(
        tail,
    ) {
        Ok(ok) => ok,
        Err(e) => return Err(e),
    };
    let statement = CreateTableStatement { table, if_not_exists };
    proof {
        let c = tokens_consumed_count as int;
        let k = skipped as int;
        assert(tail@ =~= tokens@.skip(k));
        assert(rest@ =~= tokens@.skip(k + c));
        lemma_values_of_parts(tokens@, k, k + c);
        let vs = values_of(tokens@.take(k + c));
        if if_not_exists {
            assert(words@ == if_not_exists_values());
            assert(vs.take(3) =~= if_not_exists_values());
        } else {
            assert(vs =~= values_of(tail@.take(c)));
        }
        assert(create_table_spelled(statement, vs));
    }
    Ok(ExpectOk { rest, tokens_consumed_count: skipped + tokens_consumed_count, outcome: statement })
}

/// What follows `INSERT`: `INTO`, the table name, the column names in parentheses,
/// `VALUES` and the values in parentheses.
#[verifier::rlimit(100)]
pub fn expect_insert<'t>(tokens: &'t [Token]) -> (r: ExpectResult<'t, InsertStatement>)
    ensures
        consumed_as(r, tokens@, |o: InsertStatement, vs: Seq<TokenValue>| insert_spelled(o, vs)),
        tokens@.len() == 0 || tokens@[0].value != TokenValue::Const(Keyword::Into) ==> r is Err,
        forall|s: InsertStatement, i: int| #[trigger] insert_split(s, values_of(tokens@), i) ==> took(
            r,
            tokens@,
            tokens@.len() as int,
        ),
{
    let n = tokens.len();
    let ghost vs_all = values_of(tokens@);
    let ghost target = exists|s: InsertStatement, i: int| insert_split(s, vs_all, i);
    let ghost (gs, gi) = if target {
        choose|s: InsertStatement, i: int| insert_split(s, vs_all, i)
    } else {
        (arbitrary(), 0int)
    };
    proof {
        if target {
            assert(vs_all[0] == canonical_value(tokens@[0].value));
            assert(vs_all[1] == canonical_value(tokens@[1].value));
            assert(vs_all.subrange(1, 2)[0] == vs_all[1]);
            assert(vs_all[gi] == canonical_value(tokens@[gi].value));
        }
    }
    let ExpectOk { rest: after_into, .. } = match expect_token_value(
        tokens,
        &TokenValue::Const(Keyword::Into),
    ) {
        Ok(ok) => ok,
        Err(e) => return Err(e),
    };
    let ExpectOk { rest: after_name, outcome: table_name, .. } = match expect_identifier(after_into) {
        Ok(ok) => ok,
        Err(e) => return Err(e),
    };
    proof {
        if target {
            assert(after_name@ =~= tokens@.skip(2));
            assert(values_of(after_name@).take(gi - 2) =~= vs_all.subrange(2, gi));
            assert(enclosed_list_spelled(
                gs.column_names,
                values_of(after_name@).take(gi - 2),
                |s: String, us: Seq<TokenValue>| identifier_spelled(s, us),
            ));
        }
    }
    let ExpectOk { rest: after_names, tokens_consumed_count: names_count, outcome: column_names } =
        match expect_enclosed_comma_separated(
        after_name,
        expect_identifier,
        Ghost(|s: String, us: Seq<TokenValue>| identifier_spelled(s, us)),
        Ghost(|us: Seq<TokenValue>| 1int),
    ) {
        Ok(ok) => ok,
        Err(e) => return Err(e),
    };
    proof {
        if target {
            assert(names_count == gi - 2);
            assert(after_names@ =~= tokens@.skip(gi));
        }
    }
    let ExpectOk { rest: after_values_word, .. } = match expect_token_value(
        after_names,
        &TokenValue::Const(Keyword::Values),
    ) {
        Ok(ok) => ok,
        Err(e) => return Err(e),
    };
    proof {
        if target {
            assert(after_values_word@ =~= tokens@.skip(gi + 1));
            let k = tokens@.len() - gi - 1;
            assert(values_of(after_values_word@).take(k) =~= vs_all.skip(gi + 1));
            assert(enclosed_list_spelled(
                gs.values,
                values_of(after_values_word@).take(k),
                |d: DataInstance, us: Seq<TokenValue>| instance_spelled(d, us),
            ));
        }
    }
    let ExpectOk { rest, tokens_consumed_count: values_count, outcome: values } =
        match expect_enclosed_comma_separated(
        after_values_word,
        expect_data_instance,
        Ghost(|d: DataInstance, us: Seq<TokenValue>| instance_spelled(d, us)),
        Ghost(|us: Seq<TokenValue>| 1int),
    ) {
        Ok(ok) => ok,
        Err(e) => return Err(e),
    };
    let statement = InsertStatement { table_name, column_names, values };
    let total = 3 + names_count + values_count;
    proof {
        let i = 2 + names_count as int;
        let m = values_count as int;
        assert(after_name@ =~= tokens@.skip(2));
        assert(after_names@ =~= tokens@.skip(i));
        assert(after_values_word@ =~= tokens@.skip(i + 1));
        assert(rest@ =~= tokens@.skip(i + 1 + m));
        let vs = values_of(tokens@.take(i + 1 + m));
        lemma_values_of_parts(tokens@, 1, 2);
        lemma_values_of_parts(tokens@, 2, i);
        lemma_values_of_parts(tokens@, i + 1, i + 1 + m);
        assert(vs[0] == canonical_value(tokens@[0].value));
        assert(vs[i] == canonical_value(tokens@[i].value));
        assert(after_names@[0] == tokens@[i]);
        assert(vs.subrange(1, 2) =~= values_of(tokens@.take(2)).subrange(1, 2));
        assert(values_of(after_into@.take(1)) =~= values_of(tokens@.skip(1).take(1)));
        assert(vs.subrange(2, i) =~= values_of(tokens@.take(i)).subrange(2, i));
        assert(vs.skip(i + 1) =~= values_of(tokens@.skip(i + 1).take(m)));
        assert(insert_split(statement, vs, i));
        assert(insert_spelled(statement, vs));
        if target {
            assert forall|s2: InsertStatement, i2: int| #[trigger] insert_split(s2, vs_all, i2) implies i + 1 + m
                == tokens@.len() by {
                assert(values_of(after_name@).take(i2 - 2) =~= vs_all.subrange(2, i2));
                assert(enclosed_list_spelled(
                    s2.column_names,
                    values_of(after_name@).take(i2 - 2),
                    |s: String, us: Seq<TokenValue>| identifier_spelled(s, us),
                ));
            }
        }
    }
    Ok(ExpectOk { rest, tokens_consumed_count: total, outcome: statement })
}

/// A column of `SELECT`: `*` or a column name.
pub fn expect_select_column<'t>(tokens: &'t [Token]) -> (r: ExpectResult<'t, SelectColumn>)
    ensures
        r is Ok <==> tokens@.len() > 0 && (tokens@[0].value is Arbitrary || tokens@[0].value
            == TokenValue::Const(Keyword::Asterisk)),
        consumed_as(r, tokens@, |o: SelectColumn, vs: Seq<TokenValue>| select_column_spelled(o, vs)),
        r is Ok ==> took(r, tokens@, 1),
{
    let ExpectOk { rest, tokens_consumed_count, outcome: found_token } = match expect_next_token(
        tokens,
        "a SELECT column",
    ) {
        Ok(ok) => ok,
        Err(e) => return Err(e),
    };
    proof {
        assert(values_of(tokens@.take(1)) =~= seq![canonical_value(tokens@[0].value)]);
    }
    match &found_token.value {
        TokenValue::Arbitrary(value) => Ok(
            ExpectOk { rest, tokens_consumed_count, outcome: SelectColumn::Identifier(value.clone()) },
        ),
        TokenValue::Const(Keyword::Asterisk) => Ok(
            ExpectOk { rest, tokens_consumed_count, outcome: SelectColumn::All },
        ),
        _ => {
            let found = describe_token(found_token);
            Err(mismatch_error("a SELECT column", found.as_str()))
        },
    }
}

/// What follows `SELECT`: the columns, `FROM`, the table name, and an optional
/// `WHERE` clause.
#[verifier::rlimit(100)]
pub fn expect_select<'t>(tokens: &'t [Token]) -> (r: ExpectResult<'t, SelectStatement>)
    ensures
        consumed_as(r, tokens@, |o: SelectStatement, vs: Seq<TokenValue>| select_spelled(o, vs)),
        forall|s: SelectStatement, i: int| #[trigger] select_split(s, values_of(tokens@), i) ==> took(
            r,
            tokens@,
            tokens@.len() as int,
        ),
{
    let n = tokens.len();
    let ghost vs_all = values_of(tokens@);
    let ghost target = exists|s: SelectStatement, i: int| select_split(s, vs_all, i);
    let ghost (gs, gi) = if target {
        choose|s: SelectStatement, i: int| select_split(s, vs_all, i)
    } else {
        (arbitrary(), 0int)
    };
    proof {
        if target {
            assert(list_ends(
                |c: SelectColumn, us: Seq<TokenValue>| select_column_spelled(c, us),
                |v: TokenValue| select_stop(v),
                vs_all,
                gs.columns@,
                gi,
            ));
            assert(vs_all[gi] == canonical_value(tokens@[gi].value));
            assert(vs_all[gi + 1] == canonical_value(tokens@[gi + 1].value));
            assert(vs_all.subrange(gi + 1, gi + 2)[0] == vs_all[gi + 1]);
            if gi + 2 < vs_all.len() {
                assert(vs_all[gi + 2] == canonical_value(tokens@[gi + 2].value));
            }
        }
    }
    let ghost sel_sp = |c: SelectColumn, us: Seq<TokenValue>| select_column_spelled(c, us);
    let ghost sel_stop = |v: TokenValue| select_stop(v);
    let ghost one = |us: Seq<TokenValue>| 1int;
    proof {
        assert forall|us: Seq<TokenValue>, m: int| #[trigger] element_ends(sel_sp, sel_stop, us, m) implies one(us)
            == m by {
            let c = choose|c: SelectColumn| #[trigger] sel_sp(c, us.take(m));
            assert(us.take(m).len() == m);
        }
        assert forall|ts: &'t [Token], r2: ExpectResult<'t, SelectColumn>|
            #[trigger] expect_select_column.ensures((ts,), r2) && element_ends(
                sel_sp,
                sel_stop,
                values_of(ts@),
                one(values_of(ts@)),
            ) implies took(r2, ts@, one(values_of(ts@))) by {
            let c = choose|c: SelectColumn| #[trigger] sel_sp(c, values_of(ts@).take(1));
            assert(values_of(ts@).take(1)[0] == canonical_value(ts@[0].value));
        }
    }
    let ExpectOk { rest: after_columns, tokens_consumed_count: i, outcome: columns } =
        match expect_comma_separated(
        tokens,
        expect_select_column,
        Ghost(sel_sp),
        Ghost(sel_stop),
        Ghost(one),
    ) {
        Ok(ok) => ok,
        Err(e) => return Err(e),
    };
    let ExpectOk { rest: after_from, .. } = match expect_token_value(
        after_columns,
        &TokenValue::Const(Keyword::From),
    ) {
        Ok(ok) => ok,
        Err(e) => return Err(e),
    };
    let ExpectOk { rest: after_source, outcome: source, .. } = match expect_identifier(after_from) {
        Ok(ok) => ok,
        Err(e) => return Err(e),
    };
    proof {
        if target {
            assert(i == gi);
            assert forall|s2: SelectStatement, i2: int| #[trigger] select_split(s2, vs_all, i2) implies i2 == i by {
                assert(list_ends(
                    |c: SelectColumn, us: Seq<TokenValue>| select_column_spelled(c, us),
                    |v: TokenValue| select_stop(v),
                    vs_all,
                    s2.columns@,
                    i2,
                ));
            }
        }
        assert(after_columns@ =~= tokens@.skip(i as int));
        assert(after_from@ =~= tokens@.skip(i + 1));
        assert(after_source@ =~= tokens@.skip(i + 2));
        assert(after_columns@[0] == tokens@[i as int]);
        assert(after_from@.take(1) =~= tokens@.take(i + 2).subrange(i + 1, i + 2));
    }
    let has_where = expect_token_value(after_source, &TokenValue::Const(Keyword::Where)).is_ok();
    if has_where {
        let tail = &tokens[i + 3..n];
        proof {
            assert(tail@ =~= tokens@.skip(i + 3));
            assert(values_of(tail@) =~= vs_all.skip(i + 3));
            if target {
                assert(gs.where_clause is Some);
                lemma_expression_whole(gs.where_clause->0, vs_all.skip(i + 3));
            }
        }
        let ExpectOk { rest, tokens_consumed_count: m, outcome: expression } =
            match expect_expression(tail) {
            Ok(ok) => ok,
            Err(e) => return Err(e),
        };
        let statement = SelectStatement { columns, source, where_clause: Some(expression) };
        proof {
            let k = i + 3 + m;
            assert(tail@ =~= tokens@.skip(i + 3));
            assert(rest@ =~= tokens@.skip(k));
            assert(after_source@[0] == tokens@[i + 2]);
            let vs = values_of(tokens@.take(k));
            lemma_values_of_parts(tokens@, i as int, k);
            lemma_values_of_parts(tokens@, i + 3, k);
            assert(vs.take(i as int) =~= values_of(tokens@.take(i as int)));
            assert(vs.subrange(i + 1, i + 2) =~= values_of(tokens@.take(i + 2).subrange(i + 1, i + 2)));
            assert(vs[i as int] == canonical_value(tokens@[i as int].value));
            assert(vs[i + 2] == canonical_value(tokens@[i + 2].value));
            assert(vs.skip(i + 3) =~= values_of(tail@.take(m as int)));
            assert(select_split(statement, vs, i as int));
            assert(select_spelled(statement, vs));
        }
        Ok(ExpectOk { rest, tokens_consumed_count: i + 3 + m, outcome: statement })
    } else {
        let statement = SelectStatement { columns, source, where_clause: None };
        proof {
            let k = i + 2;
            let vs = values_of(tokens@.take(k));
            lemma_values_of_parts(tokens@, i as int, k);
            assert(vs.take(i as int) =~= values_of(tokens@.take(i as int)));
            assert(vs.subrange(i + 1, i + 2) =~= values_of(tokens@.take(i + 2).subrange(i + 1, i + 2)));
            assert(vs[i as int] == canonical_value(tokens@[i as int].value));
            assert(select_split(statement, vs, i as int));
            assert(select_spelled(statement, vs));
            if target {
                assert(gs.where_clause is None);
            }
        }
        Ok(ExpectOk { rest: after_source, tokens_consumed_count: i + 2, outcome: statement })
    }
}

/// Parses the tokens of one whole statement; tokens left over are an error.
pub fn parse_tokens(tokens: &[Token]) -> (r: Result<Statement, SyntaxError>)
    ensures
        r matches Ok(s) ==> statement_spelled(s, values_of(tokens@)),
        tokens@.len() == 0 ==> r is Err,
        tokens@.len() > 0 && tokens@[0].value != TokenValue::Const(Keyword::Create) && tokens@[0].value
            != TokenValue::Const(Keyword::Insert) && tokens@[0].value != TokenValue::Const(
            Keyword::Select,
        ) ==> r is Err,
        tokens@.len() > 0 && tokens@[0].value == TokenValue::Const(Keyword::Create) && (tokens@.len()
            == 1 || tokens@[1].value != TokenValue::Const(Keyword::Table)) ==> r is Err,
        forall|s: Statement| #[trigger] statement_spelled(s, values_of(tokens@)) ==> r is Ok,
{
    let n = tokens.len();
    let ExpectOk { rest, outcome: first, .. } = match expect_next_token(
        tokens,
        "keyword `CREATE`, keyword `INSERT` or keyword `SELECT`",
    ) {
        Ok(ok) => ok,
        Err(e) => return Err(e),
    };
    let ghost all = values_of(tokens@);
    proof {
        assert(all[0] == canonical_value(tokens@[0].value));
        assert(rest@ == tokens@.skip(1));
        assert(values_of(rest@) =~= all.skip(1));
    }
    match &first.value {
        TokenValue::Const(Keyword::Create) => {
            let ExpectOk { rest: after_table, .. } = match expect_token_value(
                rest,
                &TokenValue::Const(Keyword::Table),
            ) {
                Ok(ok) => ok,
                Err(e) => return Err(e),
            };
            let res = consume_all(
                after_table,
                expect_create_table,
                Ghost(|o: CreateTableStatement, vs: Seq<TokenValue>| create_table_spelled(o, vs)),
            );
            proof {
                assert(all[1] == canonical_value(rest@[0].value));
                assert(after_table@ =~= tokens@.skip(2));
                assert(values_of(after_table@) =~= all.skip(2));
            }
            match res {
                Ok(c) => Ok(Statement::CreateTable(c)),
                Err(e) => Err(e),
            }
        },
        TokenValue::Const(Keyword::Insert) => {
            let res = consume_all(
                rest,
                expect_insert,
                Ghost(|o: InsertStatement, vs: Seq<TokenValue>| insert_spelled(o, vs)),
            );
            match res {
                Ok(i) => Ok(Statement::Insert(i)),
                Err(e) => Err(e),
            }
        },
        TokenValue::Const(Keyword::Select) => {
            let res = consume_all(
                rest,
                expect_select,
                Ghost(|o: SelectStatement, vs: Seq<TokenValue>| select_spelled(o, vs)),
            );
            match res {
                Ok(q) => Ok(Statement::Select(q)),
                Err(e) => Err(e),
            }
        },
        _ => {
            let found = describe_token(first);
            Err(
                mismatch_error(
                    "keyword `CREATE`, keyword `INSERT` or keyword `SELECT`",
                    found.as_str(),
                ),
            )
        },
    }
}

/// Tokenizes and parses one statement.
pub fn parse_statement(input: &str) -> (r: Result<Statement, SyntaxError>)
    requires
        input@.len() < usize::MAX,
    ensures
        r matches Ok(s) ==> exists|ts: Seq<Token>|
            tokens_of_words(ts, lex_words(input@)) && statement_spelled(s, #[trigger] values_of(ts)),
        lex_words(input@).len() == 0 ==> r is Err,
        (exists|ts: Seq<Token>, s: Statement|
            tokens_of_words(ts, lex_words(input@)) && #[trigger] statement_spelled(s, values_of(ts)))
            ==> r is Ok,
{
    let tokens = tokenize_statement(input);
    proof {
        assert forall|ts: Seq<Token>, s: Statement|
            tokens_of_words(ts, lex_words(input@)) && #[trigger] statement_spelled(s, values_of(ts)) implies statement_spelled(
            s,
            values_of(tokens@),
        ) by {
            lemma_same_words_same_values(ts, tokens@, lex_words(input@));
        }
    }
    let slice = tokens.as_slice();
    parse_tokens(slice)
}

/// Tokens read from the same words have the same values.
proof fn lemma_same_words_same_values(a: Seq<Token>, b: Seq<Token>, words: Seq<(Seq<char>, nat)>)
    requires
        tokens_of_words(a, words),
        tokens_of_words(b, words),
    ensures
        values_of(a) == values_of(b),
{
    assert forall|i: int| 0 <= i < a.len() implies #[trigger] values_of(a)[i] == values_of(b)[i] by {
        assert(token_of_word(a[i], words[i]));
        assert(token_of_word(b[i], words[i]));
        let (va, vb) = (a[i].value, b[i].value);
        match va {
            TokenValue::String(x) => {
                if let TokenValue::String(y) = vb {
                    assert(x@ == y@);
                    assert(canonical(x) == canonical(y));
                }
            },
            TokenValue::Arbitrary(x) => {
                if let TokenValue::Arbitrary(y) = vb {
                    assert(x@ == y@);
                    assert(canonical(x) == canonical(y));
                }
            },
            _ => {},
        }
    }
    assert(values_of(a) =~= values_of(b));
}

// ---------------------------------------------------------------------------
// Validation

/// An INSERT that can be checked against a table: a table name, one value per
/// column name, and column names that are not empty and not repeated.
pub open spec fn insert_is_valid(s: InsertStatement) -> bool {
    &&& s.table_name@.len() > 0
    &&& s.column_names@.len() == s.values@.len()
    &&& forall|i: int| 0 <= i < s.column_names@.len() ==> (#[trigger] s.column_names@[i])@.len() > 0
    &&& forall|i: int, j: int|
        0 <= i < j < s.column_names@.len() ==> (#[trigger] s.column_names@[i])@
            != (#[trigger] s.column_names@[j])@
}

/// A SELECT with a source table and at least one column.
pub open spec fn select_is_valid(s: SelectStatement) -> bool {
    s.source@.len() > 0 && s.columns@.len() > 0
}

pub open spec fn statement_is_valid(s: Statement) -> bool {
    match s {
        Statement::CreateTable(c) => table_is_valid(c.table),
        Statement::Insert(i) => insert_is_valid(i),
        Statement::Select(q) => select_is_valid(q),
    }
}

impl CreateTableStatement {
    pub fn validate(&self) -> (r: Result<(), ValidationError>)
        ensures
            r is Ok <==> table_is_valid(self.table),
    {
        self.table.validate()
    }
}

impl InsertStatement {
    pub fn validate(&self) -> (r: Result<(), ValidationError>)
        ensures
            r is Ok <==> insert_is_valid(*self),
    {
        if self.table_name.as_str().is_empty() {
            return Err(ValidationError(String::from_str("A table name must not be empty")));
        }
        if self.column_names.len() != self.values.len() {
            return Err(
                ValidationError(
                    String::from_str("The number of values must equal the number of columns"),
                ),
            );
        }
        let n = self.column_names.len();
        let mut i: usize = 0;
        while i < n
            invariant
                n == self.column_names@.len(),
                i <= n,
                forall|a: int| 0 <= a < i ==> (#[trigger] self.column_names@[a])@.len() > 0,
                forall|a: int, b: int|
                    0 <= a < b < i ==> (#[trigger] self.column_names@[a])@
                        != (#[trigger] self.column_names@[b])@,
            decreases n - i,
        {
            if self.column_names[i].as_str().is_empty() {
                return Err(ValidationError(String::from_str("A column name must not be empty")));
            }
            let mut k: usize = 0;
            while k < i
                invariant
                    i < n,
                    n == self.column_names@.len(),
                    k <= i,
                    forall|a: int| 0 <= a < k ==> (#[trigger] self.column_names@[a])@ != self.column_names@[i as int]@,
                decreases i - k,
            {
                if self.column_names[k].eq(&self.column_names[i]) {
                    return Err(
                        ValidationError(
                            String::from_str("A column is named more than once: ").concat(
                                self.column_names[i].as_str(),
                            ),
                        ),
                    );
                }
                k += 1;
            }
            i += 1;
        }
        Ok(())
    }
}

impl SelectStatement {
    pub fn validate(&self) -> (r: Result<(), ValidationError>)
        ensures
            r is Ok <==> select_is_valid(*self),
    {
        if self.source.as_str().is_empty() {
            return Err(ValidationError(String::from_str("A table name must not be empty")));
        }
        if self.columns.len() == 0 {
            return Err(ValidationError(String::from_str("At least one column must be selected")));
        }
        Ok(())
    }
}

impl Statement {
    /// Checks what the grammar cannot: see `statement_is_valid`.
    pub fn validate(&self) -> (r: Result<(), ValidationError>)
        ensures
            r is Ok <==> statement_is_valid(*self),
    {
        match self {
            Statement::CreateTable(c) => c.validate(),
            Statement::Insert(i) => i.validate(),
            Statement::Select(q) => q.validate(),
        }
    }
}

} // verus!
