//! The SQL tokenizer: splits a statement into line-tagged tokens.

use crate::text::{chars_of, string_from_chars};
use vstd::prelude::*;

verus! {

/// Single characters that delimit tokens and carry meaning of their own.
#[derive(Debug, PartialEq, Eq, Clone, Copy, Structural)]
pub enum Delimiter {
    Comma,
    ParenthesisOpening,
    ParenthesisClosing,
    Equal,
}

/// Reserved words of the SQL dialect.
#[derive(Debug, PartialEq, Eq, Clone, Copy, Structural)]
pub enum Keyword {
    Create,
    Insert,
    Into,
    Values,
    Table,
    If,
    Not,
    Exists,
    Nullable,
    Null,
    Primary,
    Key,
    Metric,
    Default,
    Select,
    From,
    Where,
    Asterisk,
}

/// Primitive column types.
#[derive(Debug, PartialEq, Eq, Clone, Copy, Structural)]
pub enum DataTypeRaw {
    UInt8,
    UInt16,
    UInt32,
    UInt64,
    UInt128,
    Bool,
    Timestamp,
    Uuid,
    String,
}

/// Built-in functions that may provide a column's default value.
#[derive(Debug, PartialEq, Eq, Clone, Copy, Structural)]
pub enum Function {
    Ulid,
    Now,
}

/// What a token stands for.
#[derive(Debug, PartialEq, Eq, Clone)]
pub enum TokenValue {
    Delimiting(Delimiter),
    Const(Keyword),
    Type(DataTypeRaw),
    Function(Function),
    /// A string literal, without its quotes and escaping backslashes.
    String(String),
    /// An identifier or a number.
    Arbitrary(String),
}

/// A token with the 1-based line on which it starts.
#[derive(Debug, PartialEq, Eq, Clone)]
pub struct Token {
    pub value: TokenValue,
    pub line_number: usize,
}

// ---------------------------------------------------------------------------
// Classification of words

/// `c` equals the lowercase ASCII letter or symbol `l`, ignoring ASCII case.
pub open spec fn ci_char_eq(c: char, l: char) -> bool {
    c == l || ('A' <= c && c <= 'Z' && (c as u32) + 32 == (l as u32))
}

/// `w` spells the lowercase text `lit`, ignoring ASCII case.
pub open spec fn ci_eq(w: Seq<char>, lit: Seq<char>) -> bool {
    w.len() == lit.len() && forall|i: int| 0 <= i < w.len() ==> ci_char_eq(#[trigger] w[i], lit[i])
}

pub open spec fn delimiter_of(w: Seq<char>) -> Option<Delimiter> {
    if w == seq![','] {
        Some(Delimiter::Comma)
    } else if w == seq!['('] {
        Some(Delimiter::ParenthesisOpening)
    } else if w == seq![')'] {
        Some(Delimiter::ParenthesisClosing)
    } else if w == seq!['='] {
        Some(Delimiter::Equal)
    } else {
        None
    }
}

pub open spec fn keyword_of(w: Seq<char>) -> Option<Keyword> {
    if ci_eq(w, seq!['c', 'r', 'e', 'a', 't', 'e']) {
        Some(Keyword::Create)
    } else if ci_eq(w, seq!['i', 'n', 's', 'e', 'r', 't']) {
        Some(Keyword::Insert)
    } else if ci_eq(w, seq!['i', 'n', 't', 'o']) {
        Some(Keyword::Into)
    } else if ci_eq(w, seq!['v', 'a', 'l', 'u', 'e', 's']) {
        Some(Keyword::Values)
    } else if ci_eq(w, seq!['t', 'a', 'b', 'l', 'e']) {
        Some(Keyword::Table)
    } else if ci_eq(w, seq!['i', 'f']) {
        Some(Keyword::If)
    } else if ci_eq(w, seq!['n', 'o', 't']) {
        Some(Keyword::Not)
    } else if ci_eq(w, seq!['e', 'x', 'i', 's', 't', 's']) {
        Some(Keyword::Exists)
    } else if ci_eq(w, seq!['n', 'u', 'l', 'l', 'a', 'b', 'l', 'e']) {
        Some(Keyword::Nullable)
    } else if ci_eq(w, seq!['n', 'u', 'l', 'l']) {
        Some(Keyword::Null)
    } else if ci_eq(w, seq!['p', 'r', 'i', 'm', 'a', 'r', 'y']) {
        Some(Keyword::Primary)
    } else if ci_eq(w, seq!['k', 'e', 'y']) {
        Some(Keyword::Key)
    } else if ci_eq(w, seq!['m', 'e', 't', 'r', 'i', 'c']) {
        Some(Keyword::Metric)
    } else if ci_eq(w, seq!['d', 'e', 'f', 'a', 'u', 'l', 't']) {
        Some(Keyword::Default)
    } else if ci_eq(w, seq!['s', 'e', 'l', 'e', 'c', 't']) {
        Some(Keyword::Select)
    } else if ci_eq(w, seq!['f', 'r', 'o', 'm']) {
        Some(Keyword::From)
    } else if ci_eq(w, seq!['w', 'h', 'e', 'r', 'e']) {
        Some(Keyword::Where)
    } else if ci_eq(w, seq!['*']) {
        Some(Keyword::Asterisk)
    } else {
        None
    }
}

pub open spec fn data_type_raw_of(w: Seq<char>) -> Option<DataTypeRaw> {
    if ci_eq(w, seq!['u', 'i', 'n', 't', '8']) {
        Some(DataTypeRaw::UInt8)
    } else if ci_eq(w, seq!['u', 'i', 'n', 't', '1', '6']) {
        Some(DataTypeRaw::UInt16)
    } else if ci_eq(w, seq!['u', 'i', 'n', 't', '3', '2']) {
        Some(DataTypeRaw::UInt32)
    } else if ci_eq(w, seq!['u', 'i', 'n', 't', '6', '4']) {
        Some(DataTypeRaw::UInt64)
    } else if ci_eq(w, seq!['u', 'i', 'n', 't', '1', '2', '8']) {
        Some(DataTypeRaw::UInt128)
    } else if ci_eq(w, seq!['b', 'o', 'o', 'l']) {
        Some(DataTypeRaw::Bool)
    } else if ci_eq(w, seq!['t', 'i', 'm', 'e', 's', 't', 'a', 'm', 'p']) {
        Some(DataTypeRaw::Timestamp)
    } else if ci_eq(w, seq!['u', 'u', 'i', 'd']) {
        Some(DataTypeRaw::Uuid)
    } else if ci_eq(w, seq!['s', 't', 'r', 'i', 'n', 'g']) {
        Some(DataTypeRaw::String)
    } else {
        None
    }
}

pub open spec fn function_of(w: Seq<char>) -> Option<Function> {
    if ci_eq(w, seq!['n', 'o', 'w']) {
        Some(Function::Now)
    } else if ci_eq(w, seq!['u', 'l', 'i', 'd']) {
        Some(Function::Ulid)
    } else {
        None
    }
}

/// A word that starts and ends with a single quote.
pub open spec fn is_string_literal(w: Seq<char>) -> bool {
    w.len() >= 2 && w[0] == '\'' && w[w.len() - 1] == '\''
}

/// `v` is the value of a token read from the word `w`: delimiters first, then
/// keywords, types and functions (all case-insensitive), then string literals;
/// anything else is kept as it is.
pub open spec fn classified(v: TokenValue, w: Seq<char>) -> bool {
    match delimiter_of(w) {
        Some(d) => v == TokenValue::Delimiting(d),
        None => match keyword_of(w) {
            Some(k) => v == TokenValue::Const(k),
            None => match data_type_raw_of(w) {
                Some(t) => v == TokenValue::Type(t),
                None => match function_of(w) {
                    Some(f) => v == TokenValue::Function(f),
                    None => if is_string_literal(w) {
                        v matches TokenValue::String(s) && s@ == w.subrange(1, w.len() - 1)
                    } else {
                        v matches TokenValue::Arbitrary(s) && s@ == w
                    },
                },
            },
        },
    }
}

/// `w` spells `lit` ignoring ASCII case.
fn word_is(w: &Vec<char>, lit: &[char]) -> (r: bool)
    ensures
        r == ci_eq(w@, lit@),
{
    if w.len() != lit.len() {
        return false;
    }
    let mut i: usize = 0;
    while i < w.len()
        invariant
            w@.len() == lit@.len(),
            i <= w.len(),
            forall|j: int| 0 <= j < i ==> ci_char_eq(#[trigger] w@[j], lit@[j]),
        decreases w.len() - i,
    {
        let c = w[i];
        let l = lit[i];
        if !(c == l || ('A' <= c && c <= 'Z' && (c as u32) + 32 == (l as u32))) {
            return false;
        }
        i += 1;
    }
    true
}

fn delimiter_from_word(w: &Vec<char>) -> (r: Option<Delimiter>)
    ensures
        r == delimiter_of(w@),
{
    if w.len() != 1 {
        proof {
            assert(w@ != seq![',']);
            assert(w@ != seq!['(']);
            assert(w@ != seq![')']);
            assert(w@ != seq!['=']);
        }
        return None;
    }
    let c = w[0];
    proof {
        assert(w@ == seq![c]);
    }
    if c == ',' {
        Some(Delimiter::Comma)
    } else if c == '(' {
        Some(Delimiter::ParenthesisOpening)
    } else if c == ')' {
        Some(Delimiter::ParenthesisClosing)
    } else if c == '=' {
        Some(Delimiter::Equal)
    } else {
        proof {
            assert(seq![c][0] == c);
            assert(seq![','][0] == ',');
            assert(seq!['('][0] == '(');
            assert(seq![')'][0] == ')');
            assert(seq!['='][0] == '=');
        }
        None
    }
}

fn keyword_from_word(w: &Vec<char>) -> (r: Option<Keyword>)
    ensures
        r == keyword_of(w@),
{
    if word_is(w, &['c', 'r', 'e', 'a', 't', 'e']) {
        Some(Keyword::Create)
    } else if word_is(w, &['i', 'n', 's', 'e', 'r', 't']) {
        Some(Keyword::Insert)
    } else if word_is(w, &['i', 'n', 't', 'o']) {
        Some(Keyword::Into)
    } else if word_is(w, &['v', 'a', 'l', 'u', 'e', 's']) {
        Some(Keyword::Values)
    } else if word_is(w, &['t', 'a', 'b', 'l', 'e']) {
        Some(Keyword::Table)
    } else if word_is(w, &['i', 'f']) {
        Some(Keyword::If)
    } else if word_is(w, &['n', 'o', 't']) {
        Some(Keyword::Not)
    } else if word_is(w, &['e', 'x', 'i', 's', 't', 's']) {
        Some(Keyword::Exists)
    } else if word_is(w, &['n', 'u', 'l', 'l', 'a', 'b', 'l', 'e']) {
        Some(Keyword::Nullable)
    } else if word_is(w, &['n', 'u', 'l', 'l']) {
        Some(Keyword::Null)
    } else if word_is(w, &['p', 'r', 'i', 'm', 'a', 'r', 'y']) {
        Some(Keyword::Primary)
    } else if word_is(w, &['k', 'e', 'y']) {
        Some(Keyword::Key)
    } else if word_is(w, &['m', 'e', 't', 'r', 'i', 'c']) {
        Some(Keyword::Metric)
    } else if word_is(w, &['d', 'e', 'f', 'a', 'u', 'l', 't']) {
        Some(Keyword::Default)
    } else if word_is(w, &['s', 'e', 'l', 'e', 'c', 't']) {
        Some(Keyword::Select)
    } else if word_is(w, &['f', 'r', 'o', 'm']) {
        Some(Keyword::From)
    } else if word_is(w, &['w', 'h', 'e', 'r', 'e']) {
        Some(Keyword::Where)
    } else if word_is(w, &['*']) {
        Some(Keyword::Asterisk)
    } else {
        None
    }
}

fn data_type_raw_from_word(w: &Vec<char>) -> (r: Option<DataTypeRaw>)
    ensures
        r == data_type_raw_of(w@),
{
    if word_is(w, &['u', 'i', 'n', 't', '8']) {
        Some(DataTypeRaw::UInt8)
    } else if word_is(w, &['u', 'i', 'n', 't', '1', '6']) {
        Some(DataTypeRaw::UInt16)
    } else if word_is(w, &['u', 'i', 'n', 't', '3', '2']) {
        Some(DataTypeRaw::UInt32)
    } else if word_is(w, &['u', 'i', 'n', 't', '6', '4']) {
        Some(DataTypeRaw::UInt64)
    } else if word_is(w, &['u', 'i', 'n', 't', '1', '2', '8']) {
        Some(DataTypeRaw::UInt128)
    } else if word_is(w, &['b', 'o', 'o', 'l']) {
        Some(DataTypeRaw::Bool)
    } else if word_is(w, &['t', 'i', 'm', 'e', 's', 't', 'a', 'm', 'p']) {
        Some(DataTypeRaw::Timestamp)
    } else if word_is(w, &['u', 'u', 'i', 'd']) {
        Some(DataTypeRaw::Uuid)
    } else if word_is(w, &['s', 't', 'r', 'i', 'n', 'g']) {
        Some(DataTypeRaw::String)
    } else {
        None
    }
}

fn function_from_word(w: &Vec<char>) -> (r: Option<Function>)
    ensures
        r == function_of(w@),
{
    if word_is(w, &['n', 'o', 'w']) {
        Some(Function::Now)
    } else if word_is(w, &['u', 'l', 'i', 'd']) {
        Some(Function::Ulid)
    } else {
        None
    }
}

/// The token value that a word stands for.
pub fn classify_word(w: &Vec<char>) -> (r: TokenValue)
    ensures
        classified(r, w@),
{
    if let Some(d) = delimiter_from_word(w) {
        return TokenValue::Delimiting(d);
    }
    if let Some(k) = keyword_from_word(w) {
        return TokenValue::Const(k);
    }
    if let Some(t) = data_type_raw_from_word(w) {
        return TokenValue::Type(t);
    }
    if let Some(f) = function_from_word(w) {
        return TokenValue::Function(f);
    }
    let n = w.len();
    if n >= 2 && w[0] == '\'' && w[n - 1] == '\'' {
        let mut inner: Vec<char> = Vec::new();
        let mut i: usize = 1;
        while i < n - 1
            invariant
                n == w@.len(),
                1 <= i <= n - 1,
                inner@ == w@.subrange(1, i as int),
            decreases n - 1 - i,
        {
            inner.push(w[i]);
            proof {
                assert(w@.subrange(1, i + 1) =~= w@.subrange(1, i as int).push(w@[i as int]));
            }
            i += 1;
        }
        TokenValue::String(string_from_chars(&inner))
    } else {
        TokenValue::Arbitrary(string_from_chars(w))
    }
}

// ---------------------------------------------------------------------------
// Splitting a statement into words

/// The state of the tokenizer after a prefix of the input.
pub struct LexState {
    /// Words found so far, each with its line.
    pub words: Seq<(Seq<char>, nat)>,
    /// The word being read.
    pub current: Seq<char>,
    /// The previous character was an escaping backslash.
    pub escaped: bool,
    /// Inside a string literal.
    pub in_string: bool,
    /// The current 1-based line.
    pub line: nat,
    /// A statement separator was met: the rest is ignored.
    pub stopped: bool,
}

pub open spec fn lex_init() -> LexState {
    LexState {
        words: Seq::empty(),
        current: Seq::empty(),
        escaped: false,
        in_string: false,
        line: 1,
        stopped: false,
    }
}

/// Ends the current word, if any.
pub open spec fn lex_flush(s: LexState) -> LexState {
    if s.current.len() > 0 {
        LexState { words: s.words.push((s.current, s.line)), current: Seq::empty(), ..s }
    } else {
        s
    }
}

pub open spec fn is_delimiting_char(c: char) -> bool {
    c == ',' || c == '(' || c == ')' || c == '='
}

pub open spec fn is_ascii_whitespace(c: char) -> bool {
    c == ' ' || c == '\t' || c == '\n' || c == '\r' || c == '\x0C'
}

/// One character of input. A newline ends the word and any unfinished string;
/// a backslash escapes the next character; single quotes open and close string
/// literals, inside which only escapes and the closing quote are special; outside
/// strings a semicolon stops, a delimiter is a word of its own and whitespace
/// separates words.
pub open spec fn lex_step(s: LexState, c: char) -> LexState {
    if s.stopped {
        s
    } else if c == '\n' {
        LexState { escaped: false, in_string: false, line: s.line + 1, ..lex_flush(s) }
    } else if !s.escaped && c == '\\' {
        LexState { escaped: true, ..s }
    } else if !s.escaped && c == '\'' {
        if s.in_string {
            LexState { in_string: false, ..lex_flush(LexState { current: s.current.push(c), ..s }) }
        } else {
            LexState { current: s.current.push(c), in_string: true, ..s }
        }
    } else if !s.escaped && !s.in_string && c == ';' {
        LexState { stopped: true, ..lex_flush(s) }
    } else if !s.escaped && !s.in_string && is_delimiting_char(c) {
        let f = lex_flush(s);
        LexState { words: f.words.push((seq![c], s.line)), ..f }
    } else if !s.escaped && !s.in_string && is_ascii_whitespace(c) {
        lex_flush(s)
    } else {
        LexState { current: s.current.push(c), escaped: false, ..s }
    }
}

pub open spec fn lex_run(cs: Seq<char>) -> LexState
    decreases cs.len(),
{
    if cs.len() == 0 {
        lex_init()
    } else {
        lex_step(lex_run(cs.drop_last()), cs.last())
    }
}

/// The words of a statement, each with the line on which it stands.
pub open spec fn lex_words(cs: Seq<char>) -> Seq<(Seq<char>, nat)> {
    lex_flush(lex_run(cs)).words
}

/// `t` is the token read from the word `w` on line `line`.
pub open spec fn token_of_word(t: Token, w: (Seq<char>, nat)) -> bool {
    t.line_number as nat == w.1 && classified(t.value, w.0)
}

/// `tokens` are the tokens read from `words`, one for one.
pub open spec fn tokens_of_words(tokens: Seq<Token>, words: Seq<(Seq<char>, nat)>) -> bool {
    tokens.len() == words.len() && forall|i: int|
        0 <= i < tokens.len() ==> token_of_word(#[trigger] tokens[i], words[i])
}

proof fn lemma_lex_run_line(cs: Seq<char>)
    ensures
        1 <= lex_run(cs).line <= cs.len() + 1,
        forall|i: int|
            0 <= i < lex_run(cs).words.len() ==> 1 <= #[trigger] lex_run(cs).words[i].1 <= cs.len() + 1,
    decreases cs.len(),
{
    if cs.len() > 0 {
        lemma_lex_run_line(cs.drop_last());
    }
}

proof fn lemma_push_token(tokens: Seq<Token>, words: Seq<(Seq<char>, nat)>, t: Token, w: (Seq<char>, nat))
    requires
        tokens_of_words(tokens, words),
        token_of_word(t, w),
    ensures
        tokens_of_words(tokens.push(t), words.push(w)),
{
    assert forall|j: int| 0 <= j < tokens.push(t).len() implies token_of_word(
        #[trigger] tokens.push(t)[j],
        words.push(w)[j],
    ) by {
        if j < tokens.len() {
            assert(tokens.push(t)[j] == tokens[j]);
            assert(words.push(w)[j] == words[j]);
        }
    }
}

/// Ends the current word into a token, if there is one.
fn flush(tokens: &mut Vec<Token>, current: &mut Vec<char>, line: usize, Ghost(s): Ghost<LexState>)
    requires
        tokens_of_words(old(tokens)@, s.words),
        old(current)@ == s.current,
        line as nat == s.line,
    ensures
        tokens_of_words(final(tokens)@, lex_flush(s).words),
        final(current)@ == lex_flush(s).current,
{
    if current.len() > 0 {
        let value = classify_word(current);
        let t = Token { value, line_number: line };
        proof {
            lemma_push_token(tokens@, s.words, t, (s.current, s.line));
        }
        tokens.push(t);
        *current = Vec::new();
    }
}

/// Splits a statement into tokens. Keywords, type names and function names are
/// recognised whatever their case; identifiers and numbers keep theirs. String
/// literals are delimited by single quotes and keep inner whitespace; a backslash
/// escapes the next character. A semicolon ends the statement.
pub fn tokenize_statement(input: &str) -> (r: Vec<Token>)
    requires
        input@.len() < usize::MAX,
    ensures
        tokens_of_words(r@, lex_words(input@)),
{
    let cs = chars_of(input);
    let mut tokens: Vec<Token> = Vec::new();
    let mut current: Vec<char> = Vec::new();
    let mut escaped = false;
    let mut in_string = false;
    let mut line: usize = 1;
    let mut i: usize = 0;
    proof {
        assert(cs@.take(0) =~= Seq::<char>::empty());
    }
    while i < cs.len()
        invariant
            cs@ == input@,
            cs@.len() < usize::MAX,
            i <= cs@.len(),
            ({
                let s = lex_run(cs@.take(i as int));
                &&& tokens_of_words(tokens@, s.words)
                &&& current@ == s.current
                &&& escaped == s.escaped
                &&& in_string == s.in_string
                &&& line as nat == s.line
                &&& !s.stopped
            }),
        decreases cs@.len() - i,
    {
        let c = cs[i];
        let ghost s = lex_run(cs@.take(i as int));
        proof {
            assert(cs@.take(i + 1).drop_last() =~= cs@.take(i as int));
            assert(cs@.take(i + 1).last() == c);
            lemma_lex_run_line(cs@.take(i as int));
        }
        if c == '\n' {
            flush(&mut tokens, &mut current, line, Ghost(s));
            escaped = false;
            in_string = false;
            line = line + 1;
        } else if !escaped && c == '\\' {
            escaped = true;
        } else if !escaped && c == '\'' {
            current.push(c);
            if in_string {
                flush(&mut tokens, &mut current, line, Ghost(LexState { current: s.current.push(c), ..s }));
                in_string = false;
            } else {
                in_string = true;
            }
        } else if !escaped && !in_string && c == ';' {
            flush(&mut tokens, &mut current, line, Ghost(s));
            proof {
                lemma_stopped_stays(cs@, i as int + 1);
                assert(cs@.take(cs@.len() as int) =~= cs@);
            }
            return tokens;
        } else if !escaped && !in_string && (c == ',' || c == '(' || c == ')' || c == '=') {
            flush(&mut tokens, &mut current, line, Ghost(s));
            let word = vec![c];
            let value = classify_word(&word);
            let t = Token { value, line_number: line };
            proof {
                assert(word@ =~= seq![c]);
                lemma_push_token(tokens@, lex_flush(s).words, t, (seq![c], s.line));
            }
            tokens.push(t);
        } else if !escaped && !in_string && (c == ' ' || c == '\t' || c == '\r' || c == '\x0C') {
            flush(&mut tokens, &mut current, line, Ghost(s));
        } else {
            current.push(c);
            escaped = false;
        }
        i = i + 1;
    }
    flush(&mut tokens, &mut current, line, Ghost(lex_run(cs@.take(i as int))));
    proof {
        assert(cs@.take(cs@.len() as int) =~= cs@);
    }
    tokens
}

proof fn lemma_stopped_stays(cs: Seq<char>, k: int)
    requires
        0 <= k <= cs.len(),
        lex_run(cs.take(k)).stopped,
    ensures
        lex_run(cs) == lex_run(cs.take(k)),
    decreases cs.len() - k,
{
    if k < cs.len() {
        assert(cs.take(k + 1).drop_last() =~= cs.take(k));
        lemma_stopped_stays(cs, k + 1);
    } else {
        assert(cs.take(k) =~= cs);
    }
}

/// The code of a character's ASCII lower case.
pub open spec fn lower_code(c: char) -> int {
    if 'A' <= c && c <= 'Z' {
        (c as u32) + 32
    } else {
        c as u32 as int
    }
}

/// Two words that differ only in the ASCII case of their letters.
pub open spec fn same_but_case(a: Seq<char>, b: Seq<char>) -> bool {
    a.len() == b.len() && forall|i: int| 0 <= i < a.len() ==> lower_code(#[trigger] a[i]) == lower_code(b[i])
}

proof fn lemma_ci_char_eq_by_code(c: char, l: char)
    requires
        !('A' <= l && l <= 'Z'),
    ensures
        ci_char_eq(c, l) == (lower_code(c) == l as u32 as int),
{
    if lower_code(c) == l as u32 as int && !('A' <= c && c <= 'Z') {
        assert(c as u32 == l as u32);
        vstd::utf8::char_u32_cast(c, c as u32);
        vstd::utf8::char_u32_cast(l, l as u32);
    }
}

proof fn lemma_ci_eq_ignores_case(a: Seq<char>, b: Seq<char>, lit: Seq<char>)
    requires
        same_but_case(a, b),
        forall|i: int| 0 <= i < lit.len() ==> !('A' <= #[trigger] lit[i] && lit[i] <= 'Z'),
    ensures
        ci_eq(a, lit) == ci_eq(b, lit),
{
    if ci_eq(a, lit) {
        assert forall|i: int| 0 <= i < b.len() implies ci_char_eq(#[trigger] b[i], lit[i]) by {
            assert(ci_char_eq(a[i], lit[i]));
            lemma_ci_char_eq_by_code(a[i], lit[i]);
            lemma_ci_char_eq_by_code(b[i], lit[i]);
        }
    }
    if ci_eq(b, lit) {
        assert forall|i: int| 0 <= i < a.len() implies ci_char_eq(#[trigger] a[i], lit[i]) by {
            assert(ci_char_eq(b[i], lit[i]));
            lemma_ci_char_eq_by_code(a[i], lit[i]);
            lemma_ci_char_eq_by_code(b[i], lit[i]);
        }
    }
}

/// Keywords, type names and function names are recognised whatever the case
/// of their letters: two words that differ only in ASCII case are the same
/// keyword, type or function, or neither.
pub proof fn lemma_keywords_ignore_case(a: Seq<char>, b: Seq<char>)
    requires
        same_but_case(a, b),
    ensures
        keyword_of(a) == keyword_of(b),
        data_type_raw_of(a) == data_type_raw_of(b),
        function_of(a) == function_of(b),
{
    assert forall|lit: Seq<char>|
        (forall|i: int| 0 <= i < lit.len() ==> !('A' <= #[trigger] lit[i] && lit[i] <= 'Z')) implies ci_eq(a, lit)
        == ci_eq(b, lit) by {
        lemma_ci_eq_ignores_case(a, b, lit);
    }
}

/// A semicolon outside a string ends the statement: whatever follows it adds
/// no word.
pub proof fn lemma_semicolon_ends_statement(a: Seq<char>, b: Seq<char>)
    requires
        !lex_run(a).in_string,
        !lex_run(a).escaped,
    ensures
        lex_words(a.push(';') + b) == lex_words(a.push(';')),
{
    let s = a.push(';');
    let cs = s + b;
    assert(s.drop_last() =~= a);
    if !lex_run(a).stopped {
        assert(lex_run(s).stopped);
    } else {
        assert(lex_run(s) == lex_run(a));
    }
    assert(cs.take(s.len() as int) =~= s);
    lemma_stopped_stays(cs, s.len() as int);
}

} // verus!
