use vstd::prelude::*;
use vstd::utf8::{decode_utf8, valid_utf8};
use vstd::string::StringExecFns;
use crate::terminal::str_from_utf8;
use crate::readline::{dec, push_chars, push_dec};
use crate::text::{chars_of, string_of};

verus! {

broadcast use {vstd::std_specs::vec::axiom_vec_index_decreases, vstd::std_specs::vec::axiom_vec_decreases_to_view};

/// A token of JSON text. `Number` holds the digits, `Str` the bytes between
/// the quotes as they stand (escapes kept); a `Str` whose bytes are not
/// UTF-8 cannot be read further.
#[derive(Debug)]
pub enum Token {
    Comma,
    Colon,
    OpenBracket,
    CloseBracket,
    OpenBrace,
    CloseBrace,
    Null,
    True,
    False,
    Number(Vec<u8>),
    Str(Vec<u8>),
    Unknown,
}

/// A token as bytes.
pub enum Tok {
    Comma,
    Colon,
    OpenBracket,
    CloseBracket,
    OpenBrace,
    CloseBrace,
    Null,
    True,
    False,
    Number(Seq<u8>),
    Str(Seq<u8>),
    Unknown,
}

/// The token's bytes.
pub open spec fn tok_of(t: Token) -> Tok {
    match t {
        Token::Comma => Tok::Comma,
        Token::Colon => Tok::Colon,
        Token::OpenBracket => Tok::OpenBracket,
        Token::CloseBracket => Tok::CloseBracket,
        Token::OpenBrace => Tok::OpenBrace,
        Token::CloseBrace => Tok::CloseBrace,
        Token::Null => Tok::Null,
        Token::True => Tok::True,
        Token::False => Tok::False,
        Token::Number(d) => Tok::Number(d@),
        Token::Str(s) => Tok::Str(s@),
        Token::Unknown => Tok::Unknown,
    }
}

/// ASCII white space: space, tab, line feed, form feed, carriage return.
pub open spec fn is_ws(c: u8) -> bool {
    c == 0x20 || c == 0x09 || c == 0x0a || c == 0x0c || c == 0x0d
}

/// An ASCII digit.
pub open spec fn is_digit(c: u8) -> bool {
    0x30 <= c && c <= 0x39
}

/// The first byte at or after `i` that is not white space.
pub open spec fn skip_ws(b: Seq<u8>, i: int) -> int
    decreases b.len() - i,
{
    if 0 <= i < b.len() && is_ws(b[i]) {
        skip_ws(b, i + 1)
    } else {
        i
    }
}

/// Compare the bytes from `j` with `lit` from its `k`-th byte on, stopping
/// at the first difference (that byte read) or at the end of the input
/// (taken as a match): whether they matched, and where reading stopped.
pub open spec fn exact_from(b: Seq<u8>, j: int, lit: Seq<u8>, k: int) -> (bool, int)
    decreases lit.len() - k,
{
    if k >= lit.len() || j >= b.len() {
        (true, j)
    } else if b[j] != lit[k] {
        (false, j + 1)
    } else {
        exact_from(b, j + 1, lit, k + 1)
    }
}

/// The end of the digits from `j`.
pub open spec fn digits_end(b: Seq<u8>, j: int) -> int
    decreases b.len() - j,
{
    if 0 <= j < b.len() && is_digit(b[j]) {
        digits_end(b, j + 1)
    } else {
        j
    }
}

/// Where a string from `j` ends (before its closing quote, or at the end
/// of the input); a backslash makes the byte after it plain.
pub open spec fn string_end(b: Seq<u8>, j: int, esc: bool) -> int
    decreases b.len() - j,
{
    if j < 0 || j >= b.len() {
        j
    } else if esc {
        string_end(b, j + 1, false)
    } else if b[j] == 0x5c {
        string_end(b, j + 1, true)
    } else if b[j] == 0x22 {
        j
    } else {
        string_end(b, j + 1, false)
    }
}

/// The keyword token for lead byte `c`, matched against the rest of the
/// keyword.
pub open spec fn keyword(b: Seq<u8>, p: int, lit: Seq<u8>, t: Tok) -> (Tok, int) {
    let (ok, n) = exact_from(b, p + 1, lit, 1);
    (if ok { t } else { Tok::Unknown }, n)
}

/// The token at or after `i`: its position, the token and where the next
/// one is looked for; `None` at the end of the input.
pub open spec fn token_at(b: Seq<u8>, i: int) -> Option<(int, Tok, int)> {
    let p = skip_ws(b, i);
    if p < 0 || p >= b.len() {
        None
    } else {
        let c = b[p];
        Some(
            if c == 0x2c {
                (p, Tok::Comma, p + 1)
            } else if c == 0x3a {
                (p, Tok::Colon, p + 1)
            } else if c == 0x7b {
                (p, Tok::OpenBrace, p + 1)
            } else if c == 0x7d {
                (p, Tok::CloseBrace, p + 1)
            } else if c == 0x5b {
                (p, Tok::OpenBracket, p + 1)
            } else if c == 0x5d {
                (p, Tok::CloseBracket, p + 1)
            } else if c == 0x6e {
                let (t, n) = keyword(b, p, seq![0x6eu8, 0x75u8, 0x6cu8, 0x6cu8], Tok::Null);
                (p, t, n)
            } else if c == 0x74 {
                let (t, n) = keyword(b, p, seq![0x74u8, 0x72u8, 0x75u8, 0x65u8], Tok::True);
                (p, t, n)
            } else if c == 0x66 {
                let (t, n) = keyword(b, p, seq![0x66u8, 0x61u8, 0x6cu8, 0x73u8, 0x65u8], Tok::False);
                (p, t, n)
            } else if is_digit(c) {
                let e = digits_end(b, p + 1);
                (p, Tok::Number(b.subrange(p, e)), e)
            } else if c == 0x22 {
                let e = string_end(b, p + 1, false);
                (p, Tok::Str(b.subrange(p + 1, e)), if e < b.len() { e + 1 } else { e })
            } else {
                (p, Tok::Unknown, p + 1)
            },
        )
    }
}

pub proof fn lemma_skip_ws(b: Seq<u8>, i: int)
    requires
        0 <= i,
    ensures
        i <= skip_ws(b, i),
        skip_ws(b, i) < b.len() ==> !is_ws(b[skip_ws(b, i)]),
        forall|k: int| i <= k < skip_ws(b, i) ==> is_ws(b[k]),
    decreases b.len() - i,
{
    if 0 <= i < b.len() && is_ws(b[i]) {
        lemma_skip_ws(b, i + 1);
    }
}

pub proof fn lemma_exact_from(b: Seq<u8>, j: int, lit: Seq<u8>, k: int)
    requires
        0 <= j,
    ensures
        j <= exact_from(b, j, lit, k).1 <= b.len() || exact_from(b, j, lit, k).1 == j,
    decreases lit.len() - k,
{
    if !(k >= lit.len() || j >= b.len()) && b[j] == lit[k] {
        lemma_exact_from(b, j + 1, lit, k + 1);
    }
}

pub proof fn lemma_digits_end(b: Seq<u8>, j: int)
    requires
        0 <= j,
    ensures
        j <= digits_end(b, j),
        j <= b.len() ==> digits_end(b, j) <= b.len(),
        forall|k: int| j <= k < digits_end(b, j) ==> is_digit(b[k]),
        digits_end(b, j) < b.len() ==> !is_digit(b[digits_end(b, j)]),
    decreases b.len() - j,
{
    if 0 <= j < b.len() && is_digit(b[j]) {
        lemma_digits_end(b, j + 1);
    }
}

pub proof fn lemma_string_end(b: Seq<u8>, j: int, esc: bool)
    requires
        0 <= j,
    ensures
        j <= string_end(b, j, esc),
        j <= b.len() ==> string_end(b, j, esc) <= b.len(),
    decreases b.len() - j,
{
    if 0 <= j < b.len() {
        lemma_string_end(b, j + 1, false);
        lemma_string_end(b, j + 1, true);
    }
}

/// The next token starts past `i` and reading goes on past it.
pub proof fn lemma_token_progress(b: Seq<u8>, i: int)
    requires
        0 <= i <= b.len(),
    ensures
        token_at(b, i) matches Some((p, t, n)) ==> i <= p < n <= b.len(),
{
    lemma_skip_ws(b, i);
    let p = skip_ws(b, i);
    if 0 <= p < b.len() {
        lemma_exact_from(b, p + 1, seq![0x6eu8, 0x75u8, 0x6cu8, 0x6cu8], 1);
        lemma_exact_from(b, p + 1, seq![0x74u8, 0x72u8, 0x75u8, 0x65u8], 1);
        lemma_exact_from(b, p + 1, seq![0x66u8, 0x61u8, 0x6cu8, 0x73u8, 0x65u8], 1);
        lemma_digits_end(b, p + 1);
        lemma_string_end(b, p + 1, false);
    }
}

/// The tokens of `b` from byte `i`, each with its position.
pub open spec fn tokens_from(b: Seq<u8>, i: int) -> Seq<(int, Tok)>
    decreases b.len() - i,
{
    if i < 0 || i > b.len() {
        Seq::empty()
    } else {
        match token_at(b, i) {
            None => Seq::empty(),
            Some((p, t, n)) => {
                proof {
                    lemma_token_progress(b, i);
                }
                seq![(p, t)] + tokens_from(b, n)
            },
        }
    }
}


/// The tokens with their positions, as bytes.
pub open spec fn toks_view(v: Seq<(usize, Token)>) -> Seq<(int, Tok)> {
    v.map_values(|p: (usize, Token)| (p.0 as int, tok_of(p.1)))
}

/// `skip_ws` computed.
fn skip_ws_at(b: &[u8], i: usize) -> (p: usize)
    requires
        i <= b@.len(),
    ensures
        p == skip_ws(b@, i as int),
{
    let mut p = i;
    while p < b.len() && (b[p] == 0x20 || b[p] == 0x09 || b[p] == 0x0a || b[p] == 0x0c || b[p] == 0x0d)
        invariant
            i <= p <= b@.len(),
            skip_ws(b@, i as int) == skip_ws(b@, p as int),
        decreases b@.len() - p,
    {
        p += 1;
    }
    p
}

/// `exact_from(b, j, lit, 1)` computed.
fn exact_at(b: &[u8], j: usize, lit: &Vec<u8>) -> (r: (bool, usize))
    requires
        j <= b@.len(),
    ensures
        (r.0, r.1 as int) == exact_from(b@, j as int, lit@, 1),
{
    let mut at = j;
    let mut k: usize = 1;
    while k < lit.len() && at < b.len()
        invariant
            at <= b@.len(),
            1 <= k,
            exact_from(b@, j as int, lit@, 1) == exact_from(b@, at as int, lit@, k as int),
        decreases lit@.len() - k,
    {
        if b[at] != lit[k] {
            return (false, at + 1);
        }
        at += 1;
        k += 1;
    }
    (true, at)
}

/// `digits_end` computed.
fn digits_end_at(b: &[u8], j: usize) -> (e: usize)
    requires
        j <= b@.len(),
    ensures
        e == digits_end(b@, j as int),
{
    let mut e = j;
    while e < b.len() && 0x30 <= b[e] && b[e] <= 0x39
        invariant
            j <= e <= b@.len(),
            digits_end(b@, j as int) == digits_end(b@, e as int),
        decreases b@.len() - e,
    {
        e += 1;
    }
    e
}

/// `string_end(b, j, false)` computed.
fn string_end_at(b: &[u8], j: usize) -> (e: usize)
    requires
        j <= b@.len(),
    ensures
        e == string_end(b@, j as int, false),
{
    let mut e = j;
    let mut esc = false;
    while e < b.len()
        invariant
            j <= e <= b@.len(),
            string_end(b@, j as int, false) == string_end(b@, e as int, esc),
        decreases b@.len() - e,
    {
        if esc {
            esc = false;
        } else if b[e] == 0x5c {
            esc = true;
        } else if b[e] == 0x22 {
            return e;
        }
        e += 1;
    }
    e
}

/// The bytes `b[a..e]`.
fn bytes_between(b: &[u8], a: usize, e: usize) -> (r: Vec<u8>)
    requires
        a <= e <= b@.len(),
    ensures
        r@ == b@.subrange(a as int, e as int),
{
    let mut r: Vec<u8> = Vec::new();
    let mut i = a;
    while i < e
        invariant
            a <= i <= e <= b@.len(),
            r@ == b@.subrange(a as int, i as int),
        decreases e - i,
    {
        r.push(b[i]);
        assert(b@.subrange(a as int, i + 1) =~= b@.subrange(a as int, i as int).push(b@[i as int]));
        i += 1;
    }
    r
}

/// The bytes of a keyword.
fn word(a: u8, b: u8, c: u8, d: u8, e: Option<u8>) -> (r: Vec<u8>)
    ensures
        r@ == (match e {
            Some(x) => seq![a, b, c, d, x],
            None => seq![a, b, c, d],
        }),
{
    let mut r: Vec<u8> = Vec::new();
    r.push(a);
    r.push(b);
    r.push(c);
    r.push(d);
    if let Some(x) = e {
        r.push(x);
    }
    assert(r@ =~= (match e {
        Some(x) => seq![a, b, c, d, x],
        None => seq![a, b, c, d],
    }));
    r
}

/// The token at or after `i` (see `token_at`).
fn token_from(b: &[u8], i: usize) -> (r: Option<(usize, Token, usize)>)
    requires
        i <= b@.len(),
    ensures
        match r {
            None => token_at(b@, i as int) is None,
            Some((p, t, n)) => token_at(b@, i as int) == Some((p as int, tok_of(t), n as int)),
        },
{
    proof {
        lemma_token_progress(b@, i as int);
        lemma_skip_ws(b@, i as int);
    }
    let p = skip_ws_at(b, i);
    if p >= b.len() {
        return None;
    }
    let c = b[p];
    let (t, n) = if c == 0x2c {
        (Token::Comma, p + 1)
    } else if c == 0x3a {
        (Token::Colon, p + 1)
    } else if c == 0x7b {
        (Token::OpenBrace, p + 1)
    } else if c == 0x7d {
        (Token::CloseBrace, p + 1)
    } else if c == 0x5b {
        (Token::OpenBracket, p + 1)
    } else if c == 0x5d {
        (Token::CloseBracket, p + 1)
    } else if c == 0x6e {
        let (ok, n) = exact_at(b, p + 1, &word(0x6e, 0x75, 0x6c, 0x6c, None));
        (if ok { Token::Null } else { Token::Unknown }, n)
    } else if c == 0x74 {
        let (ok, n) = exact_at(b, p + 1, &word(0x74, 0x72, 0x75, 0x65, None));
        (if ok { Token::True } else { Token::Unknown }, n)
    } else if c == 0x66 {
        let (ok, n) = exact_at(b, p + 1, &word(0x66, 0x61, 0x6c, 0x73, Some(0x65)));
        (if ok { Token::False } else { Token::Unknown }, n)
    } else if 0x30 <= c && c <= 0x39 {
        proof {
            lemma_digits_end(b@, p + 1);
        }
        let e = digits_end_at(b, p + 1);
        (Token::Number(bytes_between(b, p, e)), e)
    } else if c == 0x22 {
        proof {
            lemma_string_end(b@, p + 1, false);
        }
        let e = string_end_at(b, p + 1);
        (Token::Str(bytes_between(b, p + 1, e)), if e < b.len() { e + 1 } else { e })
    } else {
        (Token::Unknown, p + 1)
    };
    Some((p, t, n))
}

/// The tokens of `b` with their positions (see `tokens_from`).
pub fn lex(b: &[u8]) -> (r: Vec<(usize, Token)>)
    ensures
        toks_view(r@) == tokens_from(b@, 0),
{
    let mut r: Vec<(usize, Token)> = Vec::new();
    let mut i: usize = 0;
    loop
        invariant
            i <= b@.len(),
            toks_view(r@) + tokens_from(b@, i as int) == tokens_from(b@, 0),
        decreases b@.len() - i,
    {
        match token_from(b, i) {
            None => {
                assert(toks_view(r@) =~= toks_view(r@) + tokens_from(b@, i as int));
                return r;
            },
            Some((p, t, n)) => {
                proof {
                    lemma_token_progress(b@, i as int);
                }
                let ghost before = r@;
                r.push((p, t));
                proof {
                    assert(toks_view(r@) =~= toks_view(before).push((p as int, tok_of(r@.last().1))));
                    assert(tokens_from(b@, i as int) == seq![(p as int, tok_of(r@.last().1))] + tokens_from(b@, n as int));
                    assert(toks_view(r@) + tokens_from(b@, n as int) =~= toks_view(before) + tokens_from(b@, i as int));
                }
                i = n;
            },
        }
    }
}


/// A JSON value, numbers kept as written.
#[derive(Debug)]
pub enum Value {
    Null,
    Boolean(bool),
    Number(String),
    String(String),
    Array(Vec<Value>),
    Object(Vec<(String, Value)>),
}

/// A JSON value, its text as characters.
pub enum JVal {
    Null,
    Boolean(bool),
    Number(Seq<char>),
    Str(Seq<char>),
    Array(Seq<JVal>),
    Object(Seq<(Seq<char>, JVal)>),
}

/// The value as characters.
pub open spec fn jval(v: Value) -> JVal
    decreases v, 1int,
{
    match v {
        Value::Null => JVal::Null,
        Value::Boolean(b) => JVal::Boolean(b),
        Value::Number(n) => JVal::Number(n@),
        Value::String(t) => JVal::Str(t@),
        Value::Array(a) => JVal::Array(jvals(a@)),
        Value::Object(o) => JVal::Object(jentries(o@)),
    }
}

/// The values as characters.
pub open spec fn jvals(s: Seq<Value>) -> Seq<JVal>
    decreases s, 0int,
{
    if s.len() == 0 {
        Seq::empty()
    } else {
        jvals(s.drop_last()).push(jval(s.last()))
    }
}

/// The members as characters.
pub open spec fn jentries(s: Seq<(String, Value)>) -> Seq<(Seq<char>, JVal)>
    decreases s, 0int,
{
    if s.len() == 0 {
        Seq::empty()
    } else {
        jentries(s.drop_last()).push((s.last().0@, jval(s.last().1)))
    }
}

/// A container being read: an array with its items so far, or an object
/// with its members so far and the key of the member being read.
pub enum Frame {
    Arr(Seq<JVal>),
    Obj(Seq<(Seq<char>, JVal)>, Seq<char>),
}

/// What the reader expects next: a value; a value or `]` (just after
/// `[`); `,` or `]`; a key or `}` (just after `{`); a key; `:`; `,` or `}`.
#[derive(Clone, Copy, PartialEq, Eq, Structural)]
pub enum Mode {
    Value,
    ArrStart,
    ArrNext,
    ObjStart,
    ObjKey,
    ObjColon,
    ObjNext,
}

/// The outcome of reading a token.
pub enum Step {
    Next(Mode, Seq<Frame>),
    Done(JVal),
    Bad,
}

/// The outcome of reading JSON text: a value, the position of the token
/// where it went wrong (the largest `usize` when the text ended too soon),
/// or a string token that is not UTF-8 reached (where reading stops short).
pub enum Parsed {
    Done(JVal),
    Fail(int),
    Stuck,
}

/// The value `v` is complete: the whole text when nothing is open, else an
/// item or a member of the innermost container.
pub open spec fn finish(stack: Seq<Frame>, v: JVal) -> Step {
    if stack.len() == 0 {
        Step::Done(v)
    } else {
        match stack.last() {
            Frame::Arr(items) => Step::Next(Mode::ArrNext, stack.drop_last().push(Frame::Arr(items.push(v)))),
            Frame::Obj(es, key) => Step::Next(Mode::ObjNext, stack.drop_last().push(Frame::Obj(es.push((key, v)), key))),
        }
    }
}

/// The value a token stands for by itself.
pub open spec fn scalar(t: Tok) -> Option<JVal> {
    match t {
        Tok::Null => Some(JVal::Null),
        Tok::True => Some(JVal::Boolean(true)),
        Tok::False => Some(JVal::Boolean(false)),
        Tok::Number(d) => Some(JVal::Number(decode_utf8(d))),
        Tok::Str(t) => Some(JVal::Str(decode_utf8(t))),
        _ => None,
    }
}

/// Close the innermost container, an array.
pub open spec fn close_arr(stack: Seq<Frame>) -> Step {
    if stack.len() > 0 && stack.last() is Arr {
        finish(stack.drop_last(), JVal::Array(stack.last()->Arr_0))
    } else {
        Step::Bad
    }
}

/// Close the innermost container, an object.
pub open spec fn close_obj(stack: Seq<Frame>) -> Step {
    if stack.len() > 0 && stack.last() is Obj {
        finish(stack.drop_last(), JVal::Object(stack.last()->Obj_0))
    } else {
        Step::Bad
    }
}

/// Take `k` as the key of the member being read.
pub open spec fn set_key(stack: Seq<Frame>, k: Seq<u8>) -> Step {
    if stack.len() > 0 && stack.last() is Obj {
        Step::Next(Mode::ObjColon, stack.drop_last().push(Frame::Obj(stack.last()->Obj_0, decode_utf8(k))))
    } else {
        Step::Bad
    }
}

/// Reading token `t` in `mode` with the containers `stack` open.
pub open spec fn step(mode: Mode, stack: Seq<Frame>, t: Tok) -> Step {
    match mode {
        Mode::Value | Mode::ArrStart => if mode is ArrStart && t is CloseBracket {
            close_arr(stack)
        } else {
            match t {
                Tok::OpenBracket => Step::Next(Mode::ArrStart, stack.push(Frame::Arr(Seq::empty()))),
                Tok::OpenBrace => Step::Next(Mode::ObjStart, stack.push(Frame::Obj(Seq::empty(), Seq::empty()))),
                _ => match scalar(t) {
                    Some(v) => finish(stack, v),
                    None => Step::Bad,
                },
            }
        },
        Mode::ArrNext => match t {
            Tok::Comma => Step::Next(Mode::Value, stack),
            Tok::CloseBracket => close_arr(stack),
            _ => Step::Bad,
        },
        Mode::ObjStart => match t {
            Tok::CloseBrace => close_obj(stack),
            Tok::Str(k) => set_key(stack, k),
            _ => Step::Bad,
        },
        Mode::ObjKey => match t {
            Tok::Str(k) => set_key(stack, k),
            _ => Step::Bad,
        },
        Mode::ObjColon => match t {
            Tok::Colon => Step::Next(Mode::Value, stack),
            _ => Step::Bad,
        },
        Mode::ObjNext => match t {
            Tok::Comma => Step::Next(Mode::ObjKey, stack),
            Tok::CloseBrace => close_obj(stack),
            _ => Step::Bad,
        },
    }
}

/// Whether reading token `t` stops short: a string or number whose bytes
/// are not UTF-8.
pub open spec fn stuck_on(t: Tok) -> bool {
    match t {
        Tok::Str(b) => !valid_utf8(b),
        Tok::Number(b) => !valid_utf8(b),
        _ => false,
    }
}

/// Reading the tokens from the `i`-th on, in `mode` with `stack` open.
pub open spec fn run(toks: Seq<(int, Tok)>, i: int, mode: Mode, stack: Seq<Frame>) -> Parsed
    decreases toks.len() - i,
{
    if i < 0 || i >= toks.len() {
        Parsed::Fail(usize::MAX as int)
    } else if stuck_on(toks[i].1) {
        Parsed::Stuck
    } else {
        match step(mode, stack, toks[i].1) {
            Step::Next(m, st) => run(toks, i + 1, m, st),
            Step::Done(v) => Parsed::Done(v),
            Step::Bad => Parsed::Fail(toks[i].0),
        }
    }
}

/// What the JSON text `b` reads as: its first value (the rest is not
/// looked at).
pub open spec fn parse_json(b: Seq<u8>) -> Parsed {
    run(tokens_from(b, 0), 0, Mode::Value, Seq::empty())
}


/// ASCII bytes are UTF-8.
proof fn lemma_ascii_valid(b: Seq<u8>)
    requires
        forall|i: int| 0 <= i < b.len() ==> b[i] < 0x80,
    ensures
        valid_utf8(b),
    decreases b.len(),
{
    if b.len() > 0 {
        assert(vstd::utf8::valid_first_scalar(b));
        assert(vstd::utf8::pop_first_scalar(b) =~= b.drop_first());
        lemma_ascii_valid(b.drop_first());
    }
}


/// A container being read (see `Frame`).
enum Open {
    Arr(Vec<Value>),
    Obj(Vec<(String, Value)>, String),
}

/// The container as characters.
spec fn open_view(f: Open) -> Frame {
    match f {
        Open::Arr(items) => Frame::Arr(jvals(items@)),
        Open::Obj(es, key) => Frame::Obj(jentries(es@), key@),
    }
}

/// The containers as characters.
spec fn opens_view(s: Seq<Open>) -> Seq<Frame> {
    s.map_values(|f: Open| open_view(f))
}

/// The text of UTF-8 bytes.
fn text_of(b: &Vec<u8>) -> (s: String)
    requires
        valid_utf8(b@),
    ensures
        s@ == decode_utf8(b@),
{
    match str_from_utf8(b.as_slice()) {
        Some(t) => String::from_str(t),
        None => vstd::pervasive::unreached(),
    }
}

/// The value a token stands for by itself (see `scalar`).
fn scalar_value(t: &Token) -> (r: Option<Value>)
    requires
        !stuck_on(tok_of(*t)),
    ensures
        match scalar(tok_of(*t)) {
            Some(v) => r matches Some(x) && jval(x) == v,
            None => r is None,
        },
{
    match t {
        Token::Null => Some(Value::Null),
        Token::True => Some(Value::Boolean(true)),
        Token::False => Some(Value::Boolean(false)),
        Token::Number(d) => Some(Value::Number(text_of(d))),
        Token::Str(b) => Some(Value::String(text_of(b))),
        _ => None,
    }
}

/// The value `v` is complete (see `finish`): `Some` when it is the whole
/// text, else it went into the innermost container.
fn finish_value(stack: &mut Vec<Open>, v: Value) -> (r: Option<Value>)
    ensures
        match finish(opens_view(old(stack)@), jval(v)) {
            Step::Done(w) => r matches Some(x) && jval(x) == w && final(stack)@ == old(stack)@,
            Step::Next(m, st) => r is None && opens_view(final(stack)@) == st && final(stack)@.len()
                == old(stack)@.len() && final(stack)@.len() > 0 && (m is ArrNext <==> final(stack)@.last() is Arr)
                && (m is ArrNext || m is ObjNext),
            Step::Bad => false,
        },
{
    let ghost sv = opens_view(stack@);
    match stack.pop() {
        None => {
            Some(v)
        },
        Some(top) => {
            proof {
                assert(opens_view(stack@) =~= sv.drop_last());
            }
            let ghost before = stack@;
            match top {
                Open::Arr(mut items) => {
                    let ghost iv = items@;
                    items.push(v);
                    assert(items@.drop_last() =~= iv);
                    stack.push(Open::Arr(items));
                },
                Open::Obj(mut es, key) => {
                    let ghost ev = es@;
                    let k2 = key.clone();
                    es.push((key, v));
                    assert(es@.drop_last() =~= ev);
                    stack.push(Open::Obj(es, k2));
                },
            }
            proof {
                assert(opens_view(stack@) =~= opens_view(before).push(open_view(stack@.last())));
            }
            None
        },
    }
}

/// What reading a token led to: go on in a mode, a whole value, or an
/// error.
enum Went {
    On(Mode),
    Whole(Value),
    Wrong,
}

/// Read token `t` in `mode` (see `step`).
fn step_on(mode: Mode, stack: &mut Vec<Open>, t: &Token) -> (r: Went)
    requires
        !stuck_on(tok_of(*t)),
    ensures
        match step(mode, opens_view(old(stack)@), tok_of(*t)) {
            Step::Next(m, st) => r == Went::On(m) && opens_view(final(stack)@) == st,
            Step::Done(w) => r matches Went::Whole(x) && jval(x) == w,
            Step::Bad => r is Wrong,
        },
{
    let ghost sv = opens_view(stack@);
    let close_arr_now = match mode {
        Mode::ArrStart | Mode::ArrNext => match t {
            Token::CloseBracket => true,
            _ => false,
        },
        _ => false,
    };
    let close_obj_now = match mode {
        Mode::ObjStart | Mode::ObjNext => match t {
            Token::CloseBrace => true,
            _ => false,
        },
        _ => false,
    };
    if close_arr_now || close_obj_now {
        let n = stack.len();
        if n == 0 {
            return Went::Wrong;
        }
        let is_arr = match &stack[n - 1] {
            Open::Arr(_) => true,
            Open::Obj(_, _) => false,
        };
        if is_arr != close_arr_now {
            return Went::Wrong;
        }
        let v = match stack.pop() {
            Some(Open::Arr(items)) => Value::Array(items),
            Some(Open::Obj(es, _)) => Value::Object(es),
            None => vstd::pervasive::unreached(),
        };
        proof {
            assert(opens_view(stack@) =~= sv.drop_last());
        }
        return match finish_value(stack, v) {
            Some(w) => Went::Whole(w),
            None => Went::On(if stack.len() > 0 {
                match &stack[stack.len() - 1] {
                    Open::Arr(_) => Mode::ArrNext,
                    Open::Obj(_, _) => Mode::ObjNext,
                }
            } else {
                Mode::Value
            }),
        };
    }
    match mode {
        Mode::Value | Mode::ArrStart => {
            match t {
                Token::OpenBracket => {
                    stack.push(Open::Arr(Vec::new()));
                    assert(opens_view(stack@) =~= sv.push(Frame::Arr(Seq::empty())));
                    Went::On(Mode::ArrStart)
                },
                Token::OpenBrace => {
                    stack.push(Open::Obj(Vec::new(), String::new()));
                    assert(opens_view(stack@) =~= sv.push(Frame::Obj(Seq::empty(), Seq::empty())));
                    Went::On(Mode::ObjStart)
                },
                _ => match scalar_value(t) {
                    Some(v) => match finish_value(stack, v) {
                        Some(w) => Went::Whole(w),
                        None => Went::On(match &stack[stack.len() - 1] {
                            Open::Arr(_) => Mode::ArrNext,
                            Open::Obj(_, _) => Mode::ObjNext,
                        }),
                    },
                    None => Went::Wrong,
                },
            }
        },
        Mode::ArrNext => match t {
            Token::Comma => Went::On(Mode::Value),
            _ => Went::Wrong,
        },
        Mode::ObjStart | Mode::ObjKey => match t {
            Token::Str(k) => {
                let n = stack.len();
                if n == 0 {
                    return Went::Wrong;
                }
                match stack.pop() {
                    Some(Open::Obj(es, _)) => {
                        let key = text_of(k);
                        stack.push(Open::Obj(es, key));
                        proof {
                            assert(opens_view(stack@) =~= sv.drop_last().push(open_view(stack@.last())));
                        }
                        Went::On(Mode::ObjColon)
                    },
                    Some(other) => {
                        stack.push(other);
                        Went::Wrong
                    },
                    None => vstd::pervasive::unreached(),
                }
            },
            _ => Went::Wrong,
        },
        Mode::ObjColon => match t {
            Token::Colon => Went::On(Mode::Value),
            _ => Went::Wrong,
        },
        Mode::ObjNext => match t {
            Token::Comma => Went::On(Mode::ObjKey),
            _ => Went::Wrong,
        },
    }
}


/// Whether reading the token stops short (see `stuck_on`).
fn stuck_token(t: &Token) -> (r: bool)
    ensures
        r == stuck_on(tok_of(*t)),
{
    match t {
        Token::Str(b) => str_from_utf8(b.as_slice()).is_none(),
        Token::Number(b) => str_from_utf8(b.as_slice()).is_none(),
        _ => false,
    }
}

/// Read the tokens (see `run`): `None` where reading stops short.
fn read_tokens(toks: &Vec<(usize, Token)>) -> (r: Option<Result<Value, usize>>)
    ensures
        match run(toks_view(toks@), 0, Mode::Value, Seq::empty()) {
            Parsed::Done(v) => r matches Some(Ok(x)) && jval(x) == v,
            Parsed::Fail(p) => r == Some(Err::<Value, usize>(p as usize)),
            Parsed::Stuck => r is None,
        },
{
    let ghost tv = toks_view(toks@);
    let mut stack: Vec<Open> = Vec::new();
    let mut mode = Mode::Value;
    let mut i: usize = 0;
    assert(opens_view(stack@) =~= Seq::<Frame>::empty());
    loop
        invariant
            tv == toks_view(toks@),
            i <= toks@.len(),
            run(tv, i as int, mode, opens_view(stack@)) == run(tv, 0, Mode::Value, Seq::empty()),
        decreases toks@.len() - i,
    {
        if i >= toks.len() {
            return Some(Err(usize::MAX));
        }
        let t = &toks[i].1;
        let pos = toks[i].0;
        assert(tv[i as int] == (pos as int, tok_of(*t)));
        if stuck_token(t) {
            return None;
        }
        match step_on(mode, &mut stack, t) {
            Went::On(m) => {
                mode = m;
                i += 1;
            },
            Went::Whole(v) => {
                return Some(Ok(v));
            },
            Went::Wrong => {
                return Some(Err(pos));
            },
        }
    }
}

/// Read the first JSON value of the tokens (see `run`): the value, or the
/// position of the token where it went wrong (the largest `usize` when they
/// end too soon).
pub fn parse(toks: &Vec<(usize, Token)>) -> (r: Result<Value, usize>)
    requires
        !(run(toks_view(toks@), 0, Mode::Value, Seq::empty()) is Stuck),
    ensures
        match run(toks_view(toks@), 0, Mode::Value, Seq::empty()) {
            Parsed::Done(v) => r matches Ok(x) && jval(x) == v,
            Parsed::Fail(p) => r == Err::<Value, usize>(p as usize),
            Parsed::Stuck => true,
        },
{
    match read_tokens(toks) {
        Some(r) => r,
        None => vstd::pervasive::unreached(),
    }
}

/// A JSON document: its first value.
pub struct Json2(pub Value);

impl Json2 {
    /// Read the JSON text `b` (see `parse_json`): the document, or the
    /// position of the token where it went wrong.
    pub fn new(b: &[u8]) -> (r: Result<Json2, usize>)
        requires
            !(parse_json(b@) is Stuck),
        ensures
            match parse_json(b@) {
                Parsed::Done(v) => r matches Ok(j) && jval(j.0) == v,
                Parsed::Fail(p) => r == Err::<Json2, usize>(p as usize),
                Parsed::Stuck => true,
            },
    {
        let toks = lex(b);
        match parse(&toks) {
            Ok(v) => Ok(Json2(v)),
            Err(p) => Err(p),
        }
    }

    /// `new` for any text: `None` where reading would stop short on a
    /// string that is not UTF-8.
    pub fn try_new(b: &[u8]) -> (r: Option<Result<Json2, usize>>)
        ensures
            match parse_json(b@) {
                Parsed::Done(v) => r matches Some(Ok(j)) && jval(j.0) == v,
                Parsed::Fail(p) => r == Some(Err::<Json2, usize>(p as usize)),
                Parsed::Stuck => r is None,
            },
    {
        let toks = lex(b);
        match read_tokens(&toks) {
            Some(Ok(v)) => Some(Ok(Json2(v))),
            Some(Err(p)) => Some(Err(p)),
            None => None,
        }
    }
}


/// Where a node stands in a JSON document: the root, an item of an array,
/// a member of an object.
pub enum Index {
    Root,
    Index(usize),
    Key(String),
}

/// An ASCII letter.
pub open spec fn is_alpha(c: char) -> bool {
    ('a' <= c && c <= 'z') || ('A' <= c && c <= 'Z')
}

/// A key that can follow a dot: a letter or `_`, then letters, digits and
/// `_`.
pub open spec fn ident_like(k: Seq<char>) -> bool {
    &&& k.len() > 0
    &&& (is_alpha(k[0]) || k[0] == '_')
    &&& forall|i: int| 0 <= i < k.len() ==> (is_alpha(#[trigger] k[i]) || ('0' <= k[i] && k[i] <= '9') || k[i] == '_')
}

/// How an index is written in a path: `$`, `[n]`, `.key` or `['key']`.
pub open spec fn index_text(ix: Index) -> Seq<char> {
    match ix {
        Index::Root => seq!['$'],
        Index::Index(n) => seq!['['] + dec(n as nat) + seq![']'],
        Index::Key(k) => if ident_like(k@) {
            seq!['.'] + k@
        } else {
            seq!['[', '\''] + k@ + seq!['\'', ']']
        },
    }
}

impl Index {
    /// How the index is written in a path (see `index_text`).
    pub fn to_string(&self) -> (s: String)
        requires
            *self matches Index::Key(k) ==> k@.len() > 0,
        ensures
            s@ == index_text(*self),
    {
        let mut out: Vec<char> = Vec::new();
        match self {
            Index::Root => {
                out.push('$');
            },
            Index::Index(n) => {
                out.push('[');
                push_dec(&mut out, *n);
                out.push(']');
            },
            Index::Key(k) => {
                let cs = chars_of(k.as_str());
                let mut ok = ('a' <= cs[0] && cs[0] <= 'z') || ('A' <= cs[0] && cs[0] <= 'Z') || cs[0] == '_';
                let mut i: usize = 0;
                while i < cs.len()
                    invariant
                        0 <= i <= cs@.len(),
                        cs@ == k@,
                        cs@.len() > 0,
                        ok == ((is_alpha(cs@[0]) || cs@[0] == '_') && forall|j: int| 0 <= j < i ==> (is_alpha(
                            #[trigger] cs@[j],
                        ) || ('0' <= cs@[j] && cs@[j] <= '9') || cs@[j] == '_')),
                    decreases cs@.len() - i,
                {
                    let c = cs[i];
                    if !(('a' <= c && c <= 'z') || ('A' <= c && c <= 'Z') || ('0' <= c && c <= '9') || c == '_') {
                        ok = false;
                    }
                    i += 1;
                }
                if ok {
                    out.push('.');
                    push_chars(&mut out, cs.as_slice());
                } else {
                    out.push('[');
                    out.push('\'');
                    push_chars(&mut out, cs.as_slice());
                    out.push('\'');
                    out.push(']');
                }
            },
        }
        assert(out@ =~= index_text(*self));
        string_of(out.as_slice())
    }
}


impl Value {
    /// The children of a value with their indices: the items of an array,
    /// the members of an object, none for the others.
    pub fn children(&self) -> (r: Vec<(Index, &Value)>)
        ensures
            match *self {
                Value::Array(a) => r@.len() == a@.len() && forall|k: int| 0 <= k < a@.len() ==> (#[trigger] r@[k]).0
                    == Index::Index(k as usize) && *r@[k].1 == a@[k],
                Value::Object(o) => r@.len() == o@.len() && forall|k: int| 0 <= k < o@.len() ==> ((#[trigger] r@[k]).0
                    matches Index::Key(key) && key@ == o@[k].0@ && *r@[k].1 == o@[k].1),
                _ => r@.len() == 0,
            },
    {
        let mut r: Vec<(Index, &Value)> = Vec::new();
        match self {
            Value::Array(a) => {
                let mut k: usize = 0;
                while k < a.len()
                    invariant
                        0 <= k <= a@.len(),
                        r@.len() == k,
                        forall|j: int| 0 <= j < k ==> (#[trigger] r@[j]).0 == Index::Index(j as usize) && *r@[j].1
                            == a@[j],
                    decreases a@.len() - k,
                {
                    r.push((Index::Index(k), &a[k]));
                    k += 1;
                }
            },
            Value::Object(o) => {
                let mut k: usize = 0;
                while k < o.len()
                    invariant
                        0 <= k <= o@.len(),
                        r@.len() == k,
                        forall|j: int| 0 <= j < k ==> ((#[trigger] r@[j]).0 matches Index::Key(key) && key@
                            == o@[j].0@ && *r@[j].1 == o@[j].1),
                    decreases o@.len() - k,
                {
                    let key = o[k].0.clone();
                    r.push((Index::Key(key), &o[k].1));
                    k += 1;
                }
            },
            _ => {},
        }
        r
    }
}

} // verus!
