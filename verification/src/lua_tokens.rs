use vstd::prelude::*;
use vstd::utf8::{encode_scalar, encode_utf8};
use crate::prompt::{PromptSplitInfo, opt_int, strings_view};
use crate::text::{
    chars_of, is_alphanumeric, is_whitespace, is_whitespace_spec, string_of, unicode_alphanumeric,
};

verus! {

broadcast use vstd::utf8::char_is_scalar;

/// `pat` occurs in `cs` at index `h`.
pub open spec fn starts_at(cs: Seq<char>, h: int, pat: Seq<char>) -> bool {
    0 <= h && h + pat.len() <= cs.len() && cs.subrange(h, h + pat.len()) == pat
}

/// The Lua keywords, in the order they are tried.
pub open spec fn lua_keywords() -> Seq<Seq<char>> {
    seq![
        seq!['a', 'n', 'd'],
        seq!['b', 'r', 'e', 'a', 'k'],
        seq!['d', 'o'],
        seq!['e', 'l', 's', 'e', 'i', 'f'],
        seq!['e', 'l', 's', 'e'],
        seq!['e', 'n', 'd'],
        seq!['f', 'a', 'l', 's', 'e'],
        seq!['f', 'o', 'r'],
        seq!['f', 'u', 'n', 'c', 't', 'i', 'o', 'n'],
        seq!['i', 'f'],
        seq!['i', 'n'],
        seq!['l', 'o', 'c', 'a', 'l'],
        seq!['n', 'i', 'l'],
        seq!['n', 'o', 't'],
        seq!['o', 'r'],
        seq!['r', 'e', 'p', 'e', 'a', 't'],
        seq!['r', 'e', 't', 'u', 'r', 'n'],
        seq!['t', 'h', 'e', 'n'],
        seq!['t', 'r', 'u', 'e'],
        seq!['u', 'n', 't', 'i', 'l'],
        seq!['w', 'h', 'i', 'l', 'e'],
    ]
}

/// Length of the first keyword (from the `i`-th on) found at `h`; 0 if none.
pub open spec fn keyword_len(cs: Seq<char>, h: int, i: int) -> int
    decreases lua_keywords().len() - i,
{
    if i < 0 || i >= lua_keywords().len() {
        0
    } else if starts_at(cs, h, lua_keywords()[i]) {
        lua_keywords()[i].len() as int
    } else {
        keyword_len(cs, h, i + 1)
    }
}

/// First index from `from` on where `pat` occurs.
pub open spec fn find_seq(cs: Seq<char>, from: int, pat: Seq<char>) -> Option<int>
    decreases cs.len() - from,
{
    if from < 0 || from + pat.len() > cs.len() || from >= cs.len() {
        None
    } else if starts_at(cs, from, pat) {
        Some(from)
    } else {
        find_seq(cs, from + 1, pat)
    }
}

/// First index from `from` on that holds `c`.
pub open spec fn find_char(cs: Seq<char>, from: int, c: char) -> Option<int>
    decreases cs.len() - from,
{
    if from < 0 || from >= cs.len() {
        None
    } else if cs[from] == c {
        Some(from)
    } else {
        find_char(cs, from + 1, c)
    }
}

/// Number of `c` in a row from `from` on.
pub open spec fn run_of(cs: Seq<char>, from: int, c: char) -> int
    decreases cs.len() - from,
{
    if from < 0 || from >= cs.len() || cs[from] != c {
        0
    } else {
        1 + run_of(cs, from + 1, c)
    }
}

/// States of the number scanner.
#[derive(Clone, Copy, PartialEq, Eq, Structural)]
pub enum NumState {
    Integral,
    Fractional,
    ExponentSign,
    Exponent,
    Hexadecimal,
}

/// Whether `c` is an ASCII decimal digit.
pub open spec fn is_digit(c: char) -> bool {
    '0' <= c && c <= '9'
}

/// Whether `c` is an ASCII hexadecimal digit.
pub open spec fn is_hex(c: char) -> bool {
    is_digit(c) || ('a' <= c && c <= 'f') || ('A' <= c && c <= 'F')
}

/// The number scanner's next state on `c`, or `None` where the number ends.
pub open spec fn num_next(st: NumState, c: char, ox: bool) -> Option<NumState> {
    if st == NumState::Integral && c == '.' {
        Some(NumState::Fractional)
    } else if ((st == NumState::Integral || st == NumState::Fractional) && c == 'e') || (st
        == NumState::Hexadecimal && c == 'p') {
        Some(NumState::ExponentSign)
    } else if st == NumState::ExponentSign && (c == '-' || is_digit(c)) {
        Some(NumState::Exponent)
    } else if st == NumState::Integral && c == 'x' && ox {
        Some(NumState::Hexadecimal)
    } else if (st == NumState::Integral || st == NumState::Fractional || st
        == NumState::Exponent) && is_digit(c) {
        Some(st)
    } else if st == NumState::Hexadecimal && is_hex(c) {
        Some(st)
    } else {
        None
    }
}

/// Where a number read from `i` (in state `st`) ends.
pub open spec fn num_end(cs: Seq<char>, i: int, st: NumState, ox: bool) -> int
    decreases cs.len() - i,
{
    if i < 0 || i >= cs.len() {
        cs.len() as int
    } else {
        match num_next(st, cs[i], ox) {
            Some(n) => num_end(cs, i + 1, n, ox),
            None => i,
        }
    }
}

/// Whether `c` is one of the single-character Lua punctuation tokens.
pub open spec fn is_punct(c: char) -> bool {
    c == '+' || c == '-' || c == '*' || c == '/' || c == '%' || c == '^' || c == '#' || c == '<'
        || c == '>' || c == '=' || c == '(' || c == ')' || c == '{' || c == '}' || c == '['
        || c == ']' || c == ';' || c == ':' || c == ',' || c == '.'
}

/// The bytes that, when a character's low byte is one of them, end a run of
/// unexpected characters.
pub open spec fn stop_byte(b: u32) -> bool {
    b == '#' as u32 || b == '(' as u32 || b == ')' as u32 || b == '*' as u32 || b == '+' as u32
        || b == ',' as u32 || b == '-' as u32 || b == '.' as u32 || b == '/' as u32 || (
    '0' as u32 <= b && b <= '9' as u32) || b == ':' as u32 || b == ';' as u32 || b == '<' as u32
        || b == '=' as u32 || b == '>' as u32 || b == '[' as u32 || b == ']' as u32 || b == '^' as u32
        || b == '_' as u32 || b == '{' as u32 || b == '}' as u32 || b == '~' as u32
}

/// First index from `from` on where a word (letters, digits, `_`) stops.
pub open spec fn word_stop(cs: Seq<char>, from: int) -> Option<int>
    decreases cs.len() - from,
{
    if from < 0 || from >= cs.len() {
        None
    } else if cs[from] != '_' && !unicode_alphanumeric(cs[from]) {
        Some(from)
    } else {
        word_stop(cs, from + 1)
    }
}

/// First index from `from` on where a run of unexpected characters stops.
pub open spec fn junk_stop(cs: Seq<char>, from: int) -> Option<int>
    decreases cs.len() - from,
{
    if from < 0 || from >= cs.len() {
        None
    } else if stop_byte((cs[from] as u32) % 256) || unicode_alphanumeric(cs[from]) {
        Some(from)
    } else {
        junk_stop(cs, from + 1)
    }
}

/// Where a string literal quoted by `q` ends, looking from `i` (just past
/// the opening quote): just past the first `q` not escaped by a backslash,
/// or the end of the line when it is never closed.
pub open spec fn string_end(cs: Seq<char>, i: int, q: char) -> int
    decreases cs.len() + 1 - i,
{
    if i < 0 || i >= cs.len() {
        cs.len() as int
    } else if cs[i] == '\\' {
        string_end(cs, i + 2, q)
    } else if cs[i] == q {
        i + 1
    } else {
        string_end(cs, i + 1, q)
    }
}

/// `--` comment from `head`: up to and including the next newline, or to
/// the end of the line.
pub open spec fn comment_end(cs: Seq<char>, head: int) -> int {
    match find_char(cs, head, '\n') {
        Some(nl) => nl + 1,
        None => cs.len() as int,
    }
}

proof fn lemma_keyword_len(cs: Seq<char>, h: int, i: int)
    ensures
        keyword_len(cs, h, i) > 0 ==> h + keyword_len(cs, h, i) <= cs.len(),
        keyword_len(cs, h, i) >= 0,
    decreases lua_keywords().len() - i,
{
    if 0 <= i < lua_keywords().len() && !starts_at(cs, h, lua_keywords()[i]) {
        lemma_keyword_len(cs, h, i + 1);
    }
}

proof fn lemma_find_seq(cs: Seq<char>, from: int, pat: Seq<char>)
    ensures
        find_seq(cs, from, pat) matches Some(i) ==> from <= i && i + pat.len() <= cs.len(),
    decreases cs.len() - from,
{
    if !(from < 0 || from + pat.len() > cs.len() || from >= cs.len()) && !starts_at(cs, from, pat) {
        lemma_find_seq(cs, from + 1, pat);
    }
}

proof fn lemma_run_of(cs: Seq<char>, from: int, c: char)
    ensures
        run_of(cs, from, c) >= 0,
    decreases cs.len() - from,
{
    if !(from < 0 || from >= cs.len() || cs[from] != c) {
        lemma_run_of(cs, from + 1, c);
    }
}

proof fn lemma_find_char(cs: Seq<char>, from: int, c: char)
    ensures
        find_char(cs, from, c) matches Some(i) ==> from <= i < cs.len(),
    decreases cs.len() - from,
{
    if 0 <= from < cs.len() && cs[from] != c {
        lemma_find_char(cs, from + 1, c);
    }
}

proof fn lemma_num_end(cs: Seq<char>, i: int, st: NumState, ox: bool)
    requires
        0 <= i <= cs.len(),
    ensures
        i <= num_end(cs, i, st, ox) <= cs.len(),
    decreases cs.len() - i,
{
    if i < cs.len() {
        if let Some(n) = num_next(st, cs[i], ox) {
            lemma_num_end(cs, i + 1, n, ox);
        }
    }
}

/// Every token has an end, past its first character and within the line
/// (a string or a long bracket never closed runs to the end of the line).
pub proof fn lemma_token_progress(cs: Seq<char>, head: int)
    requires
        0 <= head < cs.len(),
    ensures
        token_end(cs, head) is Some,
        token_end(cs, head) matches Some(e) ==> head < e <= cs.len(),
{
    lemma_keyword_len(cs, head, 0);
    lemma_find_char(cs, head, '\n');
    lemma_word_stop(cs, head);
    lemma_junk_stop(cs, head + 1);
    lemma_string_end(cs, head + 1, cs[head]);
    let at = |i: int| if 0 <= i < cs.len() { cs[i] } else { '\0' };
    let kw = keyword_len(cs, head, 0);
    let long = (starts_at(cs, head, seq!['-', '-', '[']) && head + 3 < cs.len() && (at(head + 3)
        == '[' || at(head + 3) == '=')) || (at(head) == '[' && head + 1 < cs.len() && (at(head + 1)
        == '[' || at(head + 1) == '='));
    if kw > 0 {
    } else if long {
        let st = if at(head) == '-' { head + 3 } else { head + 1 };
        let level = run_of(cs, st, '=');
        lemma_run_of(cs, st, '=');
        if st + level < cs.len() && cs[st + level] == '[' {
            let close = seq![']'] + Seq::new(level as nat, |i: int| '=') + seq![']'];
            lemma_find_seq(cs, st + level + 1, close);
            assert(close.len() == level + 2);
            if at(head) != '[' {
                assert(starts_at(cs, head, seq!['-', '-', '[']));
            }
        }
    } else if starts_at(cs, head, seq!['-', '-']) {
    } else if is_digit(at(head)) || (at(head) == '.' && head + 1 < cs.len() && is_digit(at(head + 1))) {
        let ox = starts_at(cs, head, seq!['0', 'x']);
        lemma_num_end(cs, head + 1, if is_digit(at(head)) { NumState::Integral } else { NumState::Fractional }, ox);
        assert(num_end(cs, head, NumState::Integral, ox) > head);
    } else if starts_at(cs, head, seq!['.', '.', '.']) {
    } else if starts_at(cs, head, seq!['.', '.']) {
    }
}

/// Where the token at `head` (not white space) ends; a string or a long
/// bracket never closed runs to the end of the line (the result is always
/// `Some`, see `lemma_token_progress`).
pub open spec fn token_end(cs: Seq<char>, head: int) -> Option<int> {
    let at = |i: int| if 0 <= i < cs.len() { cs[i] } else { '\0' };
    let kw = keyword_len(cs, head, 0);
    let long = (starts_at(cs, head, seq!['-', '-', '[']) && head + 3 < cs.len() && (at(head + 3)
        == '[' || at(head + 3) == '=')) || (at(head) == '[' && head + 1 < cs.len() && (at(head + 1)
        == '[' || at(head + 1) == '='));
    if kw > 0 {
        Some(head + kw)
    } else if long {
        let st = if at(head) == '-' { head + 3 } else { head + 1 };
        let level = run_of(cs, st, '=');
        if st + level < cs.len() && cs[st + level] == '[' {
            let close = seq![']'] + Seq::new(level as nat, |i: int| '=') + seq![']'];
            match find_seq(cs, st + level + 1, close) {
                Some(i) => Some(i + level + 2),
                None => Some(cs.len() as int),
            }
        } else if starts_at(cs, head, seq!['-', '-']) {
            Some(comment_end(cs, head))
        } else {
            Some(cs.len() as int)
        }
    } else if starts_at(cs, head, seq!['-', '-']) {
        Some(comment_end(cs, head))
    } else if is_digit(at(head)) || (at(head) == '.' && head + 1 < cs.len() && is_digit(
        at(head + 1),
    )) {
        Some(num_end(cs, head, NumState::Integral, starts_at(cs, head, seq!['0', 'x'])))
    } else if at(head) == '=' && head + 2 < cs.len() && (at(head + 1) == '~' || at(head + 1)
        == '<' || at(head + 1) == '>') && at(head + 2) == '=' {
        Some(head + 3)
    } else if starts_at(cs, head, seq!['.', '.', '.']) {
        Some(head + 3)
    } else if starts_at(cs, head, seq!['.', '.']) {
        Some(head + 2)
    } else if starts_at(cs, head, seq!['~', '=']) {
        Some(head + 2)
    } else if is_punct(at(head)) {
        Some(head + 1)
    } else if at(head) == '"' || at(head) == '\'' {
        Some(string_end(cs, head + 1, at(head)))
    } else {
        match word_stop(cs, head) {
            Some(i) if i != head => Some(i),
            None if head < cs.len() => Some(cs.len() as int),
            _ => match junk_stop(cs, head + 1) {
                Some(i) => Some(i),
                None => Some(cs.len() as int),
            },
        }
    }
}

/// `string_end` moves past where it starts and stays on the line.
proof fn lemma_string_end(cs: Seq<char>, i: int, q: char)
    requires
        0 <= i,
    ensures
        i <= string_end(cs, i, q) <= cs.len() || (i > cs.len() && string_end(cs, i, q) == cs.len()),
        i <= cs.len() ==> i <= string_end(cs, i, q) <= cs.len(),
    decreases cs.len() + 1 - i,
{
    if 0 <= i < cs.len() {
        if cs[i] == '\\' {
            lemma_string_end(cs, i + 2, q);
        } else if cs[i] != q {
            lemma_string_end(cs, i + 1, q);
        }
    }
}

proof fn lemma_junk_stop(cs: Seq<char>, from: int)
    ensures
        junk_stop(cs, from) matches Some(i) ==> from <= i < cs.len(),
    decreases cs.len() - from,
{
    if 0 <= from < cs.len() && !(stop_byte((cs[from] as u32) % 256) || unicode_alphanumeric(cs[from])) {
        lemma_junk_stop(cs, from + 1);
    }
}

proof fn lemma_word_stop(cs: Seq<char>, from: int)
    ensures
        word_stop(cs, from) matches Some(i) ==> from <= i < cs.len(),
    decreases cs.len() - from,
{
    if 0 <= from < cs.len() && !(cs[from] != '_' && !unicode_alphanumeric(cs[from])) {
        lemma_word_stop(cs, from + 1);
    }
}

/// First index from `from` on that is not white space.
pub open spec fn skip_blank(cs: Seq<char>, from: int) -> int
    decreases cs.len() - from,
{
    if from < 0 || from >= cs.len() || !is_whitespace_spec(cs[from]) {
        from
    } else {
        skip_blank(cs, from + 1)
    }
}

pub proof fn lemma_skip_blank(cs: Seq<char>, from: int)
    requires
        0 <= from <= cs.len(),
    ensures
        from <= skip_blank(cs, from) <= cs.len(),
        forall|i: int| from <= i < skip_blank(cs, from) ==> is_whitespace_spec(cs[i]),
        skip_blank(cs, from) < cs.len() ==> !is_whitespace_spec(cs[skip_blank(cs, from)]),
    decreases cs.len() - from,
{
    if from < cs.len() && is_whitespace_spec(cs[from]) {
        lemma_skip_blank(cs, from + 1);
    }
}

/// Byte offset (in UTF-8) of the character at index `i`.
pub open spec fn byte_at(cs: Seq<char>, i: int) -> int {
    encode_utf8(cs.subrange(0, i)).len() as int
}

/// Splitting into Lua tokens from `h` on, having found `parts` so far and,
/// maybe, the part of the point (always `Some` from a place on the line,
/// see `lemma_lua_run_total`).
pub open spec fn lua_run(
    cs: Seq<char>,
    point: Option<usize>,
    h: int,
    parts: Seq<Seq<char>>,
    in_part: Option<int>,
) -> Option<(Seq<Seq<char>>, Option<int>)>
    decreases cs.len() - h,
{
    if h < 0 || h > cs.len() {
        None
    } else {
        let head = skip_blank(cs, h);
        if head >= cs.len() {
            Some((parts, in_part))
        } else {
            match token_end(cs, head) {
                Some(ahead) => if head < ahead <= cs.len() {
                    let pushed = parts.push(cs.subrange(head, ahead));
                    let (parts2, in2) = if point is Some && in_part is None {
                        let p = point->0 as int;
                        if p < byte_at(cs, head) {
                            (pushed.insert(pushed.len() - 1, Seq::empty()), Some(pushed.len() - 1))
                        } else if byte_at(cs, head) <= p <= byte_at(cs, ahead) {
                            (pushed, Some(pushed.len() - 1))
                        } else {
                            (pushed, None)
                        }
                    } else {
                        (pushed, in_part)
                    };
                    proof {
                        lemma_skip_blank(cs, h);
                    }
                    lua_run(cs, point, ahead, parts2, in2)
                } else {
                    None
                },
                None => None,
            }
        }
    }
}

/// Splitting from any place on the line finishes.
pub proof fn lemma_lua_run_total(
    cs: Seq<char>,
    point: Option<usize>,
    h: int,
    parts: Seq<Seq<char>>,
    in_part: Option<int>,
)
    requires
        0 <= h <= cs.len(),
    ensures
        lua_run(cs, point, h, parts, in_part) is Some,
    decreases cs.len() - h,
{
    lemma_skip_blank(cs, h);
    let head = skip_blank(cs, h);
    if head < cs.len() {
        lemma_token_progress(cs, head);
        let ahead = token_end(cs, head)->0;
        let pushed = parts.push(cs.subrange(head, ahead));
        let (parts2, in2) = if point is Some && in_part is None {
            let p = point->0 as int;
            if p < byte_at(cs, head) {
                (pushed.insert(pushed.len() - 1, Seq::empty()), Some(pushed.len() - 1))
            } else if byte_at(cs, head) <= p <= byte_at(cs, ahead) {
                (pushed, Some(pushed.len() - 1))
            } else {
                (pushed, None)
            }
        } else {
            (pushed, in_part)
        };
        lemma_lua_run_total(cs, point, ahead, parts2, in2);
    }
}

/// The splitter finishes on every line.
pub proof fn lemma_lua_split_total(cs: Seq<char>, point: Option<usize>)
    ensures
        lua_split_spec(cs, point) is Some,
{
    lemma_lua_run_total(cs, point, 0, Seq::empty(), None);
}

/// The tokens of `cs` and the index of the one holding the byte offset
/// `point`; `None` where the splitter would not return.
pub open spec fn lua_split_spec(cs: Seq<char>, point: Option<usize>) -> Option<
    (Seq<Seq<char>>, Option<int>),
> {
    match lua_run(cs, point, 0, Seq::empty(), None) {
        Some((parts, in_part)) => if point is Some && in_part is None {
            Some((parts.push(Seq::empty()), Some(parts.len() as int)))
        } else {
            Some((parts, in_part))
        },
        None => None,
    }
}

fn starts_at_x(cs: &Vec<char>, h: usize, pat: &[char]) -> (b: bool)
    ensures
        b == starts_at(cs@, h as int, pat@),
{
    if h > cs.len() || pat.len() > cs.len() - h {
        return false;
    }
    let n = cs.len();
    let mut j: usize = 0;
    while j < pat.len()
        invariant
            n == cs@.len(),
            h + pat@.len() <= cs@.len(),
            0 <= j <= pat@.len(),
            forall|t: int| 0 <= t < j ==> cs@[h + t] == pat@[t],
        decreases pat@.len() - j,
    {
        if cs[h + j] != pat[j] {
            assert(cs@.subrange(h as int, h + pat@.len())[j as int] != pat@[j as int]);
            return false;
        }
        j += 1;
    }
    assert(cs@.subrange(h as int, h + pat@.len()) =~= pat@);
    true
}

fn lua_keywords_x() -> (r: Vec<Vec<char>>)
    ensures
        r@.len() == lua_keywords().len(),
        forall|i: int| 0 <= i < r@.len() ==> r@[i]@ == lua_keywords()[i],
{
    let r = vec![
        vec!['a', 'n', 'd'],
        vec!['b', 'r', 'e', 'a', 'k'],
        vec!['d', 'o'],
        vec!['e', 'l', 's', 'e', 'i', 'f'],
        vec!['e', 'l', 's', 'e'],
        vec!['e', 'n', 'd'],
        vec!['f', 'a', 'l', 's', 'e'],
        vec!['f', 'o', 'r'],
        vec!['f', 'u', 'n', 'c', 't', 'i', 'o', 'n'],
        vec!['i', 'f'],
        vec!['i', 'n'],
        vec!['l', 'o', 'c', 'a', 'l'],
        vec!['n', 'i', 'l'],
        vec!['n', 'o', 't'],
        vec!['o', 'r'],
        vec!['r', 'e', 'p', 'e', 'a', 't'],
        vec!['r', 'e', 't', 'u', 'r', 'n'],
        vec!['t', 'h', 'e', 'n'],
        vec!['t', 'r', 'u', 'e'],
        vec!['u', 'n', 't', 'i', 'l'],
        vec!['w', 'h', 'i', 'l', 'e'],
    ];
    assert forall|i: int| 0 <= i < r@.len() implies r@[i]@ == lua_keywords()[i] by {
        assert(r@[i]@ =~= lua_keywords()[i]);
    }
    r
}

fn keyword_len_x(cs: &Vec<char>, h: usize) -> (n: usize)
    ensures
        n == keyword_len(cs@, h as int, 0),
        n <= 8,
        n > 0 ==> h + n <= cs@.len(),
{
    let kws = lua_keywords_x();
    assert forall|j: int| 0 <= j < kws@.len() implies kws@[j]@.len() <= 8 by {
        assert(lua_keywords()[j].len() <= 8);
    }
    let mut i: usize = 0;
    while i < kws.len()
        invariant
            0 <= i <= kws@.len(),
            kws@.len() == lua_keywords().len(),
            forall|j: int| 0 <= j < kws@.len() ==> kws@[j]@ == lua_keywords()[j],
            keyword_len(cs@, h as int, 0) == keyword_len(cs@, h as int, i as int),
            forall|j: int| 0 <= j < kws@.len() ==> kws@[j]@.len() <= 8,
        decreases kws@.len() - i,
    {
        if starts_at_x(cs, h, kws[i].as_slice()) {
            return kws[i].len();
        }
        i += 1;
    }
    0
}

fn find_seq_x(cs: &Vec<char>, from: usize, pat: &Vec<char>) -> (r: Option<usize>)
    requires
        pat@.len() > 0,
    ensures
        opt_int(r) == find_seq(cs@, from as int, pat@),
        r matches Some(i) ==> i + pat@.len() <= cs@.len(),
{
    let mut i = from;
    while i < cs.len() && pat.len() <= cs.len() - i
        invariant
            find_seq(cs@, from as int, pat@) == find_seq(cs@, i as int, pat@),
            pat@.len() > 0,
        decreases cs@.len() - i,
    {
        if starts_at_x(cs, i, pat.as_slice()) {
            return Some(i);
        }
        i += 1;
    }
    None
}

fn find_char_x(cs: &Vec<char>, from: usize, c: char) -> (r: Option<usize>)
    ensures
        opt_int(r) == find_char(cs@, from as int, c),
        r matches Some(i) ==> from <= i < cs@.len(),
{
    let mut i = from;
    while i < cs.len()
        invariant
            find_char(cs@, from as int, c) == find_char(cs@, i as int, c),
            from <= i,
        decreases cs@.len() - i,
    {
        if cs[i] == c {
            return Some(i);
        }
        i += 1;
    }
    None
}

fn run_of_x(cs: &Vec<char>, from: usize, c: char) -> (n: usize)
    requires
        from <= cs@.len(),
    ensures
        n == run_of(cs@, from as int, c),
        from + n <= cs@.len(),
{
    let mut i = from;
    while i < cs.len() && cs[i] == c
        invariant
            from <= i <= cs@.len(),
            run_of(cs@, from as int, c) == (i - from) + run_of(cs@, i as int, c),
        decreases cs@.len() - i,
    {
        i += 1;
    }
    i - from
}

fn num_end_x(cs: &Vec<char>, from: usize, ox: bool) -> (e: usize)
    requires
        from <= cs@.len(),
    ensures
        e == num_end(cs@, from as int, NumState::Integral, ox),
        from <= e <= cs@.len(),
{
    let mut st = NumState::Integral;
    let mut i = from;
    while i < cs.len()
        invariant
            from <= i <= cs@.len(),
            num_end(cs@, from as int, NumState::Integral, ox) == num_end(cs@, i as int, st, ox),
        decreases cs@.len() - i,
    {
        let c = cs[i];
        let digit = '0' <= c && c <= '9';
        let next = if st == NumState::Integral && c == '.' {
            Some(NumState::Fractional)
        } else if ((st == NumState::Integral || st == NumState::Fractional) && c == 'e') || (st
            == NumState::Hexadecimal && c == 'p') {
            Some(NumState::ExponentSign)
        } else if st == NumState::ExponentSign && (c == '-' || digit) {
            Some(NumState::Exponent)
        } else if st == NumState::Integral && c == 'x' && ox {
            Some(NumState::Hexadecimal)
        } else if (st == NumState::Integral || st == NumState::Fractional || st
            == NumState::Exponent) && digit {
            Some(st)
        } else if st == NumState::Hexadecimal && (digit || ('a' <= c && c <= 'f') || ('A' <= c
            && c <= 'F')) {
            Some(st)
        } else {
            None
        };
        assert(next == num_next(st, c, ox));
        match next {
            Some(n) => {
                st = n;
            },
            None => {
                return i;
            },
        }
        i += 1;
    }
    i
}

fn word_stop_x(cs: &Vec<char>, from: usize) -> (r: Option<usize>)
    ensures
        opt_int(r) == word_stop(cs@, from as int),
{
    let mut i = from;
    while i < cs.len()
        invariant
            word_stop(cs@, from as int) == word_stop(cs@, i as int),
        decreases cs@.len() - i,
    {
        if cs[i] != '_' && !is_alphanumeric(cs[i]) {
            return Some(i);
        }
        i += 1;
    }
    None
}

fn junk_stop_x(cs: &Vec<char>, from: usize) -> (r: Option<usize>)
    ensures
        opt_int(r) == junk_stop(cs@, from as int),
        r matches Some(i) ==> i < cs@.len(),
{
    let mut i = from;
    while i < cs.len()
        invariant
            junk_stop(cs@, from as int) == junk_stop(cs@, i as int),
        decreases cs@.len() - i,
    {
        let b = (cs[i] as u32) % 256;
        let stop = b == '#' as u32 || b == '(' as u32 || b == ')' as u32 || b == '*' as u32 || b
            == '+' as u32 || b == ',' as u32 || b == '-' as u32 || b == '.' as u32 || b
            == '/' as u32 || ('0' as u32 <= b && b <= '9' as u32) || b == ':' as u32 || b
            == ';' as u32 || b == '<' as u32 || b == '=' as u32 || b == '>' as u32 || b
            == '[' as u32 || b == ']' as u32 || b == '^' as u32 || b == '_' as u32 || b
            == '{' as u32 || b == '}' as u32 || b == '~' as u32;
        if stop || is_alphanumeric(cs[i]) {
            return Some(i);
        }
        i += 1;
    }
    None
}

fn string_end_x(cs: &Vec<char>, from: usize, q: char) -> (e: usize)
    requires
        from <= cs@.len(),
    ensures
        e == string_end(cs@, from as int, q),
{
    let mut i = from;
    while i < cs.len()
        invariant
            from <= i,
            string_end(cs@, from as int, q) == string_end(cs@, i as int, q),
        decreases cs@.len() - i,
    {
        if cs[i] == '\\' {
            if cs.len() - i < 2 {
                assert(string_end(cs@, i + 2, q) == cs@.len());
                return cs.len();
            }
            i += 2;
        } else if cs[i] == q {
            return i + 1;
        } else {
            i += 1;
        }
    }
    cs.len()
}

fn comment_end_x(cs: &Vec<char>, head: usize) -> (e: usize)
    ensures
        e == comment_end(cs@, head as int),
{
    let n = cs.len();
    match find_char_x(cs, head, '\n') {
        Some(nl) => nl + 1,
        None => cs.len(),
    }
}

fn char_at(cs: &Vec<char>, i: usize) -> (c: char)
    ensures
        c == (if i < cs@.len() { cs@[i as int] } else { '\0' }),
{
    if i < cs.len() {
        cs[i]
    } else {
        '\0'
    }
}

fn token_end_x(cs: &Vec<char>, head: usize) -> (r: Option<usize>)
    requires
        head < cs@.len(),
    ensures
        opt_int(r) == token_end(cs@, head as int),
{
    let n = cs.len();
    let kw = keyword_len_x(cs, head);
    let c0 = char_at(cs, head);
    let long = (starts_at_x(cs, head, &['-', '-', '[']) && 3 < n - head && (char_at(cs, head + 3)
        == '[' || char_at(cs, head + 3) == '=')) || (c0 == '[' && 1 < n - head && (char_at(
        cs,
        head + 1,
    ) == '[' || char_at(cs, head + 1) == '='));
    proof {
        assert(['-', '-', '[']@ =~= seq!['-', '-', '[']);
        assert(['-', '-']@ =~= seq!['-', '-']);
        assert(['0', 'x']@ =~= seq!['0', 'x']);
        assert(['.', '.', '.']@ =~= seq!['.', '.', '.']);
        assert(['.', '.']@ =~= seq!['.', '.']);
    }
    if kw > 0 {
        Some(head + kw)
    } else if long {
        let st = if c0 == '-' {
            head + 3
        } else {
            head + 1
        };
        let level = run_of_x(cs, st, '=');
        if st + level < cs.len() && cs[st + level] == '[' {
            let mut close: Vec<char> = vec![']'];
            let mut j: usize = 0;
            while j < level
                invariant
                    0 <= j <= level,
                    close@ == seq![']'] + Seq::new(j as nat, |i: int| '='),
                decreases level - j,
            {
                close.push('=');
                j += 1;
                assert(close@ =~= seq![']'] + Seq::new(j as nat, |i: int| '='));
            }
            close.push(']');
            assert(close@ =~= seq![']'] + Seq::new(level as nat, |i: int| '=') + seq![']']);
            match find_seq_x(cs, st + level + 1, &close) {
                Some(i) => Some(i + level + 2),
                None => Some(cs.len()),
            }
        } else if starts_at_x(cs, head, &['-', '-']) {
            Some(comment_end_x(cs, head))
        } else {
            Some(cs.len())
        }
    } else if starts_at_x(cs, head, &['-', '-']) {
        Some(comment_end_x(cs, head))
    } else if ('0' <= c0 && c0 <= '9') || (c0 == '.' && 1 < n - head && '0' <= cs[head + 1]
        && cs[head + 1] <= '9') {
        let ox = starts_at_x(cs, head, &['0', 'x']);
        Some(num_end_x(cs, head, ox))
    } else if c0 == '=' && 2 < n - head && (cs[head + 1] == '~' || cs[head + 1] == '<'
        || cs[head + 1] == '>') && cs[head + 2] == '=' {
        Some(head + 3)
    } else if starts_at_x(cs, head, &['.', '.', '.']) {
        Some(head + 3)
    } else if starts_at_x(cs, head, &['.', '.']) {
        Some(head + 2)
    } else if c0 == '~' && 1 < n - head && cs[head + 1] == '=' {
        proof {
            assert(cs@.subrange(head as int, head + 2) =~= seq!['~', '=']);
        }
        Some(head + 2)
    } else if c0 == '+' || c0 == '-' || c0 == '*' || c0 == '/' || c0 == '%' || c0 == '^' || c0
        == '#' || c0 == '<' || c0 == '>' || c0 == '=' || c0 == '(' || c0 == ')' || c0 == '{'
        || c0 == '}' || c0 == '[' || c0 == ']' || c0 == ';' || c0 == ':' || c0 == ',' || c0
        == '.' {
        Some(head + 1)
    } else if c0 == '"' || c0 == '\'' {
        Some(string_end_x(cs, head + 1, c0))
    } else {
        match word_stop_x(cs, head) {
            Some(i) if i != head => Some(i),
            None => Some(cs.len()),
            _ => match junk_stop_x(cs, head + 1) {
                Some(i) => Some(i),
                None => Some(cs.len()),
            },
        }
    }
}

fn skip_blank_x(cs: &Vec<char>, from: usize) -> (r: usize)
    requires
        from <= cs@.len(),
    ensures
        r == skip_blank(cs@, from as int),
{
    let mut i = from;
    while i < cs.len() && is_whitespace(cs[i])
        invariant
            from <= i <= cs@.len(),
            skip_blank(cs@, from as int) == skip_blank(cs@, i as int),
        decreases cs@.len() - i,
    {
        i += 1;
    }
    i
}

/// Number of bytes of `c` in UTF-8.
fn utf8_width(c: char) -> (w: usize)
    ensures
        w == encode_scalar(c as u32).len(),
        1 <= w <= 4,
{
    let u = c as u32;
    if u < 0x80 {
        1
    } else if u < 0x800 {
        2
    } else if u < 0x10000 {
        3
    } else {
        4
    }
}

proof fn lemma_encode_push(s: Seq<char>, c: char)
    ensures
        encode_utf8(s.push(c)).len() == encode_utf8(s).len() + encode_scalar(c as u32).len(),
    decreases s.len(),
{
    if s.len() == 0 {
        assert(s.push(c).drop_first() =~= Seq::<char>::empty());
        assert(s.push(c)[0] == c);
        assert(encode_utf8(Seq::<char>::empty()).len() == 0);
    } else {
        lemma_encode_push(s.drop_first(), c);
        assert(s.push(c).drop_first() =~= s.drop_first().push(c));
        assert(s.push(c)[0] == s[0]);
    }
}

proof fn lemma_byte_at_step(cs: Seq<char>, i: int)
    requires
        0 <= i < cs.len(),
    ensures
        byte_at(cs, i + 1) == byte_at(cs, i) + encode_scalar(cs[i] as u32).len(),
{
    assert(cs.subrange(0, i + 1) =~= cs.subrange(0, i).push(cs[i]));
    lemma_encode_push(cs.subrange(0, i), cs[i]);
}

proof fn lemma_byte_at_mono(cs: Seq<char>, i: int, j: int)
    requires
        0 <= i <= j <= cs.len(),
    ensures
        byte_at(cs, i) <= byte_at(cs, j),
    decreases j - i,
{
    if i < j {
        lemma_byte_at_mono(cs, i, j - 1);
        lemma_byte_at_step(cs, j - 1);
    }
}

/// Byte offsets of every character of `cs`, and of its end.
fn byte_offsets(cs: &Vec<char>, total: usize) -> (off: Vec<usize>)
    requires
        total == encode_utf8(cs@).len(),
    ensures
        off@.len() == cs@.len() + 1,
        forall|i: int| 0 <= i <= cs@.len() ==> off@[i] == byte_at(cs@, i),
{
    let mut off: Vec<usize> = vec![0];
    let mut acc: usize = 0;
    let mut i: usize = 0;
    assert(cs@.subrange(0, 0) =~= Seq::<char>::empty());
    assert(cs@.subrange(0, cs@.len() as int) =~= cs@);
    while i < cs.len()
        invariant
            0 <= i <= cs@.len(),
            total == byte_at(cs@, cs@.len() as int),
            off@.len() == i + 1,
            acc == byte_at(cs@, i as int),
            forall|j: int| 0 <= j <= i ==> off@[j] == byte_at(cs@, j),
        decreases cs@.len() - i,
    {
        proof {
            lemma_byte_at_step(cs@, i as int);
            lemma_byte_at_mono(cs@, i + 1, cs@.len() as int);
        }
        acc = acc + utf8_width(cs[i]);
        off.push(acc);
        i += 1;
    }
    off
}

/// The parts with their characters.
pub open spec fn parts_view(v: Seq<Vec<char>>) -> Seq<Seq<char>> {
    v.map_values(|p: Vec<char>| p@)
}

/// Whether `cs` is only white space.
pub open spec fn blank(cs: Seq<char>) -> bool {
    forall|i: int| 0 <= i < cs.len() ==> is_whitespace_spec(#[trigger] cs[i])
}

/// Split `line` into Lua tokens; `None` on a line the splitter could not
/// finish, which does not happen (see `lemma_lua_split_total`).
///
/// Strings and comments keep their delimiters; runs of unexpected
/// characters make single tokens. On a blank line there are no parts (and
/// `in_part` only says where the point would go). `point` is a byte offset;
/// given one, `in_part` names a part.
pub fn lua_tokens_try_split(line: &str, point: Option<usize>) -> (r: Option<PromptSplitInfo>)
    ensures
        r is Some <==> lua_split_spec(line@, point) is Some,
        r matches Some(info) ==> lua_split_spec(line@, point) == Some(
            (strings_view(info.parts@), opt_int(info.in_part)),
        ),
        r matches Some(info) ==> {
            &&& point is None ==> info.in_part is None
            &&& point is Some ==> (info.in_part matches Some(k) && k < info.parts@.len())
            &&& blank(line@) && point is None ==> info.parts@.len() == 0
        },
{
    let cs = chars_of(line);
    let bytes = line.as_bytes();
    let total = bytes.len();
    let off = byte_offsets(&cs, total);
    let n = cs.len();
    let mut parts: Vec<Vec<char>> = Vec::new();
    let mut in_part: Option<usize> = None;
    let mut h: usize = 0;
    let ghost whole = lua_run(cs@, point, 0, Seq::empty(), None);
    assert(parts_view(parts@) =~= Seq::<Seq<char>>::empty());
    loop
        invariant
            n == cs@.len(),
            cs@ == line@,
            off@.len() == cs@.len() + 1,
            forall|i: int| 0 <= i <= cs@.len() ==> off@[i] == byte_at(cs@, i),
            0 <= h <= n,
            whole == lua_run(cs@, point, 0, Seq::empty(), None),
            whole == lua_run(cs@, point, h as int, parts_view(parts@), opt_int(in_part)),
            in_part matches Some(k) ==> k < parts@.len(),
            point is None ==> in_part is None,
        ensures
            whole is Some ==> whole == Some((parts_view(parts@), opt_int(in_part))),
            whole is None ==> false,
        decreases n - h,
    {
        proof {
            lemma_skip_blank(cs@, h as int);
        }
        let head = skip_blank_x(&cs, h);
        if head >= n {
            break;
        }
        let ahead = match token_end_x(&cs, head) {
            Some(a) => a,
            None => {
                return None;
            },
        };
        if !(head < ahead && ahead <= n) {
            return None;
        }
        let ghost before = parts_view(parts@);
        let mut tok: Vec<char> = Vec::new();
        let mut t = head;
        while t < ahead
            invariant
                head <= t <= ahead <= cs@.len(),
                tok@ == cs@.subrange(head as int, t as int),
            decreases ahead - t,
        {
            tok.push(cs[t]);
            t += 1;
            assert(tok@ =~= cs@.subrange(head as int, t as int));
        }
        parts.push(tok);
        assert(parts_view(parts@) =~= before.push(cs@.subrange(head as int, ahead as int)));
        if in_part.is_none() {
            if let Some(p) = point {
                if p < off[head] {
                    let under = parts.len() - 1;
                    let ghost pushed = parts_view(parts@);
                    parts.insert(under, Vec::new());
                    assert(parts_view(parts@) =~= pushed.insert(under as int, Seq::empty()));
                    in_part = Some(under);
                } else if off[head] <= p && p <= off[ahead] {
                    in_part = Some(parts.len() - 1);
                }
            }
        }
        h = ahead;
    }
    if point.is_some() && in_part.is_none() {
        parts.push(Vec::new());
        in_part = Some(parts.len() - 1);
    }
    let strings = crate::prompt::to_strings(&parts);
    proof {
        assert(parts_view(parts@) == parts@.map_values(|v: Vec<char>| v@));
        assert(strings_view(strings@).len() == strings@.len());
        if blank(cs@) && point is None {
            lemma_skip_blank(cs@, 0);
            assert(skip_blank(cs@, 0) >= cs@.len());
            assert(whole == Some((Seq::<Seq<char>>::empty(), None::<int>)));
            assert(parts_view(parts@).len() == 0);
        }
    }
    Some(PromptSplitInfo { parts: strings, in_part })
}

/// Split `line` into Lua tokens (see `lua_tokens_try_split`, which
/// finishes on every line).
pub fn lua_tokens_split(line: &str, point: Option<usize>) -> (r: PromptSplitInfo)
    ensures
        lua_split_spec(line@, point) == Some((strings_view(r.parts@), opt_int(r.in_part))),
        point is None ==> r.in_part is None,
        point is Some ==> (r.in_part matches Some(k) && k < r.parts@.len()),
        blank(line@) && point is None ==> r.parts@.len() == 0,
{
    proof {
        lemma_lua_split_total(line@, point);
    }
    match lua_tokens_try_split(line, point) {
        Some(info) => info,
        None => vstd::pervasive::unreached(),
    }
}

} // verus!
