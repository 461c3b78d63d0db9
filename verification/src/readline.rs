use vstd::prelude::*;
use crate::prompt::strings_view;
use crate::text::{chars_of, is_alphanumeric, is_whitespace, is_whitespace_spec, string_of, unicode_alphanumeric};

verus! {

/// The decimal digit `d` (below ten) as a character.
pub open spec fn digit(d: nat) -> char {
    ((48 + d) as u8) as char
}

/// The decimal writing of `n`, without leading zeros.
pub open spec fn dec(n: nat) -> Seq<char>
    decreases n,
{
    if n < 10 {
        seq![digit(n)]
    } else {
        dec(n / 10).push(digit(n % 10))
    }
}

/// Append the decimal writing of `n` to `out`.
pub fn push_dec(out: &mut Vec<char>, n: usize)
    ensures
        final(out)@ == old(out)@ + dec(n as nat),
    decreases n,
{
    if n >= 10 {
        push_dec(out, n / 10);
    }
    let d: u8 = (n % 10) as u8;
    let c: char = (48u8 + d) as char;
    let ghost before = out@;
    out.push(c);
    proof {
        if n >= 10 {
            assert(before + seq![c] =~= before.push(c));
        } else {
            assert(before.push(c) =~= before + seq![c]);
        }
    }
}

/// The control sequence `ESC [ n c`.
pub open spec fn csi(n: nat, c: char) -> Seq<char> {
    seq!['\x1b', '['] + dec(n) + seq![c]
}

/// Append the control sequence `ESC [ n c` to `out`.
pub fn push_csi(out: &mut Vec<char>, n: usize, c: char)
    ensures
        final(out)@ == old(out)@ + csi(n as nat, c),
{
    let ghost before = out@;
    out.push('\x1b');
    out.push('[');
    push_dec(out, n);
    out.push(c);
    assert(out@ =~= before + csi(n as nat, c));
}

/// Append the characters of `t` to `out`.
pub fn push_chars(out: &mut Vec<char>, t: &[char])
    ensures
        final(out)@ == old(out)@ + t@,
{
    let ghost before = out@;
    let mut i: usize = 0;
    while i < t.len()
        invariant
            0 <= i <= t@.len(),
            out@ == before + t@.subrange(0, i as int),
        decreases t@.len() - i,
    {
        out.push(t[i]);
        assert(t@.subrange(0, i + 1) =~= t@.subrange(0, i as int).push(t@[i as int]));
        i += 1;
    }
    assert(t@.subrange(0, i as int) =~= t@);
}

/// Where a word ends at `j`, going backward: the character before is not
/// alphanumeric and the one at `j` is.
pub open spec fn word_start_at(s: Seq<char>, j: int) -> bool {
    !unicode_alphanumeric(s[j - 1]) && unicode_alphanumeric(s[j])
}

/// Where a blank-separated word starts at `j`: the character before is
/// white space and the one at `j` is not.
pub open spec fn blank_word_start_at(s: Seq<char>, j: int) -> bool {
    is_whitespace_spec(s[j - 1]) && !is_whitespace_spec(s[j])
}

/// Where a word ends at `j`, going forward: the character before is
/// alphanumeric and the one at `j` is not.
pub open spec fn word_end_at(s: Seq<char>, j: int) -> bool {
    unicode_alphanumeric(s[j - 1]) && !unicode_alphanumeric(s[j])
}

/// A word of the kind asked for starts at `j`: alphanumerics, or non-blanks
/// when `blank`.
pub open spec fn start_at(s: Seq<char>, j: int, blank: bool) -> bool {
    if blank {
        blank_word_start_at(s, j)
    } else {
        word_start_at(s, j)
    }
}

/// How far back the start of the word before `at` is: back to the last
/// position `j` in `1 .. at` where a word starts, else to the beginning.
pub open spec fn word_back(s: Seq<char>, at: int, blank: bool) -> int {
    if exists|j: int| 1 <= j < at && #[trigger] start_at(s, j, blank) {
        let j = choose|j: int| 1 <= j < at && #[trigger] start_at(s, j, blank)
            && forall|i: int| j < i < at ==> !start_at(s, i, blank);
        at - j
    } else {
        at
    }
}

/// How far forward the end of the word after `at` is: to the first position
/// `j` in `at + 1 .. s.len()` where a word ends, else to the end.
pub open spec fn word_fwd(s: Seq<char>, at: int) -> int {
    if exists|j: int| at < j < s.len() && word_end_at(s, j) {
        let j = choose|j: int| at < j < s.len() && word_end_at(s, j)
            && forall|i: int| at < i < j ==> !word_end_at(s, i);
        j - at
    } else {
        s.len() - at
    }
}

/// `word_back` computed: how many characters lie between `at` and the start
/// of the word before it (words of alphanumerics, or of non-blanks when
/// `blank`).
pub fn word_back_len(s: &Vec<char>, at: usize, blank: bool) -> (by: usize)
    requires
        0 < at <= s@.len(),
    ensures
        by == word_back(s@, at as int, blank),
        0 < by <= at,
{
    let mut j: usize = at - 1;
    while j > 0
        invariant
            0 <= j < at <= s@.len(),
            forall|i: int| j < i < at ==> !start_at(s@, i, blank),
        decreases j,
    {
        let hit = if blank {
            is_whitespace(s[j - 1]) && !is_whitespace(s[j])
        } else {
            !is_alphanumeric(s[j - 1]) && is_alphanumeric(s[j])
        };
        if hit {
            assert(start_at(s@, j as int, blank));
            let ghost w = choose|k: int| 1 <= k < at && #[trigger] start_at(s@, k, blank)
                && forall|i: int| k < i < at ==> !start_at(s@, i, blank);
            assert(w == j) by {
                if w < j {
                    assert(!start_at(s@, j as int, blank));
                } else if w > j {
                    assert(!start_at(s@, w, blank));
                }
            }
            return at - j;
        }
        j -= 1;
    }
    assert(!exists|k: int| 1 <= k < at && #[trigger] start_at(s@, k, blank));
    at
}

/// `word_fwd` computed: how many characters lie between `at` and the end of
/// the word after it.
pub fn word_fwd_len(s: &Vec<char>, at: usize) -> (by: usize)
    requires
        at < s@.len(),
    ensures
        by == word_fwd(s@, at as int),
        0 < by <= s@.len() - at,
{
    let n: usize = s.len();
    let mut j: usize = at + 1;
    while j < n
        invariant
            n == s@.len(),
            at < j <= s@.len(),
            forall|i: int| at < i < j ==> !word_end_at(s@, i),
        decreases s@.len() - j,
    {
        if is_alphanumeric(s[j - 1]) && !is_alphanumeric(s[j]) {
            assert(word_end_at(s@, j as int));
            let ghost w = choose|k: int| at < k < s@.len() && word_end_at(s@, k) && forall|i: int| at < i < k ==> !word_end_at(s@, i);
            assert(w == j) by {
                if w < j {
                    assert(!word_end_at(s@, w));
                } else if w > j {
                    assert(!word_end_at(s@, j as int));
                }
            }
            return j - at;
        }
        j += 1;
    }
    assert(!exists|k: int| at < k < s@.len() && word_end_at(s@, k));
    n - at
}


/// A source of completion hints: given the current line and the point (a
/// character position in it), the candidates.
pub trait Completion {
    /// `r` is a list of hints the source may give for `line` with the point
    /// at character `point`.
    spec fn gives(&self, line: Seq<char>, point: int, r: Seq<Seq<char>>) -> bool;

    /// The source can be asked for any line and point.
    spec fn ready(&self) -> bool;

    /// The hints for `line` with the point at character `point`.
    fn hints(&self, line: &str, point: usize) -> (r: Vec<String>)
        requires
            self.ready(),
        ensures
            self.gives(line@, point as int, strings_view(r@));
}

/// A function of the line and the point gives the hints.
impl<F: Fn(&str, usize) -> Vec<String>> Completion for F {
    /// What the function may return for the line and the point.
    open spec fn gives(&self, line: Seq<char>, point: int, r: Seq<Seq<char>>) -> bool {
        exists|l: &str, out: Vec<String>|
            #![trigger call_ensures(*self, (l, point as usize), out)]
            l@ == line && call_ensures(*self, (l, point as usize), out) && strings_view(out@) == r
    }

    /// It can be called on any line and point.
    open spec fn ready(&self) -> bool {
        forall|l: &str, p: usize| #[trigger] call_requires(*self, (l, p))
    }

    fn hints(&self, line: &str, point: usize) -> (r: Vec<String>) {
        let r = self(line, point);
        assert(call_ensures(*self, (line, point), r));
        assert((point as int) as usize == point);
        r
    }
}

impl<'a> Completion for &'a [String] {
    /// The fixed list, whatever the line.
    open spec fn gives(&self, line: Seq<char>, point: int, r: Seq<Seq<char>>) -> bool {
        r == strings_view(self@)
    }

    /// Always.
    open spec fn ready(&self) -> bool {
        true
    }

    /// The fixed list, whatever the line.
    fn hints(&self, line: &str, point: usize) -> (r: Vec<String>)
        ensures
            r@ == self@,
    {
        let mut r: Vec<String> = Vec::new();
        let mut i: usize = 0;
        while i < self.len()
            invariant
                0 <= i <= self@.len(),
                r@ == self@.subrange(0, i as int),
            decreases self@.len() - i,
        {
            r.push(self[i].clone());
            assert(self@.subrange(0, i + 1) =~= self@.subrange(0, i as int).push(self@[i as int]));
            i += 1;
        }
        assert(self@.subrange(0, i as int) =~= self@);
        r
    }
}

/// A completion session: the hints shown (the first one is their common
/// prefix), the one selected, and the column of each on the hint line.
pub struct ComplSess {
    pub hints: Vec<String>,
    pub in_hint: usize,
    pub hint_pos: Vec<usize>,
}

/// A readline-like editing session on one line. The cursor is never shown
/// or hidden by it.
pub struct Prompt<C> {
    /// The prompt string.
    pub ps: String,
    /// The history, ending with the line being edited.
    pub history: Vec<String>,
    pub complete: C,
    /// The point, a character position in `s`.
    pub at: usize,
    /// The line being edited.
    pub s: Vec<char>,
    /// The bytes of an escape sequence (or of a character) not complete yet.
    pub pending: Vec<u8>,
    /// Which history entry is shown.
    pub in_hist: usize,
    pub compl: Option<ComplSess>,
    pub keep_compl: bool,
}

/// What feeding a byte gives: the text to print right away and the prompt
/// to go on with, or the end of the session (aborted, or with a line).
pub enum PromptState<C> {
    Again(String, Prompt<C>),
    Abort,
    Final(String),
}

/// The action a complete key sequence stands for.
#[derive(Clone, Copy, PartialEq, Eq, Structural)]
pub enum Edit {
    WordLeft,
    WordKill,
    WordRight,
    Quit,
    WordRubout,
    Home,
    Left,
    Interrupt,
    Delete,
    End,
    Right,
    Cancel,
    Backspace,
    Complete,
    Accept,
    KillEnd,
    Redraw,
    HistNext,
    AcceptAsIs,
    HistPrev,
    KillStart,
    BlankRubout,
    Wait,
    Shift,
    Insert,
}

/// The pending bytes once `b` is added: at most seven are kept, the oldest
/// going first.
pub open spec fn pushed(p: Seq<u8>, b: u8) -> Seq<u8> {
    if p.len() == 7 {
        p.drop_first().push(b)
    } else {
        p.push(b)
    }
}

/// Whether the three bytes are `ESC [ x`.
pub open spec fn csi3(q: Seq<u8>, x: u8) -> bool {
    q == seq![0x1bu8, 0x5bu8, x]
}

/// The action of the pending bytes `q`, at point `at` in a line of `len`
/// characters, showing history entry `in_hist` of `hist_len`: the first of
/// these that applies.
#[verifier::opaque]
pub open spec fn edit_of(q: Seq<u8>, at: int, len: int, in_hist: int, hist_len: int) -> Edit {
    if q == seq![0x1bu8, 0x62u8] && 0 < at {
        Edit::WordLeft
    } else if q == seq![0x1bu8, 0x64u8] && at < len {
        Edit::WordKill
    } else if q == seq![0x1bu8, 0x66u8] && at < len {
        Edit::WordRight
    } else if q == seq![0x1bu8, 0x1bu8] {
        Edit::Quit
    } else if q == seq![0x1bu8, 0x7fu8] && 0 < at {
        Edit::WordRubout
    } else if (q == seq![0x01u8] || csi3(q, 0x48)) && 0 < at {
        Edit::Home
    } else if (q == seq![0x02u8] || csi3(q, 0x44)) && 0 < at {
        Edit::Left
    } else if q == seq![0x03u8] {
        Edit::Interrupt
    } else if q == seq![0x04u8] || q == seq![0x1bu8, 0x5bu8, 0x33u8, 0x7eu8] {
        Edit::Delete
    } else if (q == seq![0x05u8] || csi3(q, 0x46)) && at < len {
        Edit::End
    } else if (q == seq![0x06u8] || csi3(q, 0x43)) && at < len {
        Edit::Right
    } else if q.len() > 0 && q.last() == 0x07 {
        Edit::Cancel
    } else if q == seq![0x08u8] || q == seq![0x7fu8] {
        Edit::Backspace
    } else if q == seq![0x09u8] || csi3(q, 0x5a) {
        Edit::Complete
    } else if q == seq![0x0au8] || q == seq![0x0du8] {
        Edit::Accept
    } else if q == seq![0x0bu8] {
        Edit::KillEnd
    } else if q == seq![0x0cu8] {
        Edit::Redraw
    } else if q == seq![0x0eu8] && in_hist < hist_len - 1 {
        Edit::HistNext
    } else if q == seq![0x0fu8] {
        Edit::AcceptAsIs
    } else if q == seq![0x10u8] && 0 < in_hist {
        Edit::HistPrev
    } else if q == seq![0x15u8] {
        Edit::KillStart
    } else if q == seq![0x17u8] && 0 < at {
        Edit::BlankRubout
    } else if q == seq![0x1bu8] || q == seq![0x1bu8, 0x5bu8] || (q.len() == 3 && q[0] == 0x1b
        && q[1] == 0x5b && 0x30 <= q[2] <= 0x39) {
        Edit::Wait
    } else if q.len() > 0 && q[0] == 0x1b {
        Edit::Shift
    } else {
        Edit::Insert
    }
}

/// What an edit asks of the point and the history entry shown.
pub proof fn lemma_edit_guards(q: Seq<u8>, at: int, len: int, in_hist: int, hist_len: int)
    ensures
        ({
            let e = edit_of(q, at, len, in_hist, hist_len);
            &&& (e is WordLeft || e is WordRubout || e is Home || e is Left || e is BlankRubout) ==> 0 < at
            &&& (e is WordKill || e is WordRight || e is End || e is Right) ==> at < len
            &&& e is HistNext ==> in_hist < hist_len - 1
            &&& e is HistPrev ==> 0 < in_hist
            &&& e is Wait ==> q.len() <= 3
            &&& e is Shift ==> q.len() > 0
            &&& (e is Complete && q[0] == 0x09) ==> q == seq![0x09u8]
        }),
{
    reveal(edit_of);
}

/// The code point that the bytes of `q` spell, read as one UTF-8 sequence
/// from its lead byte (the continuation bytes' top bits are not looked at).
pub open spec fn decoded(q: Seq<u8>) -> Option<u32> {
    if q.len() == 1 && 0x20 <= q[0] <= 0x7e {
        Some(q[0] as u32)
    } else if q.len() == 2 && 0xc0 <= q[0] <= 0xdf {
        Some(((q[0] % 32) * 64 + q[1] % 64) as u32)
    } else if q.len() == 3 && 0xe0 <= q[0] <= 0xef {
        Some(((q[0] % 16) * 4096 + (q[1] % 64) * 64 + q[2] % 64) as u32)
    } else if q.len() == 4 && 0xf0 <= q[0] <= 0xf7 {
        Some(((q[0] % 8) * 262144 + (q[1] % 64) * 4096 + (q[2] % 64) * 64 + q[3] % 64) as u32)
    } else {
        None
    }
}

/// Whether `u` is a Unicode scalar value, one that a `char` can hold.
pub open spec fn is_scalar(u: u32) -> bool {
    u < 0xd800 || (0xe000 <= u && u <= 0x10ffff)
}

/// The code point of `c`.
pub open spec fn code(c: char) -> u32 {
    c as u32
}

/// The character whose code point is `u`.
pub open spec fn char_of(u: u32) -> char {
    choose|c: char| #[trigger] code(c) == u
}

/// `char::from_u32`: the character of code point `u` (the one character
/// with that code point), if `u` is a Unicode scalar value, as its
/// documentation says.
#[verifier::external_body]
fn char_from_u32(u: u32) -> (r: Option<char>)
    ensures
        r is Some <==> is_scalar(u),
        r matches Some(c) ==> code(c) == u && c == char_of(u),
{
    char::from_u32(u)
}

/// What an edit leaves: the line, the point, the history (as text), the
/// history entry shown, and the text to print.
pub struct Edited {
    pub line: Seq<char>,
    pub point: int,
    pub hist: Seq<Seq<char>>,
    pub in_hist: int,
    pub out: Seq<char>,
}

/// The text that goes back to the start of a line of `at` characters shown
/// and clears it.
pub open spec fn wipe(at: int) -> Seq<char> {
    (if 0 < at {
        csi(at as nat, 'D') + seq!['\x1b', '[', 'K']
    } else {
        Seq::empty()
    }) + seq!['\x1b', '[', 'K']
}

/// The line `s` without the characters from `a` to `b`.
pub open spec fn cut(s: Seq<char>, a: int, b: int) -> Seq<char> {
    s.subrange(0, a) + s.subrange(b, s.len() as int)
}

/// The effect of edit `e` (other than completion and the edits that end or
/// pause the session) on line `s` at point `at`, with history `hist` showing
/// entry `ih`, prompt `ps`, pending bytes `q`.
#[verifier::opaque]
pub open spec fn edit(s: Seq<char>, at: int, hist: Seq<Seq<char>>, ih: int, ps: Seq<char>, e: Edit, q: Seq<u8>) -> Edited {
    let len = s.len() as int;
    let same = Edited { line: s, point: at, hist, in_hist: ih, out: Seq::empty() };
    match e {
        Edit::WordLeft => {
            let by = word_back(s, at, false);
            Edited { point: at - by, out: csi(by as nat, 'D'), ..same }
        },
        Edit::WordKill => {
            let by = word_fwd(s, at);
            Edited { line: cut(s, at, at + by), out: csi(by as nat, 'P'), ..same }
        },
        Edit::WordRight => {
            let by = word_fwd(s, at);
            Edited { point: at + by, out: csi(by as nat, 'C'), ..same }
        },
        Edit::WordRubout | Edit::BlankRubout => {
            let by = word_back(s, at, e is BlankRubout);
            Edited {
                line: cut(s, at - by, at),
                point: at - by,
                out: csi(by as nat, 'D') + csi(by as nat, 'P'),
                ..same
            }
        },
        Edit::Home => Edited { point: 0, out: csi(at as nat, 'D'), ..same },
        Edit::Left => Edited { point: at - 1, out: seq!['\x08'], ..same },
        Edit::Delete => if at < len {
            Edited { line: s.remove(at), out: seq!['\x1b', '[', 'P'], ..same }
        } else {
            same
        },
        Edit::End => Edited { point: len, out: csi((len - at) as nat, 'C'), ..same },
        Edit::Right => Edited { point: at + 1, out: seq![s[at]], ..same },
        Edit::Backspace => if 0 < at {
            Edited { line: s.remove(at - 1), point: at - 1, out: seq!['\x08', '\x1b', '[', 'P'], ..same }
        } else {
            same
        },
        Edit::KillEnd => if at < len {
            Edited { line: s.subrange(0, at), out: csi((len - at) as nat, 'P'), ..same }
        } else {
            same
        },
        Edit::Redraw => Edited {
            out: seq!['\x1b', '[', 'G', '\x1b', '[', 'K'] + ps + s + (if at < len {
                csi((len - at) as nat, 'D')
            } else {
                Seq::empty()
            }),
            ..same
        },
        Edit::HistNext => {
            let t = hist[ih + 1];
            Edited { line: t, point: t.len() as int, in_hist: ih + 1, out: wipe(at) + t, ..same }
        },
        Edit::HistPrev => {
            let h = if hist.len() - 1 == ih { hist.update(ih, s) } else { hist };
            let t = h[ih - 1];
            Edited { line: t, point: t.len() as int, hist: h, in_hist: ih - 1, out: wipe(at) + t }
        },
        Edit::KillStart => Edited { line: s.subrange(at, len), point: 0, out: wipe(at), ..same },
        Edit::Insert => match decoded(q) {
            Some(u) => if is_scalar(u) {
                let c = char_of(u);
                Edited {
                    line: s.insert(at, c),
                    point: at + 1,
                    out: if at == len { seq![c] } else { seq!['\x1b', '[', '@', c] },
                    ..same
                }
            } else {
                same
            },
            None => same,
        },
        _ => same,
    }
}

/// The text that erases the hint line above.
pub open spec fn clear_hints() -> Seq<char> {
    seq!['\x1b', '[', 'A', '\x1b', '[', '2', 'K', '\n']
}


/// Whether `q` is the one byte `a`.
fn is1(q: &Vec<u8>, a: u8) -> (r: bool)
    ensures
        r == (q@ == seq![a]),
{
    let r = q.len() == 1 && q[0] == a;
    assert(r ==> q@ =~= seq![a]);
    r
}

/// Whether `q` is the two bytes `a b`.
fn is2(q: &Vec<u8>, a: u8, b: u8) -> (r: bool)
    ensures
        r == (q@ == seq![a, b]),
{
    let r = q.len() == 2 && q[0] == a && q[1] == b;
    assert(r ==> q@ =~= seq![a, b]);
    r
}

/// Whether `q` is the three bytes `a b c`.
fn is3(q: &Vec<u8>, a: u8, b: u8, c: u8) -> (r: bool)
    ensures
        r == (q@ == seq![a, b, c]),
{
    let r = q.len() == 3 && q[0] == a && q[1] == b && q[2] == c;
    assert(r ==> q@ =~= seq![a, b, c]);
    r
}

/// Whether `q` is the four bytes `a b c d`.
fn is4(q: &Vec<u8>, a: u8, b: u8, c: u8, d: u8) -> (r: bool)
    ensures
        r == (q@ == seq![a, b, c, d]),
{
    let r = q.len() == 4 && q[0] == a && q[1] == b && q[2] == c && q[3] == d;
    assert(r ==> q@ =~= seq![a, b, c, d]);
    r
}

/// `edit_of` computed.
pub fn edit_for(q: &Vec<u8>, at: usize, len: usize, in_hist: usize, hist_len: usize) -> (e: Edit)
    requires
        hist_len >= 1,
    ensures
        e == edit_of(q@, at as int, len as int, in_hist as int, hist_len as int),
{
    reveal(edit_of);
    if is2(q, 0x1b, 0x62) && 0 < at {
        Edit::WordLeft
    } else if is2(q, 0x1b, 0x64) && at < len {
        Edit::WordKill
    } else if is2(q, 0x1b, 0x66) && at < len {
        Edit::WordRight
    } else if is2(q, 0x1b, 0x1b) {
        Edit::Quit
    } else if is2(q, 0x1b, 0x7f) && 0 < at {
        Edit::WordRubout
    } else if (is1(q, 0x01) || is3(q, 0x1b, 0x5b, 0x48)) && 0 < at {
        Edit::Home
    } else if (is1(q, 0x02) || is3(q, 0x1b, 0x5b, 0x44)) && 0 < at {
        Edit::Left
    } else if is1(q, 0x03) {
        Edit::Interrupt
    } else if is1(q, 0x04) || is4(q, 0x1b, 0x5b, 0x33, 0x7e) {
        Edit::Delete
    } else if (is1(q, 0x05) || is3(q, 0x1b, 0x5b, 0x46)) && at < len {
        Edit::End
    } else if (is1(q, 0x06) || is3(q, 0x1b, 0x5b, 0x43)) && at < len {
        Edit::Right
    } else if q.len() > 0 && q[q.len() - 1] == 0x07 {
        Edit::Cancel
    } else if is1(q, 0x08) || is1(q, 0x7f) {
        Edit::Backspace
    } else if is1(q, 0x09) || is3(q, 0x1b, 0x5b, 0x5a) {
        Edit::Complete
    } else if is1(q, 0x0a) || is1(q, 0x0d) {
        Edit::Accept
    } else if is1(q, 0x0b) {
        Edit::KillEnd
    } else if is1(q, 0x0c) {
        Edit::Redraw
    } else if is1(q, 0x0e) && in_hist < hist_len - 1 {
        Edit::HistNext
    } else if is1(q, 0x0f) {
        Edit::AcceptAsIs
    } else if is1(q, 0x10) && 0 < in_hist {
        Edit::HistPrev
    } else if is1(q, 0x15) {
        Edit::KillStart
    } else if is1(q, 0x17) && 0 < at {
        Edit::BlankRubout
    } else if is1(q, 0x1b) || is2(q, 0x1b, 0x5b) || (q.len() == 3 && q[0] == 0x1b
        && q[1] == 0x5b && 0x30 <= q[2] && q[2] <= 0x39) {
        Edit::Wait
    } else if q.len() > 0 && q[0] == 0x1b {
        Edit::Shift
    } else {
        Edit::Insert
    }
}


/// The line `v` without the characters from `a` to `b`, computed.
pub fn cut_vec(v: &Vec<char>, a: usize, b: usize) -> (r: Vec<char>)
    requires
        a <= b <= v@.len(),
    ensures
        r@ == cut(v@, a as int, b as int),
{
    let mut r: Vec<char> = Vec::new();
    let mut i: usize = 0;
    while i < a
        invariant
            a <= b <= v@.len(),
            0 <= i <= a,
            r@ == v@.subrange(0, i as int),
        decreases a - i,
    {
        r.push(v[i]);
        assert(v@.subrange(0, i + 1) =~= v@.subrange(0, i as int).push(v@[i as int]));
        i += 1;
    }
    let mut j: usize = b;
    while j < v.len()
        invariant
            a <= b <= j <= v@.len(),
            r@ == v@.subrange(0, a as int) + v@.subrange(b as int, j as int),
        decreases v@.len() - j,
    {
        r.push(v[j]);
        assert(v@.subrange(b as int, j + 1) =~= v@.subrange(b as int, j as int).push(v@[j as int]));
        j += 1;
    }
    r
}

/// Append `wipe(at)` to `out`.
fn push_wipe(out: &mut Vec<char>, at: usize)
    ensures
        final(out)@ == old(out)@ + wipe(at as int),
{
    let ghost before = out@;
    if 0 < at {
        push_csi(out, at, 'D');
        out.push('\x1b');
        out.push('[');
        out.push('K');
    }
    out.push('\x1b');
    out.push('[');
    out.push('K');
    assert(out@ =~= before + wipe(at as int));
}

/// A completion session in good shape: at least two hints (their common
/// prefix first), one selected, a column for each.
pub open spec fn sess_ok(c: ComplSess) -> bool {
    &&& 2 <= c.hints@.len() <= usize::MAX / 2
    &&& c.in_hint < c.hints@.len()
    &&& c.hint_pos@.len() == c.hints@.len()
    &&& forall|i: int| 0 <= i < c.hint_pos@.len() ==> c.hint_pos@[i] < usize::MAX
}

/// Whether edit `e` would go out of the line (the point past its end) where
/// it reads or changes the line there.
pub open spec fn edit_ok(s: Seq<char>, at: int, e: Edit, q: Seq<u8>) -> bool {
    match e {
        Edit::WordLeft | Edit::WordRubout | Edit::BlankRubout | Edit::KillStart => at <= s.len(),
        Edit::Backspace => at == 0 || at <= s.len(),
        Edit::Insert => (decoded(q) matches Some(u) && is_scalar(u)) ==> at <= s.len() && at < usize::MAX,
        _ => true,
    }
}

impl<C: Completion> Prompt<C> {
    /// The session is in good shape: a history holding the entry shown,
    /// fewer than seven pending bytes, a sound completion session, and no
    /// request to keep it pending from a previous byte.
    pub open spec fn wf(&self) -> bool {
        &&& self.core_ok()
        &&& self.pending@.len() < 7
        &&& !self.keep_compl
    }

    /// The history holds the entry shown, and a completion session going
    /// on is sound.
    pub open spec fn core_ok(&self) -> bool {
        &&& self.history@.len() > 0
        &&& self.in_hist < self.history@.len()
        &&& self.compl matches Some(c) ==> sess_ok(c)
        &&& self.complete.ready()
    }

    /// A new editing session with prompt `ps` on the given history (an empty
    /// entry is added for the new line). `ps` is printed by the caller once;
    /// then `feed` is called in a loop.
    pub fn new(ps: String, history: Vec<String>, complete: C) -> (p: Self)
        requires
            complete.ready(),
        ensures
            p.wf(),
            p.ps == ps,
            p.complete == complete,
            strings_view(p.history@) == strings_view(history@).push(Seq::<char>::empty()),
            p.in_hist == history@.len(),
            p.at == 0,
            p.s@.len() == 0,
            p.pending@.len() == 0,
            p.compl is None,
            !p.keep_compl,
    {
        let mut history = history;
        let history_len = history.len();
        let ghost before = history@;
        history.push(String::new());
        assert(strings_view(history@) =~= strings_view(before).push(Seq::<char>::empty()));
        Prompt {
            ps,
            history,
            complete,
            at: 0,
            s: Vec::new(),
            pending: Vec::new(),
            in_hist: history_len,
            compl: None,
            keep_compl: false,
        }
    }

    /// Whether a completion session is going on.
    pub fn has_compl(&self) -> (r: bool)
        ensures
            r == self.compl is Some,
    {
        self.compl.is_some()
    }

    /// Apply an edit that only moves the point.
    fn move_point(&mut self, e: Edit) -> (out: Vec<char>)
        requires
            old(self).core_ok(),
            e == edit_of(old(self).pending@, old(self).at as int, old(self).s@.len() as int,
                old(self).in_hist as int, old(self).history@.len() as int),
            e is WordLeft || e is WordRight || e is Home || e is Left || e is End || e is Right,
            edit_ok(old(self).s@, old(self).at as int, e, old(self).pending@),
        ensures
            ({
                let ed = edit(old(self).s@, old(self).at as int, strings_view(old(self).history@),
                    old(self).in_hist as int, old(self).ps@, e, old(self).pending@);
                &&& final(self).s@ == ed.line
                &&& final(self).at == ed.point
                &&& strings_view(final(self).history@) == ed.hist
                &&& final(self).history@.len() == old(self).history@.len()
                &&& final(self).in_hist == ed.in_hist
                &&& out@ == ed.out
            }),
            final(self).core_ok(),
            final(self).ps == old(self).ps,
            final(self).complete == old(self).complete,
            final(self).pending == old(self).pending,
            final(self).compl == old(self).compl,
            final(self).keep_compl == old(self).keep_compl,
    {
        reveal(edit);
        let len = self.s.len();
        let at = self.at;
        let mut out: Vec<char> = Vec::new();
        proof {
            lemma_edit_guards(self.pending@, at as int, len as int, self.in_hist as int, self.history@.len() as int);
        }
        match e {
            Edit::WordLeft => {
                let by = word_back_len(&self.s, at, false);
                push_csi(&mut out, by, 'D');
                self.at = at - by;
            },
            Edit::WordRight => {
                let by = word_fwd_len(&self.s, at);
                push_csi(&mut out, by, 'C');
                self.at = at + by;
            },
            Edit::Home => {
                push_csi(&mut out, at, 'D');
                self.at = 0;
            },
            Edit::Left => {
                out.push('\x08');
                self.at = at - 1;
            },
            Edit::End => {
                push_csi(&mut out, len - at, 'C');
                self.at = len;
            },
            Edit::Right => {
                out.push(self.s[at]);
                self.at = at + 1;
            },
            _ => {},
        }
        proof {
            let ed = edit(old(self).s@, old(self).at as int, strings_view(old(self).history@),
                old(self).in_hist as int, old(self).ps@, e, old(self).pending@);
            assert(out@ =~= ed.out);
            assert(self.s@ =~= ed.line);
            assert(strings_view(self.history@) =~= ed.hist);
        }
        out
    }

    /// Apply an edit that removes characters from the line.
    #[verifier::rlimit(60)]
    fn change_line(&mut self, e: Edit) -> (out: Vec<char>)
        requires
            old(self).core_ok(),
            e == edit_of(old(self).pending@, old(self).at as int, old(self).s@.len() as int,
                old(self).in_hist as int, old(self).history@.len() as int),
            e is WordKill || e is WordRubout || e is BlankRubout || e is Delete || e is Backspace || e is KillEnd || e is KillStart,
            edit_ok(old(self).s@, old(self).at as int, e, old(self).pending@),
        ensures
            ({
                let ed = edit(old(self).s@, old(self).at as int, strings_view(old(self).history@),
                    old(self).in_hist as int, old(self).ps@, e, old(self).pending@);
                &&& final(self).s@ == ed.line
                &&& final(self).at == ed.point
                &&& strings_view(final(self).history@) == ed.hist
                &&& final(self).history@.len() == old(self).history@.len()
                &&& final(self).in_hist == ed.in_hist
                &&& out@ == ed.out
            }),
            final(self).core_ok(),
            final(self).ps == old(self).ps,
            final(self).complete == old(self).complete,
            final(self).pending == old(self).pending,
            final(self).compl == old(self).compl,
            final(self).keep_compl == old(self).keep_compl,
    {
        reveal(edit);
        let len = self.s.len();
        let at = self.at;
        let mut out: Vec<char> = Vec::new();
        proof {
            lemma_edit_guards(self.pending@, at as int, len as int, self.in_hist as int, self.history@.len() as int);
        }
        match e {
            Edit::WordKill => {
                let by = word_fwd_len(&self.s, at);
                push_csi(&mut out, by, 'P');
                self.s = cut_vec(&self.s, at, at + by);
            },
            Edit::WordRubout | Edit::BlankRubout => {
                let by = word_back_len(&self.s, at, e == Edit::BlankRubout);
                push_csi(&mut out, by, 'D');
                push_csi(&mut out, by, 'P');
                self.s = cut_vec(&self.s, at - by, at);
                self.at = at - by;
            },
            Edit::Delete => {
                if at < len {
                    self.s.remove(at);
                    out.push('\x1b');
                    out.push('[');
                    out.push('P');
                }
            },
            Edit::Backspace => {
                if 0 < at {
                    self.at = at - 1;
                    self.s.remove(at - 1);
                    out.push('\x08');
                    out.push('\x1b');
                    out.push('[');
                    out.push('P');
                }
            },
            Edit::KillEnd => {
                if at < len {
                    push_csi(&mut out, len - at, 'P');
                    self.s.truncate(at);
                }
            },
            Edit::KillStart => {
                push_wipe(&mut out, at);
                self.s = cut_vec(&self.s, 0, at);
                assert(self.s@ =~= old(self).s@.subrange(at as int, len as int));
                self.at = 0;
            },
            _ => {},
        }
        proof {
            let ed = edit(old(self).s@, old(self).at as int, strings_view(old(self).history@),
                old(self).in_hist as int, old(self).ps@, e, old(self).pending@);
            assert(out@ =~= ed.out);
            assert(self.s@ =~= ed.line);
            assert(strings_view(self.history@) =~= ed.hist);
        }
        out
    }

    /// Insert the character that the pending bytes spell, if they spell one.
    #[verifier::rlimit(100)]
    #[verifier::spinoff_prover]
    fn insert_char(&mut self, e: Edit) -> (out: Vec<char>)
        requires
            old(self).core_ok(),
            e == edit_of(old(self).pending@, old(self).at as int, old(self).s@.len() as int,
                old(self).in_hist as int, old(self).history@.len() as int),
            e is Insert,
            edit_ok(old(self).s@, old(self).at as int, e, old(self).pending@),
        ensures
            ({
                let ed = edit(old(self).s@, old(self).at as int, strings_view(old(self).history@),
                    old(self).in_hist as int, old(self).ps@, e, old(self).pending@);
                &&& final(self).s@ == ed.line
                &&& final(self).at == ed.point
                &&& strings_view(final(self).history@) == ed.hist
                &&& final(self).history@.len() == old(self).history@.len()
                &&& final(self).in_hist == ed.in_hist
                &&& out@ == ed.out
            }),
            final(self).core_ok(),
            final(self).ps == old(self).ps,
            final(self).complete == old(self).complete,
            final(self).pending == old(self).pending,
            final(self).compl == old(self).compl,
            final(self).keep_compl == old(self).keep_compl,
    {
        reveal(edit);
        let len = self.s.len();
        let at = self.at;
        let mut out: Vec<char> = Vec::new();
        proof {
            lemma_edit_guards(self.pending@, at as int, len as int, self.in_hist as int, self.history@.len() as int);
        }
        match e {
            Edit::Insert => {
                let q = &self.pending;
                let n = q.len();
                let u: Option<u32> = if n == 1 && 0x20 <= q[0] && q[0] <= 0x7e {
                    Some(q[0] as u32)
                } else if n == 2 && 0xc0 <= q[0] && q[0] <= 0xdf {
                    Some((q[0] as u32 % 32) * 64 + q[1] as u32 % 64)
                } else if n == 3 && 0xe0 <= q[0] && q[0] <= 0xef {
                    Some((q[0] as u32 % 16) * 4096 + (q[1] as u32 % 64) * 64 + q[2] as u32 % 64)
                } else if n == 4 && 0xf0 <= q[0] && q[0] <= 0xf7 {
                    Some((q[0] as u32 % 8) * 262144 + (q[1] as u32 % 64) * 4096 + (q[2] as u32 % 64) * 64
                        + q[3] as u32 % 64)
                } else {
                    None
                };
                assert(u == decoded(q@));
                if let Some(u) = u {
                    if let Some(c) = char_from_u32(u) {
                        if at == len {
                            out.push(c);
                            self.s.push(c);
                        } else {
                            out.push('\x1b');
                            out.push('[');
                            out.push('@');
                            out.push(c);
                            self.s.insert(at, c);
                        }
                        self.at = at + 1;
                    }
                }
            },
            _ => {},
        }
        proof {
            let ed = edit(old(self).s@, old(self).at as int, strings_view(old(self).history@),
                old(self).in_hist as int, old(self).ps@, e, old(self).pending@);
            assert(out@ =~= ed.out);
            assert(self.s@ =~= ed.line);
            assert(strings_view(self.history@) =~= ed.hist);
        }
        out
    }

    /// Apply an edit that redraws the line or shows another history entry.
    #[verifier::rlimit(100)]
    #[verifier::spinoff_prover]
    fn show_line(&mut self, e: Edit) -> (out: Vec<char>)
        requires
            old(self).core_ok(),
            e == edit_of(old(self).pending@, old(self).at as int, old(self).s@.len() as int,
                old(self).in_hist as int, old(self).history@.len() as int),
            e is Redraw || e is HistNext || e is HistPrev,
            edit_ok(old(self).s@, old(self).at as int, e, old(self).pending@),
        ensures
            ({
                let ed = edit(old(self).s@, old(self).at as int, strings_view(old(self).history@),
                    old(self).in_hist as int, old(self).ps@, e, old(self).pending@);
                &&& final(self).s@ == ed.line
                &&& final(self).at == ed.point
                &&& strings_view(final(self).history@) == ed.hist
                &&& final(self).history@.len() == old(self).history@.len()
                &&& final(self).in_hist == ed.in_hist
                &&& out@ == ed.out
            }),
            final(self).core_ok(),
            final(self).ps == old(self).ps,
            final(self).complete == old(self).complete,
            final(self).pending == old(self).pending,
            final(self).compl == old(self).compl,
            final(self).keep_compl == old(self).keep_compl,
    {
        reveal(edit);
        let len = self.s.len();
        let at = self.at;
        let mut out: Vec<char> = Vec::new();
        proof {
            lemma_edit_guards(self.pending@, at as int, len as int, self.in_hist as int, self.history@.len() as int);
        }
        match e {
            Edit::Redraw => {
                out.push('\x1b');
                out.push('[');
                out.push('G');
                out.push('\x1b');
                out.push('[');
                out.push('K');
                let ps = chars_of(self.ps.as_str());
                push_chars(&mut out, ps.as_slice());
                push_chars(&mut out, self.s.as_slice());
                if at < len {
                    push_csi(&mut out, len - at, 'D');
                }
            },
            Edit::HistNext => {
                let hist_len = self.history.len();
                push_wipe(&mut out, at);
                self.in_hist = self.in_hist + 1;
                self.s = chars_of(self.history[self.in_hist].as_str());
                push_chars(&mut out, self.s.as_slice());
                self.at = self.s.len();
            },
            Edit::HistPrev => {
                push_wipe(&mut out, at);
                let ghost h0 = strings_view(self.history@);
                if self.history.len() - 1 == self.in_hist {
                    let line = string_of(self.s.as_slice());
                    self.history.set(self.in_hist, line);
                    assert(strings_view(self.history@) =~= h0.update(self.in_hist as int, old(self).s@));
                }
                self.in_hist = self.in_hist - 1;
                self.s = chars_of(self.history[self.in_hist].as_str());
                push_chars(&mut out, self.s.as_slice());
                self.at = self.s.len();
            },
            _ => {},
        }
        proof {
            let ed = edit(old(self).s@, old(self).at as int, strings_view(old(self).history@),
                old(self).in_hist as int, old(self).ps@, e, old(self).pending@);
            assert(out@ =~= ed.out);
            assert(self.s@ =~= ed.line);
            assert(strings_view(self.history@) =~= ed.hist);
        }
        out
    }

    /// Apply edit `e` of the pending bytes (see `edit`).
    fn apply_edit(&mut self, e: Edit) -> (out: Vec<char>)
        requires
            old(self).core_ok(),
            e == edit_of(old(self).pending@, old(self).at as int, old(self).s@.len() as int,
                old(self).in_hist as int, old(self).history@.len() as int),
            !(e is Quit || e is Interrupt || e is Accept || e is AcceptAsIs || e is Wait || e is Shift
                || e is Complete),
            edit_ok(old(self).s@, old(self).at as int, e, old(self).pending@),
        ensures
            ({
                let ed = edit(old(self).s@, old(self).at as int, strings_view(old(self).history@),
                    old(self).in_hist as int, old(self).ps@, e, old(self).pending@);
                &&& final(self).s@ == ed.line
                &&& final(self).at == ed.point
                &&& strings_view(final(self).history@) == ed.hist
                &&& final(self).history@.len() == old(self).history@.len()
                &&& final(self).in_hist == ed.in_hist
                &&& out@ == ed.out
            }),
            final(self).core_ok(),
            final(self).ps == old(self).ps,
            final(self).complete == old(self).complete,
            final(self).pending == old(self).pending,
            final(self).compl == old(self).compl,
            final(self).keep_compl == old(self).keep_compl,
    {
        reveal(edit);
        if e == Edit::WordLeft || e == Edit::WordRight || e == Edit::Home || e == Edit::Left || e == Edit::End
            || e == Edit::Right {
            self.move_point(e)
        } else if e == Edit::WordKill || e == Edit::WordRubout || e == Edit::BlankRubout || e == Edit::Delete
            || e == Edit::Backspace || e == Edit::KillEnd || e == Edit::KillStart {
            self.change_line(e)
        } else if e == Edit::Insert {
            self.insert_char(e)
        } else if e == Edit::Redraw || e == Edit::HistNext || e == Edit::HistPrev {
            self.show_line(e)
        } else {
            Vec::new()
        }
    }
}


/// The number of bytes of `t` in UTF-8 (what `str::len` gives).
pub open spec fn blen(t: Seq<char>) -> nat {
    vstd::utf8::encode_utf8(t).len()
}

/// The SGR sequence `ESC [ c m` (`7`: reverse video, `4`: underline).
pub open spec fn sgr(c: char) -> Seq<char> {
    seq!['\x1b', '[', c, 'm']
}

/// The SGR sequence that resets the attributes.
pub open spec fn sgr_off() -> Seq<char> {
    seq!['\x1b', '[', 'm']
}

/// Append `t` with the attribute `c`, then reset: `ESC [ c m t ESC [ m`.
fn push_styled(out: &mut Vec<char>, c: char, t: &[char])
    ensures
        final(out)@ == old(out)@ + sgr(c) + t@ + sgr_off(),
{
    let ghost before = out@;
    out.push('\x1b');
    out.push('[');
    out.push(c);
    out.push('m');
    push_chars(out, t);
    out.push('\x1b');
    out.push('[');
    out.push('m');
    assert(out@ =~= before + sgr(c) + t@ + sgr_off());
}

/// What a step of a completion session leaves: the line, the point, the
/// hint now selected, and the text to print.
pub struct Cycled {
    pub line: Seq<char>,
    pub point: int,
    pub in_hint: int,
    pub out: Seq<char>,
}

/// The hint after `ip` among `n` (forward), or before it, wrapping around.
pub open spec fn next_hint(ip: int, n: int, fwd: bool) -> int {
    if fwd {
        if ip + 1 == n {
            0
        } else {
            ip + 1
        }
    } else if ip == 0 {
        n - 1
    } else {
        ip - 1
    }
}

/// The hint line when there are too many hints to show them all: the common
/// prefix, the selected hint (or the first one) and a count.
pub open spec fn hint_line_long(h: Seq<Seq<char>>, sel: int) -> Seq<char> {
    let n = h.len() as int;
    if sel == 0 {
        seq!['\r', '\x1b', '[', 'K'] + sgr('7') + h[0] + sgr_off() + seq![' '] + sgr('4') + h[1]
            + sgr_off() + seq![' ', '.', '.', '.', ' ', '('] + dec((n - 1) as nat) + seq![
            ' ',
            't',
            'o',
            't',
            'a',
            'l',
            ')',
        ]
    } else {
        seq!['\r', '\x1b', '[', 'K'] + sgr('4') + h[0] + sgr_off() + seq![' '] + sgr('7') + h[sel]
            + sgr_off() + seq![' ', '.', '.', '.', ' ', '('] + dec(sel as nat) + seq!['/'] + dec(
            (n - 1) as nat,
        ) + seq![')']
    }
}

/// One step of a completion session (forward for tab, backward otherwise)
/// on line `s` at point `at` with prompt `ps`: hints `h` at columns `hp`,
/// `ip` selected. The previous hint, just before the point, is replaced by
/// the next one; lengths of hints are counted in bytes.
#[verifier::opaque]
pub open spec fn cycle(s: Seq<char>, at: int, ps: Seq<char>, h: Seq<Seq<char>>, ip: int, hp: Seq<usize>, fwd: bool) -> Cycled {
    let nw = next_hint(ip, h.len() as int, fwd);
    let bp = blen(h[ip]) as int;
    let bc = blen(h[nw]) as int;
    let line = s.subrange(0, at - bp) + h[nw] + s.subrange(at, s.len() as int);
    Cycled {
        line,
        point: if bc < bp { at - (bp - bc) } else { at + (bc - bp) },
        in_hint: nw,
        out: seq!['\x1b', '[', 'A'] + shown(h, ip, hp, nw) + seq!['\n', '\r'] + ps + right(at)
            + replaced(bp, bc, at < line.len()) + h[nw],
    }
}

/// The hint line after a step from hint `ip` to `nw`: the long form when
/// the hints did not all fit, else the previous hint underlined again and
/// the new one in reverse video, each at its column.
pub open spec fn shown(h: Seq<Seq<char>>, ip: int, hp: Seq<usize>, nw: int) -> Seq<char> {
    if 2 < hp.len() && hp[1] == hp[2] {
        hint_line_long(h, nw)
    } else {
        csi((hp[ip] + 1) as nat, 'G') + sgr('4') + h[ip] + sgr_off() + csi((hp[nw] + 1) as nat, 'G') + sgr('7')
            + h[nw] + sgr_off()
    }
}

/// Moving right by `at` columns (nothing for none).
pub open spec fn right(at: int) -> Seq<char> {
    if 0 < at {
        csi(at as nat, 'C')
    } else {
        Seq::empty()
    }
}

/// On screen, the `bp` bytes of the previous hint before the point give
/// way to the `bc` of the new one: back over the previous hint, then delete
/// or insert the difference (inserting only before more text).
pub open spec fn replaced(bp: int, bc: int, more: bool) -> Seq<char> {
    (if 0 < bp {
        csi(bp as nat, 'D')
    } else {
        Seq::empty()
    }) + (if bc < bp {
        csi((bp - bc) as nat, 'P')
    } else if bc - bp != 0 && more {
        csi((bc - bp) as nat, '@')
    } else {
        Seq::empty()
    })
}

/// A step of the session `c` keeps within the line (the previous hint's
/// byte length fits before the point) and within `usize`.
pub open spec fn cycle_ok(s: Seq<char>, at: int, c: ComplSess, fwd: bool) -> bool {
    let h = strings_view(c.hints@);
    let n = h.len() as int;
    let ip = c.in_hint as int;
    let nw = next_hint(ip, n, fwd);
    &&& at <= s.len()
    &&& blen(h[ip]) <= at
    &&& at - blen(h[ip]) + blen(h[nw]) <= usize::MAX
}

/// Append `right(at)` to `out`.
fn push_right(out: &mut Vec<char>, at: usize)
    ensures
        final(out)@ == old(out)@ + right(at as int),
{
    if 0 < at {
        push_csi(out, at, 'C');
    } else {
        assert(out@ =~= out@ + right(at as int));
    }
}

/// Append `replaced(bp, bc, more)` to `out`.
fn push_replaced(out: &mut Vec<char>, bp: usize, bc: usize, more: bool)
    ensures
        final(out)@ == old(out)@ + replaced(bp as int, bc as int, more),
{
    let ghost before = out@;
    if bp != 0 {
        push_csi(out, bp, 'D');
    }
    let ghost mid = out@;
    if bc < bp {
        push_csi(out, bp - bc, 'P');
    } else if bc - bp != 0 && more {
        push_csi(out, bc - bp, '@');
    }
    assert(out@ =~= before + replaced(bp as int, bc as int, more));
}

/// The characters `v` with those from `a` to `b` replaced by `t`.
pub fn splice_vec(v: &Vec<char>, a: usize, b: usize, t: &[char]) -> (r: Vec<char>)
    requires
        a <= b <= v@.len(),
        a + t@.len() <= usize::MAX,
    ensures
        r@ == v@.subrange(0, a as int) + t@ + v@.subrange(b as int, v@.len() as int),
{
    let mut line = cut_vec(v, a, b);
    let mut k: usize = 0;
    while k < t.len()
        invariant
            0 <= k <= t@.len(),
            a <= b <= v@.len(),
            a + t@.len() <= usize::MAX,
            line@ == v@.subrange(0, a as int) + t@.subrange(0, k as int) + v@.subrange(b as int, v@.len() as int),
        decreases t@.len() - k,
    {
        line.insert(a + k, t[k]);
        assert(line@ =~= v@.subrange(0, a as int) + t@.subrange(0, k + 1) + v@.subrange(b as int, v@.len() as int));
        k += 1;
    }
    assert(t@.subrange(0, k as int) =~= t@);
    line
}

/// Every character takes at least one byte.
pub proof fn lemma_blen_ge_len(t: Seq<char>)
    ensures
        blen(t) >= t.len(),
    decreases t.len(),
{
    if t.len() > 0 {
        lemma_blen_ge_len(t.drop_first());
    }
}

/// The long hint line with the first hint selected (see `hint_line_long`).
fn push_long_first(out: &mut Vec<char>, first: &[char], second: &[char], total: usize)
    ensures
        final(out)@ == old(out)@ + seq!['\r', '\x1b', '[', 'K'] + sgr('7') + first@ + sgr_off() + seq![' ']
            + sgr('4') + second@ + sgr_off() + seq![' ', '.', '.', '.', ' ', '('] + dec(total as nat)
            + seq![' ', 't', 'o', 't', 'a', 'l', ')'],
{
    let ghost before = out@;
    out.push('\r');
    out.push('\x1b');
    out.push('[');
    out.push('K');
    push_styled(out, '7', first);
    out.push(' ');
    push_styled(out, '4', second);
    let ghost mid = out@;
    assert(mid =~= before + seq!['\r', '\x1b', '[', 'K'] + sgr('7') + first@ + sgr_off() + seq![' '] + sgr('4')
        + second@ + sgr_off());
    out.push(' ');
    out.push('.');
    out.push('.');
    out.push('.');
    out.push(' ');
    out.push('(');
    push_dec(out, total);
    out.push(' ');
    out.push('t');
    out.push('o');
    out.push('t');
    out.push('a');
    out.push('l');
    out.push(')');
    assert(out@ =~= mid + seq![' ', '.', '.', '.', ' ', '('] + dec(total as nat) + seq![' ', 't', 'o', 't', 'a', 'l', ')']);
}

/// The long hint line with hint `sel` (not the first) selected (see `hint_line_long`).
fn push_long_other(out: &mut Vec<char>, first: &[char], cur: &[char], sel: usize, total: usize)
    ensures
        final(out)@ == old(out)@ + seq!['\r', '\x1b', '[', 'K'] + sgr('4') + first@ + sgr_off() + seq![' ']
            + sgr('7') + cur@ + sgr_off() + seq![' ', '.', '.', '.', ' ', '('] + dec(sel as nat) + seq!['/']
            + dec(total as nat) + seq![')'],
{
    let ghost before = out@;
    out.push('\r');
    out.push('\x1b');
    out.push('[');
    out.push('K');
    push_styled(out, '4', first);
    out.push(' ');
    push_styled(out, '7', cur);
    let ghost mid = out@;
    assert(mid =~= before + seq!['\r', '\x1b', '[', 'K'] + sgr('4') + first@ + sgr_off() + seq![' '] + sgr('7')
        + cur@ + sgr_off());
    out.push(' ');
    out.push('.');
    out.push('.');
    out.push('.');
    out.push(' ');
    out.push('(');
    push_dec(out, sel);
    let ghost mid2 = out@;
    assert(mid2 =~= mid + seq![' ', '.', '.', '.', ' ', '('] + dec(sel as nat));
    out.push('/');
    push_dec(out, total);
    out.push(')');
    assert(out@ =~= mid2 + seq!['/'] + dec(total as nat) + seq![')']);
}

/// Append the hint line of a step of session `sess` from hint `ip` to `nw`
/// (`prev` and `cur` their characters).
#[verifier::rlimit(100)]
fn push_shown(out: &mut Vec<char>, sess: &ComplSess, ip: usize, nw: usize, prev: &[char], cur: &[char])
    requires
        sess_ok(*sess),
        ip < sess.hints@.len(),
        nw < sess.hints@.len(),
        prev@ == sess.hints@[ip as int]@,
        cur@ == sess.hints@[nw as int]@,
    ensures
        ({
            let h = strings_view(sess.hints@);
            final(out)@ == old(out)@ + shown(h, ip as int, sess.hint_pos@, nw as int)
        }),
{
    let ghost h = strings_view(sess.hints@);
    let ghost before = out@;
    let n = sess.hints.len();
    if 2 < sess.hint_pos.len() && sess.hint_pos[1] == sess.hint_pos[2] {
        let first = chars_of(sess.hints[0].as_str());
        if nw == 0 {
            let second = chars_of(sess.hints[1].as_str());
            push_long_first(out, first.as_slice(), second.as_slice(), n - 1);
        } else {
            push_long_other(out, first.as_slice(), cur, nw, n - 1);
        }
        assert(out@ =~= before + hint_line_long(h, nw as int));
    } else {
        push_csi(out, sess.hint_pos[ip] + 1, 'G');
        push_styled(out, '4', prev);
        push_csi(out, sess.hint_pos[nw] + 1, 'G');
        push_styled(out, '7', cur);
    }
}

impl<C: Completion> Prompt<C> {
    /// A step of the completion session going on (see `cycle`).
    #[verifier::rlimit(100)]
    fn complete_cycle(&mut self, fwd: bool) -> (out: Vec<char>)
        requires
            old(self).core_ok(),
            old(self).compl is Some,
            cycle_ok(old(self).s@, old(self).at as int, old(self).compl->0, fwd),
        ensures
            ({
                let c = old(self).compl->0;
                let cy = cycle(old(self).s@, old(self).at as int, old(self).ps@, strings_view(c.hints@),
                    c.in_hint as int, c.hint_pos@, fwd);
                &&& final(self).s@ == cy.line
                &&& final(self).at == cy.point
                &&& out@ == cy.out
                &&& final(self).compl matches Some(d) && d.hints == c.hints && d.hint_pos == c.hint_pos
                    && d.in_hint == cy.in_hint
            }),
            final(self).core_ok(),
            final(self).ps == old(self).ps,
            final(self).complete == old(self).complete,
            final(self).pending == old(self).pending,
            final(self).history == old(self).history,
            final(self).in_hist == old(self).in_hist,
            final(self).keep_compl == old(self).keep_compl,
    {
        reveal(cycle);
        let ps = chars_of(self.ps.as_str());
        let at = self.at;
        let mut sess = match self.compl.take() {
            Some(c) => c,
            None => vstd::pervasive::unreached(),
        };
        let ghost h = strings_view(sess.hints@);
        let n = sess.hints.len();
        let in_prev = sess.in_hint;
        let nw = if fwd {
            if in_prev + 1 == n {
                0
            } else {
                in_prev + 1
            }
        } else if in_prev == 0 {
            n - 1
        } else {
            in_prev - 1
        };
        sess.in_hint = nw;
        let prev = chars_of(sess.hints[in_prev].as_str());
        let cur = chars_of(sess.hints[nw].as_str());
        let bp = sess.hints[in_prev].as_str().len();
        let bc = sess.hints[nw].as_str().len();
        let mut out: Vec<char> = Vec::new();
        out.push('\x1b');
        out.push('[');
        out.push('A');
        push_shown(&mut out, &sess, in_prev, nw, prev.as_slice(), cur.as_slice());
        out.push('\n');
        out.push('\r');
        push_chars(&mut out, ps.as_slice());
        push_right(&mut out, at);
        let start = at - bp;
        proof {
            lemma_blen_ge_len(cur@);
        }
        self.s = splice_vec(&self.s, start, at, cur.as_slice());
        let more = at < self.s.len();
        push_replaced(&mut out, bp, bc, more);
        self.at = if bc < bp {
            at - (bp - bc)
        } else {
            at + (bc - bp)
        };
        push_chars(&mut out, cur.as_slice());
        self.compl = Some(sess);
        proof {
            let cy = cycle(old(self).s@, old(self).at as int, old(self).ps@, h, in_prev as int,
                old(self).compl->0.hint_pos@, fwd);
            assert(out@ =~= cy.out);
        }
        out
    }
}


/// `a` comes before `b` in the order of code points, character by
/// character (the order of their UTF-8 bytes, which `str` comparison uses).
pub open spec fn lex_lt(a: Seq<char>, b: Seq<char>) -> bool
    decreases a.len(),
{
    if b.len() == 0 {
        false
    } else if a.len() == 0 {
        true
    } else if a[0] != b[0] {
        a[0] < b[0]
    } else {
        lex_lt(a.drop_first(), b.drop_first())
    }
}

pub proof fn lemma_lex_irrefl(a: Seq<char>)
    ensures
        !lex_lt(a, a),
    decreases a.len(),
{
    if a.len() > 0 {
        lemma_lex_irrefl(a.drop_first());
    }
}

pub proof fn lemma_lex_total(a: Seq<char>, b: Seq<char>)
    requires
        a != b,
    ensures
        lex_lt(a, b) || lex_lt(b, a),
    decreases a.len(),
{
    if a.len() > 0 && b.len() > 0 && a[0] == b[0] {
        if a.drop_first() == b.drop_first() {
            assert(a =~= seq![a[0]] + a.drop_first());
            assert(b =~= seq![b[0]] + b.drop_first());
        }
        lemma_lex_total(a.drop_first(), b.drop_first());
    } else if a.len() == 0 && b.len() == 0 {
        assert(a =~= b);
    }
}

pub proof fn lemma_lex_trans(a: Seq<char>, b: Seq<char>, c: Seq<char>)
    requires
        lex_lt(a, b),
        lex_lt(b, c),
    ensures
        lex_lt(a, c),
    decreases a.len(),
{
    if a.len() > 0 && a[0] == b[0] && b[0] == c[0] {
        lemma_lex_trans(a.drop_first(), b.drop_first(), c.drop_first());
    }
}


/// `lex_lt` computed.
pub fn lex_less(a: &[char], b: &[char]) -> (r: bool)
    ensures
        r == lex_lt(a@, b@),
{
    let mut i: usize = 0;
    assert(a@.skip(0) =~= a@);
    assert(b@.skip(0) =~= b@);
    loop
        invariant
            i <= a@.len(),
            i <= b@.len(),
            lex_lt(a@, b@) == lex_lt(a@.skip(i as int), b@.skip(i as int)),
        decreases a@.len() - i,
    {
        if i == b.len() {
            return false;
        }
        if i == a.len() {
            return true;
        }
        if a[i] != b[i] {
            return a[i] < b[i];
        }
        assert(a@.skip(i as int).drop_first() =~= a@.skip(i + 1));
        assert(b@.skip(i as int).drop_first() =~= b@.skip(i + 1));
        i += 1;
    }
}

/// Whether `a` and `b` hold the same characters.
pub fn same_chars(a: &[char], b: &[char]) -> (r: bool)
    ensures
        r == (a@ == b@),
{
    if a.len() != b.len() {
        return false;
    }
    let mut i: usize = 0;
    while i < a.len()
        invariant
            a@.len() == b@.len(),
            0 <= i <= a@.len(),
            forall|j: int| 0 <= j < i ==> a@[j] == b@[j],
        decreases a@.len() - i,
    {
        if a[i] != b[i] {
            return false;
        }
        i += 1;
    }
    assert(a@ =~= b@);
    true
}

/// Each string comes strictly before the next.
pub open spec fn sorted_strict(f: Seq<Seq<char>>) -> bool {
    forall|i: int, j: int| 0 <= i < j < f.len() ==> lex_lt(f[i], f[j])
}

/// The non-empty strings among `raw`.
pub open spec fn nonempty_of(raw: Seq<Seq<char>>) -> Set<Seq<char>> {
    Set::new(|x: Seq<char>| x.len() > 0 && raw.contains(x))
}

/// The largest size of a line or a hint, and the most hints, that a
/// completion session handles.
pub open spec fn hint_limit() -> int {
    0x400_0000
}

/// The hints `raw`, for a line of `len` characters, are within
/// `hint_limit`: fewer hints, each of fewer bytes, and a shorter line.
pub open spec fn hints_fit(len: int, raw: Seq<Seq<char>>) -> bool {
    &&& len < hint_limit()
    &&& raw.len() < hint_limit()
    &&& forall|i: int| 0 <= i < raw.len() ==> blen(#[trigger] raw[i]) < hint_limit()
}

/// The non-empty hints of `raw`, sorted, each once (as `sort_unstable` then
/// `dedup` leave them), with the characters of each.
fn normalize(raw: &Vec<String>) -> (r: (Vec<String>, Vec<Vec<char>>))
    requires
        hints_fit(0, strings_view(raw@)),
    ensures
        sorted_strict(strings_view(r.0@)),
        strings_view(r.0@).to_set() == nonempty_of(strings_view(raw@)),
        r.0@.len() <= raw@.len(),
        r.1@.len() == r.0@.len(),
        forall|k: int| 0 <= k < r.0@.len() ==> (#[trigger] r.1@[k])@ == r.0@[k]@,
        forall|k: int| 0 <= k < r.0@.len() ==> blen(#[trigger] r.0@[k]@) < hint_limit(),
{
    let ghost rv = strings_view(raw@);
    let mut f: Vec<String> = Vec::new();
    let mut fc: Vec<Vec<char>> = Vec::new();
    let mut i: usize = 0;
    while i < raw.len()
        invariant
            rv == strings_view(raw@),
            hints_fit(0, rv),
            0 <= i <= raw@.len(),
            f@.len() <= i,
            fc@.len() == f@.len(),
            forall|k: int| 0 <= k < f@.len() ==> (#[trigger] fc@[k])@ == f@[k]@,
            forall|k: int| 0 <= k < f@.len() ==> blen(#[trigger] f@[k]@) < hint_limit(),
            sorted_strict(strings_view(f@)),
            strings_view(f@).to_set() == nonempty_of(rv.subrange(0, i as int)),
        decreases raw@.len() - i,
    {
        let r = chars_of(raw[i].as_str());
        let ghost fv = strings_view(f@);
        let ghost r0 = rv.subrange(0, i as int);
        let ghost r1 = rv.subrange(0, i + 1);
        proof {
            assert(r1 =~= r0.push(rv[i as int]));
            assert(rv[i as int] == r@);
        }
        if r.len() == 0 {
            proof {
                assert(nonempty_of(r1) =~= nonempty_of(r0));
            }
        } else {
            let mut j: usize = 0;
            while j < fc.len() && lex_less(fc[j].as_slice(), r.as_slice())
                invariant
                    0 <= j <= fc@.len(),
                    fc@.len() == f@.len(),
                    forall|k: int| 0 <= k < f@.len() ==> (#[trigger] fc@[k])@ == f@[k]@,
                    fv == strings_view(f@),
                    forall|k: int| 0 <= k < j ==> lex_lt(fv[k], r@),
                decreases fc@.len() - j,
            {
                j += 1;
            }
            let dup = j < fc.len() && same_chars(fc[j].as_slice(), r.as_slice());
            if !dup {
                proof {
                    if j < fv.len() {
                        assert(fc@[j as int]@ == fv[j as int]);
                        assert(!lex_lt(fv[j as int], r@));
                        lemma_lex_total(fv[j as int], r@);
                        assert(lex_lt(r@, fv[j as int]));
                        assert forall|k: int| j < k < fv.len() implies lex_lt(r@, fv[k]) by {
                            lemma_lex_trans(r@, fv[j as int], fv[k]);
                        }
                    }
                }
                f.insert(j, raw[i].clone());
                fc.insert(j, r);
                proof {
                    let nv = strings_view(f@);
                    assert(nv =~= fv.insert(j as int, r@));
                    assert forall|a: int, b: int| 0 <= a < b < nv.len() implies lex_lt(nv[a], nv[b]) by {
                        if b < j {
                        } else if b == j {
                        } else if a < j {
                            lemma_lex_trans(nv[a], r@, nv[b]);
                        } else if a == j {
                        } else {
                        }
                    }
                    assert forall|x: Seq<char>| nv.to_set().contains(x) == nonempty_of(r1).contains(x) by {
                        assert(nv.to_set().contains(x) == nv.contains(x));
                        assert(fv.to_set().contains(x) == fv.contains(x));
                        assert(fv.to_set().contains(x) == nonempty_of(r0).contains(x));
                        if x == r@ {
                            assert(nv[j as int] == x);
                            assert(nv.contains(x));
                            assert(r1[i as int] == x);
                            assert(r1.contains(x));
                        } else {
                            if nv.contains(x) {
                                let w = choose|w: int| 0 <= w < nv.len() && nv[w] == x;
                                if w < j {
                                    assert(fv[w] == x);
                                } else {
                                    assert(fv[w - 1] == x);
                                }
                                assert(fv.to_set().contains(x));
                            }
                            if fv.contains(x) {
                                let w = choose|w: int| 0 <= w < fv.len() && fv[w] == x;
                                if w < j {
                                    assert(nv[w] == x);
                                } else {
                                    assert(nv[w + 1] == x);
                                }
                            }
                            if r1.contains(x) {
                                let w = choose|w: int| 0 <= w < i + 1 && r1[w] == x;
                                assert(r0[w] == x);
                            }
                            if r0.contains(x) {
                                let w = choose|w: int| 0 <= w < i && r0[w] == x;
                                assert(r1[w] == x);
                            }
                        }
                    }
                    assert(nv.to_set() =~= nonempty_of(r1));
                    assert forall|k: int| 0 <= k < f@.len() implies blen(#[trigger] f@[k]@) < hint_limit() by {
                        if k < j {
                            assert(f@[k]@ == fv[k]);
                        } else if k == j {
                            assert(f@[k]@ == rv[i as int]);
                        } else {
                            assert(f@[k]@ == fv[k - 1]);
                        }
                    }
                }
            } else {
                proof {
                    assert(fv[j as int] == r@);
                    assert forall|x: Seq<char>| fv.to_set().contains(x) == nonempty_of(r1).contains(x) by {
                        assert(fv.to_set().contains(x) == fv.contains(x));
                        assert(fv.to_set().contains(x) == nonempty_of(r0).contains(x));
                        if r1.contains(x) && x != r@ {
                            let w = choose|w: int| 0 <= w < i + 1 && r1[w] == x;
                            assert(r0[w] == x);
                        }
                        if r0.contains(x) {
                            let w = choose|w: int| 0 <= w < i && r0[w] == x;
                            assert(r1[w] == x);
                        }
                        if x == r@ {
                            assert(fv.contains(x));
                        }
                    }
                    assert(fv.to_set() =~= nonempty_of(r1));
                }
            }
        }
        i += 1;
    }
    assert(rv.subrange(0, i as int) =~= rv);
    (f, fc)
}


/// `c` and `h` differ at position `k`, within both.
pub open spec fn differ_at(c: Seq<char>, h: Seq<char>, k: int) -> bool {
    0 <= k < c.len() && k < h.len() && c[k] != h[k]
}

/// `c` cut at the first position where it differs from `h` (within both);
/// unchanged when they agree as far as both go.
pub open spec fn narrowed(c: Seq<char>, h: Seq<char>) -> Seq<char> {
    if exists|k: int| #[trigger] differ_at(c, h, k) {
        let k = choose|k: int| #[trigger] differ_at(c, h, k) && forall|j: int| 0 <= j < k ==> !differ_at(c, h, j);
        c.subrange(0, k)
    } else {
        c
    }
}

/// The prefix that the hints `f` share: the first one narrowed by each of
/// the others in turn.
pub open spec fn common_of(f: Seq<Seq<char>>) -> Seq<char>
    decreases f.len(),
{
    if f.len() <= 1 {
        f[0]
    } else {
        narrowed(common_of(f.drop_last()), f.last())
    }
}

proof fn lemma_common_is_prefix(f: Seq<Seq<char>>)
    requires
        f.len() > 0,
    ensures
        common_of(f).len() <= f[0].len(),
        common_of(f) == f[0].subrange(0, common_of(f).len() as int),
    decreases f.len(),
{
    if f.len() > 1 {
        lemma_common_is_prefix(f.drop_last());
        let c = common_of(f.drop_last());
        if exists|k: int| #[trigger] differ_at(c, f.last(), k) {
            let k = choose|k: int| #[trigger] differ_at(c, f.last(), k) && forall|j: int| 0 <= j < k ==> !differ_at(c, f.last(), j);
            assert(exists|k: int| #[trigger] differ_at(c, f.last(), k) && forall|j: int| 0 <= j < k ==> !differ_at(c, f.last(), j)) by {
                lemma_first_differ(c, f.last());
            }
            assert(common_of(f) == c.subrange(0, k));
            assert(c.subrange(0, k) =~= f[0].subrange(0, k));
        }
    } else {
        assert(f[0].subrange(0, f[0].len() as int) =~= f[0]);
    }
}

/// Where two sequences differ somewhere, there is a first place.
proof fn lemma_first_differ(c: Seq<char>, h: Seq<char>)
    requires
        exists|k: int| #[trigger] differ_at(c, h, k),
    ensures
        exists|k: int| #[trigger] differ_at(c, h, k) && forall|j: int| 0 <= j < k ==> !differ_at(c, h, j),
{
    let k0 = choose|k: int| #[trigger] differ_at(c, h, k);
    lemma_first_differ_below(c, h, k0);
}

proof fn lemma_first_differ_below(c: Seq<char>, h: Seq<char>, k0: int)
    requires
        differ_at(c, h, k0),
    ensures
        exists|k: int| #[trigger] differ_at(c, h, k) && forall|j: int| 0 <= j < k ==> !differ_at(c, h, j),
    decreases k0,
{
    if exists|j: int| 0 <= j < k0 && #[trigger] differ_at(c, h, j) {
        let j = choose|j: int| 0 <= j < k0 && #[trigger] differ_at(c, h, j);
        lemma_first_differ_below(c, h, j);
    } else {
        assert(forall|j: int| 0 <= j < k0 ==> !differ_at(c, h, j));
    }
}

/// The byte length of a prefix is at most that of the whole.
proof fn lemma_blen_prefix(t: Seq<char>, k: int)
    requires
        0 <= k <= t.len(),
    ensures
        blen(t.subrange(0, k)) <= blen(t),
    decreases k,
{
    if k > 0 {
        let u = t.subrange(0, k);
        assert(u[0] == t[0]);
        assert(u.drop_first() =~= t.drop_first().subrange(0, k - 1));
        lemma_blen_prefix(t.drop_first(), k - 1);
    }
}

/// The characters of each vector.
pub open spec fn chars_view(v: Seq<Vec<char>>) -> Seq<Seq<char>> {
    v.map_values(|x: Vec<char>| x@)
}

/// `common_of` computed.
fn common_prefix(fc: &Vec<Vec<char>>) -> (c: Vec<char>)
    requires
        fc@.len() > 0,
    ensures
        c@ == common_of(chars_view(fc@)),
{
    let ghost fv = chars_view(fc@);
    let mut c: Vec<char> = Vec::new();
    push_chars(&mut c, fc[0].as_slice());
    assert(c@ =~= fv[0]);
    assert(fv.subrange(0, 1).len() == 1);
    assert(fv.subrange(0, 1)[0] == fv[0]);
    let mut i: usize = 1;
    while i < fc.len()
        invariant
            fv == chars_view(fc@),
            1 <= i <= fc@.len(),
            c@ == common_of(fv.subrange(0, i as int)),
        decreases fc@.len() - i,
    {
        let h = &fc[i];
        let mut k: usize = 0;
        while k < c.len() && k < h.len() && c[k] == h[k]
            invariant
                0 <= k <= c@.len(),
                k <= h@.len(),
                forall|j: int| 0 <= j < k ==> !differ_at(c@, h@, j),
            decreases c@.len() - k,
        {
            k += 1;
        }
        let ghost old_c = c@;
        proof {
            let sub = fv.subrange(0, i + 1);
            assert(sub.drop_last() =~= fv.subrange(0, i as int));
            assert(sub.last() == h@);
        }
        if k < c.len() && k < h.len() {
            proof {
                assert(differ_at(old_c, h@, k as int));
                let w = choose|w: int| #[trigger] differ_at(old_c, h@, w) && forall|j: int| 0 <= j < w ==> !differ_at(old_c, h@, j);
                lemma_first_differ(old_c, h@);
                assert(w == k) by {
                    if w < k {
                        assert(!differ_at(old_c, h@, w));
                    } else if w > k {
                        assert(!differ_at(old_c, h@, k as int));
                    }
                }
            }
            c.truncate(k);
        } else {
            proof {
                assert forall|w: int| !#[trigger] differ_at(old_c, h@, w) by {
                    if 0 <= w < old_c.len() && w < h@.len() {
                        assert(w < k);
                    }
                }
            }
        }
        i += 1;
    }
    assert(fv.subrange(0, i as int) =~= fv);
    c
}

/// The `k` characters before `at` in `s` are the first `k` of `cs`.
pub open spec fn ends_with(s: Seq<char>, at: int, cs: Seq<char>, k: int) -> bool {
    s.subrange(at - k, at) == cs.subrange(0, k)
}

/// How much of `cs` is already typed before the point: the largest `k` (at
/// most the length of `cs` and `at`) such that the `k` characters before the
/// point are the first `k` of `cs`; 0 if none.
pub open spec fn common_len(s: Seq<char>, at: int, cs: Seq<char>) -> int {
    if exists|k: int| 1 <= k <= cs.len() && k <= at && #[trigger] ends_with(s, at, cs, k) {
        choose|k: int| 1 <= k <= cs.len() && k <= at && #[trigger] ends_with(s, at, cs, k)
            && forall|m: int| k < m <= cs.len() && m <= at ==> !ends_with(s, at, cs, m)
    } else {
        0
    }
}

/// `common_len` computed.
fn common_len_of(s: &Vec<char>, at: usize, cs: &Vec<char>) -> (k: usize)
    requires
        at <= s@.len(),
    ensures
        k == common_len(s@, at as int, cs@),
        k <= cs@.len(),
        k <= at,
{
    let mut k: usize = if cs.len() < at {
        cs.len()
    } else {
        at
    };
    while k >= 1
        invariant
            k <= cs@.len(),
            k <= at <= s@.len(),
            forall|m: int| k < m <= cs@.len() && m <= at ==> !ends_with(s@, at as int, cs@, m),
        decreases k,
    {
        let mut j: usize = 0;
        let mut same = true;
        while j < k
            invariant
                0 <= j <= k,
                k <= cs@.len(),
                k <= at <= s@.len(),
                same == forall|m: int| 0 <= m < j ==> s@[at - k + m] == cs@[m],
            decreases k - j,
        {
            if s[at - k + j] != cs[j] {
                same = false;
            }
            j += 1;
        }
        if same {
            assert(s@.subrange(at - k, at as int) =~= cs@.subrange(0, k as int));
            proof {
                let w = choose|w: int| 1 <= w <= cs@.len() && w <= at && #[trigger] ends_with(s@, at as int, cs@, w)
                    && forall|m: int| w < m <= cs@.len() && m <= at ==> !ends_with(s@, at as int, cs@, m);
                assert(ends_with(s@, at as int, cs@, k as int));
                assert(w == k) by {
                    if w < k {
                        assert(!ends_with(s@, at as int, cs@, k as int));
                    } else if w > k {
                        assert(!ends_with(s@, at as int, cs@, w));
                    }
                }
            }
            return k;
        }
        proof {
            if ends_with(s@, at as int, cs@, k as int) {
                let m = choose|m: int| 0 <= m < k && s@[at - k + m] != cs@[m];
                assert(s@.subrange(at - k, at as int)[m] == cs@.subrange(0, k as int)[m]);
            }
        }
        k -= 1;
    }
    0
}


/// The byte lengths of the hints `h[1]` to `h[j - 1]`, added up.
pub open spec fn blen_sum(h: Seq<Seq<char>>, j: int) -> int
    decreases j,
{
    if j <= 1 {
        0
    } else {
        blen_sum(h, j - 1) + blen(h[j - 1])
    }
}

/// The column of hint `j` on the hint line, after the common prefix of
/// `clen` bytes: each hint follows the previous one and a space; with
/// sixteen hints or more, all but the first stand at the second's column.
pub open spec fn hint_col(clen: int, h: Seq<Seq<char>>, j: int) -> int {
    if j == 0 {
        0
    } else if h.len() < 16 {
        clen + j + blen_sum(h, j)
    } else {
        clen + 1
    }
}

/// The hints `h[1]` to `h[j - 1]` underlined, each after a space.
pub open spec fn hint_list(h: Seq<Seq<char>>, j: int) -> Seq<char>
    decreases j,
{
    if j <= 1 {
        Seq::empty()
    } else {
        hint_list(h, j - 1) + seq![' '] + sgr('4') + h[j - 1] + sgr_off()
    }
}

/// The hint line's end when there are sixteen hints or more: the second
/// one, then the count of the others.
pub open spec fn hint_list_long(h: Seq<Seq<char>>) -> Seq<char> {
    seq![' '] + sgr('4') + h[1] + sgr_off() + seq![' ', '.', '.', '.', ' ', '('] + dec((h.len() - 1) as nat)
        + seq![' ', 't', 'o', 't', 'a', 'l', ')']
}

/// What starting a completion leaves: the line, the point, the text to
/// print, and whether a session starts, with its hints and their columns.
pub struct Started {
    pub line: Seq<char>,
    pub point: int,
    pub out: Seq<char>,
    pub session: bool,
    pub hints: Seq<Seq<char>>,
    pub cols: Seq<int>,
}

/// Starting a completion on line `s` at point `at` with prompt `ps`, with
/// the hints `f` (non-empty, sorted, each once). No hint: a bell. Else the
/// part of their common prefix not typed yet before the point is inserted;
/// with several hints, a session starts and the hint line is drawn above:
/// the common prefix, then the hints (the common prefix first among them
/// when it is not a hint itself).
#[verifier::opaque]
pub open spec fn start(s: Seq<char>, at: int, ps: Seq<char>, f: Seq<Seq<char>>) -> Started {
    if f.len() == 0 {
        Started { line: s, point: at, out: seq!['\x07'], session: false, hints: Seq::empty(), cols: Seq::empty() }
    } else {
        let common = common_of(f);
        let cl = common_len(s, at, common);
        let ins = common.subrange(cl, common.len() as int);
        let point = at + ins.len();
        let line = s.subrange(0, at) + ins + s.subrange(at, s.len() as int);
        let typed = (if ins.len() > 0 {
            csi(ins.len(), '@')
        } else {
            Seq::empty()
        }) + ins;
        let h = session_hints(f, common);
        if f.len() > 1 {
            Started {
                line,
                point,
                out: typed + session_text(common, h, ps, point),
                session: true,
                hints: h,
                cols: Seq::new(h.len(), |j: int| hint_col(blen(common) as int, h, j)),
            }
        } else {
            Started { line, point, out: typed, session: false, hints: Seq::empty(), cols: Seq::empty() }
        }
    }
}

/// The hints of a session: those of `f`, with their common prefix first
/// when it is not the first of them.
pub open spec fn session_hints(f: Seq<Seq<char>>, common: Seq<char>) -> Seq<Seq<char>> {
    if f[0] != common {
        seq![common] + f
    } else {
        f
    }
}

/// The hint line drawn above when a session starts, then the prompt again
/// with the point at `point`.
pub open spec fn session_text(common: Seq<char>, h: Seq<Seq<char>>, ps: Seq<char>, point: int) -> Seq<char> {
    seq!['\r', '\x1b', '[', 'A', '\x1b', '[', 'K'] + sgr('4') + common + sgr_off() + (if h.len() < 16 {
        hint_list(h, h.len() as int)
    } else {
        hint_list_long(h)
    }) + seq!['\n', '\r'] + ps + right(point)
}

proof fn lemma_blen_sum_bound(h: Seq<Seq<char>>, j: int)
    requires
        1 <= j <= h.len(),
        forall|m: int| 0 <= m < h.len() ==> blen(#[trigger] h[m]) < hint_limit(),
    ensures
        0 <= blen_sum(h, j) <= (j - 1) * hint_limit(),
    decreases j,
{
    if j > 1 {
        lemma_blen_sum_bound(h, j - 1);
    }
}

/// Append the hints of `h` after the first to `out` (the short or the long
/// form) and give their columns.
#[verifier::rlimit(60)]
fn push_hint_list(out: &mut Vec<char>, h: &Vec<String>, clen: usize) -> (cols: Vec<usize>)
    requires
        2 <= h@.len() <= hint_limit(),
        clen < hint_limit(),
        forall|m: int| 0 <= m < h@.len() ==> blen(#[trigger] h@[m]@) < hint_limit(),
    ensures
        final(out)@ == old(out)@ + (if h@.len() < 16 {
            hint_list(strings_view(h@), h@.len() as int)
        } else {
            hint_list_long(strings_view(h@))
        }),
        cols@.len() == h@.len(),
        forall|j: int| 0 <= j < cols@.len() ==> cols@[j] == hint_col(clen as int, strings_view(h@), j),
        forall|j: int| 0 <= j < cols@.len() ==> cols@[j] < 18 * hint_limit(),
{
    let ghost hv = strings_view(h@);
    let ghost before = out@;
    let mut cols: Vec<usize> = Vec::new();
    cols.push(0);
    let mut pos: usize = clen;
    if h.len() < 16 {
        let mut m: usize = 1;
        while m < h.len()
            invariant
                hv == strings_view(h@),
                2 <= h@.len() < 16,
                clen < hint_limit(),
                forall|k: int| 0 <= k < h@.len() ==> blen(#[trigger] h@[k]@) < hint_limit(),
                1 <= m <= h@.len(),
                out@ == before + hint_list(hv, m as int),
                pos == clen + (m - 1) + blen_sum(hv, m as int),
                cols@.len() == m,
                forall|j: int| 0 <= j < m ==> cols@[j] == hint_col(clen as int, hv, j),
                forall|j: int| 0 <= j < m ==> cols@[j] < 18 * hint_limit(),
            decreases h@.len() - m,
        {
            proof {
                lemma_blen_sum_bound(hv, m as int);
                assert(blen(hv[m as int]) < hint_limit());
            }
            out.push(' ');
            let t = chars_of(h[m].as_str());
            push_styled(out, '4', t.as_slice());
            pos = pos + 1;
            cols.push(pos);
            pos = pos + h[m].as_str().len();
            proof {
                assert(out@ =~= before + hint_list(hv, m + 1));
            }
            m += 1;
        }
    } else {
        out.push(' ');
        let t = chars_of(h[1].as_str());
        push_styled(out, '4', t.as_slice());
        out.push(' ');
        out.push('.');
        out.push('.');
        out.push('.');
        out.push(' ');
        out.push('(');
        push_dec(out, h.len() - 1);
        out.push(' ');
        out.push('t');
        out.push('o');
        out.push('t');
        out.push('a');
        out.push('l');
        out.push(')');
        assert(out@ =~= before + hint_list_long(hv));
        pos = pos + 1;
        while cols.len() < h.len()
            invariant
                1 <= cols@.len() <= h@.len(),
                h@.len() >= 16,
                pos == clen + 1,
                clen < hint_limit(),
                hv == strings_view(h@),
                forall|j: int| 0 <= j < cols@.len() ==> cols@[j] == hint_col(clen as int, hv, j),
                forall|j: int| 0 <= j < cols@.len() ==> cols@[j] < 18 * hint_limit(),
            decreases h@.len() - cols@.len(),
        {
            cols.push(pos);
        }
    }
    cols
}


impl<C: Completion> Prompt<C> {
    /// `new` is this prompt once a completion started with hints `f` (see
    /// `start`), `out` being what was printed.
    pub open spec fn started_as(&self, new: &Self, out: Seq<char>, f: Seq<Seq<char>>) -> bool {
        let st = start(self.s@, self.at as int, self.ps@, f);
        &&& new.s@ == st.line
        &&& new.at == st.point
        &&& out == st.out
        &&& if st.session {
            &&& new.compl matches Some(c)
            &&& strings_view(new.compl->0.hints@) == st.hints
            &&& new.compl->0.in_hint == 0
            &&& new.compl->0.hint_pos@.len() == st.cols.len()
            &&& forall|j: int| 0 <= j < st.cols.len() ==> new.compl->0.hint_pos@[j] == st.cols[j]
        } else {
            new.compl is None
        }
    }

    /// Open a completion session on hints `f` (more than one, `first` the
    /// characters of the first, `common` their common prefix): draw the hint
    /// line, and keep the session.
    #[verifier::rlimit(60)]
    fn open_session(&mut self, out: &mut Vec<char>, f: Vec<String>, first: &[char], common: &[char])
        requires
            old(self).core_ok(),
            old(self).compl is None,
            2 <= f@.len() < hint_limit(),
            first@ == f@[0]@,
            common@ == common_of(strings_view(f@)),
            blen(common@) < hint_limit(),
            forall|k: int| 0 <= k < f@.len() ==> blen(#[trigger] f@[k]@) < hint_limit(),
        ensures
            ({
                let h = session_hints(strings_view(f@), common@);
                &&& final(out)@ == old(out)@ + session_text(common@, h, old(self).ps@, old(self).at as int)
                &&& final(self).compl matches Some(c)
                &&& strings_view(final(self).compl->0.hints@) == h
                &&& final(self).compl->0.in_hint == 0
                &&& final(self).compl->0.hint_pos@.len() == h.len()
                &&& forall|j: int| 0 <= j < h.len() ==> final(self).compl->0.hint_pos@[j] == hint_col(
                    blen(common@) as int,
                    h,
                    j,
                )
            }),
            final(self).keep_compl,
            final(self).core_ok(),
            final(self).s == old(self).s,
            final(self).at == old(self).at,
            final(self).ps == old(self).ps,
            final(self).complete == old(self).complete,
            final(self).pending == old(self).pending,
            final(self).history == old(self).history,
            final(self).in_hist == old(self).in_hist,
    {
        let ghost fv = strings_view(f@);
        let ghost before = out@;
        out.push('\r');
        out.push('\x1b');
        out.push('[');
        out.push('A');
        out.push('\x1b');
        out.push('[');
        out.push('K');
        push_styled(out, '4', common);
        let cs = string_of(common);
        let clen = cs.as_str().as_bytes().len();
        let mut hints = f;
        let differs = !same_chars(first, common);
        if differs {
            hints.insert(0, cs);
        }
        let ghost hv = strings_view(hints@);
        proof {
            if differs {
                assert(hv =~= seq![common@] + fv);
            } else {
                assert(hv =~= fv);
            }
            assert(hv == session_hints(fv, common@));
            assert forall|m: int| 0 <= m < hints@.len() implies blen(#[trigger] hints@[m]@) < hint_limit() by {
                if differs {
                    if m > 0 {
                        assert(hints@[m]@ == fv[m - 1]);
                    }
                } else {
                    assert(hints@[m]@ == fv[m]);
                }
            }
        }
        let cols = push_hint_list(out, &hints, clen);
        out.push('\n');
        out.push('\r');
        let ps = chars_of(self.ps.as_str());
        push_chars(out, ps.as_slice());
        push_right(out, self.at);
        self.compl = Some(ComplSess { hints, in_hint: 0, hint_pos: cols });
        self.keep_compl = true;
        assert(out@ =~= before + session_text(common@, hv, self.ps@, self.at as int));
    }

    /// Start a completion with the hints `raw`: they are sorted, the empty
    /// ones and repeats dropped, then `start` applies.
    #[verifier::rlimit(100)]
    fn complete_start(&mut self, raw: Vec<String>) -> (out: Vec<char>)
        requires
            old(self).core_ok(),
            old(self).compl is None,
            old(self).at <= old(self).s@.len(),
            hints_fit(old(self).s@.len() as int, strings_view(raw@)),
        ensures
            exists|f: Seq<Seq<char>>|
                sorted_strict(f) && f.to_set() == nonempty_of(strings_view(raw@)) && old(self).started_as(
                    &*final(self),
                    out@,
                    f,
                ),
            final(self).core_ok(),
            final(self).compl is Some ==> final(self).keep_compl,
            final(self).compl is None ==> final(self).keep_compl == old(self).keep_compl,
            final(self).ps == old(self).ps,
            final(self).complete == old(self).complete,
            final(self).pending == old(self).pending,
            final(self).history == old(self).history,
            final(self).in_hist == old(self).in_hist,
    {
        reveal(start);
        let (f, fc) = normalize(&raw);
        let ghost fv = strings_view(f@);
        proof {
            assert(chars_view(fc@) =~= fv);
        }
        let at = self.at;
        let mut out: Vec<char> = Vec::new();
        if f.len() == 0 {
            out.push('\x07');
            proof {
                assert(old(self).started_as(&*self, out@, fv));
            }
            return out;
        }
        let common = common_prefix(&fc);
        proof {
            lemma_common_is_prefix(fv);
            lemma_blen_prefix(fv[0], common@.len() as int);
            lemma_blen_ge_len(fv[0]);
            assert(blen(fv[0]) < hint_limit());
        }
        let cl = common_len_of(&self.s, at, &common);
        let ins = common.as_slice().split_at(cl).1;
        assert(ins@ =~= common@.subrange(cl as int, common@.len() as int));
        let k = common.len() - cl;
        if 0 < k {
            push_csi(&mut out, k, '@');
        }
        push_chars(&mut out, ins);
        self.s = splice_vec(&self.s, at, at, ins);
        self.at = at + k;
        if 1 < f.len() {
            self.open_session(&mut out, f, fc[0].as_slice(), common.as_slice());
        }
        proof {
            let st = start(old(self).s@, at as int, old(self).ps@, fv);
            assert(out@ =~= st.out);
            assert(self.s@ =~= st.line);
        }
        assert(old(self).started_as(&*self, out@, fv));
        out
    }
}


/// `hints_fit` computed.
fn hints_fit_of(len: usize, raw: &Vec<String>) -> (r: bool)
    ensures
        r == hints_fit(len as int, strings_view(raw@)),
{
    if len >= 0x400_0000 || raw.len() >= 0x400_0000 {
        return false;
    }
    let mut i: usize = 0;
    while i < raw.len()
        invariant
            0 <= i <= raw@.len(),
            len < hint_limit(),
            raw@.len() < hint_limit(),
            forall|k: int| 0 <= k < i ==> blen(#[trigger] strings_view(raw@)[k]) < hint_limit(),
        decreases raw@.len() - i,
    {
        let st = raw[i].as_str();
        let b = st.as_bytes().len();
        assert(strings_view(raw@)[i as int] == st@);
        if b >= 0x400_0000 {
            return false;
        }
        i += 1;
    }
    true
}

impl<C: Completion> Prompt<C> {
    /// Complete: a step of the session going on (forward for tab), or else
    /// a new completion with the hints of the completion source.
    fn complete(&mut self) -> (out: Vec<char>)
        requires
            old(self).core_ok(),
            old(self).pending@.len() > 0,
            match old(self).compl {
                Some(c) => cycle_ok(old(self).s@, old(self).at as int, c, old(self).pending@[0] == 0x09),
                None => old(self).at <= old(self).s@.len(),
            },
        ensures
            final(self).core_ok(),
            final(self).compl is Some ==> final(self).keep_compl,
            final(self).compl is None ==> final(self).keep_compl == old(self).keep_compl,
            final(self).ps == old(self).ps,
            final(self).complete == old(self).complete,
            final(self).pending == old(self).pending,
            if old(self).compl is Some {
                old(self).cycled_to(&*final(self), out@, old(self).pending@[0] == 0x09)
            } else {
                old(self).completed_to(&*final(self), out@)
            },
    {
        if self.compl.is_some() {
            let fwd = self.pending[0] == 0x09;
            let o = self.complete_cycle(fwd);
            self.keep_compl = true;
            o
        } else {
            let line = string_of(self.s.as_slice());
            let raw = self.complete.hints(line.as_str(), self.at);
            if hints_fit_of(self.s.len(), &raw) {
                let o = self.complete_start(raw);
                proof {
                    assert(hints_fit(old(self).s@.len() as int, strings_view(raw@)));
                }
                o
            } else {
                let mut o: Vec<char> = Vec::new();
                o.push('\x07');
                proof {
                    assert(!hints_fit(old(self).s@.len() as int, strings_view(raw@)));
                    assert(self.s == old(self).s);
                }
                o
            }
        }
    }

    /// Feeding `byte` stays within the line and within `usize`: the edit it
    /// completes does not read or change the line past its end, and a step
    /// of a completion session fits (see `cycle_ok`).
    pub open spec fn feed_ok(&self, byte: u8) -> bool {
        let q = pushed(self.pending@, byte);
        let e = edit_of(q, self.at as int, self.s@.len() as int, self.in_hist as int, self.history@.len() as int);
        &&& edit_ok(self.s@, self.at as int, e, q)
        &&& e is Complete ==> match self.compl {
            Some(c) => cycle_ok(self.s@, self.at as int, c, q[0] == 0x09),
            None => self.at <= self.s@.len(),
        }
    }

    /// `p` is this prompt with pending bytes `pend` and nothing else changed.
    pub open spec fn kept_in(&self, p: &Self, pend: Seq<u8>) -> bool {
        &&& p.pending@ == pend
        &&& p.s == self.s
        &&& p.at == self.at
        &&& p.history == self.history
        &&& p.in_hist == self.in_hist
        &&& p.compl == self.compl
        &&& p.keep_compl == self.keep_compl
        &&& p.ps == self.ps
        &&& p.complete == self.complete
    }

    /// `p` is this prompt after edit `e` of pending bytes `q` (see `edit`),
    /// a completion session going on being closed; `out` is what was
    /// printed.
    pub open spec fn edited_to(&self, p: &Self, out: Seq<char>, e: Edit, q: Seq<u8>) -> bool {
        let ed = edit(self.s@, self.at as int, strings_view(self.history@), self.in_hist as int, self.ps@, e, q);
        &&& p.s@ == ed.line
        &&& p.at == ed.point
        &&& strings_view(p.history@) == ed.hist
        &&& p.in_hist == ed.in_hist
        &&& out == ed.out + (if self.compl is Some {
            clear_hints()
        } else {
            Seq::empty()
        })
        &&& p.compl is None
    }

    /// `p` is this prompt after a step of its completion session (see
    /// `cycle`); `out` is what was printed.
    pub open spec fn cycled_to(&self, p: &Self, out: Seq<char>, fwd: bool) -> bool {
        let c = self.compl->0;
        let cy = cycle(self.s@, self.at as int, self.ps@, strings_view(c.hints@), c.in_hint as int, c.hint_pos@, fwd);
        &&& p.s@ == cy.line
        &&& p.at == cy.point
        &&& out == cy.out
        &&& p.compl matches Some(d) && d.hints == c.hints && d.hint_pos == c.hint_pos && d.in_hint == cy.in_hint
        &&& p.history == self.history
        &&& p.in_hist == self.in_hist
    }

    /// `p` is this prompt after a completion was asked for with no session
    /// going on: for some hints `raw` that the completion source gives for
    /// the line and the point, the
    /// completion started with them (see `start`), or, for hints beyond
    /// `hint_limit`, the bell rang and nothing else happened.
    pub open spec fn completed_to(&self, p: &Self, out: Seq<char>) -> bool {
        &&& p.history == self.history
        &&& p.in_hist == self.in_hist
        &&& exists|raw: Seq<Seq<char>>| #[trigger] self.complete.gives(self.s@, self.at as int, raw) && if hints_fit(self.s@.len() as int, raw) {
            exists|f: Seq<Seq<char>>| sorted_strict(f) && f.to_set() == nonempty_of(raw) && self.started_as(p, out, f)
        } else {
            p.s == self.s && p.at == self.at && p.compl is None && out == seq!['\x07']
        }
    }

    /// What feeding `byte` gives (see `feed`): `r` is the prompt's answer.
    pub open spec fn fed(&self, byte: u8, r: PromptState<C>) -> bool {
        let q = pushed(self.pending@, byte);
        let e = edit_of(q, self.at as int, self.s@.len() as int, self.in_hist as int, self.history@.len() as int);
        if e is Quit || e is Interrupt || ((e is Delete || e is Backspace) && self.at == 0 && self.s@.len() == 0) {
            r is Abort
        } else if e is Accept || e is AcceptAsIs {
            r matches PromptState::Final(t) && t@ == self.s@
        } else if e is Wait || e is Shift {
            r matches PromptState::Again(out, p) && out@.len() == 0 && p.wf() && self.kept_in(
                &p,
                if e is Wait {
                    q
                } else {
                    q.drop_first()
                },
            )
        } else {
            &&& r matches PromptState::Again(out, p)
            &&& r->Again_1.wf()
            &&& r->Again_1.pending@.len() == 0
            &&& !r->Again_1.keep_compl
            &&& r->Again_1.ps == self.ps
            &&& r->Again_1.complete == self.complete
            &&& if e is Complete {
                if self.compl is Some {
                    self.cycled_to(&r->Again_1, r->Again_0@, q[0] == 0x09)
                } else {
                    self.completed_to(&r->Again_1, r->Again_0@)
                }
            } else {
                self.edited_to(&r->Again_1, r->Again_0@, e, q)
            }
        }
    }

    /// Feed a byte of user input. Bytes are gathered until they make a key
    /// (an escape sequence, a control key or a UTF-8 character); the key
    /// then edits the line, moves in the history, completes, accepts the
    /// line (`Final`) or aborts (`Abort`). With `Again`, the text given is
    /// to be printed right away and `feed` called again.
    pub fn feed(self, byte: u8) -> (r: PromptState<C>)
        requires
            self.wf(),
            self.feed_ok(byte),
        ensures
            self.fed(byte, r),
    {
        let mut p = self;
        let ghost q = pushed(p.pending@, byte);
        if p.pending.len() == 7 {
            p.pending.remove(0);
        }
        p.pending.push(byte);
        assert(p.pending@ =~= q);
        let e = edit_for(&p.pending, p.at, p.s.len(), p.in_hist, p.history.len());
        proof {
            lemma_edit_guards(q, p.at as int, p.s@.len() as int, p.in_hist as int, p.history@.len() as int);
        }
        if e == Edit::Quit || e == Edit::Interrupt {
            return PromptState::Abort;
        }
        if e == Edit::Accept || e == Edit::AcceptAsIs {
            return PromptState::Final(string_of(p.s.as_slice()));
        }
        if (e == Edit::Delete || e == Edit::Backspace) && p.at == 0 && p.s.len() == 0 {
            return PromptState::Abort;
        }
        if e == Edit::Wait {
            return PromptState::Again(String::new(), p);
        }
        if e == Edit::Shift {
            p.pending.remove(0);
            assert(p.pending@ =~= q.drop_first());
            return PromptState::Again(String::new(), p);
        }
        let mut out = if e == Edit::Complete {
            p.complete()
        } else {
            p.apply_edit(e)
        };
        p.pending.clear();
        if !p.keep_compl && p.compl.is_some() {
            let ghost o0 = out@;
            out.push('\x1b');
            out.push('[');
            out.push('A');
            out.push('\x1b');
            out.push('[');
            out.push('2');
            out.push('K');
            out.push('\n');
            assert(out@ =~= o0 + clear_hints());
            p.compl = None;
        } else {
            assert(out@ =~= out@ + Seq::<char>::empty());
        }
        p.keep_compl = false;
        PromptState::Again(string_of(out.as_slice()), p)
    }
}

proof fn lemma_delete_key(q: Seq<u8>, at: int, len: int, in_hist: int, hist_len: int)
    requires
        q == seq![0x04u8] || q == seq![0x1bu8, 0x5bu8, 0x33u8, 0x7eu8],
    ensures
        edit_of(q, at, len, in_hist, hist_len) == Edit::Delete,
{
    reveal(edit_of);
    if q.len() == 1 {
        assert(q[0] == 0x04);
        assert(q != seq![0x1bu8, 0x1bu8] && q != seq![0x1bu8, 0x62u8] && q != seq![0x1bu8, 0x64u8]);
        assert(q != seq![0x1bu8, 0x66u8] && q != seq![0x1bu8, 0x7fu8]);
        assert(q != seq![0x01u8]);
        assert(q != seq![0x02u8]);
        assert(q != seq![0x03u8]);
    } else {
        assert(q[0] == 0x1b && q[1] == 0x5b && q.len() == 4);
        assert(q != seq![0x1bu8, 0x1bu8] && q != seq![0x1bu8, 0x62u8] && q != seq![0x1bu8, 0x64u8]);
        assert(q != seq![0x1bu8, 0x66u8] && q != seq![0x1bu8, 0x7fu8]);
    }
}

proof fn lemma_edit_delete(s: Seq<char>, at: int, hist: Seq<Seq<char>>, ih: int, ps: Seq<char>, q: Seq<u8>)
    requires
        0 <= at < s.len(),
    ensures
        edit(s, at, hist, ih, ps, Edit::Delete, q).line == s.remove(at),
        edit(s, at, hist, ih, ps, Edit::Delete, q).point == at,
{
    reveal(edit);
}

/// Deleting forward: with the point inside the line, `^D` (or the Delete
/// key, `ESC [ 3 ~`) takes out exactly the character under the point; the
/// characters before it and after it stay, in order, and the point stays.
pub proof fn delete_takes_char_at_point<C: Completion>(p: Prompt<C>, byte: u8, r: PromptState<C>)
    requires
        p.wf(),
        pushed(p.pending@, byte) == seq![0x04u8] || pushed(p.pending@, byte) == seq![0x1bu8, 0x5bu8, 0x33u8, 0x7eu8],
        p.at < p.s@.len(),
        p.fed(byte, r),
    ensures
        r matches PromptState::Again(_, n) && n.at == p.at && n.s@.len() + 1 == p.s@.len() && n.s@
            == p.s@.subrange(0, p.at as int) + p.s@.subrange(p.at + 1, p.s@.len() as int),
        forall|i: int| 0 <= i < p.at ==> #[trigger] r->Again_1.s@[i] == p.s@[i],
        forall|i: int| p.at <= i < p.s@.len() - 1 ==> #[trigger] r->Again_1.s@[i] == p.s@[i + 1],
{
    let q = pushed(p.pending@, byte);
    lemma_delete_key(q, p.at as int, p.s@.len() as int, p.in_hist as int, p.history@.len() as int);
    lemma_edit_delete(p.s@, p.at as int, strings_view(p.history@), p.in_hist as int, p.ps@, q);
    let n = r->Again_1;
    assert(n.s@ =~= p.s@.subrange(0, p.at as int) + p.s@.subrange(p.at + 1, p.s@.len() as int));
}

/// The edit of a single control byte or printable ASCII byte.
proof fn lemma_edit_of_one(b: u8, at: int, len: int, in_hist: int, hist_len: int)
    ensures
        ({
            let e = edit_of(seq![b], at, len, in_hist, hist_len);
            &&& b == 0x01 && 0 < at ==> e == Edit::Home
            &&& b == 0x02 && 0 < at ==> e == Edit::Left
            &&& b == 0x05 && at < len ==> e == Edit::End
            &&& b == 0x06 && at < len ==> e == Edit::Right
            &&& (b == 0x08 || b == 0x7f) ==> e == Edit::Backspace
            &&& b == 0x0b ==> e == Edit::KillEnd
            &&& b == 0x15 ==> e == Edit::KillStart
            &&& 0x20 <= b <= 0x7e ==> e == Edit::Insert
        }),
{
    reveal(edit_of);
    let q = seq![b];
    assert(q.len() == 1 && q[0] == b);
    assert(forall|x: u8| q == seq![x] <==> b == x) by {
        assert forall|x: u8| b == x implies q == seq![x] by {
            assert(q =~= seq![x]);
        }
    }
}

/// What the moving, killing and typing edits do to the line and the point.
proof fn lemma_edit_effects(s: Seq<char>, at: int, hist: Seq<Seq<char>>, ih: int, ps: Seq<char>, q: Seq<u8>)
    requires
        0 <= at <= s.len(),
    ensures
        ({
            let len = s.len() as int;
            &&& edit(s, at, hist, ih, ps, Edit::Home, q).line == s && edit(s, at, hist, ih, ps, Edit::Home, q).point == 0
            &&& edit(s, at, hist, ih, ps, Edit::Left, q).line == s && edit(s, at, hist, ih, ps, Edit::Left, q).point == at - 1
            &&& edit(s, at, hist, ih, ps, Edit::End, q).line == s && edit(s, at, hist, ih, ps, Edit::End, q).point == len
            &&& edit(s, at, hist, ih, ps, Edit::Right, q).line == s && edit(s, at, hist, ih, ps, Edit::Right, q).point == at + 1
            &&& 0 < at ==> edit(s, at, hist, ih, ps, Edit::Backspace, q).line == s.remove(at - 1) && edit(
                s,
                at,
                hist,
                ih,
                ps,
                Edit::Backspace,
                q,
            ).point == at - 1
            &&& edit(s, at, hist, ih, ps, Edit::KillEnd, q).line == s.subrange(0, at) && edit(s, at, hist, ih, ps, Edit::KillEnd, q).point == at
            &&& edit(s, at, hist, ih, ps, Edit::KillStart, q).line == s.subrange(at, len) && edit(s, at, hist, ih, ps, Edit::KillStart, q).point == 0
            &&& q.len() == 1 && 0x20 <= q[0] <= 0x7e ==> edit(s, at, hist, ih, ps, Edit::Insert, q).line == s.insert(
                at,
                char_of(q[0] as u32),
            ) && edit(s, at, hist, ih, ps, Edit::Insert, q).point == at + 1
        }),
{
    reveal(edit);
    if at == s.len() {
        assert(s.subrange(0, at) =~= s);
    }
}

/// The point keys move the point and leave the line: `^A` to the start,
/// `^B` one character back, `^E` to the end, `^F` one character on, each
/// where there is room to move.
pub proof fn point_keys_move<C: Completion>(p: Prompt<C>, byte: u8, r: PromptState<C>)
    requires
        p.wf(),
        p.pending@.len() == 0,
        p.at <= p.s@.len(),
        p.fed(byte, r),
    ensures
        byte == 0x01 && 0 < p.at ==> (r matches PromptState::Again(_, n) && n.s@ == p.s@ && n.at == 0),
        byte == 0x02 && 0 < p.at ==> (r matches PromptState::Again(_, n) && n.s@ == p.s@ && n.at == p.at - 1),
        byte == 0x05 && p.at < p.s@.len() ==> (r matches PromptState::Again(_, n) && n.s@ == p.s@ && n.at == p.s@.len()),
        byte == 0x06 && p.at < p.s@.len() ==> (r matches PromptState::Again(_, n) && n.s@ == p.s@ && n.at == p.at + 1),
{
    assert(pushed(p.pending@, byte) =~= seq![byte]);
    lemma_edit_of_one(byte, p.at as int, p.s@.len() as int, p.in_hist as int, p.history@.len() as int);
    lemma_edit_effects(p.s@, p.at as int, strings_view(p.history@), p.in_hist as int, p.ps@, seq![byte]);
}

/// Backspace (`^H` or DEL) with the point past the start takes out the
/// character before the point, and the point moves back onto its place.
pub proof fn backspace_takes_char_before_point<C: Completion>(p: Prompt<C>, byte: u8, r: PromptState<C>)
    requires
        p.wf(),
        p.pending@.len() == 0,
        byte == 0x08 || byte == 0x7f,
        0 < p.at <= p.s@.len(),
        p.fed(byte, r),
    ensures
        r matches PromptState::Again(_, n) && n.at == p.at - 1 && n.s@ == p.s@.subrange(0, p.at - 1) + p.s@.subrange(
            p.at as int,
            p.s@.len() as int,
        ),
{
    assert(pushed(p.pending@, byte) =~= seq![byte]);
    lemma_edit_of_one(byte, p.at as int, p.s@.len() as int, p.in_hist as int, p.history@.len() as int);
    lemma_edit_effects(p.s@, p.at as int, strings_view(p.history@), p.in_hist as int, p.ps@, seq![byte]);
    let n = r->Again_1;
    assert(n.s@ =~= p.s@.subrange(0, p.at - 1) + p.s@.subrange(p.at as int, p.s@.len() as int));
}

/// `^K` keeps the line up to the point and `^U` keeps it from the point
/// on, the point going to the start.
pub proof fn kill_keys_cut_at_point<C: Completion>(p: Prompt<C>, byte: u8, r: PromptState<C>)
    requires
        p.wf(),
        p.pending@.len() == 0,
        byte == 0x0b || byte == 0x15,
        p.at <= p.s@.len(),
        p.fed(byte, r),
    ensures
        byte == 0x0b ==> (r matches PromptState::Again(_, n) && n.at == p.at && n.s@ == p.s@.subrange(0, p.at as int)),
        byte == 0x15 ==> (r matches PromptState::Again(_, n) && n.at == 0 && n.s@ == p.s@.subrange(
            p.at as int,
            p.s@.len() as int,
        )),
{
    assert(pushed(p.pending@, byte) =~= seq![byte]);
    lemma_edit_of_one(byte, p.at as int, p.s@.len() as int, p.in_hist as int, p.history@.len() as int);
    lemma_edit_effects(p.s@, p.at as int, strings_view(p.history@), p.in_hist as int, p.ps@, seq![byte]);
}

/// Typing a printable ASCII character puts it in the line at the point,
/// the characters before and after the point staying in order, and moves
/// the point past it.
pub proof fn typing_inserts_at_point<C: Completion>(p: Prompt<C>, byte: u8, r: PromptState<C>)
    requires
        p.wf(),
        p.pending@.len() == 0,
        0x20 <= byte <= 0x7e,
        p.at <= p.s@.len(),
        p.fed(byte, r),
    ensures
        r matches PromptState::Again(_, n) && n.at == p.at + 1 && n.s@.len() == p.s@.len() + 1 && n.s@[p.at as int]
            as u32 == byte as u32 && n.s@.subrange(0, p.at as int) == p.s@.subrange(0, p.at as int) && n.s@.subrange(
            p.at + 1,
            n.s@.len() as int,
        ) == p.s@.subrange(p.at as int, p.s@.len() as int),
{
    assert(pushed(p.pending@, byte) =~= seq![byte]);
    lemma_edit_of_one(byte, p.at as int, p.s@.len() as int, p.in_hist as int, p.history@.len() as int);
    lemma_edit_effects(p.s@, p.at as int, strings_view(p.history@), p.in_hist as int, p.ps@, seq![byte]);
    let c = char_of(byte as u32);
    assert(code(byte as char) == byte as u32);
    assert(code(c) == byte as u32);
    let n = r->Again_1;
    assert(n.s@ == p.s@.insert(p.at as int, c));
    assert(n.s@.subrange(0, p.at as int) =~= p.s@.subrange(0, p.at as int));
    assert(n.s@.subrange(p.at + 1, n.s@.len() as int) =~= p.s@.subrange(p.at as int, p.s@.len() as int));
}

} // verus!
