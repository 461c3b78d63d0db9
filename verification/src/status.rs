use vstd::prelude::*;
use vstd::utf8::encode_utf8;
use crate::readline::{blen, lemma_blen_ge_len};
use crate::keys::{Key, KeyCode};
use crate::line::Message;
use crate::prompt::strings_view;
use crate::line::{arg_upto, asked_names, char_slice_spec, split_args_spec};
use crate::text::{is_ascii_alphanumeric_spec, is_ascii_whitespace_spec, is_whitespace, is_whitespace_spec};

verus! {

/// UTF-8 of a concatenation is the concatenation of the UTF-8.
pub proof fn lemma_blen_concat(s: Seq<char>, u: Seq<char>)
    ensures
        blen(s + u) == blen(s) + blen(u),
    decreases s.len(),
{
    if s.len() > 0 {
        assert((s + u).drop_first() =~= s.drop_first() + u);
        assert((s + u)[0] == s[0]);
        lemma_blen_concat(s.drop_first(), u);
    } else {
        assert(s + u =~= u);
    }
}

/// Where character `k` of `t` starts, in bytes.
pub open spec fn bpos(t: Seq<char>, k: int) -> int {
    blen(t.subrange(0, k)) as int
}

/// The character index at byte `b` of `t`, if a character starts there
/// (or `t` ends there).
pub open spec fn at_byte(t: Seq<char>, b: int) -> Option<int> {
    if exists|k: int| 0 <= k <= t.len() && #[trigger] bpos(t, k) == b {
        Some(choose|k: int| 0 <= k <= t.len() && #[trigger] bpos(t, k) == b)
    } else {
        None
    }
}

/// Each character moves the byte position on by its width (at least one).
pub proof fn lemma_bpos_step(t: Seq<char>, k: int)
    requires
        0 <= k < t.len(),
    ensures
        bpos(t, k + 1) == bpos(t, k) + blen(seq![t[k]]),
        blen(seq![t[k]]) >= 1,
{
    assert(t.subrange(0, k + 1) =~= t.subrange(0, k) + seq![t[k]]);
    lemma_blen_concat(t.subrange(0, k), seq![t[k]]);
    lemma_blen_ge_len(seq![t[k]]);
}

/// Byte positions grow with the character index.
pub proof fn lemma_bpos_mono(t: Seq<char>, j: int, k: int)
    requires
        0 <= j < k <= t.len(),
    ensures
        bpos(t, j) < bpos(t, k),
    decreases k - j,
{
    lemma_bpos_step(t, j);
    if j + 1 < k {
        lemma_bpos_mono(t, j + 1, k);
    }
}

/// The width of `c` in UTF-8.
pub fn char_width(c: char) -> (w: usize)
    ensures
        w == blen(seq![c]),
        1 <= w <= 4,
{
    proof {
        vstd::utf8::char_is_scalar(c);
        assert(seq![c].drop_first() =~= Seq::<char>::empty());
        assert(encode_utf8(seq![c]) == vstd::utf8::encode_scalar(c as u32) + encode_utf8(seq![c].drop_first()));
        assert(encode_utf8(Seq::<char>::empty()) =~= Seq::<u8>::empty());
    }
    let u = c as u32;
    if u <= 0x7f {
        1
    } else if u <= 0x7ff {
        2
    } else if u <= 0xffff {
        3
    } else {
        4
    }
}

/// `at_byte` computed.
pub fn char_at_byte(t: &[char], b: usize) -> (r: Option<usize>)
    ensures
        match at_byte(t@, b as int) {
            Some(k) => r == Some(k as usize),
            None => r is None,
        },
{
    let mut k: usize = 0;
    let mut pos: usize = 0;
    assert(t@.subrange(0, 0) =~= Seq::<char>::empty());
    while k < t.len() && pos < b
        invariant
            0 <= k <= t@.len(),
            pos == bpos(t@, k as int),
            pos <= b || k == 0,
            forall|j: int| 0 <= j < k ==> bpos(t@, j) < b,
        decreases t@.len() - k,
    {
        let w = char_width(t[k]);
        proof {
            lemma_bpos_step(t@, k as int);
        }
        if w > b - pos {
            proof {
                assert forall|j: int| 0 <= j <= t@.len() implies #[trigger] bpos(t@, j) != b by {
                    if j <= k {
                    } else {
                        lemma_bpos_step(t@, k as int);
                        if k + 1 < j {
                            lemma_bpos_mono(t@, k + 1, j);
                        }
                    }
                }
            }
            return None;
        }
        pos = pos + w;
        k += 1;
    }
    if pos == b {
        proof {
            let w = choose|j: int| 0 <= j <= t@.len() && #[trigger] bpos(t@, j) == b as int;
            if w < k {
                lemma_bpos_mono(t@, w, k as int);
            } else if w > k {
                lemma_bpos_mono(t@, k as int, w);
            }
        }
        Some(k)
    } else {
        proof {
            assert forall|j: int| 0 <= j <= t@.len() implies #[trigger] bpos(t@, j) != b by {
                if j < k {
                } else if j > k {
                    lemma_bpos_mono(t@, k as int, j);
                }
            }
        }
        None
    }
}

/// The kind of character a text object looks at.
#[derive(Clone, Copy, PartialEq, Eq, Structural)]
pub enum Class {
    Alnum,
    Blank,
}

/// Whether `c` is of the kind (ASCII alphanumeric, or ASCII white space).
pub open spec fn of_class(c: char, k: Class) -> bool {
    match k {
        Class::Alnum => is_ascii_alphanumeric_spec(c),
        Class::Blank => is_ascii_whitespace_spec(c),
    }
}

/// Whether `c` is of the kind, computed.
fn in_class(c: char, k: Class) -> (b: bool)
    ensures
        b == of_class(c, k),
{
    match k {
        Class::Alnum => ('0' <= c && c <= '9') || ('a' <= c && c <= 'z') || ('A' <= c && c <= 'Z'),
        Class::Blank => c == ' ' || c == '\t' || c == '\n' || c == '\x0c' || c == '\r',
    }
}

/// The first index from `from` on whose character is (`want`) or is not of
/// the kind.
#[verifier::opaque]
pub open spec fn first_in(t: Seq<char>, from: int, k: Class, want: bool) -> Option<int> {
    if exists|j: int| from <= j < t.len() && 0 <= j && of_class(#[trigger] t[j], k) == want {
        Some(
            choose|j: int|
                from <= j < t.len() && 0 <= j && of_class(#[trigger] t[j], k) == want && forall|i: int|
                    from <= i < j && 0 <= i ==> of_class(t[i], k) != want,
        )
    } else {
        None
    }
}

/// The last index below `below` whose character is (`want`) or is not of
/// the kind.
#[verifier::opaque]
pub open spec fn last_in(t: Seq<char>, below: int, k: Class, want: bool) -> Option<int> {
    if exists|j: int| 0 <= j < below && j < t.len() && of_class(#[trigger] t[j], k) == want {
        Some(
            choose|j: int|
                0 <= j < below && j < t.len() && of_class(#[trigger] t[j], k) == want && forall|i: int|
                    j < i < below && i < t.len() ==> of_class(t[i], k) != want,
        )
    } else {
        None
    }
}

/// `first_in` computed.
fn first_of(t: &Vec<char>, from: usize, k: Class, want: bool) -> (r: Option<usize>)
    ensures
        match first_in(t@, from as int, k, want) {
            Some(j) => from <= j < t@.len() && r == Some(j as usize),
            None => r is None,
        },
{
    reveal(first_in);
    let mut j = from;
    while j < t.len()
        invariant
            from <= j,
            forall|i: int| from <= i < j && i < t@.len() ==> of_class(t@[i], k) != want,
        decreases t@.len() - j,
    {
        if in_class(t[j], k) == want {
            proof {
                reveal(first_in);
                let w = choose|w: int|
                    from <= w < t@.len() && 0 <= w && of_class(#[trigger] t@[w], k) == want && forall|i: int|
                        from <= i < w && 0 <= i ==> of_class(t@[i], k) != want;
                assert(w == j) by {
                    if w < j {
                        assert(of_class(t@[w], k) != want);
                    } else if w > j {
                        assert(of_class(t@[j as int], k) != want);
                    }
                }
            }
            return Some(j);
        }
        j += 1;
    }
    None
}

/// `last_in` computed.
fn last_of(t: &Vec<char>, below: usize, k: Class, want: bool) -> (r: Option<usize>)
    ensures
        match last_in(t@, below as int, k, want) {
            Some(j) => 0 <= j < below && j < t@.len() && r == Some(j as usize),
            None => r is None,
        },
{
    reveal(last_in);
    let mut j: usize = if below < t.len() {
        below
    } else {
        t.len()
    };
    while j > 0
        invariant
            j <= below,
            j <= t@.len(),
            forall|i: int| j <= i < below && i < t@.len() ==> of_class(t@[i], k) != want,
        decreases j,
    {
        j -= 1;
        if in_class(t[j], k) == want {
            proof {
                reveal(last_in);
                let w = choose|w: int|
                    0 <= w < below && w < t@.len() && of_class(#[trigger] t@[w], k) == want && forall|i: int|
                        w < i < below && i < t@.len() ==> of_class(t@[i], k) != want;
                assert(w == j) by {
                    if w < j {
                        assert(of_class(t@[j as int], k) != want);
                    } else if w > j {
                        assert(of_class(t@[w], k) != want);
                    }
                }
            }
            return Some(j);
        }
    }
    None
}

/// The text objects the editing keys act on.
#[derive(Clone, Copy, PartialEq, Eq, Structural)]
pub enum TextObject {
    CharForward,
    CharBackward,
    WordForward,
    WordBackward,
    ExactWordForward,
    ExactWordBackward,
    ShellWordForward,
    ShellWordBackward,
    EndForward,
    EndBackward,
}

/// The range `(a, b)` that text object `to` covers in `t` from position
/// `p` (character positions; where the text runs out, the byte length `bl`
/// of `t` stands for the end).
pub open spec fn object(t: Seq<char>, bl: int, p: int, to: TextObject) -> (int, int) {
    match to {
        TextObject::CharForward => if p < bl {
            (p, p + 1)
        } else {
            (p, p)
        },
        TextObject::CharBackward => if 0 < p {
            (p - 1, p)
        } else {
            (p, p)
        },
        TextObject::WordForward => match first_in(t, p, Class::Alnum, true) {
            Some(s) => match first_in(t, s + 1, Class::Alnum, false) {
                Some(e) => (p, e),
                None => (p, bl),
            },
            None => (p, bl),
        },
        TextObject::WordBackward => match last_in(t, p, Class::Alnum, true) {
            Some(s) => match last_in(t, s, Class::Alnum, false) {
                Some(b) => (b + 1, p),
                None => (0, p),
            },
            None => (0, p),
        },
        TextObject::ExactWordForward => match first_in(t, p, Class::Alnum, true) {
            Some(beg) => match first_in(t, beg + 1, Class::Alnum, false) {
                Some(end) => (beg, end),
                None => (beg, bl),
            },
            None => (p, bl),
        },
        TextObject::ExactWordBackward => match last_in(t, p, Class::Alnum, true) {
            Some(end) => match last_in(t, end, Class::Alnum, false) {
                Some(beg) => (beg, end),
                None => (0, end),
            },
            None => (0, p),
        },
        TextObject::ShellWordForward => match first_in(t, p, Class::Blank, false) {
            Some(s) => match first_in(t, s + 1, Class::Blank, true) {
                Some(e) => (p, e),
                None => (p, bl),
            },
            None => (p, bl),
        },
        TextObject::ShellWordBackward => match last_in(t, p, Class::Blank, false) {
            Some(s) => match last_in(t, s, Class::Blank, true) {
                Some(b) => (b + 1, p),
                None => (0, p),
            },
            None => (0, p),
        },
        TextObject::EndForward => (p, bl),
        TextObject::EndBackward => (0, p),
    }
}

/// `object` for the objects that look forward from `p`.
fn object_forward(t: &Vec<char>, bl: usize, p: usize, to: TextObject) -> (r: (usize, usize))
    requires
        t@.len() <= bl,
        to is WordForward || to is ShellWordForward || to is ExactWordForward,
    ensures
        (r.0 as int, r.1 as int) == object(t@, bl as int, p as int, to),
{
    let (k, w) = if to == TextObject::ShellWordForward {
        (Class::Blank, false)
    } else {
        (Class::Alnum, true)
    };
    match first_of(t, p, k, w) {
        Some(s) => match first_of(t, s + 1, k, !w) {
            Some(e) => if to == TextObject::ExactWordForward {
                (s, e)
            } else {
                (p, e)
            },
            None => if to == TextObject::ExactWordForward {
                (s, bl)
            } else {
                (p, bl)
            },
        },
        None => (p, bl),
    }
}

/// `object` for the objects that look backward from `p`.
fn object_backward(t: &Vec<char>, p: usize, to: TextObject) -> (r: (usize, usize))
    requires
        to is WordBackward || to is ShellWordBackward || to is ExactWordBackward,
    ensures
        forall|bl: int| (r.0 as int, r.1 as int) == #[trigger] object(t@, bl, p as int, to),
{
    let (k, w) = if to == TextObject::ShellWordBackward {
        (Class::Blank, false)
    } else {
        (Class::Alnum, true)
    };
    match last_of(t, p, k, w) {
        Some(s) => match last_of(t, s, k, !w) {
            Some(b) => if to == TextObject::ExactWordBackward {
                (b, s)
            } else {
                (b + 1, p)
            },
            None => if to == TextObject::ExactWordBackward {
                (0, s)
            } else {
                (0, p)
            },
        },
        None => (0, p),
    }
}

/// `object` computed.
pub fn object_range(t: &Vec<char>, bl: usize, p: usize, to: TextObject) -> (r: (usize, usize))
    requires
        t@.len() <= bl,
    ensures
        (r.0 as int, r.1 as int) == object(t@, bl as int, p as int, to),
{
    match to {
        TextObject::CharForward => if p < bl {
            (p, p + 1)
        } else {
            (p, p)
        },
        TextObject::CharBackward => if 0 < p {
            (p - 1, p)
        } else {
            (p, p)
        },
        TextObject::WordForward | TextObject::ShellWordForward | TextObject::ExactWordForward => object_forward(
            t,
            bl,
            p,
            to,
        ),
        TextObject::WordBackward | TextObject::ShellWordBackward | TextObject::ExactWordBackward => {
            let r = object_backward(t, p, to);
            assert((r.0 as int, r.1 as int) == object(t@, bl as int, p as int, to));
            r
        },
        TextObject::EndForward => (p, bl),
        TextObject::EndBackward => (0, p),
    }
}


/// What `char::to_uppercase` gives for `c` (Unicode's upper case of it).
pub uninterp spec fn upper_char(c: char) -> Seq<char>;

/// What `str::to_lowercase` gives for `s` (Unicode's lower case of it).
pub uninterp spec fn lower_str(s: Seq<char>) -> Seq<char>;

/// What `str::to_uppercase` gives for `s` (Unicode's upper case of it).
pub uninterp spec fn upper_str(s: Seq<char>) -> Seq<char>;

/// `char::to_uppercase`, as a string: its result is named `upper_char`;
/// Unicode's case tables are not restated here.
#[verifier::external_body]
fn char_upper(c: char) -> (s: String)
    ensures
        s@ == upper_char(c),
{
    c.to_uppercase().to_string()
}

/// `str::to_lowercase`: its result is named `lower_str`; Unicode's case
/// tables are not restated here.
#[verifier::external_body]
fn str_lower(s: &str) -> (r: String)
    ensures
        r@ == lower_str(s@),
{
    s.to_lowercase()
}

/// `str::to_uppercase`: its result is named `upper_str`; Unicode's case
/// tables are not restated here.
#[verifier::external_body]
fn str_upper(s: &str) -> (r: String)
    ensures
        r@ == upper_str(s@),
{
    s.to_uppercase()
}

/// The line being edited, its cursor, the kill ring, the history and the
/// place in it.
pub struct Ed {
    pub t: Seq<char>,
    pub c: int,
    pub kr: Seq<char>,
    pub hist: Seq<Seq<char>>,
    pub loc: int,
}

/// The byte length of `t`.
pub open spec fn bl(t: Seq<char>) -> int {
    blen(t) as int
}

/// Bytes `a` to `b` of `t` can be replaced: in order, both on character
/// starts (or the end).
pub open spec fn range_ok(t: Seq<char>, a: int, b: int) -> bool {
    a <= b && at_byte(t, a) is Some && at_byte(t, b) is Some
}

/// `t` with bytes `a` to `b` replaced by `s`.
pub open spec fn replaced(t: Seq<char>, a: int, b: int, s: Seq<char>) -> Seq<char> {
    t.subrange(0, at_byte(t, a)->0) + s + t.subrange(at_byte(t, b)->0, t.len() as int)
}

/// The character that starts at byte `b` of `t` is the one found there.
proof fn lemma_at_byte_of(t: Seq<char>, k: int, b: int)
    requires
        0 <= k <= t.len(),
        bpos(t, k) == b,
    ensures
        at_byte(t, b) == Some(k),
{
    let j = at_byte(t, b)->0;
    if j < k {
        lemma_bpos_mono(t, j, k);
    } else if k < j {
        lemma_bpos_mono(t, k, j);
    }
}

/// Ctrl-u kills from the start of the line to the cursor: with the cursor
/// at the start of character `k`, the line keeps its characters from `k`
/// on, the cursor goes to the start, the killed characters go in front of
/// the kill ring, and the history is untouched.
pub proof fn ctrl_u_kills_to_line_start(e: Ed, k: int)
    requires
        0 <= k <= e.t.len(),
        bpos(e.t, k) == e.c,
    ensures
        on_key(e, KeyEvent { code: KeyCode::Char('u'), ctrl: true, alt: false }) matches Act::Edit(n) && n.t
            == e.t.subrange(k, e.t.len() as int) && n.c == 0 && n.hist == e.hist && n.loc == e.loc && n.kr
            == e.t.subrange(0, if e.c < e.t.len() { e.c } else { e.t.len() as int }) + e.kr,
{
    let t = e.t;
    assert(t.subrange(0, 0) =~= Seq::<char>::empty());
    assert(bpos(t, 0) == 0) by {
        assert(encode_utf8(Seq::<char>::empty()) =~= Seq::<u8>::empty());
    }
    lemma_at_byte_of(t, 0, 0);
    lemma_at_byte_of(t, k, e.c);
    if k == 0 {
        assert(e.c == 0);
    } else {
        lemma_bpos_mono(t, 0, k);
    }
    let u = on_key(e, KeyEvent { code: KeyCode::Char('u'), ctrl: true, alt: false })->Edit_0;
    assert(u.t =~= t.subrange(k, t.len() as int));
    if 0 < e.c {
        assert(u.kr =~= t.subrange(0, if e.c < t.len() { e.c } else { t.len() as int }) + e.kr);
    } else {
        assert(u.kr =~= t.subrange(0, 0) + e.kr);
    }
}

/// Ctrl-k kills from the cursor to the end of the line: with the cursor
/// at the start of character `k`, the line keeps its characters before
/// `k`, the cursor stays, the killed characters go at the end of the kill
/// ring, and the history is untouched.
pub proof fn ctrl_k_kills_to_line_end(e: Ed, k: int)
    requires
        0 <= k <= e.t.len(),
        bpos(e.t, k) == e.c,
    ensures
        on_key(e, KeyEvent { code: KeyCode::Char('k'), ctrl: true, alt: false }) matches Act::Edit(n) && n.t
            == e.t.subrange(0, k) && n.c == e.c && n.hist == e.hist && n.loc == e.loc && n.kr == e.kr + (if e.c
            < e.t.len() {
            e.t.subrange(e.c, e.t.len() as int)
        } else {
            Seq::empty()
        }),
{
    let t = e.t;
    let len = t.len() as int;
    assert(t.subrange(0, len) =~= t);
    lemma_blen_ge_len(t);
    lemma_at_byte_of(t, k, e.c);
    lemma_at_byte_of(t, len, bl(t));
    if k < len {
        lemma_bpos_mono(t, k, len);
    }
    let n = on_key(e, KeyEvent { code: KeyCode::Char('k'), ctrl: true, alt: false })->Edit_0;
    assert(n.t =~= t.subrange(0, k));
    if e.c < len {
        assert(n.kr =~= e.kr + t.subrange(e.c, len));
    } else {
        assert(n.kr =~= e.kr + Seq::<char>::empty());
    }
}

/// Ctrl-y puts the kill ring back at the cursor, which moves past it: with
/// the cursor at the start of character `k`, the line is its characters
/// before `k`, the kill ring, then the rest; the kill ring stays.
pub proof fn ctrl_y_yanks_at_cursor(e: Ed, k: int)
    requires
        0 <= k <= e.t.len(),
        bpos(e.t, k) == e.c,
    ensures
        on_key(e, KeyEvent { code: KeyCode::Char('y'), ctrl: true, alt: false }) matches Act::Edit(n) && n.t
            == e.t.subrange(0, k) + e.kr + e.t.subrange(k, e.t.len() as int) && n.c == e.c + bl(e.kr) && n.kr
            == e.kr && n.hist == e.hist && n.loc == e.loc,
{
    lemma_at_byte_of(e.t, k, e.c);
}

/// Move forward to the end of text object `to`.
pub open spec fn ed_forward(e: Ed, to: TextObject) -> Ed {
    Ed { c: object(e.t, bl(e.t), e.c, to).1, ..e }
}

/// Move back to the start of text object `to`.
pub open spec fn ed_backward(e: Ed, to: TextObject) -> Ed {
    Ed { c: object(e.t, bl(e.t), e.c, to).0, ..e }
}

/// Kill text object `to`: its characters go to the kill ring (in front
/// when killing backward), the cursor to its start.
pub open spec fn ed_kill(e: Ed, to: TextObject) -> Ed {
    let (a, b) = object(e.t, bl(e.t), e.c, to);
    let piece = char_slice_spec(e.t, a, b);
    Ed {
        t: replaced(e.t, a, b, Seq::empty()),
        c: a,
        kr: if a < e.c {
            piece + e.kr
        } else {
            e.kr + piece
        },
        ..e
    }
}

/// Swap text objects `l` (before the cursor) and `r` (after it); the
/// cursor goes to the end of `r`.
pub open spec fn ed_trans(e: Ed, l: TextObject, r: TextObject) -> Ed {
    let (la, lb) = object(e.t, bl(e.t), e.c, l);
    let (ra, rb) = object(e.t, bl(e.t), e.c, r);
    let t1 = replaced(e.t, ra, rb, char_slice_spec(e.t, la, lb));
    Ed { t: replaced(t1, la, lb, char_slice_spec(e.t, ra, rb)), c: rb, ..e }
}

/// Whether swapping stays on character starts.
pub open spec fn trans_ok(e: Ed, l: TextObject, r: TextObject) -> bool {
    let (la, lb) = object(e.t, bl(e.t), e.c, l);
    let (ra, rb) = object(e.t, bl(e.t), e.c, r);
    let t1 = replaced(e.t, ra, rb, char_slice_spec(e.t, la, lb));
    range_ok(e.t, ra, rb) && range_ok(t1, la, lb)
}

/// Capitalize the word at or after the cursor: its first character in
/// upper case, the rest in lower case; the cursor goes after it.
pub open spec fn ed_capitalize(e: Ed) -> Ed {
    let (a, b) = object(e.t, bl(e.t), e.c, TextObject::ExactWordForward);
    if a < b {
        let w = char_slice_spec(e.t, a, b);
        let t1 = replaced(e.t, a, a + 1, upper_char(w[0]));
        Ed { t: replaced(t1, a + 1, b, lower_str(w.drop_first())), c: b, ..e }
    } else {
        e
    }
}

/// Whether capitalizing has a first character to take and stays on
/// character starts.
pub open spec fn capitalize_ok(e: Ed) -> bool {
    let (a, b) = object(e.t, bl(e.t), e.c, TextObject::ExactWordForward);
    let w = char_slice_spec(e.t, a, b);
    let t1 = replaced(e.t, a, a + 1, upper_char(w[0]));
    a < b ==> a < e.t.len() && range_ok(e.t, a, a + 1) && range_ok(t1, a + 1, b)
}

/// Put from the cursor to the end of the word after it in lower (or upper)
/// case; the cursor goes after it.
pub open spec fn ed_case(e: Ed, upper: bool) -> Ed {
    let b = object(e.t, bl(e.t), e.c, TextObject::WordForward).1;
    let piece = char_slice_spec(e.t, e.c, b);
    Ed {
        t: replaced(e.t, e.c, b, if upper { upper_str(piece) } else { lower_str(piece) }),
        c: b,
        ..e
    }
}

/// Show history entry `k`.
pub open spec fn ed_show(e: Ed, k: int) -> Ed {
    Ed { t: e.hist[k], c: e.hist[k].len() as int, loc: k, ..e }
}

/// What a key does to the prompt.
pub enum Act {
    Edit(Ed),
    Accept(bool),
    Abort,
    Complete,
    Stop,
}

/// Which key it is, with the control and alt modifiers held.
#[derive(Clone, Copy)]
pub struct KeyEvent {
    pub code: KeyCode,
    pub ctrl: bool,
    pub alt: bool,
}

/// What key `k` does to the prompt `e` (see the keys below); `Accept(true)`
/// keeps the place in the history, `Stop` is a key the prompt cannot take.
pub open spec fn on_key(e: Ed, k: KeyEvent) -> Act {
    let both = k.ctrl && k.alt;
    let either = k.ctrl || k.alt;
    match k.code {
        KeyCode::Char(c) => if both {
            if c == 'b' {
                Act::Edit(ed_backward(e, TextObject::ShellWordBackward))
            } else if c == 'd' {
                Act::Edit(ed_kill(e, TextObject::ShellWordForward))
            } else if c == 'f' {
                Act::Edit(ed_forward(e, TextObject::ShellWordForward))
            } else if c == 'h' {
                Act::Edit(ed_kill(e, TextObject::ShellWordBackward))
            } else {
                Act::Edit(e)
            }
        } else if k.ctrl {
            if c == 'a' {
                Act::Edit(Ed { c: 0, ..e })
            } else if c == 'b' {
                Act::Edit(ed_backward(e, TextObject::CharBackward))
            } else if c == 'c' || c == 'g' {
                Act::Abort
            } else if c == 'd' {
                Act::Edit(ed_kill(e, TextObject::CharForward))
            } else if c == 'e' {
                Act::Edit(Ed { c: e.t.len() as int, ..e })
            } else if c == 'f' {
                Act::Edit(ed_forward(e, TextObject::CharForward))
            } else if c == 'h' {
                Act::Edit(ed_kill(e, TextObject::CharBackward))
            } else if c == 'i' {
                Act::Complete
            } else if c == 'j' || c == 'm' {
                Act::Accept(false)
            } else if c == 'k' {
                Act::Edit(ed_kill(e, TextObject::EndForward))
            } else if c == 'n' {
                Act::Edit(if e.loc + 1 < e.hist.len() { ed_show(e, e.loc + 1) } else { e })
            } else if c == 'o' {
                Act::Accept(true)
            } else if c == 'p' {
                Act::Edit(if 0 < e.loc { ed_show(e, e.loc - 1) } else { e })
            } else if c == 'r' {
                Act::Stop
            } else if c == 't' {
                Act::Edit(ed_trans(e, TextObject::CharBackward, TextObject::CharForward))
            } else if c == 'u' {
                Act::Edit(ed_kill(e, TextObject::EndBackward))
            } else if c == 'w' {
                Act::Edit(ed_kill(e, TextObject::ShellWordBackward))
            } else if c == 'y' {
                Act::Edit(Ed { t: replaced(e.t, e.c, e.c, e.kr), c: e.c + bl(e.kr), ..e })
            } else {
                Act::Edit(e)
            }
        } else if k.alt {
            if c == 'b' {
                Act::Edit(ed_backward(e, TextObject::WordBackward))
            } else if c == 'c' {
                Act::Edit(ed_capitalize(e))
            } else if c == 'd' {
                Act::Edit(ed_kill(e, TextObject::WordForward))
            } else if c == 'f' {
                Act::Edit(ed_forward(e, TextObject::WordForward))
            } else if c == 'l' {
                Act::Edit(ed_case(e, false))
            } else if c == 't' {
                Act::Edit(ed_trans(e, TextObject::ExactWordBackward, TextObject::ExactWordForward))
            } else if c == 'u' {
                Act::Edit(ed_case(e, true))
            } else if c == '<' {
                Act::Edit(ed_show(e, 0))
            } else if c == '>' {
                Act::Edit(Ed { t: Seq::empty(), c: 0, loc: e.hist.len() as int, ..e })
            } else {
                Act::Edit(e)
            }
        } else {
            Act::Edit(Ed { t: replaced(e.t, e.c, e.c, seq![c]), c: e.c + 1, ..e })
        },
        KeyCode::Backspace => Act::Edit(
            ed_kill(e, if k.alt { TextObject::WordBackward } else { TextObject::CharBackward }),
        ),
        KeyCode::Delete => Act::Edit(
            ed_kill(e, if k.ctrl { TextObject::WordForward } else { TextObject::CharForward }),
        ),
        KeyCode::Left => Act::Edit(
            ed_backward(e, if either { TextObject::WordBackward } else { TextObject::CharBackward }),
        ),
        KeyCode::Right => Act::Edit(
            ed_forward(e, if either { TextObject::WordForward } else { TextObject::CharForward }),
        ),
        KeyCode::Home => Act::Edit(Ed { c: 0, ..e }),
        KeyCode::End => Act::Edit(Ed { c: e.t.len() as int, ..e }),
        KeyCode::Down | KeyCode::PageDown => Act::Edit(
            if e.loc + 1 < e.hist.len() {
                ed_show(e, e.loc + 1)
            } else {
                e
            },
        ),
        KeyCode::Up | KeyCode::PageUp => Act::Edit(
            if 0 < e.loc {
                ed_show(e, e.loc - 1)
            } else {
                e
            },
        ),
        KeyCode::Tab => Act::Complete,
        KeyCode::Enter => Act::Accept(false),
        KeyCode::Esc => if k.alt {
            Act::Complete
        } else {
            Act::Abort
        },
        _ => Act::Edit(e),
    }
}

/// Whether the byte ranges key `k` edits lie on character starts (and the
/// cursor stays within `usize`), so that it can edit the prompt `e`.
pub open spec fn key_ok(e: Ed, k: KeyEvent) -> bool {
    let kill_ok = |to: TextObject| {
        let (a, b) = object(e.t, bl(e.t), e.c, to);
        range_ok(e.t, a, b)
    };
    match k.code {
        KeyCode::Char(c) => if k.ctrl && k.alt {
            (c == 'd' ==> kill_ok(TextObject::ShellWordForward)) && (c == 'h' ==> kill_ok(
                TextObject::ShellWordBackward,
            ))
        } else if k.ctrl {
            &&& c == 'd' ==> kill_ok(TextObject::CharForward)
            &&& c == 'h' ==> kill_ok(TextObject::CharBackward)
            &&& c == 'k' ==> kill_ok(TextObject::EndForward)
            &&& c == 'r' ==> false
            &&& c == 't' ==> trans_ok(e, TextObject::CharBackward, TextObject::CharForward)
            &&& c == 'u' ==> kill_ok(TextObject::EndBackward)
            &&& c == 'w' ==> kill_ok(TextObject::ShellWordBackward)
            &&& c == 'y' ==> at_byte(e.t, e.c) is Some
        } else if k.alt {
            &&& c == 'c' ==> capitalize_ok(e)
            &&& c == 'd' ==> kill_ok(TextObject::WordForward)
            &&& c == 'l' || c == 'u' ==> range_ok(e.t, e.c, object(e.t, bl(e.t), e.c, TextObject::WordForward).1)
            &&& c == 't' ==> trans_ok(e, TextObject::ExactWordBackward, TextObject::ExactWordForward)
            &&& c == '<' ==> e.hist.len() > 0
        } else {
            at_byte(e.t, e.c) is Some
        },
        KeyCode::Backspace => kill_ok(if k.alt { TextObject::WordBackward } else { TextObject::CharBackward }),
        KeyCode::Delete => kill_ok(if k.ctrl { TextObject::WordForward } else { TextObject::CharForward }),
        _ => true,
    }
}


/// `t` with the characters from `a` to `b` replaced by `s`.
fn replace_chars(t: &Vec<char>, a: usize, b: usize, s: &[char]) -> (r: Vec<char>)
    requires
        a <= b <= t@.len(),
    ensures
        r@ == t@.subrange(0, a as int) + s@ + t@.subrange(b as int, t@.len() as int),
{
    let mut r: Vec<char> = Vec::new();
    let mut i: usize = 0;
    while i < a
        invariant
            a <= b <= t@.len(),
            0 <= i <= a,
            r@ == t@.subrange(0, i as int),
        decreases a - i,
    {
        r.push(t[i]);
        assert(t@.subrange(0, i + 1) =~= t@.subrange(0, i as int).push(t@[i as int]));
        i += 1;
    }
    let mut j: usize = 0;
    while j < s.len()
        invariant
            0 <= j <= s@.len(),
            r@ == t@.subrange(0, a as int) + s@.subrange(0, j as int),
        decreases s@.len() - j,
    {
        r.push(s[j]);
        assert(s@.subrange(0, j + 1) =~= s@.subrange(0, j as int).push(s@[j as int]));
        j += 1;
    }
    assert(s@.subrange(0, j as int) =~= s@);
    let mut k: usize = b;
    while k < t.len()
        invariant
            a <= b <= k <= t@.len(),
            r@ == t@.subrange(0, a as int) + s@ + t@.subrange(b as int, k as int),
        decreases t@.len() - k,
    {
        r.push(t[k]);
        assert(t@.subrange(b as int, k + 1) =~= t@.subrange(b as int, k as int).push(t@[k as int]));
        k += 1;
    }
    r
}

/// Character positions keep the order of byte positions.
proof fn lemma_at_byte_order(t: Seq<char>, a: int, b: int)
    requires
        range_ok(t, a, b),
    ensures
        0 <= at_byte(t, a)->0 <= at_byte(t, b)->0 <= t.len(),
        bpos(t, at_byte(t, a)->0) == a,
        bpos(t, at_byte(t, b)->0) == b,
{
    let ka = at_byte(t, a)->0;
    let kb = at_byte(t, b)->0;
    if kb < ka {
        lemma_bpos_mono(t, kb, ka);
    }
}

/// Replace bytes `a` to `b` of `t` by `s` (see `replaced`).
fn replace_range(t: &Vec<char>, a: usize, b: usize, s: &[char]) -> (r: Vec<char>)
    requires
        range_ok(t@, a as int, b as int),
    ensures
        r@ == replaced(t@, a as int, b as int, s@),
{
    proof {
        lemma_at_byte_order(t@, a as int, b as int);
    }
    let len = t.len();
    let ka = match char_at_byte(t.as_slice(), a) {
        Some(k) => k,
        None => vstd::pervasive::unreached(),
    };
    let kb = match char_at_byte(t.as_slice(), b) {
        Some(k) => k,
        None => vstd::pervasive::unreached(),
    };
    assert(ka <= kb && kb <= len);
    replace_chars(t, ka, kb, s)
}

/// The characters of `t` from `a` to `b` (see `char_slice_spec`).
fn char_slice(t: &Vec<char>, a: usize, b: usize) -> (r: Vec<char>)
    ensures
        r@ == char_slice_spec(t@, a as int, b as int),
{
    let mut r: Vec<char> = Vec::new();
    if b <= a || a >= t.len() {
        return r;
    }
    let end = if b < t.len() {
        b
    } else {
        t.len()
    };
    let mut i = a;
    while i < end
        invariant
            a <= i <= end <= t@.len(),
            r@ == t@.subrange(a as int, i as int),
        decreases end - i,
    {
        r.push(t[i]);
        assert(t@.subrange(a as int, i + 1) =~= t@.subrange(a as int, i as int).push(t@[i as int]));
        i += 1;
    }
    r
}

/// The line being edited (characters, byte length, cursor) and the kill
/// ring.
struct EditLine {
    t: Vec<char>,
    bytes: usize,
    c: usize,
    kr: Vec<char>,
}

/// The line as an editing state (history aside).
spec fn line_ed(l: EditLine, hist: Seq<Seq<char>>, loc: int) -> Ed {
    Ed { t: l.t@, c: l.c as int, kr: l.kr@, hist, loc }
}

/// The byte length of the characters `t`.
fn bytes_of(t: &Vec<char>) -> (n: usize)
    ensures
        n == bl(t@),
{
    let s = crate::text::string_of(t.as_slice());
    s.as_str().as_bytes().len()
}

/// Kill text object `to` (see `ed_kill`).
fn line_kill(l: EditLine, to: TextObject) -> (r: EditLine)
    requires
        l.bytes == bl(l.t@),
        ({
            let (a, b) = object(l.t@, bl(l.t@), l.c as int, to);
            range_ok(l.t@, a, b)
        }),
    ensures
        r.bytes == bl(r.t@),
        forall|h: Seq<Seq<char>>, loc: int| #[trigger] line_ed(r, h, loc) == ed_kill(line_ed(l, h, loc), to),
{
    proof {
        lemma_blen_ge_len(l.t@);
    }
    let (a, b) = object_range(&l.t, l.bytes, l.c, to);
    let piece = char_slice(&l.t, a, b);
    let t = replace_range(&l.t, a, b, &[]);
    let mut kr: Vec<char> = Vec::new();
    if a < l.c {
        crate::readline::push_chars(&mut kr, piece.as_slice());
        crate::readline::push_chars(&mut kr, l.kr.as_slice());
    } else {
        crate::readline::push_chars(&mut kr, l.kr.as_slice());
        crate::readline::push_chars(&mut kr, piece.as_slice());
    }
    assert(Seq::<char>::empty() + kr@ =~= kr@);
    let bytes = bytes_of(&t);
    proof {
        let e = Seq::<char>::empty();
        assert(t@ == replaced(l.t@, a as int, b as int, e));
    }
    EditLine { t, bytes, c: a, kr }
}


/// Swap text objects `lo` and `ro` (see `ed_trans`).
fn line_trans(l: EditLine, lo: TextObject, ro: TextObject) -> (r: EditLine)
    requires
        l.bytes == bl(l.t@),
        trans_ok(line_ed(l, Seq::empty(), 0), lo, ro),
    ensures
        r.bytes == bl(r.t@),
        forall|h: Seq<Seq<char>>, loc: int| #[trigger] line_ed(r, h, loc) == ed_trans(line_ed(l, h, loc), lo, ro),
{
    proof {
        lemma_blen_ge_len(l.t@);
    }
    let (la, lb) = object_range(&l.t, l.bytes, l.c, lo);
    let (ra, rb) = object_range(&l.t, l.bytes, l.c, ro);
    let rcpy = char_slice(&l.t, ra, rb);
    let lcpy = char_slice(&l.t, la, lb);
    let t1 = replace_range(&l.t, ra, rb, lcpy.as_slice());
    let t2 = replace_range(&t1, la, lb, rcpy.as_slice());
    let bytes = bytes_of(&t2);
    EditLine { t: t2, bytes, c: rb, kr: l.kr }
}

/// Capitalize the word at or after the cursor (see `ed_capitalize`).
fn line_capitalize(l: EditLine) -> (r: EditLine)
    requires
        l.bytes == bl(l.t@),
        capitalize_ok(line_ed(l, Seq::empty(), 0)),
    ensures
        r.bytes == bl(r.t@),
        forall|h: Seq<Seq<char>>, loc: int| #[trigger] line_ed(r, h, loc) == ed_capitalize(line_ed(l, h, loc)),
{
    proof {
        lemma_blen_ge_len(l.t@);
    }
    let (a, b) = object_range(&l.t, l.bytes, l.c, TextObject::ExactWordForward);
    if a < b {
        let w = char_slice(&l.t, a, b);
        assert(w@.len() > 0);
        let cap = crate::text::chars_of(char_upper(w[0]).as_str());
        let tail = w.as_slice().split_at(1).1;
        assert(tail@ =~= w@.drop_first());
        let rest = crate::text::string_of(tail);
        let low = crate::text::chars_of(str_lower(rest.as_str()).as_str());
        let t1 = replace_range(&l.t, a, a + 1, cap.as_slice());
        let t2 = replace_range(&t1, a + 1, b, low.as_slice());
        let bytes = bytes_of(&t2);
        EditLine { t: t2, bytes, c: b, kr: l.kr }
    } else {
        l
    }
}

/// Change the case from the cursor to the end of the word after it (see
/// `ed_case`).
fn line_case(l: EditLine, upper: bool) -> (r: EditLine)
    requires
        l.bytes == bl(l.t@),
        range_ok(l.t@, l.c as int, object(l.t@, bl(l.t@), l.c as int, TextObject::WordForward).1),
    ensures
        r.bytes == bl(r.t@),
        forall|h: Seq<Seq<char>>, loc: int| #[trigger] line_ed(r, h, loc) == ed_case(line_ed(l, h, loc), upper),
{
    proof {
        lemma_blen_ge_len(l.t@);
    }
    let (_, b) = object_range(&l.t, l.bytes, l.c, TextObject::WordForward);
    let piece = crate::text::string_of(char_slice(&l.t, l.c, b).as_slice());
    let changed = if upper {
        str_upper(piece.as_str())
    } else {
        str_lower(piece.as_str())
    };
    let cs = crate::text::chars_of(changed.as_str());
    let t = replace_range(&l.t, l.c, b, cs.as_slice());
    let bytes = bytes_of(&t);
    EditLine { t, bytes, c: b, kr: l.kr }
}

/// The byte length of `s` (a part of the line, so within `usize`).
fn bytes_of_slice(s: &[char]) -> (n: usize)
    ensures
        n == bl(s@),
{
    let st = crate::text::string_of(s);
    st.as_str().as_bytes().len()
}

/// Insert `s` at the cursor's byte; the cursor moves on by the bytes of
/// `s`.
fn line_insert(l: EditLine, s: &[char]) -> (r: EditLine)
    requires
        at_byte(l.t@, l.c as int) is Some,
    ensures
        r.bytes == bl(r.t@),
        r.t@ == replaced(l.t@, l.c as int, l.c as int, s@),
        r.c == l.c + bl(s@),
        r.kr == l.kr,
{
    let t = replace_range(&l.t, l.c, l.c, s);
    let bytes = bytes_of(&t);
    let by = bytes_of_slice(s);
    proof {
        let k = at_byte(l.t@, l.c as int)->0;
        let pre = l.t@.subrange(0, k);
        let post = l.t@.subrange(k, l.t@.len() as int);
        assert(l.t@ =~= pre + post);
        lemma_blen_concat(pre, post);
        lemma_blen_concat(pre + s@, post);
        lemma_blen_concat(pre, s@);
        assert(t@ =~= pre + s@ + post);
    }
    EditLine { t, bytes, c: l.c + by, kr: l.kr }
}

/// Without lookups (the phantom argument mode), splitting asks for none, so
/// the answers do not matter.
proof fn lemma_no_lookups(cs: Seq<char>, cursor: int, k: int, answers: Seq<Seq<Seq<char>>>)
    ensures
        arg_upto(cs, cursor, true, k, answers) == arg_upto(cs, cursor, true, k, Seq::empty()),
        !arg_upto(cs, cursor, true, k, answers).0.in_lookup,
        arg_upto(cs, cursor, true, k, answers).0.asked.len() == 0,
    decreases k,
{
    if k > 0 {
        lemma_no_lookups(cs, cursor, k - 1, answers);
    }
}

/// The split of the line in the phantom argument mode, whatever the
/// answers.
proof fn lemma_no_lookups_split(cs: Seq<char>, cursor: int, answers: Seq<Seq<Seq<char>>>)
    ensures
        split_args_spec(cs, cursor, true, answers) == split_args_spec(cs, cursor, true, Seq::empty()),
        asked_names(cs, cursor, true, answers).len() == 0,
{
    lemma_no_lookups(cs, cursor, cs.len() as int, answers);
}

/// Where the part of an argument before the cursor stands in `{...}`
/// interpolations: after a `{` (its position plus one, or 0), after a `.`
/// following it, and the text after each.
pub struct Scan {
    pub in_obj: int,
    pub in_ppt: int,
    pub obj: Seq<char>,
    pub ppt: Seq<char>,
}

/// Scanning character `ch` at `k`.
pub open spec fn scan_step(s: Scan, k: int, ch: char) -> Scan {
    if ch == '{' && s.in_obj == 0 {
        Scan { in_obj: k + 1, ..s }
    } else if ch == '.' && s.in_obj != 0 && s.in_ppt == 0 {
        Scan { in_ppt: k + 1, ..s }
    } else if ch == '}' && s.in_obj != 0 {
        Scan { in_obj: 0, in_ppt: 0, obj: Seq::empty(), ppt: Seq::empty() }
    } else if s.in_ppt != 0 {
        Scan { ppt: s.ppt.push(ch), ..s }
    } else if s.in_obj != 0 {
        Scan { obj: s.obj.push(ch), ..s }
    } else {
        s
    }
}

/// Scanning the first `n` characters of `w`.
pub open spec fn scan(w: Seq<char>, n: int) -> Scan
    decreases n,
{
    if n <= 0 {
        Scan { in_obj: 0, in_ppt: 0, obj: Seq::empty(), ppt: Seq::empty() }
    } else if n - 1 < w.len() {
        scan_step(scan(w, n - 1), n - 1, w[n - 1])
    } else {
        scan(w, n - 1)
    }
}

/// `n` spaces, then `w`.
pub open spec fn indented(n: int, w: Seq<char>) -> Seq<char> {
    Seq::new(n as nat, |i: int| ' ') + w
}

/// The names among `names` that start with `pre`, each after `n` spaces.
pub open spec fn offered(names: Seq<Seq<char>>, pre: Seq<char>, n: int) -> Seq<Seq<char>>
    decreases names.len(),
{
    if names.len() == 0 {
        Seq::empty()
    } else {
        let rest = offered(names.drop_last(), pre, n);
        if pre.len() <= names.last().len() && names.last().subrange(0, pre.len() as int) == pre {
            rest.push(indented(n, names.last()))
        } else {
            rest
        }
    }
}

/// The properties and the objects that interpolations name.
pub open spec fn properties() -> Seq<Seq<char>> {
    seq![seq!['f', 'i', 'l', 'e', '_', 'n', 'a', 'm', 'e'], seq!['e', 'x', 't', 'e', 'n', 's', 'i', 'o', 'n']]
}

/// The objects that interpolations name.
pub open spec fn objects() -> Seq<Seq<char>> {
    seq![seq!['r', 'o', 'o', 't'], seq!['s', 'e', 'l', 'e', 'c', 't', 'i', 'o', 'n']]
}


/// `s` without its leading white space (Unicode `White_Space`).
pub open spec fn trim_start(s: Seq<char>) -> Seq<char>
    decreases s.len(),
{
    if s.len() > 0 && is_whitespace_spec(s[0]) {
        trim_start(s.drop_first())
    } else {
        s
    }
}

/// `s` without its trailing white space.
pub open spec fn trim_end(s: Seq<char>) -> Seq<char>
    decreases s.len(),
{
    if s.len() > 0 && is_whitespace_spec(s.last()) {
        trim_end(s.drop_last())
    } else {
        s
    }
}

/// `s` without white space at either end (what `str::trim` gives).
pub open spec fn trimmed(s: Seq<char>) -> Seq<char> {
    trim_end(trim_start(s))
}

/// `trimmed` computed.
fn trim(s: &Vec<char>) -> (r: Vec<char>)
    ensures
        r@ == trimmed(s@),
{
    let n = s.len();
    let mut i: usize = 0;
    assert(s@.subrange(0, n as int) =~= s@);
    while i < n && is_whitespace(s[i])
        invariant
            n == s@.len(),
            0 <= i <= n,
            trim_start(s@) == trim_start(s@.subrange(i as int, n as int)),
        decreases n - i,
    {
        assert(s@.subrange(i as int, n as int).drop_first() =~= s@.subrange(i + 1, n as int));
        i += 1;
    }
    assert(trim_start(s@.subrange(i as int, n as int)) == s@.subrange(i as int, n as int));
    let mut j: usize = n;
    assert(trimmed(s@) == trim_end(s@.subrange(i as int, j as int)));
    while j > i && is_whitespace(s[j - 1])
        invariant
            n == s@.len(),
            i <= j <= n,
            trimmed(s@) == trim_end(s@.subrange(i as int, j as int)),
        decreases j,
    {
        assert(s@.subrange(i as int, j as int).drop_last() =~= s@.subrange(i as int, j - 1));
        j -= 1;
    }
    assert(trim_end(s@.subrange(i as int, j as int)) == s@.subrange(i as int, j as int));
    char_slice(s, i, j)
}

/// The smaller of two integers.
pub open spec fn min(a: int, b: int) -> int {
    if a < b {
        a
    } else {
        b
    }
}

/// Comparing `c` and `it` character by character from `from` on, `j` is
/// a place to stop: they differ there, or the byte just after `j` in `c`
/// reaches the shorter one's byte length.
pub open spec fn stop_at(c: Seq<char>, it: Seq<char>, from: int, j: int) -> bool {
    &&& from <= j
    &&& 0 <= j < c.len()
    &&& j < it.len()
    &&& (c[j] != it[j] || min(bl(it), bl(c)) <= bpos(c, j) + 1)
}

/// The common part `c` narrowed by `it`: cut at the first place to stop
/// (keeping the character there when both have it), `None` when there is
/// no place to stop.
pub open spec fn narrow(c: Seq<char>, it: Seq<char>, from: int) -> Option<Seq<char>> {
    if exists|j: int| #[trigger] stop_at(c, it, from, j) {
        let j = choose|j: int| #[trigger] stop_at(c, it, from, j) && forall|i: int| from <= i < j ==> !stop_at(c, it, from, i);
        Some(if c[j] == it[j] { c.subrange(0, j + 1) } else { c.subrange(0, j) })
    } else {
        None
    }
}

/// The common part of the candidates from the `i`-th on, starting from
/// `c`; `None` once one of them has no place to stop.
pub open spec fn common_from(res: Seq<Seq<char>>, from: int, i: int, c: Seq<char>) -> Option<Seq<char>>
    decreases res.len() - i,
{
    if i < 0 || i >= res.len() {
        Some(c)
    } else {
        match narrow(c, res[i], from) {
            Some(c2) => common_from(res, from, i + 1, c2),
            None => None,
        }
    }
}

/// What completing with candidates `res` does to line `t` with cursor `c`
/// (`from` the cursor's place in its argument): none rings the bell; one
/// is inserted from `from` on; several insert their common part from
/// `from` on (when they have one) and are shown, trimmed, as hints.
pub struct Completed {
    pub t: Seq<char>,
    pub c: int,
    pub hints: Option<Seq<Seq<char>>>,
    pub bell: bool,
}

/// The part of candidate or common part `x` to insert.
pub open spec fn rest_of(x: Seq<char>, from: int, first: Seq<char>) -> Seq<char> {
    char_slice_spec(x, from, bl(first))
}

/// See `Completed`.
pub open spec fn completed(t: Seq<char>, c: int, res: Seq<Seq<char>>, from: int) -> Completed {
    if res.len() == 0 {
        Completed { t, c, hints: None, bell: true }
    } else if res.len() == 1 {
        let rest = rest_of(res[0], from, res[0]);
        Completed { t: replaced(t, c, c, rest), c: c + bl(rest), hints: None, bell: false }
    } else {
        let hints = Some(res.map_values(|x: Seq<char>| trimmed(x)));
        match common_from(res, from, 1, res[0]) {
            Some(cm) => {
                let rest = rest_of(cm, from, res[0]);
                Completed { t: replaced(t, c, c, rest), c: c + bl(rest), hints, bell: false }
            },
            None => Completed { t, c, hints, bell: false },
        }
    }
}


/// A byte position inside the line is before its end.
proof fn lemma_bpos_below(t: Seq<char>, j: int)
    requires
        0 <= j < t.len(),
    ensures
        bpos(t, j) + blen(seq![t[j]]) <= bl(t),
        bpos(t, t.len() as int) == bl(t),
{
    assert(t.subrange(0, t.len() as int) =~= t);
    lemma_bpos_step(t, j);
    if j + 1 < t.len() {
        lemma_bpos_mono(t, j + 1, t.len() as int);
    }
}

/// Walk `c` up to character `n` (or its end): where that is, and its byte
/// position.
fn walk_to(c: &Vec<char>, n: usize, cb: usize) -> (r: (usize, usize))
    requires
        cb == bl(c@),
    ensures
        r.0 as int == min(n as int, c@.len() as int),
        r.1 == bpos(c@, r.0 as int),
{
    let mut j: usize = 0;
    let mut pos: usize = 0;
    assert(c@.subrange(0, 0) =~= Seq::<char>::empty());
    while j < n && j < c.len()
        invariant
            0 <= j <= c@.len(),
            j <= n,
            pos == bpos(c@, j as int),
            cb == bl(c@),
        decreases c@.len() - j,
    {
        proof {
            lemma_bpos_below(c@, j as int);
            lemma_bpos_step(c@, j as int);
        }
        pos = pos + char_width(c[j]);
        j += 1;
    }
    (j, pos)
}

/// `narrow` computed.
fn narrow_of(c: &Vec<char>, it: &Vec<char>, from: usize) -> (r: Option<Vec<char>>)
    ensures
        match narrow(c@, it@, from as int) {
            Some(x) => r matches Some(v) && v@ == x,
            None => r is None,
        },
{
    let cb = bytes_of(c);
    let ib = bytes_of(it);
    let m = if ib < cb {
        ib
    } else {
        cb
    };
    let (mut j, mut pos) = walk_to(c, from, cb);
    while j < c.len() && j < it.len()
        invariant
            j <= c@.len(),
            from <= j || j == c@.len(),
            pos == bpos(c@, j as int),
            cb == bl(c@),
            m == min(bl(it@), bl(c@)),
            forall|i: int| from <= i < j ==> !#[trigger] stop_at(c@, it@, from as int, i),
        decreases c@.len() - j,
    {
        proof {
            lemma_bpos_below(c@, j as int);
            lemma_bpos_step(c@, j as int);
        }
        if c[j] != it[j] || m <= pos + 1 {
            proof {
                assert(stop_at(c@, it@, from as int, j as int));
                let w = choose|w: int| #[trigger] stop_at(c@, it@, from as int, w) && forall|i: int|
                    from <= i < w ==> !stop_at(c@, it@, from as int, i);
                assert(w == j) by {
                    if w < j {
                        assert(!stop_at(c@, it@, from as int, w));
                    } else if w > j {
                        assert(!stop_at(c@, it@, from as int, j as int));
                    }
                }
            }
            let end = if c[j] == it[j] {
                j + 1
            } else {
                j
            };
            return Some(char_slice(c, 0, end));
        }
        pos = pos + char_width(c[j]);
        j += 1;
    }
    proof {
        assert forall|w: int| !#[trigger] stop_at(c@, it@, from as int, w) by {
            if stop_at(c@, it@, from as int, w) {
                assert(w < j);
            }
        }
    }
    None
}

/// The characters of each candidate.
pub open spec fn vecs_view(v: Seq<Vec<char>>) -> Seq<Seq<char>> {
    v.map_values(|x: Vec<char>| x@)
}

/// `common_from(res, from, 1, res[0])` computed.
fn common_of_all(res: &Vec<Vec<char>>, from: usize) -> (r: Option<Vec<char>>)
    requires
        res@.len() >= 1,
    ensures
        match common_from(vecs_view(res@), from as int, 1, res@[0]@) {
            Some(x) => r matches Some(v) && v@ == x,
            None => r is None,
        },
{
    let ghost rv = vecs_view(res@);
    let mut c = char_slice(&res[0], 0, res[0].len());
    assert(c@ =~= res@[0]@);
    let mut i: usize = 1;
    while i < res.len()
        invariant
            rv == vecs_view(res@),
            1 <= i <= res@.len(),
            common_from(rv, from as int, 1, rv[0]) == common_from(rv, from as int, i as int, c@),
        decreases res@.len() - i,
    {
        match narrow_of(&c, &res[i], from) {
            Some(c2) => {
                c = c2;
            },
            None => {
                return None;
            },
        }
        i += 1;
    }
    Some(c)
}

/// Whether completing with `res` inserts something, and so needs the
/// cursor on a character start.
pub open spec fn inserts(res: Seq<Seq<char>>, from: int) -> bool {
    res.len() == 1 || (res.len() > 1 && common_from(res, from, 1, res[0]) is Some)
}

/// Complete line `l` with candidates `res` (see `completed`): the line,
/// the hints, and whether the bell rings.
fn apply_completion(l: EditLine, res: &Vec<Vec<char>>, from: usize) -> (r: (EditLine, Option<Vec<String>>, bool))
    requires
        l.bytes == bl(l.t@),
        inserts(vecs_view(res@), from as int) ==> at_byte(l.t@, l.c as int) is Some,
    ensures
        ({
            let cp = completed(l.t@, l.c as int, vecs_view(res@), from as int);
            &&& r.0.t@ == cp.t
            &&& r.0.c == cp.c
            &&& r.0.bytes == bl(r.0.t@)
            &&& match cp.hints {
                Some(h) => r.1 matches Some(v) && crate::prompt::strings_view(v@) == h,
                None => r.1 is None,
            }
            &&& r.2 == cp.bell
            &&& r.0.kr == l.kr
        }),
{
    let ghost rv = vecs_view(res@);
    if res.len() == 0 {
        return (l, None, true);
    }
    let first_bytes = bytes_of(&res[0]);
    let mut hints: Vec<String> = Vec::new();
    if res.len() == 1 {
        let rest = char_slice(&res[0], from, first_bytes);
        let l2 = line_insert(l, rest.as_slice());
        return (l2, None, false);
    }
    let mut i: usize = 0;
    while i < res.len()
        invariant
            rv == vecs_view(res@),
            0 <= i <= res@.len(),
            crate::prompt::strings_view(hints@) == rv.subrange(0, i as int).map_values(|x: Seq<char>| trimmed(x)),
        decreases res@.len() - i,
    {
        let tr = trim(&res[i]);
        let ghost before = hints@;
        hints.push(crate::text::string_of(tr.as_slice()));
        proof {
            assert(rv.subrange(0, i + 1) =~= rv.subrange(0, i as int).push(rv[i as int]));
            assert(crate::prompt::strings_view(hints@) =~= crate::prompt::strings_view(before).push(trimmed(rv[i as int])));
            assert(rv.subrange(0, i + 1).map_values(|x: Seq<char>| trimmed(x)) =~= rv.subrange(0, i as int).map_values(
                |x: Seq<char>| trimmed(x),
            ).push(trimmed(rv[i as int])));
        }
        i += 1;
    }
    assert(rv.subrange(0, i as int) =~= rv);
    match common_of_all(res, from) {
        Some(cm) => {
            let rest = char_slice(&cm, from, first_bytes);
            let l2 = line_insert(l, rest.as_slice());
            (l2, Some(hints), false)
        },
        None => (l, Some(hints), false),
    }
}


/// `scan` computed: where the interpolation stands, and the texts.
fn scan_of(w: &Vec<char>, n: usize) -> (r: (usize, usize, Vec<char>, Vec<char>))
    ensures
        r.0 == scan(w@, n as int).in_obj,
        r.1 == scan(w@, n as int).in_ppt,
        r.2@ == scan(w@, n as int).obj,
        r.3@ == scan(w@, n as int).ppt,
{
    let len = w.len();
    let mut in_obj: usize = 0;
    let mut in_ppt: usize = 0;
    let mut obj: Vec<char> = Vec::new();
    let mut ppt: Vec<char> = Vec::new();
    let mut k: usize = 0;
    while k < n
        invariant
            len == w@.len(),
            k <= n,
            in_obj == scan(w@, k as int).in_obj,
            in_ppt == scan(w@, k as int).in_ppt,
            obj@ == scan(w@, k as int).obj,
            ppt@ == scan(w@, k as int).ppt,
            in_obj <= k && in_ppt <= k,
        decreases n - k,
    {
        if k < len {
            let ch = w[k];
            if ch == '{' && in_obj == 0 {
                in_obj = k + 1;
            } else if ch == '.' && in_obj != 0 && in_ppt == 0 {
                in_ppt = k + 1;
            } else if ch == '}' && in_obj != 0 {
                in_obj = 0;
                in_ppt = 0;
                obj = Vec::new();
                ppt = Vec::new();
            } else if in_ppt != 0 {
                ppt.push(ch);
            } else if in_obj != 0 {
                obj.push(ch);
            }
        }
        k += 1;
    }
    (in_obj, in_ppt, obj, ppt)
}

/// The characters of a string given as its characters, in a vector.
fn word_of(cs: &[char]) -> (r: Vec<char>)
    ensures
        r@ == cs@,
{
    let mut r: Vec<char> = Vec::new();
    crate::readline::push_chars(&mut r, cs);
    assert(r@ =~= cs@);
    r
}

/// `offered` computed, as strings.
fn offered_of(names: &Vec<Vec<char>>, pre: &Vec<char>, n: usize) -> (r: Vec<String>)
    ensures
        crate::prompt::strings_view(r@) == offered(vecs_view(names@), pre@, n as int),
{
    let ghost nv = vecs_view(names@);
    let mut r: Vec<String> = Vec::new();
    let mut i: usize = 0;
    while i < names.len()
        invariant
            nv == vecs_view(names@),
            0 <= i <= names@.len(),
            crate::prompt::strings_view(r@) == offered(nv.subrange(0, i as int), pre@, n as int),
        decreases names@.len() - i,
    {
        let name = &names[i];
        proof {
            let sub = nv.subrange(0, i + 1);
            assert(sub.drop_last() =~= nv.subrange(0, i as int));
            assert(sub.last() == name@);
        }
        let starts = pre.len() <= name.len() && same_prefix(name, pre);
        if starts {
            let mut w: Vec<char> = Vec::new();
            let mut k: usize = 0;
            while k < n
                invariant
                    k <= n,
                    w@ == Seq::new(k as nat, |j: int| ' '),
                decreases n - k,
            {
                w.push(' ');
                assert(w@ =~= Seq::new((k + 1) as nat, |j: int| ' '));
                k += 1;
            }
            crate::readline::push_chars(&mut w, name.as_slice());
            let ghost before = r@;
            r.push(crate::text::string_of(w.as_slice()));
            assert(crate::prompt::strings_view(r@) =~= crate::prompt::strings_view(before).push(indented(n as int, name@)));
        }
        i += 1;
    }
    assert(nv.subrange(0, i as int) =~= nv);
    r
}

/// Whether `name` starts with `pre` (which is no longer).
fn same_prefix(name: &Vec<char>, pre: &Vec<char>) -> (b: bool)
    requires
        pre@.len() <= name@.len(),
    ensures
        b == (name@.subrange(0, pre@.len() as int) == pre@),
{
    let mut i: usize = 0;
    while i < pre.len()
        invariant
            pre@.len() <= name@.len(),
            0 <= i <= pre@.len(),
            forall|j: int| 0 <= j < i ==> name@[j] == pre@[j],
        decreases pre@.len() - i,
    {
        if name[i] != pre[i] {
            assert(name@.subrange(0, pre@.len() as int)[i as int] != pre@[i as int]);
            return false;
        }
        i += 1;
    }
    assert(name@.subrange(0, pre@.len() as int) =~= pre@);
    true
}

/// The names interpolations offer: the properties, or the objects.
fn names_of(props: bool) -> (r: Vec<Vec<char>>)
    ensures
        vecs_view(r@) == if props { properties() } else { objects() },
{
    let mut r: Vec<Vec<char>> = Vec::new();
    if props {
        r.push(word_of(&['f', 'i', 'l', 'e', '_', 'n', 'a', 'm', 'e']));
        r.push(word_of(&['e', 'x', 't', 'e', 'n', 's', 'i', 'o', 'n']));
    } else {
        r.push(word_of(&['r', 'o', 'o', 't']));
        r.push(word_of(&['s', 'e', 'l', 'e', 'c', 't', 'i', 'o', 'n']));
    }
    assert(vecs_view(r@) =~= if props { properties() } else { objects() });
    r
}

/// Put the cursor at character `c` (or byte; the editing keys mix both).
fn line_at(l: EditLine, c: usize) -> (r: EditLine)
    requires
        l.bytes == bl(l.t@),
    ensures
        r.bytes == bl(r.t@),
        r.t@ == l.t@,
        r.kr@ == l.kr@,
        r.c == c,
{
    EditLine { t: l.t, bytes: l.bytes, c, kr: l.kr }
}

/// Move forward to the end of text object `to` (see `ed_forward`).
fn line_forward(l: EditLine, to: TextObject) -> (r: EditLine)
    requires
        l.bytes == bl(l.t@),
    ensures
        r.bytes == bl(r.t@),
        forall|h: Seq<Seq<char>>, loc: int| #[trigger] line_ed(r, h, loc) == ed_forward(line_ed(l, h, loc), to),
{
    proof {
        lemma_blen_ge_len(l.t@);
    }
    let (_, b) = object_range(&l.t, l.bytes, l.c, to);
    line_at(l, b)
}

/// Move back to the start of text object `to` (see `ed_backward`).
fn line_backward(l: EditLine, to: TextObject) -> (r: EditLine)
    requires
        l.bytes == bl(l.t@),
    ensures
        r.bytes == bl(r.t@),
        forall|h: Seq<Seq<char>>, loc: int| #[trigger] line_ed(r, h, loc) == ed_backward(line_ed(l, h, loc), to),
{
    proof {
        lemma_blen_ge_len(l.t@);
    }
    let (a, _) = object_range(&l.t, l.bytes, l.c, to);
    line_at(l, a)
}

/// Show history entry `k` (see `ed_show`).
fn line_show(l: EditLine, hist: &Vec<String>, k: usize) -> (r: EditLine)
    requires
        k < hist@.len(),
    ensures
        r.bytes == bl(r.t@),
        forall|loc: int| #[trigger] ed_show(line_ed(l, strings_view(hist@), loc), k as int) == line_ed(r, strings_view(hist@), k as int),
{
    let t = crate::text::chars_of(hist[k].as_str());
    let bytes = bytes_of(&t);
    let c = t.len();
    EditLine { t, bytes, c, kr: l.kr }
}

/// The key event of character `c` with the modifiers given.
pub open spec fn char_key(c: char, ctrl: bool, alt: bool) -> KeyEvent {
    KeyEvent { code: KeyCode::Char(c), ctrl, alt }
}

/// A character key with control and alt held (see `on_key`).
fn key_both(l: EditLine, c: char, Ghost(hist): Ghost<Seq<Seq<char>>>, Ghost(loc): Ghost<int>) -> (r: EditLine)
    requires
        l.bytes == bl(l.t@),
        key_ok(line_ed(l, hist, loc), char_key(c, true, true)),
    ensures
        r.bytes == bl(r.t@),
        on_key(line_ed(l, hist, loc), char_key(c, true, true)) == Act::Edit(line_ed(r, hist, loc)),
{
    if c == 'b' {
        line_backward(l, TextObject::ShellWordBackward)
    } else if c == 'd' {
        line_kill(l, TextObject::ShellWordForward)
    } else if c == 'f' {
        line_forward(l, TextObject::ShellWordForward)
    } else if c == 'h' {
        line_kill(l, TextObject::ShellWordBackward)
    } else {
        l
    }
}

/// A character key with control held that edits (see `on_key`); the line
/// and the place in the history.
fn key_ctrl(l: EditLine, c: char, hist: &Vec<String>, loc: usize) -> (r: (EditLine, usize))
    requires
        l.bytes == bl(l.t@),
        loc <= hist@.len(),
        key_ok(line_ed(l, strings_view(hist@), loc as int), char_key(c, true, false)),
        on_key(line_ed(l, strings_view(hist@), loc as int), char_key(c, true, false)) is Edit,
    ensures
        r.0.bytes == bl(r.0.t@),
        r.1 <= hist@.len(),
        on_key(line_ed(l, strings_view(hist@), loc as int), char_key(c, true, false)) == Act::Edit(
            line_ed(r.0, strings_view(hist@), r.1 as int),
        ),
{
    let ghost hv = strings_view(hist@);
    let ghost e = line_ed(l, hv, loc as int);
    if c == 'a' {
        (line_at(l, 0), loc)
    } else if c == 'b' {
        (line_backward(l, TextObject::CharBackward), loc)
    } else if c == 'd' {
        (line_kill(l, TextObject::CharForward), loc)
    } else if c == 'e' {
        let n = l.t.len();
        (line_at(l, n), loc)
    } else if c == 'f' {
        (line_forward(l, TextObject::CharForward), loc)
    } else if c == 'h' {
        (line_kill(l, TextObject::CharBackward), loc)
    } else if c == 'k' {
        (line_kill(l, TextObject::EndForward), loc)
    } else if c == 'n' {
        if loc < hist.len() && loc + 1 < hist.len() {
            let r = line_show(l, hist, loc + 1);
            assert(ed_show(e, loc + 1) == line_ed(r, hv, loc + 1));
            (r, loc + 1)
        } else {
            (l, loc)
        }
    } else if c == 'p' {
        if 0 < loc {
            let r = line_show(l, hist, loc - 1);
            assert(ed_show(e, loc - 1) == line_ed(r, hv, loc - 1));
            (r, loc - 1)
        } else {
            (l, loc)
        }
    } else if c == 't' {
        (line_trans(l, TextObject::CharBackward, TextObject::CharForward), loc)
    } else if c == 'u' {
        (line_kill(l, TextObject::EndBackward), loc)
    } else if c == 'w' {
        (line_kill(l, TextObject::ShellWordBackward), loc)
    } else if c == 'y' {
        let mut kr: Vec<char> = Vec::new();
        crate::readline::push_chars(&mut kr, l.kr.as_slice());
        assert(kr@ =~= l.kr@);
        let r = line_insert(l, kr.as_slice());
        (r, loc)
    } else {
        (l, loc)
    }
}

/// A character key with alt held (and not control; see `on_key`); the line
/// and the place in the history.
fn key_alt(l: EditLine, c: char, hist: &Vec<String>, loc: usize) -> (r: (EditLine, usize))
    requires
        l.bytes == bl(l.t@),
        loc <= hist@.len(),
        key_ok(line_ed(l, strings_view(hist@), loc as int), char_key(c, false, true)),
    ensures
        r.0.bytes == bl(r.0.t@),
        r.1 <= hist@.len(),
        on_key(line_ed(l, strings_view(hist@), loc as int), char_key(c, false, true)) == Act::Edit(
            line_ed(r.0, strings_view(hist@), r.1 as int),
        ),
{
    let ghost hv = strings_view(hist@);
    let ghost e = line_ed(l, hv, loc as int);
    if c == 'b' {
        (line_backward(l, TextObject::WordBackward), loc)
    } else if c == 'c' {
        (line_capitalize(l), loc)
    } else if c == 'd' {
        (line_kill(l, TextObject::WordForward), loc)
    } else if c == 'f' {
        (line_forward(l, TextObject::WordForward), loc)
    } else if c == 'l' {
        (line_case(l, false), loc)
    } else if c == 't' {
        (line_trans(l, TextObject::ExactWordBackward, TextObject::ExactWordForward), loc)
    } else if c == 'u' {
        (line_case(l, true), loc)
    } else if c == '<' {
        let r = line_show(l, hist, 0);
        assert(ed_show(e, 0) == line_ed(r, hv, 0));
        (r, 0)
    } else if c == '>' {
        let t: Vec<char> = Vec::new();
        let r = EditLine { t, bytes: 0, c: 0, kr: l.kr };
        proof {
            assert(encode_utf8(Seq::<char>::empty()) =~= Seq::<u8>::empty());
        }
        (r, hist.len())
    } else {
        (l, loc)
    }
}

/// A key that is no character with modifiers (see `on_key`) and edits; the
/// line and the place in the history.
fn key_plain(l: EditLine, k: KeyEvent, hist: &Vec<String>, loc: usize) -> (r: (EditLine, usize))
    requires
        l.bytes == bl(l.t@),
        loc <= hist@.len(),
        !(k.code is Char) || (!k.ctrl && !k.alt),
        key_ok(line_ed(l, strings_view(hist@), loc as int), k),
        on_key(line_ed(l, strings_view(hist@), loc as int), k) is Edit,
    ensures
        r.0.bytes == bl(r.0.t@),
        r.1 <= hist@.len(),
        on_key(line_ed(l, strings_view(hist@), loc as int), k) == Act::Edit(
            line_ed(r.0, strings_view(hist@), r.1 as int),
        ),
{
    let ghost hv = strings_view(hist@);
    let ghost e = line_ed(l, hv, loc as int);
    let either = k.ctrl || k.alt;
    match k.code {
        KeyCode::Char(c) => {
            let one: [char; 1] = [c];
            assert(one@ =~= seq![c]);
            let c0 = l.c;
            let r = line_insert(l, one.as_slice());
            (line_at(r, c0 + 1), loc)
        },
        KeyCode::Backspace => {
            let to = if k.alt {
                TextObject::WordBackward
            } else {
                TextObject::CharBackward
            };
            (line_kill(l, to), loc)
        },
        KeyCode::Delete => {
            let to = if k.ctrl {
                TextObject::WordForward
            } else {
                TextObject::CharForward
            };
            (line_kill(l, to), loc)
        },
        KeyCode::Left => {
            let to = if either {
                TextObject::WordBackward
            } else {
                TextObject::CharBackward
            };
            (line_backward(l, to), loc)
        },
        KeyCode::Right => {
            let to = if either {
                TextObject::WordForward
            } else {
                TextObject::CharForward
            };
            (line_forward(l, to), loc)
        },
        KeyCode::Home => (line_at(l, 0), loc),
        KeyCode::End => {
            let n = l.t.len();
            (line_at(l, n), loc)
        },
        KeyCode::Down | KeyCode::PageDown => {
            if loc < hist.len() && loc + 1 < hist.len() {
                let r = line_show(l, hist, loc + 1);
                assert(ed_show(e, loc + 1) == line_ed(r, hv, loc + 1));
                (r, loc + 1)
            } else {
                (l, loc)
            }
        },
        KeyCode::Up | KeyCode::PageUp => {
            if 0 < loc {
                let r = line_show(l, hist, loc - 1);
                assert(ed_show(e, loc - 1) == line_ed(r, hv, loc - 1));
                (r, loc - 1)
            } else {
                (l, loc)
            }
        },
        _ => (l, loc),
    }
}

/// Where completion stands on line `t` with the cursor at character `c`:
/// the arguments (an empty one for a cursor between words), the index of
/// the one under the cursor and the cursor's place in it.
pub open spec fn completion_point(t: Seq<char>, c: int) -> (Seq<Seq<char>>, int, int) {
    split_args_spec(t, c, true, Seq::empty())
}

/// Whether completion can run: the cursor is on an argument and on a
/// character start.
pub open spec fn complete_ok(t: Seq<char>, c: int) -> bool {
    let (args, ai, _) = completion_point(t, c);
    0 <= ai < args.len() && at_byte(t, c) is Some
}

/// The candidates inside an interpolation: the properties after its `.`,
/// else the objects, each after as many spaces as characters before it.
pub open spec fn interpolation_candidates(sc: Scan) -> Seq<Seq<char>> {
    if sc.in_ppt != 0 {
        offered(properties(), sc.ppt, sc.in_ppt)
    } else {
        offered(objects(), sc.obj, sc.in_obj)
    }
}

/// Whether `res` can be the candidates for the cursor at `c` in `t`:
/// inside an interpolation they are those it names, elsewhere those the
/// prompt's `action` offers for the arguments, the argument under the
/// cursor and the cursor's place in it.
pub open spec fn candidates_for<A: ActionComplete>(action: A, t: Seq<char>, c: int, res: Seq<Seq<char>>) -> bool {
    let (args, ai, ci) = completion_point(t, c);
    let sc = scan(args[ai], ci);
    if sc.in_obj != 0 {
        res == interpolation_candidates(sc)
    } else {
        action.offers(args, ai, ci, res)
    }
}

/// The characters of each string slice.
pub open spec fn strs_view(v: Seq<&str>) -> Seq<Seq<char>> {
    v.map_values(|s: &str| s@)
}

/// What a prompt's action offers to complete an argument with.
pub trait ActionComplete {
    /// `r` is a list of candidates the action may offer for argument
    /// `arg_idx` of `args`, of which `ch_idx` characters are typed.
    spec fn offers(&self, args: Seq<Seq<char>>, arg_idx: int, ch_idx: int, r: Seq<Seq<char>>) -> bool;

    /// The candidates for argument `arg_idx` of `args`, of which `ch_idx`
    /// characters are typed; `lookup` gives the values of a `{name}`.
    fn get_comp<F: Fn(&str) -> Vec<String>>(
        &self,
        args: &[&str],
        arg_idx: usize,
        ch_idx: usize,
        lookup: &F,
    ) -> (r: Vec<String>)
        requires
            forall|s: &str| #[trigger] call_requires(*lookup, (s,)),
        ensures
            self.offers(strs_view(args@), arg_idx as int, ch_idx as int, strings_view(r@));
}

/// The split without lookups is the split with no answers.
proof fn lemma_split_phantom(cs: Seq<char>, cursor: int, res: (Seq<Seq<char>>, int, int))
    requires
        exists|answers: Seq<Seq<Seq<char>>>| res == #[trigger] split_args_spec(cs, cursor, true, answers),
    ensures
        res == completion_point(cs, cursor),
{
    let answers = choose|answers: Seq<Seq<Seq<char>>>| res == #[trigger] split_args_spec(cs, cursor, true, answers);
    lemma_no_lookups_split(cs, cursor, answers);
}

/// The characters of each string.
fn chars_all(v: &Vec<String>) -> (r: Vec<Vec<char>>)
    ensures
        vecs_view(r@) == strings_view(v@),
{
    let mut r: Vec<Vec<char>> = Vec::new();
    let mut i: usize = 0;
    while i < v.len()
        invariant
            0 <= i <= v@.len(),
            vecs_view(r@) == strings_view(v@.subrange(0, i as int)),
        decreases v@.len() - i,
    {
        let ghost before = r@;
        r.push(crate::text::chars_of(v[i].as_str()));
        assert(vecs_view(r@) =~= vecs_view(before).push(v@[i as int]@));
        assert(strings_view(v@.subrange(0, i + 1)) =~= strings_view(v@.subrange(0, i as int)).push(v@[i as int]@));
        i += 1;
    }
    assert(v@.subrange(0, i as int) =~= v@);
    r
}

/// The arguments as string slices.
fn as_strs(v: &Vec<String>) -> (r: Vec<&str>)
    ensures
        r@.len() == v@.len(),
        forall|i: int| 0 <= i < v@.len() ==> (#[trigger] r@[i])@ == v@[i]@,
{
    let mut r: Vec<&str> = Vec::new();
    let mut i: usize = 0;
    while i < v.len()
        invariant
            0 <= i <= v@.len(),
            r@.len() == i,
            forall|j: int| 0 <= j < i ==> (#[trigger] r@[j])@ == v@[j]@,
        decreases v@.len() - i,
    {
        r.push(v[i].as_str());
        i += 1;
    }
    r
}

/// Complete the argument under the cursor: inside an interpolation with
/// the names it offers, elsewhere with what `action` offers; see
/// `completed` for what the candidates do to the line.
fn complete_line<A: ActionComplete, F: Fn(&str) -> Vec<String>>(l: EditLine, action: &A, lookup: &F) -> (r: (
    EditLine,
    Option<Vec<String>>,
    bool,
))
    requires
        l.bytes == bl(l.t@),
        complete_ok(l.t@, l.c as int),
        forall|s: &str| call_requires(*lookup, (s,)),
    ensures
        exists|res: Seq<Seq<char>>|
            {
                let cp = completed(l.t@, l.c as int, res, completion_point(l.t@, l.c as int).2);
                &&& #[trigger] candidates_for(*action, l.t@, l.c as int, res)
                &&& r.0.t@ == cp.t
                &&& r.0.c == cp.c
                &&& r.0.bytes == bl(r.0.t@)
                &&& r.0.kr == l.kr
                &&& match cp.hints {
                    Some(h) => r.1 matches Some(v) && strings_view(v@) == h,
                    None => r.1 is None,
                }
                &&& r.2 == cp.bell
            },
{
    let content = crate::text::string_of(l.t.as_slice());
    let (args, arg_idx, ch_idx) = crate::line::split_line_args_cursor_indices(content.as_str(), lookup, l.c, true);
    proof {
        lemma_split_phantom(l.t@, l.c as int, (strings_view(args@), arg_idx as int, ch_idx as int));
    }
    let ghost pt = completion_point(l.t@, l.c as int);
    assert(pt.0[arg_idx as int] == args@[arg_idx as int]@);
    let w = crate::text::chars_of(args[arg_idx].as_str());
    let (in_obj, in_ppt, obj, ppt) = scan_of(&w, ch_idx);
    let res: Vec<String> = if in_obj != 0 {
        if in_ppt != 0 {
            offered_of(&names_of(true), &ppt, in_ppt)
        } else {
            offered_of(&names_of(false), &obj, in_obj)
        }
    } else {
        let strs = as_strs(&args);
        proof {
            assert(strs_view(strs@) =~= pt.0);
        }
        action.get_comp(strs.as_slice(), arg_idx, ch_idx, lookup)
    };
    let rv = chars_all(&res);
    let r = apply_completion(l, &rv, ch_idx);
    assert(candidates_for(*action, l.t@, l.c as int, strings_view(res@)));
    r
}

/// A block of text lines, as the status area shows a long message.
pub struct TextBlock {
    pub text: Vec<String>,
}

/// A prompt being typed in: its text, the line with its cursor, the
/// action it runs, how far the line is scrolled, the kill ring and the
/// completion hints shown.
pub struct Prompt<A> {
    pub prompt: String,
    pub cursor: usize,
    pub content: String,
    pub action: A,
    pub render_shift: usize,
    pub kill_ring: String,
    pub hints: Option<Vec<String>>,
}

/// The status line: pending keys, a message, the prompt being typed in (if
/// any), and the prompt history with the place in it.
pub struct Status<A> {
    pub pending: Vec<Key>,
    pub message: Option<Message>,
    pub message_tb: Option<TextBlock>,
    pub input: Option<Prompt<A>>,
    pub history: Vec<String>,
    pub history_location: usize,
}

/// A terminal event: a key, or anything else.
pub enum Event {
    Key(KeyEvent),
    Other,
}

/// The editing state of prompt `p` with history `hist` at `loc`.
pub open spec fn prompt_ed<A>(p: Prompt<A>, hist: Seq<Seq<char>>, loc: int) -> Ed {
    Ed { t: p.content@, c: p.cursor as int, kr: p.kill_ring@, hist, loc }
}

/// Whether event `ev` can be handled by the prompt in state `e` (the
/// keys that would cut a character in two, or read a history that is
/// empty, are left out, as is completing off an argument).
pub open spec fn event_ok(e: Ed, ev: Event) -> bool {
    match ev {
        Event::Key(k) => key_ok(e, k) && (on_key(e, k) is Complete ==> complete_ok(e.t, e.c)),
        Event::Other => true,
    }
}

/// Prompt `q` is prompt `p` with line `t`, cursor `c`, kill ring `kr` and
/// hints `hints`.
pub open spec fn prompt_now<A>(
    p: Prompt<A>,
    q: Prompt<A>,
    t: Seq<char>,
    c: int,
    kr: Seq<char>,
    hints: Option<Seq<Seq<char>>>,
) -> bool {
    &&& q.content@ == t
    &&& q.cursor == c
    &&& q.kill_ring@ == kr
    &&& match hints {
        Some(h) => q.hints matches Some(v) && strings_view(v@) == h,
        None => q.hints is None,
    }
    &&& q.prompt == p.prompt
    &&& q.action == p.action
    &&& q.render_shift == p.render_shift
}

/// `n` keeps the pending keys and the messages of `o`.
pub open spec fn same_around<A>(o: Status<A>, n: Status<A>) -> bool {
    n.pending == o.pending && n.message == o.message && n.message_tb == o.message_tb
}

/// `n` has the prompt of `o` closed: no prompt and no message, the pending
/// keys kept.
pub open spec fn closed<A>(o: Status<A>, n: Status<A>) -> bool {
    n.input is None && n.message is None && n.message_tb is None && n.pending == o.pending
}

/// `args` is how `lookup` may split line `c` (see `split_line_args`).
pub open spec fn split_with<F: Fn(&str) -> Vec<String>>(lookup: F, c: Seq<char>, args: Seq<Seq<char>>) -> bool {
    exists|answers: Seq<Seq<Seq<char>>>|
        {
            let names = asked_names(c, 0, false, answers);
            &&& names.len() == answers.len()
            &&& forall|i: int|
                0 <= i < answers.len() ==> crate::line::answers_with(lookup, names[i], #[trigger] answers[i])
            &&& args == (#[trigger] split_args_spec(c, 0, false, answers)).0
        }
}

impl<A> Status<A> {
    /// The place in the history lies within it.
    pub open spec fn wf(&self) -> bool {
        self.history_location <= self.history@.len()
    }

    /// The history, as character sequences.
    pub open spec fn hist(&self) -> Seq<Seq<char>> {
        strings_view(self.history@)
    }

    /// Add a key to the pending ones.
    pub fn push_pending(&mut self, key: Key)
        ensures
            final(self).pending@ == old(self).pending@.push(key),
            final(self).message == old(self).message,
            final(self).message_tb == old(self).message_tb,
            final(self).input == old(self).input,
            final(self).history == old(self).history,
            final(self).history_location == old(self).history_location,
    {
        self.pending.push(key);
    }

    /// The pending keys.
    pub fn get_pending(&self) -> (r: &Vec<Key>)
        ensures
            r == &self.pending,
    {
        &self.pending
    }

    /// Forget the pending keys.
    pub fn clear_pending(&mut self)
        ensures
            final(self).pending@.len() == 0,
            final(self).message == old(self).message,
            final(self).message_tb == old(self).message_tb,
            final(self).input == old(self).input,
            final(self).history == old(self).history,
            final(self).history_location == old(self).history_location,
    {
        self.pending.clear();
    }

    /// Where the terminal cursor stands on the prompt line: two columns in,
    /// after the prompt, at the cursor less the scroll; none without a
    /// prompt.
    pub fn cursor_shift(&self) -> (r: Option<u16>)
        requires
            self.input matches Some(p) ==> 2 + bl(p.prompt@) + p.cursor <= usize::MAX && p.render_shift
                <= 2 + bl(p.prompt@) + p.cursor,
        ensures
            match self.input {
                Some(p) => r == Some(((2 + bl(p.prompt@) + p.cursor - p.render_shift) as usize) as u16),
                None => r is None,
            },
    {
        match &self.input {
            Some(p) => {
                let n = p.prompt.as_str().as_bytes().len();
                let at: usize = 2 + n + p.cursor - p.render_shift;
                Some(#[verifier::truncate] (at as u16))
            },
            None => None,
        }
    }

    /// Show `message`.
    pub fn message(&mut self, message: Message)
        ensures
            final(self).message == Some(message),
            final(self).pending == old(self).pending,
            final(self).message_tb == old(self).message_tb,
            final(self).input == old(self).input,
            final(self).history == old(self).history,
            final(self).history_location == old(self).history_location,
    {
        self.message = Some(message);
    }

    /// The message laid out in lines, once it has been.
    pub fn long_message(&self) -> (r: Option<&TextBlock>)
        ensures
            match self.message_tb {
                Some(tb) => r == Some(&tb),
                None => r is None,
            },
    {
        self.message_tb.as_ref()
    }

    /// Clear the message.
    pub fn clear_message(&mut self)
        ensures
            final(self).message is None,
            final(self).message_tb is None,
            final(self).pending == old(self).pending,
            final(self).input == old(self).input,
            final(self).history == old(self).history,
            final(self).history_location == old(self).history_location,
    {
        self.message = None;
        self.message_tb = None;
    }
}

/// `range_ok` computed.
fn range_ok_x(t: &Vec<char>, a: usize, b: usize) -> (r: bool)
    ensures
        r == range_ok(t@, a as int, b as int),
{
    a <= b && char_at_byte(t.as_slice(), a).is_some() && char_at_byte(t.as_slice(), b).is_some()
}

/// Whether killing text object `to` from `c` stays on character starts.
fn kill_ok_x(t: &Vec<char>, bl: usize, c: usize, to: TextObject) -> (r: bool)
    requires
        bl == crate::status::bl(t@),
    ensures
        r == ({
            let (a, b) = object(t@, bl as int, c as int, to);
            range_ok(t@, a, b)
        }),
{
    proof {
        lemma_blen_ge_len(t@);
    }
    let (a, b) = object_range(t, bl, c, to);
    range_ok_x(t, a, b)
}

/// `trans_ok` computed, for the prompt `e` on line `t` with the cursor at
/// `c`.
fn trans_ok_x(t: &Vec<char>, bl: usize, c: usize, l: TextObject, r: TextObject, Ghost(e): Ghost<Ed>) -> (b: bool)
    requires
        bl == crate::status::bl(t@),
        e.t == t@,
        e.c == c,
    ensures
        b == trans_ok(e, l, r),
{
    proof {
        lemma_blen_ge_len(t@);
    }
    let (la, lb) = object_range(t, bl, c, l);
    let (ra, rb) = object_range(t, bl, c, r);
    if !range_ok_x(t, ra, rb) {
        return false;
    }
    let piece = char_slice(t, la, lb);
    let t1 = replace_range(t, ra, rb, piece.as_slice());
    range_ok_x(&t1, la, lb)
}

/// `capitalize_ok` computed, for the prompt `e` on line `t` with the
/// cursor at `c`.
fn capitalize_ok_x(t: &Vec<char>, bl: usize, c: usize, Ghost(e): Ghost<Ed>) -> (b: bool)
    requires
        bl == crate::status::bl(t@),
        e.t == t@,
        e.c == c,
    ensures
        b == capitalize_ok(e),
{
    proof {
        lemma_blen_ge_len(t@);
    }
    let (a, b) = object_range(t, bl, c, TextObject::ExactWordForward);
    if !(a < b) {
        return true;
    }
    if !(a < t.len()) || !range_ok_x(t, a, a + 1) {
        return false;
    }
    let w = char_slice(t, a, b);
    assert(w@.len() > 0);
    let up = crate::text::chars_of(char_upper(w[0]).as_str());
    let t1 = replace_range(t, a, a + 1, up.as_slice());
    range_ok_x(&t1, a + 1, b)
}

/// `key_ok` computed, for the prompt `e` on line `t` with the cursor at `c`
/// and `hist_len` history entries.
fn key_ok_x(t: &Vec<char>, c: usize, hist_len: usize, k: KeyEvent, Ghost(e): Ghost<Ed>) -> (b: bool)
    requires
        e.t == t@,
        e.c == c,
        e.hist.len() == hist_len,
    ensures
        b == key_ok(e, k),
{
    let bl = bytes_of(t);
    match k.code {
        KeyCode::Char(ch) => if k.ctrl && k.alt {
            (ch != 'd' || kill_ok_x(t, bl, c, TextObject::ShellWordForward)) && (ch != 'h' || kill_ok_x(
                t,
                bl,
                c,
                TextObject::ShellWordBackward,
            ))
        } else if k.ctrl {
            if ch == 'd' {
                kill_ok_x(t, bl, c, TextObject::CharForward)
            } else if ch == 'h' {
                kill_ok_x(t, bl, c, TextObject::CharBackward)
            } else if ch == 'k' {
                kill_ok_x(t, bl, c, TextObject::EndForward)
            } else if ch == 'r' {
                false
            } else if ch == 't' {
                trans_ok_x(t, bl, c, TextObject::CharBackward, TextObject::CharForward, Ghost(e))
            } else if ch == 'u' {
                kill_ok_x(t, bl, c, TextObject::EndBackward)
            } else if ch == 'w' {
                kill_ok_x(t, bl, c, TextObject::ShellWordBackward)
            } else if ch == 'y' {
                char_at_byte(t.as_slice(), c).is_some()
            } else {
                true
            }
        } else if k.alt {
            if ch == 'c' {
                capitalize_ok_x(t, bl, c, Ghost(e))
            } else if ch == 'd' {
                kill_ok_x(t, bl, c, TextObject::WordForward)
            } else if ch == 'l' || ch == 'u' {
                proof {
                    lemma_blen_ge_len(t@);
                }
                let (_, end) = object_range(t, bl, c, TextObject::WordForward);
                range_ok_x(t, c, end)
            } else if ch == 't' {
                trans_ok_x(t, bl, c, TextObject::ExactWordBackward, TextObject::ExactWordForward, Ghost(e))
            } else if ch == '<' {
                hist_len > 0
            } else {
                true
            }
        } else {
            char_at_byte(t.as_slice(), c).is_some()
        },
        KeyCode::Backspace => kill_ok_x(t, bl, c, if k.alt { TextObject::WordBackward } else { TextObject::CharBackward }),
        KeyCode::Delete => kill_ok_x(t, bl, c, if k.ctrl { TextObject::WordForward } else { TextObject::CharForward }),
        _ => true,
    }
}

/// Whether key `k` asks for completion (see `on_key`).
fn completes(k: KeyEvent, Ghost(e): Ghost<Ed>) -> (b: bool)
    ensures
        b == (on_key(e, k) is Complete),
{
    match k.code {
        KeyCode::Char(ch) => k.ctrl && !k.alt && ch == 'i',
        KeyCode::Tab => true,
        KeyCode::Esc => k.alt,
        _ => false,
    }
}

impl<A: ActionComplete> Status<A> {
    /// Open a prompt for `action`: with `initial` as its line (and the
    /// place in the history past its end), else the history entry at the
    /// place in it (empty past its end); the cursor at the line's end.
    pub fn prompt(&mut self, prompt: String, action: A, initial: Option<&str>)
        requires
            old(self).wf(),
        ensures
            final(self).wf(),
            final(self).history_location == (if initial is Some {
                old(self).history@.len()
            } else {
                old(self).history_location as nat
            }),
            final(self).input matches Some(q) && {
                let t = match initial {
                    Some(init) => init@,
                    None => if old(self).history_location == old(self).history@.len() {
                        Seq::<char>::empty()
                    } else {
                        old(self).history@[old(self).history_location as int]@
                    },
                };
                &&& q.prompt == prompt
                &&& q.action == action
                &&& q.content@ == t
                &&& q.cursor == t.len()
                &&& q.render_shift == 0
                &&& q.kill_ring@.len() == 0
                &&& q.hints is None
            },
            final(self).pending == old(self).pending,
            final(self).message == old(self).message,
            final(self).message_tb == old(self).message_tb,
            final(self).history == old(self).history,
    {
        let content = match initial {
            Some(init) => {
                self.history_location = self.history.len();
                init.to_owned()
            },
            None => if self.history.len() == self.history_location {
                String::new()
            } else {
                self.history[self.history_location].clone()
            },
        };
        let cursor = crate::text::chars_of(content.as_str()).len();
        self.input = Some(
            Prompt {
                prompt,
                cursor,
                content,
                action,
                render_shift: 0,
                kill_ring: String::new(),
                hints: None,
            },
        );
    }

    /// Whether `event` can be handled now (see `event_ok`): no prompt is
    /// open, or its key keeps the line on character starts, asks for no
    /// history entry that is missing, and completes only on an argument.
    pub fn event_fits<F: Fn(&str) -> Vec<String>>(&self, event: &Event, lookup: &F) -> (b: bool)
        requires
            self.wf(),
            forall|s: &str| call_requires(*lookup, (s,)),
        ensures
            b == (self.input matches Some(p) ==> event_ok(
                prompt_ed(p, self.hist(), self.history_location as int),
                *event,
            )),
    {
        match &self.input {
            None => true,
            Some(p) => match event {
                Event::Other => true,
                Event::Key(k) => {
                    let t = crate::text::chars_of(p.content.as_str());
                    let ghost e = prompt_ed(*p, self.hist(), self.history_location as int);
                    if !key_ok_x(&t, p.cursor, self.history.len(), *k, Ghost(e)) {
                        return false;
                    }
                    if !completes(*k, Ghost(e)) {
                        return true;
                    }
                    let (args, ai, ci) = crate::line::split_line_args_cursor_indices(
                        p.content.as_str(),
                        lookup,
                        p.cursor,
                        true,
                    );
                    proof {
                        lemma_split_phantom(t@, p.cursor as int, (strings_view(args@), ai as int, ci as int));
                    }
                    ai < args.len() && char_at_byte(t.as_slice(), p.cursor).is_some()
                },
            },
        }
    }

    /// Handle `event` as `do_event` does when it can be handled (see
    /// `event_fits`); otherwise leave everything as it is and take nothing.
    pub fn handle_event<F: Fn(&str) -> Vec<String>>(&mut self, event: &Event, lookup: &F) -> (r: (
        Option<(A, Vec<String>)>,
        bool,
        bool,
    ))
        requires
            old(self).wf(),
            forall|s: &str| call_requires(*lookup, (s,)),
        ensures
            final(self).wf(),
            ({
                let fits = old(self).input matches Some(p) ==> event_ok(
                    prompt_ed(p, old(self).hist(), old(self).history_location as int),
                    *event,
                );
                &&& fits ==> Self::handled(*old(self), *final(self), *event, *lookup, r)
                &&& !fits ==> *final(self) == *old(self) && r.0 is None && !r.1 && !r.2
            }),
    {
        if self.event_fits(event, lookup) {
            self.do_event(event, lookup)
        } else {
            (None, false, false)
        }
    }

    /// What handling `event` gives (see `do_event`): the status `n` after it
    /// and the answer `r`, from the status `o` before it.
    pub open spec fn handled<F: Fn(&str) -> Vec<String>>(
        o: Self,
        n: Self,
        event: Event,
        lookup: F,
        r: (Option<(A, Vec<String>)>, bool, bool),
    ) -> bool {
        match o.input {
            None => n == o && r.0 is None && !r.1 && !r.2,
            Some(p) => {
                let e = prompt_ed(p, o.hist(), o.history_location as int);
                match event {
                    Event::Other => {
                        &&& n.input matches Some(q) && prompt_now(p, q, e.t, e.c, e.kr, None)
                        &&& same_around(o, n) && n.history == o.history && n.history_location == o.history_location
                        &&& r.0 is None && r.1 && !r.2
                    },
                    Event::Key(k) => match on_key(e, k) {
                        Act::Edit(e2) => {
                            &&& n.input matches Some(q) && prompt_now(p, q, e2.t, e2.c, e2.kr, None)
                            &&& same_around(o, n) && n.history == o.history && n.history_location == e2.loc
                            &&& r.0 is None && r.1 && !r.2
                        },
                        Act::Abort => {
                            &&& closed(o, n) && n.history == o.history && n.history_location == o.history_location
                            &&& r.0 is None && r.1 && !r.2
                        },
                        Act::Accept(keep) => {
                            &&& closed(o, n)
                            &&& n.history@ == o.history@.push(p.content)
                            &&& n.history_location == if keep {
                                o.history_location + 1
                            } else {
                                n.history@.len() as int
                            }
                            &&& r.0 matches Some(acc) && acc.0 == p.action && split_with(lookup, p.content@, strings_view(acc.1@))
                            &&& r.1 && !r.2
                        },
                        Act::Complete => exists|res: Seq<Seq<char>>|
                            {
                                let cp = completed(e.t, e.c, res, completion_point(e.t, e.c).2);
                                &&& #[trigger] candidates_for(p.action, e.t, e.c, res)
                                &&& n.input matches Some(q) && prompt_now(p, q, cp.t, cp.c, e.kr, cp.hints)
                                &&& same_around(o, n) && n.history == o.history && n.history_location == o.history_location
                                &&& r.0 is None && r.1 && r.2 == cp.bell
                            },
                        Act::Stop => false,
                    },
                }
            },
        }
    }

    /// Handle a terminal event while a prompt is open (see `on_key`): edit
    /// the line, complete the argument under the cursor, abort, or accept
    /// the line, which goes to the history and comes back split into
    /// arguments (see `split_line_args`) with the prompt's action. Gives
    /// that, whether the event was taken (a prompt was open), and whether
    /// the bell rings (a completion without candidates).
    pub fn do_event<F: Fn(&str) -> Vec<String>>(&mut self, event: &Event, lookup: &F) -> (r: (
        Option<(A, Vec<String>)>,
        bool,
        bool,
    ))
        requires
            old(self).wf(),
            forall|s: &str| call_requires(*lookup, (s,)),
            old(self).input matches Some(p) ==> event_ok(
                prompt_ed(p, old(self).hist(), old(self).history_location as int),
                *event,
            ),
        ensures
            final(self).wf(),
            Self::handled(*old(self), *final(self), *event, *lookup, r),
    {
        let ghost o = *self;
        let taken = self.input.take();
        let p = match taken {
            Some(p) => p,
            None => {
                return (None, false, false);
            },
        };
        let Prompt { prompt, cursor, content, action, render_shift, kill_ring, hints: _ } = p;
        let k = match event {
            Event::Key(k) => *k,
            Event::Other => {
                self.input = Some(
                    Prompt { prompt, cursor, content, action, render_shift, kill_ring, hints: None },
                );
                return (None, true, false);
            },
        };
        let ghost hv = strings_view(self.history@);
        let ghost e = prompt_ed(o.input->0, hv, self.history_location as int);
        let either_code = k.code;
        let abort = match either_code {
            KeyCode::Char(c) => k.ctrl && !k.alt && (c == 'c' || c == 'g'),
            KeyCode::Esc => !k.alt,
            _ => false,
        };
        let accept = match either_code {
            KeyCode::Char(c) => k.ctrl && !k.alt && (c == 'j' || c == 'm' || c == 'o'),
            KeyCode::Enter => true,
            _ => false,
        };
        let complete = match either_code {
            KeyCode::Char(c) => k.ctrl && !k.alt && c == 'i',
            KeyCode::Tab => true,
            KeyCode::Esc => k.alt,
            _ => false,
        };
        if abort {
            self.clear_message();
            return (None, true, false);
        }
        if accept {
            let keep = match either_code {
                KeyCode::Char(c) => c == 'o',
                _ => false,
            };
            let args = crate::line::split_line_args(content.as_str(), lookup);
            self.history.push(content);
            let n = self.history.len();
            if keep {
                assert(self.history_location < n);
                self.history_location = self.history_location + 1;
            } else {
                self.history_location = self.history.len();
            }
            self.clear_message();
            return (Some((action, args)), true, false);
        }
        let t = crate::text::chars_of(content.as_str());
        let bytes = bytes_of(&t);
        let kr = crate::text::chars_of(kill_ring.as_str());
        let l = EditLine { t, bytes, c: cursor, kr };
        assert(line_ed(l, hv, self.history_location as int) == e);
        if complete {
            let (l2, hints, bell) = complete_line(l, &action, lookup);
            let content = crate::text::string_of(l2.t.as_slice());
            let kill_ring = crate::text::string_of(l2.kr.as_slice());
            self.input = Some(
                Prompt { prompt, cursor: l2.c, content, action, render_shift, kill_ring, hints },
            );
            return (None, true, bell);
        }
        let (l2, loc) = match either_code {
            KeyCode::Char(c) => if k.ctrl && k.alt {
                (key_both(l, c, Ghost(hv), Ghost(self.history_location as int)), self.history_location)
            } else if k.ctrl {
                key_ctrl(l, c, &self.history, self.history_location)
            } else if k.alt {
                key_alt(l, c, &self.history, self.history_location)
            } else {
                key_plain(l, k, &self.history, self.history_location)
            },
            _ => key_plain(l, k, &self.history, self.history_location),
        };
        let content = crate::text::string_of(l2.t.as_slice());
        let kill_ring = crate::text::string_of(l2.kr.as_slice());
        self.history_location = loc;
        self.input = Some(
            Prompt { prompt, cursor: l2.c, content, action, render_shift, kill_ring, hints: None },
        );
        (None, true, false)
    }
}

impl<A> Default for Status<A> {
    /// A status line with nothing in it.
    fn default() -> (s: Self)
        ensures
            s.wf(),
            s.pending@.len() == 0,
            s.message is None,
            s.message_tb is None,
            s.input is None,
            s.history@.len() == 0,
            s.history_location == 0,
    {
        Status {
            pending: Vec::new(),
            message: None,
            message_tb: None,
            input: None,
            history: Vec::new(),
            history_location: 0,
        }
    }
}

impl TextBlock {
    /// The block of lines `text`.
    pub fn raw(text: Vec<String>) -> (r: TextBlock)
        ensures
            r.text == text,
    {
        TextBlock { text }
    }

    /// How many lines the block has (as a terminal height).
    pub fn height(&self) -> (h: u16)
        ensures
            h == self.text@.len() as u16,
    {
        let n = self.text.len();
        #[verifier::truncate] (n as u16)
    }
}

/// How far the prompt line scrolls so that the cursor `c` stays among the
/// `avail` columns shown: back to the start with the cursor there, back to
/// one before the cursor when it went left of the view, forward when it went
/// right of it.
pub open spec fn scroll_for(rs: int, c: int, avail: int) -> int {
    let rs1 = if c == 0 {
        0
    } else {
        rs
    };
    let rs2 = if 0 < c && c < rs1 + 1 {
        c - 1
    } else {
        rs1
    };
    if rs2 + avail - 1 < c {
        c - avail + 1
    } else {
        rs2
    }
}

/// The pieces showing the hints `hs`: each dimmed, with a space after
/// those that do not end with one.
pub open spec fn hint_spans(hs: Seq<Seq<char>>) -> Seq<(Seq<char>, bool)>
    decreases hs.len(),
{
    if hs.len() == 0 {
        Seq::empty()
    } else {
        let h = hs.last();
        hint_spans(hs.drop_last()) + seq![(h, true)] + if h.len() > 0 && h.last() == ' ' {
            Seq::empty()
        } else {
            seq![(seq![' '], false)]
        }
    }
}

/// The pieces showing hints, if any: a space, then the hints.
pub open spec fn hints_part(hints: Option<Seq<Seq<char>>>) -> Seq<(Seq<char>, bool)> {
    match hints {
        Some(hs) => seq![(seq![' '], false)] + hint_spans(hs),
        None => Seq::empty(),
    }
}

/// The columns left for the line after the margin, the prompt `pr` and a
/// margin, on a line `width` wide.
pub open spec fn avail_of(width: int, pr: Seq<char>) -> int {
    width - 2 - pr.len() - 2
}

/// The prompt line as pieces (text, dimmed) and the new scroll: the
/// prompt, then the line with the hints at the cursor; a line too long for
/// the columns left scrolls to keep the cursor shown, with `…` where it is
/// cut.
pub open spec fn prompt_spans(
    pr: Seq<char>,
    t: Seq<char>,
    c: int,
    rs: int,
    hints: Option<Seq<Seq<char>>>,
    width: int,
) -> (Seq<(Seq<char>, bool)>, int) {
    let avail = avail_of(width, pr);
    let head = seq![(pr, true)];
    if t.len() < avail {
        (
            head + seq![(char_slice_spec(t, 0, c), false)] + hints_part(hints) + seq![
                (char_slice_spec(t, c, t.len() as int), false),
            ],
            rs,
        )
    } else {
        let rs2 = scroll_for(rs, c, avail);
        let cut_start = if 0 < rs2 {
            rs2 + 1
        } else {
            rs2
        };
        let ell: Seq<(Seq<char>, bool)> = if 0 < rs2 {
            seq![(seq!['\u{2026}'], false)]
        } else {
            Seq::empty()
        };
        let cut_end = cut_start + avail;
        let tail: Seq<(Seq<char>, bool)> = if t.len() < cut_start + avail {
            seq![(char_slice_spec(t, c, cut_end), false)]
        } else {
            seq![(char_slice_spec(t, c, cut_end - 1), false), (seq!['\u{2026}'], false)]
        };
        (head + ell + seq![(char_slice_spec(t, cut_start, c), false)] + hints_part(hints) + tail, rs2)
    }
}

/// Whether laying out the prompt line stays within `usize` (the columns
/// left are not negative, and scrolling does not go below the start).
pub open spec fn layout_ok(pr: Seq<char>, t: Seq<char>, c: int, rs: int, width: int) -> bool {
    let avail = avail_of(width, pr);
    &&& avail >= 0
    &&& rs + c + width <= usize::MAX
    &&& t.len() >= avail ==> ({
        let rs1 = if c == 0 {
            0
        } else {
            rs
        };
        let rs2 = if 0 < c && c < rs1 + 1 {
            c - 1
        } else {
            rs1
        };
        rs2 + avail >= 1
    })
}

/// The pieces (text, dimmed) as strings.
pub open spec fn spans_view(v: Seq<(String, bool)>) -> Seq<(Seq<char>, bool)> {
    v.map_values(|p: (String, bool)| (p.0@, p.1))
}

/// Hints as character sequences.
pub open spec fn opt_strings(h: Option<Vec<String>>) -> Option<Seq<Seq<char>>> {
    match h {
        Some(v) => Some(strings_view(v@)),
        None => None,
    }
}

/// The string of a single character.
fn one_char(c: char) -> (s: String)
    ensures
        s@ == seq![c],
{
    let v: Vec<char> = vec![c];
    let s = crate::text::string_of(v.as_slice());
    assert(s@ =~= seq![c]);
    s
}

/// Add the pieces showing `hints` (see `hints_part`).
fn push_hints(out: &mut Vec<(String, bool)>, hints: &Option<Vec<String>>)
    ensures
        spans_view(final(out)@) == spans_view(old(out)@) + hints_part(opt_strings(*hints)),
{
    match hints {
        None => {
            assert(spans_view(out@) =~= spans_view(out@) + Seq::<(Seq<char>, bool)>::empty());
        },
        Some(hs) => {
            let ghost base = spans_view(out@);
            out.push((one_char(' '), false));
            let ghost hv = strings_view(hs@);
            let mut i: usize = 0;
            assert(hint_spans(hv.subrange(0, 0)) =~= Seq::<(Seq<char>, bool)>::empty());
            assert(spans_view(out@) =~= base + seq![(seq![' '], false)] + hint_spans(hv.subrange(0, 0)));
            while i < hs.len()
                invariant
                    hv == strings_view(hs@),
                    0 <= i <= hs@.len(),
                    spans_view(out@) == base + seq![(seq![' '], false)] + hint_spans(hv.subrange(0, i as int)),
                decreases hs@.len() - i,
            {
                let ghost before = spans_view(out@);
                let h = hs[i].clone();
                let cs = crate::text::chars_of(h.as_str());
                let ends_space = cs.len() > 0 && cs[cs.len() - 1] == ' ';
                out.push((h, true));
                if !ends_space {
                    out.push((one_char(' '), false));
                }
                proof {
                    let sub = hv.subrange(0, i + 1);
                    assert(sub.drop_last() =~= hv.subrange(0, i as int));
                    assert(sub.last() == hv[i as int]);
                    if ends_space {
                        assert(spans_view(out@) =~= before + seq![(hv[i as int], true)]);
                        assert(hint_spans(sub) =~= hint_spans(hv.subrange(0, i as int)) + seq![(hv[i as int], true)]);
                    } else {
                        assert(spans_view(out@) =~= before + seq![(hv[i as int], true)] + seq![(seq![' '], false)]);
                    }
                }
                i += 1;
            }
            assert(hv.subrange(0, i as int) =~= hv);
        },
    }
}

impl<A> Prompt<A> {
    /// Lay out the prompt line on a line `width` wide (see `prompt_spans`):
    /// the pieces to show, each with whether it is dimmed; the scroll is
    /// kept for the next time.
    pub fn layout(&mut self, width: u16) -> (r: Vec<(String, bool)>)
        requires
            layout_ok(old(self).prompt@, old(self).content@, old(self).cursor as int, old(self).render_shift as int, width as int),
        ensures
            ({
                let (spans, rs) = prompt_spans(
                    old(self).prompt@,
                    old(self).content@,
                    old(self).cursor as int,
                    old(self).render_shift as int,
                    opt_strings(old(self).hints),
                    width as int,
                );
                spans_view(r@) == spans && final(self).render_shift == rs
            }),
            final(self).prompt == old(self).prompt,
            final(self).content == old(self).content,
            final(self).cursor == old(self).cursor,
            final(self).action == old(self).action,
            final(self).kill_ring == old(self).kill_ring,
            final(self).hints == old(self).hints,
    {
        let ghost hv = opt_strings(self.hints);
        let pc = crate::text::chars_of(self.prompt.as_str()).len();
        let n = crate::text::chars_of(self.content.as_str()).len();
        let w = width as usize;
        let avail = w - 2 - pc - 2;
        let c = self.cursor;
        let mut out: Vec<(String, bool)> = Vec::new();
        out.push((self.prompt.clone(), true));
        let ghost t = self.content@;
        let ghost head = seq![(self.prompt@, true)];
        assert(spans_view(out@) =~= head);
        if n < avail {
            let a = crate::line::str_char_slice(self.content.as_str(), 0, c).to_owned();
            out.push((a, false));
            let ghost s1 = spans_view(out@);
            assert(s1 =~= head + seq![(char_slice_spec(t, 0, c as int), false)]);
            push_hints(&mut out, &self.hints);
            let b = crate::line::str_char_slice(self.content.as_str(), c, n).to_owned();
            let ghost s2 = spans_view(out@);
            out.push((b, false));
            assert(spans_view(out@) =~= s2 + seq![(char_slice_spec(t, c as int, t.len() as int), false)]);
        } else {
            let mut rs = self.render_shift;
            if c == 0 {
                rs = 0;
            }
            if 0 < c && c < rs + 1 {
                rs = c - 1;
            }
            if rs + avail - 1 < c {
                rs = c - avail + 1;
            }
            assert(rs == scroll_for(old(self).render_shift as int, c as int, avail as int));
            self.render_shift = rs;
            let cut_start = if 0 < rs {
                out.push((one_char('\u{2026}'), false));
                rs + 1
            } else {
                rs
            };
            let ghost ell: Seq<(Seq<char>, bool)> = if 0 < rs {
                seq![(seq!['\u{2026}'], false)]
            } else {
                Seq::empty()
            };
            assert(spans_view(out@) =~= head + ell);
            let cut_end = cut_start + avail;
            let a = crate::line::str_char_slice(self.content.as_str(), cut_start, c).to_owned();
            out.push((a, false));
            assert(spans_view(out@) =~= head + ell + seq![(char_slice_spec(t, cut_start as int, c as int), false)]);
            push_hints(&mut out, &self.hints);
            let ghost s2 = spans_view(out@);
            if n < cut_start + avail {
                let b = crate::line::str_char_slice(self.content.as_str(), c, cut_end).to_owned();
                out.push((b, false));
                assert(spans_view(out@) =~= s2 + seq![(char_slice_spec(t, c as int, cut_end as int), false)]);
            } else {
                let b = crate::line::str_char_slice(self.content.as_str(), c, cut_end - 1).to_owned();
                out.push((b, false));
                out.push((one_char('\u{2026}'), false));
                assert(spans_view(out@) =~= s2 + seq![
                    (char_slice_spec(t, c as int, cut_end - 1), false),
                    (seq!['\u{2026}'], false),
                ]);
            }
        }
        out
    }
}

/// The keys `ks` written one after the other (see `key_text`).
pub open spec fn keys_text(ks: Seq<Key>) -> Seq<char>
    decreases ks.len(),
{
    if ks.len() == 0 {
        Seq::empty()
    } else {
        keys_text(ks.drop_last()) + crate::keys::key_text(ks.last())
    }
}

impl<A> Status<A> {
    /// The pending keys written one after the other, as the status line
    /// shows them.
    pub fn pending_text(&self) -> (r: String)
        ensures
            r@ == keys_text(self.pending@),
    {
        let mut out: Vec<char> = Vec::new();
        let mut i: usize = 0;
        while i < self.pending.len()
            invariant
                0 <= i <= self.pending@.len(),
                out@ == keys_text(self.pending@.subrange(0, i as int)),
            decreases self.pending@.len() - i,
        {
            let t = crate::text::chars_of(self.pending[i].to_string().as_str());
            crate::readline::push_chars(&mut out, t.as_slice());
            proof {
                let sub = self.pending@.subrange(0, i + 1);
                assert(sub.drop_last() =~= self.pending@.subrange(0, i as int));
            }
            i += 1;
        }
        assert(self.pending@.subrange(0, i as int) =~= self.pending@);
        crate::text::string_of(out.as_slice())
    }
}

/// Where the first line of `t` ends: at its first `\n`, or at its end.
pub open spec fn line_end(t: Seq<char>) -> nat
    decreases t.len(),
{
    if t.len() == 0 || t[0] == '\n' {
        0
    } else {
        1 + line_end(t.drop_first())
    }
}

/// A line without the `\r` before its `\n`.
pub open spec fn strip_cr(l: Seq<char>) -> Seq<char> {
    if l.len() > 0 && l.last() == '\r' {
        l.drop_last()
    } else {
        l
    }
}

/// How many ASCII white space characters `s` starts with.
pub open spec fn lead_ws(s: Seq<char>) -> nat
    decreases s.len(),
{
    if s.len() > 0 && is_ascii_whitespace_spec(s[0]) {
        1 + lead_ws(s.drop_first())
    } else {
        0
    }
}

/// The continuation lines of a wrapped line: `indent` spaces, `↪` and a
/// space, then up to `step` more characters of `rest`, until it is used
/// up.
pub open spec fn wrap_rest(rest: Seq<char>, indent: nat, step: int) -> Seq<Seq<char>>
    decreases rest.len(),
{
    if rest.len() == 0 || step <= 0 {
        Seq::empty()
    } else {
        let k = if step < rest.len() {
            step
        } else {
            rest.len() as int
        };
        seq![Seq::new(indent, |i: int| ' ') + seq!['\u{21aa}', ' '] + rest.subrange(0, k)] + wrap_rest(
            rest.subrange(k, rest.len() as int),
            indent,
            step,
        )
    }
}

/// Line `l` wrapped at `width` characters: its first `width` characters,
/// then continuation lines indented as that first part is.
pub open spec fn wrap_line(l: Seq<char>, width: int) -> Seq<Seq<char>> {
    let k = if width < l.len() {
        width
    } else {
        l.len() as int
    };
    let ind = lead_ws(l.subrange(0, k));
    seq![l.subrange(0, k)] + wrap_rest(l.subrange(k, l.len() as int), ind, width - ind - 2)
}

/// Whether line `l` can be wrapped at `width`: a line that needs
/// continuation lines leaves room on them for at least one character.
pub open spec fn wrap_ok(l: Seq<char>, width: int) -> bool {
    l.len() > width ==> width >= lead_ws(l.subrange(0, width)) + 3
}

/// The first line of `t` (see `str::lines`): up to its `\n`, without the
/// `\r` before that.
pub open spec fn first_line(t: Seq<char>) -> Seq<char> {
    let e = line_end(t);
    if e == t.len() {
        t
    } else {
        strip_cr(t.subrange(0, e as int))
    }
}

/// The text `t` wrapped at `width` (see `wrap_line`), line by line; a
/// final `\n` ends the last line and starts none.
pub open spec fn wrap_text(t: Seq<char>, width: int) -> Seq<Seq<char>>
    decreases t.len(),
{
    if t.len() == 0 {
        Seq::empty()
    } else {
        let e = line_end(t);
        if e >= t.len() {
            wrap_line(t, width)
        } else {
            wrap_line(strip_cr(t.subrange(0, e as int)), width) + wrap_text(t.subrange(e as int + 1, t.len() as int), width)
        }
    }
}

/// Whether each line of `t` can be wrapped at `width` (see `wrap_ok`).
pub open spec fn wrap_text_ok(t: Seq<char>, width: int) -> bool
    decreases t.len(),
{
    if t.len() == 0 {
        true
    } else {
        let e = line_end(t);
        if e >= t.len() {
            wrap_ok(t, width)
        } else {
            wrap_ok(strip_cr(t.subrange(0, e as int)), width) && wrap_text_ok(t.subrange(e as int + 1, t.len() as int), width)
        }
    }
}

proof fn lemma_line_end(t: Seq<char>)
    ensures
        line_end(t) <= t.len(),
        forall|j: int| 0 <= j < line_end(t) ==> t[j] != '\n',
        line_end(t) < t.len() ==> t[line_end(t) as int] == '\n',
    decreases t.len(),
{
    if t.len() > 0 && t[0] != '\n' {
        lemma_line_end(t.drop_first());
        assert forall|j: int| 0 <= j < line_end(t) implies t[j] != '\n' by {
            if j > 0 {
                assert(t[j] == t.drop_first()[j - 1]);
            }
        }
    }
}

proof fn lemma_line_end_at(t: Seq<char>, e: int)
    requires
        0 <= e <= t.len(),
        forall|j: int| 0 <= j < e ==> t[j] != '\n',
        e < t.len() ==> t[e] == '\n',
    ensures
        line_end(t) == e,
    decreases t.len(),
{
    if e > 0 {
        lemma_line_end_at(t.drop_first(), e - 1);
    }
}

/// How many ASCII white space characters `s` starts with (see `lead_ws`).
fn lead_ws_of(s: &[char]) -> (n: usize)
    ensures
        n == lead_ws(s@),
{
    let mut i: usize = 0;
    assert(s@.subrange(0, s@.len() as int) =~= s@);
    while i < s.len() && (s[i] == ' ' || s[i] == '\t' || s[i] == '\n' || s[i] == '\x0c' || s[i] == '\r')
        invariant
            0 <= i <= s@.len(),
            lead_ws(s@) == i + lead_ws(s@.subrange(i as int, s@.len() as int)),
        decreases s@.len() - i,
    {
        assert(s@.subrange(i as int, s@.len() as int).drop_first() =~= s@.subrange(i + 1, s@.len() as int));
        i += 1;
    }
    i
}

/// The characters of `t` from `a` to `b`.
fn sub_chars(t: &[char], a: usize, b: usize) -> (r: Vec<char>)
    requires
        a <= b <= t@.len(),
    ensures
        r@ == t@.subrange(a as int, b as int),
{
    let mut r: Vec<char> = Vec::new();
    let mut i: usize = a;
    while i < b
        invariant
            a <= i <= b <= t@.len(),
            r@ == t@.subrange(a as int, i as int),
        decreases b - i,
    {
        r.push(t[i]);
        assert(t@.subrange(a as int, i + 1) =~= t@.subrange(a as int, i as int).push(t@[i as int]));
        i += 1;
    }
    r
}

/// Add line `l` wrapped at `width` (see `wrap_line`).
fn push_wrapped(out: &mut Vec<Vec<char>>, l: &[char], width: usize)
    requires
        wrap_ok(l@, width as int),
    ensures
        vecs_view(final(out)@) == vecs_view(old(out)@) + wrap_line(l@, width as int),
{
    let len = l.len();
    let k = if width < len {
        width
    } else {
        len
    };
    let niw = sub_chars(l, 0, k);
    let ind = lead_ws_of(niw.as_slice());
    let ghost base = vecs_view(out@);
    let ghost step = width - ind - 2;
    out.push(niw);
    let mut j = k;
    assert(vecs_view(out@) + wrap_rest(l@.subrange(j as int, len as int), ind as nat, step) =~= base + wrap_line(l@, width as int));
    while j < len
        invariant
            k <= j <= len,
            len == l@.len(),
            k == (if width < len { width } else { len }),
            ind == lead_ws(l@.subrange(0, k as int)),
            step == width - ind - 2,
            len > width ==> step >= 1,
            vecs_view(out@) + wrap_rest(l@.subrange(j as int, len as int), ind as nat, step) == base + wrap_line(l@, width as int),
        decreases len - j,
    {
        let st: usize = width - ind - 2;
        let rest_len = len - j;
        let n = if st < rest_len {
            st
        } else {
            rest_len
        };
        let mut line: Vec<char> = Vec::new();
        let mut s: usize = 0;
        while s < ind
            invariant
                0 <= s <= ind,
                line@ == Seq::new(s as nat, |i: int| ' '),
            decreases ind - s,
        {
            line.push(' ');
            assert(line@ =~= Seq::new((s + 1) as nat, |i: int| ' '));
            s += 1;
        }
        line.push('\u{21aa}');
        line.push(' ');
        let chunk = sub_chars(l, j, j + n);
        crate::readline::push_chars(&mut line, chunk.as_slice());
        let ghost before = vecs_view(out@);
        out.push(line);
        proof {
            let rest = l@.subrange(j as int, len as int);
            assert(rest.subrange(0, n as int) =~= l@.subrange(j as int, j + n));
            assert(rest.subrange(n as int, rest.len() as int) =~= l@.subrange(j + n, len as int));
            assert(line@ =~= Seq::new(ind as nat, |i: int| ' ') + seq!['\u{21aa}', ' '] + rest.subrange(0, n as int));
            assert(vecs_view(out@) =~= before.push(line@));
        }
        j = j + n;
    }
    assert(l@.subrange(len as int, len as int) =~= Seq::<char>::empty());
    assert(vecs_view(out@) + Seq::<Seq<char>>::empty() =~= vecs_view(out@));
}

impl TextBlock {
    /// `text` cut into lines and each wrapped at `width` characters (see
    /// `wrap_text`): a line that goes on is continued on lines indented as
    /// it is, marked with `↪`.
    pub fn wrapped(text: &str, width: usize) -> (r: TextBlock)
        requires
            wrap_text_ok(text@, width as int),
        ensures
            strings_view(r.text@) == wrap_text(text@, width as int),
    {
        let t = crate::text::chars_of(text);
        let n = t.len();
        let mut out: Vec<Vec<char>> = Vec::new();
        let mut i: usize = 0;
        assert(t@.subrange(0, n as int) =~= t@);
        assert(vecs_view(out@) + wrap_text(t@, width as int) =~= wrap_text(t@, width as int));
        while i < n
            invariant
                n == t@.len(),
                t@ == text@,
                0 <= i <= n,
                wrap_text_ok(t@.subrange(i as int, n as int), width as int),
                vecs_view(out@) + wrap_text(t@.subrange(i as int, n as int), width as int) == wrap_text(t@, width as int),
            decreases n - i,
        {
            let ghost rest = t@.subrange(i as int, n as int);
            let mut e = i;
            while e < n && t[e] != '\n'
                invariant
                    i <= e <= n,
                    n == t@.len(),
                    forall|j: int| i <= j < e ==> t@[j] != '\n',
                decreases n - e,
            {
                e += 1;
            }
            proof {
                lemma_line_end_at(rest, e - i);
            }
            let ghost before = vecs_view(out@);
            if e == n {
                let line = sub_chars(t.as_slice(), i, n);
                assert(line@ =~= rest);
                push_wrapped(&mut out, line.as_slice(), width);
                i = n;
                assert(t@.subrange(i as int, n as int) =~= Seq::<char>::empty());
                assert(vecs_view(out@) + Seq::<Seq<char>>::empty() =~= vecs_view(out@));
            } else {
                let cut = if e > i && t[e - 1] == '\r' {
                    e - 1
                } else {
                    e
                };
                let line = sub_chars(t.as_slice(), i, cut);
                assert(line@ =~= strip_cr(rest.subrange(0, e - i)));
                push_wrapped(&mut out, line.as_slice(), width);
                assert(rest.subrange(e - i + 1, rest.len() as int) =~= t@.subrange(e + 1, n as int));
                i = e + 1;
            }
        }
        assert(t@.subrange(0, n as int) =~= t@);
        let v = crate::prompt::to_strings(&out);
        assert(strings_view(v@) =~= vecs_view(out@));
        TextBlock { text: v }
    }
}

} // verus!
