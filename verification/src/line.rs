use vstd::prelude::*;
use vstd::string::{StrSliceExecFns, StringExecFns};
use vstd::utf8::encode_utf8;
use crate::prompt::strings_view;
use crate::text::chars_of;

verus! {

/// The characters of `c` from index `a` up to (not including) `b`, as far
/// as `c` goes; empty when `b <= a` or `a` is past the end.
pub open spec fn char_slice_spec(c: Seq<char>, a: int, b: int) -> Seq<char> {
    if b <= a || a >= c.len() {
        Seq::empty()
    } else {
        c.subrange(a, if b < c.len() { b } else { c.len() as int })
    }
}

/// The characters of `c` from index `a` up to `b` (see `char_slice_spec`).
pub fn str_char_slice(c: &str, a: usize, b: usize) -> (r: &str)
    ensures
        r@ == char_slice_spec(c@, a as int, b as int),
{
    let n = c.unicode_len();
    if b <= a || a >= n {
        proof {
            reveal_strlit("");
        }
        return "";
    }
    let end = if b < n {
        b
    } else {
        n
    };
    c.substring_char(a, end)
}

/// A message for the status line.
pub enum Message {
    Info(String),
    Warning(String),
    Error(String),
}

/// The splitter's state: the arguments so far, the one being read, where
/// the cursor was found, the quoting it is in, and the lookups it asked for.
pub struct ArgSt {
    pub r: Seq<Seq<char>>,
    pub cur: Seq<char>,
    pub passed_cursor: bool,
    pub arg_idx: int,
    pub ch_idx: int,
    pub done: bool,
    pub in_simple: bool,
    pub in_double: bool,
    pub in_escape: bool,
    pub in_lookup: bool,
    pub lookup_name: Seq<char>,
    pub last_k: int,
    pub asked: Seq<Seq<char>>,
}

/// `v` joined with single spaces.
pub open spec fn join_space(v: Seq<Seq<char>>) -> Seq<char>
    decreases v.len(),
{
    if v.len() == 0 {
        Seq::empty()
    } else if v.len() == 1 {
        v[0]
    } else {
        join_space(v.drop_last()) + seq![' '] + v.last()
    }
}

/// Byte length of `s` in UTF-8.
pub open spec fn byte_len(s: Seq<char>) -> int {
    (encode_utf8(s).len() as usize) as int
}

/// Splice the values `subst` of a lookup into the state: inside double
/// quotes all of them joined with spaces; otherwise the first one ends the
/// current argument, the middle ones are arguments of their own, and the
/// last one starts the next argument.
pub open spec fn splice(st: ArgSt, subst: Seq<Seq<char>>) -> ArgSt {
    if subst.len() == 0 {
        st
    } else if st.in_double {
        ArgSt { cur: st.cur + join_space(subst), ..st }
    } else if subst.len() == 1 {
        ArgSt { cur: st.cur + subst[0], ..st }
    } else {
        ArgSt {
            r: st.r.push(st.cur + subst[0]) + subst.subrange(1, subst.len() - 1),
            cur: subst.last(),
            ..st
        }
    }
}

/// Whether `ch` separates arguments.
pub open spec fn is_sep(ch: char) -> bool {
    ch == ' ' || ch == '\t' || ch == '\n' || ch == '\r'
}

/// One step of the argument splitter on character `k`, given the answers
/// to its lookups in the order they are asked; `None` where a `#` starts a
/// comment and ends the line.
pub open spec fn arg_step(
    cs: Seq<char>,
    cursor: int,
    phantom: bool,
    k: int,
    st0: ArgSt,
    answers: Seq<Seq<Seq<char>>>,
) -> (ArgSt, bool) {
    let ch = cs[k];
    let st1 = ArgSt { last_k: k, ..st0 };
    let st = if !st1.done && k == cursor {
        ArgSt {
            arg_idx: st1.r.len() as int,
            ch_idx: byte_len(st1.cur),
            passed_cursor: true,
            ..st1
        }
    } else {
        st1
    };
    if st.in_escape {
        (ArgSt { cur: st.cur.push(ch), in_escape: false, ..st }, true)
    } else if st.in_lookup {
        if ch == '}' {
            let asked = st.asked.push(st.lookup_name);
            let spliced = splice(st, answers[st.asked.len() as int]);
            (
                ArgSt { lookup_name: Seq::empty(), in_lookup: false, asked, ..spliced },
                true,
            )
        } else {
            (ArgSt { lookup_name: st.lookup_name.push(ch), ..st }, true)
        }
    } else if st.in_simple {
        if ch == '\'' {
            (ArgSt { in_simple: false, ..st }, true)
        } else {
            (ArgSt { cur: st.cur.push(ch), ..st }, true)
        }
    } else if st.in_double {
        if ch == '"' {
            (ArgSt { in_double: false, ..st }, true)
        } else if ch == '{' && !phantom {
            (ArgSt { in_lookup: true, ..st }, true)
        } else {
            (ArgSt { cur: st.cur.push(ch), ..st }, true)
        }
    } else if ch == '\'' {
        (ArgSt { in_simple: true, ..st }, true)
    } else if ch == '"' {
        (ArgSt { in_double: true, ..st }, true)
    } else if ch == '\\' {
        (ArgSt { in_escape: true, ..st }, true)
    } else if ch == '{' && !phantom {
        (ArgSt { in_lookup: true, ..st }, true)
    } else if is_sep(ch) {
        if st.cur.len() != 0 {
            let marked = if !st.done && k == cursor {
                ArgSt {
                    arg_idx: st.r.len() as int,
                    ch_idx: byte_len(st.cur),
                    done: true,
                    ..st
                }
            } else {
                st
            };
            let pushed = ArgSt { r: marked.r.push(marked.cur), ..marked };
            let done = pushed.done || pushed.passed_cursor;
            (ArgSt { done, cur: Seq::empty(), ..pushed }, true)
        } else if !st.done && st.passed_cursor {
            (ArgSt { r: st.r.push(Seq::empty()), done: true, ..st }, true)
        } else {
            (st, true)
        }
    } else if ch == '#' && st.cur.len() == 0 {
        (st, false)
    } else {
        (ArgSt { cur: st.cur.push(ch), ..st }, true)
    }
}

/// The argument splitter's state after the first `k` characters, and
/// whether it still reads on.
pub open spec fn arg_upto(
    cs: Seq<char>,
    cursor: int,
    phantom: bool,
    k: int,
    answers: Seq<Seq<Seq<char>>>,
) -> (ArgSt, bool)
    decreases k,
{
    if k <= 0 {
        (arg_init(phantom), true)
    } else {
        let (st, running) = arg_upto(cs, cursor, phantom, k - 1, answers);
        if !running || k - 1 >= cs.len() {
            (st, running)
        } else {
            arg_step(cs, cursor, phantom, k - 1, st, answers)
        }
    }
}

/// The splitter's state before the first character.
pub open spec fn arg_init(phantom: bool) -> ArgSt {
    ArgSt {
        r: Seq::empty(),
        cur: Seq::empty(),
        passed_cursor: false,
        arg_idx: 0,
        ch_idx: 0,
        done: !phantom,
        in_simple: false,
        in_double: false,
        in_escape: false,
        in_lookup: false,
        lookup_name: Seq::empty(),
        last_k: 0,
        asked: Seq::empty(),
    }
}

/// The arguments of `cs`, the index of the argument under `cursor` and the
/// byte offset of the cursor in it, given the answers to the lookups.
pub open spec fn split_args_spec(
    cs: Seq<char>,
    cursor: int,
    phantom: bool,
    answers: Seq<Seq<Seq<char>>>,
) -> (Seq<Seq<char>>, int, int) {
    let st = arg_upto(cs, cursor, phantom, cs.len() as int, answers).0;
    let st = if st.cur.len() != 0 {
        let marked = if !st.done && st.last_k + 1 == cursor {
            ArgSt {
                arg_idx: st.r.len() as int,
                ch_idx: byte_len(st.cur),
                done: true,
                ..st
            }
        } else {
            st
        };
        ArgSt { r: marked.r.push(marked.cur), ..marked }
    } else {
        st
    };
    if !st.done && !st.passed_cursor {
        (st.r.push(Seq::empty()), st.r.len() as int, st.ch_idx)
    } else {
        (st.r, st.arg_idx, st.ch_idx)
    }
}

/// The lookups the splitter asks for, in order (they do not depend on the
/// answers).
pub open spec fn asked_names(
    cs: Seq<char>,
    cursor: int,
    phantom: bool,
    answers: Seq<Seq<Seq<char>>>,
) -> Seq<Seq<char>> {
    arg_upto(cs, cursor, phantom, cs.len() as int, answers).0.asked
}

/// `lookup` may answer `answer` when asked for `name`.
pub open spec fn answers_with<F: Fn(&str) -> Vec<String>>(
    lookup: F,
    name: Seq<char>,
    answer: Seq<Seq<char>>,
) -> bool {
    exists|s: &str, r: Vec<String>|
        s@ == name && #[trigger] call_ensures(lookup, (s,), r) && strings_view(r@) == answer
}

proof fn lemma_step_asks(
    cs: Seq<char>,
    cursor: int,
    phantom: bool,
    k: int,
    st: ArgSt,
    answers: Seq<Seq<Seq<char>>>,
)
    requires
        0 <= k < cs.len(),
    ensures
        ({
            let (n, _) = arg_step(cs, cursor, phantom, k, st, answers);
            &&& n.asked.len() == st.asked.len() || n.asked.len() == st.asked.len() + 1
            &&& n.asked.len() == st.asked.len() + 1 ==> n.asked == st.asked.push(st.lookup_name)
            &&& forall|b: Seq<Seq<Seq<char>>>|
                (n.asked.len() == st.asked.len() || (st.asked.len() < answers.len() && st.asked.len()
                    < b.len() && b[st.asked.len() as int] == answers[st.asked.len() as int]))
                    ==> #[trigger] arg_step(cs, cursor, phantom, k, st, b) == arg_step(
                    cs,
                    cursor,
                    phantom,
                    k,
                    st,
                    answers,
                )
        }),
{
}

proof fn lemma_upto_asks_grow(
    cs: Seq<char>,
    cursor: int,
    phantom: bool,
    j: int,
    k: int,
    answers: Seq<Seq<Seq<char>>>,
)
    requires
        0 <= j <= k,
    ensures
        arg_upto(cs, cursor, phantom, j, answers).0.asked.len() <= arg_upto(
            cs,
            cursor,
            phantom,
            k,
            answers,
        ).0.asked.len(),
    decreases k - j,
{
    if j < k {
        lemma_upto_asks_grow(cs, cursor, phantom, j, k - 1, answers);
        let (st, running) = arg_upto(cs, cursor, phantom, k - 1, answers);
        if running && k - 1 < cs.len() {
            lemma_step_asks(cs, cursor, phantom, k - 1, st, answers);
        }
    }
}

proof fn lemma_upto_extend(
    cs: Seq<char>,
    cursor: int,
    phantom: bool,
    k: int,
    answers: Seq<Seq<Seq<char>>>,
    a: Seq<Seq<char>>,
)
    requires
        arg_upto(cs, cursor, phantom, k, answers).0.asked.len() <= answers.len(),
    ensures
        arg_upto(cs, cursor, phantom, k, answers.push(a)) == arg_upto(cs, cursor, phantom, k, answers),
    decreases k,
{
    if k > 0 {
        lemma_upto_asks_grow(cs, cursor, phantom, k - 1, k, answers);
        lemma_upto_extend(cs, cursor, phantom, k - 1, answers, a);
        let (st, running) = arg_upto(cs, cursor, phantom, k - 1, answers);
        if running && k - 1 < cs.len() {
            lemma_step_asks(cs, cursor, phantom, k - 1, st, answers);
            let b = answers.push(a);
            let (n, _) = arg_step(cs, cursor, phantom, k - 1, st, answers);
            if n.asked.len() != st.asked.len() {
                assert(b[st.asked.len() as int] == answers[st.asked.len() as int]);
            }
            assert(arg_step(cs, cursor, phantom, k - 1, st, b) == arg_step(
                cs,
                cursor,
                phantom,
                k - 1,
                st,
                answers,
            ));
        }
    }
}

proof fn lemma_sv_push(v: Seq<String>, s: String)
    ensures
        strings_view(v.push(s)) == strings_view(v).push(s@),
{
    assert(strings_view(v.push(s)) =~= strings_view(v).push(s@));
}

proof fn lemma_upto_stopped(
    cs: Seq<char>,
    cursor: int,
    phantom: bool,
    j: int,
    k: int,
    answers: Seq<Seq<Seq<char>>>,
)
    requires
        0 <= j <= k,
        !arg_upto(cs, cursor, phantom, j, answers).1 || j >= cs.len(),
    ensures
        arg_upto(cs, cursor, phantom, k, answers) == arg_upto(cs, cursor, phantom, j, answers),
    decreases k - j,
{
    if j < k {
        lemma_upto_stopped(cs, cursor, phantom, j, k - 1, answers);
    }
}

/// `c` is white space: a space, a tab, a newline or a carriage return.
pub open spec fn is_blank(c: char) -> bool {
    c == ' ' || c == '\t' || c == '\n' || c == '\r'
}

/// No character of `s` is white space.
pub open spec fn no_blank(s: Seq<char>) -> bool {
    forall|j: int| 0 <= j < s.len() ==> !is_blank(#[trigger] s[j])
}

/// No character of `cs` quotes, escapes, looks up or starts a comment.
pub open spec fn plain_line(cs: Seq<char>) -> bool {
    forall|j: int|
        0 <= j < cs.len() ==> #[trigger] cs[j] != '\'' && cs[j] != '"' && cs[j] != '\\' && cs[j] != '{' && cs[j]
            != '#'
}

proof fn lemma_plain_upto(cs: Seq<char>, cursor: int, phantom: bool, k: int, answers: Seq<Seq<Seq<char>>>)
    requires
        plain_line(cs),
        0 <= k <= cs.len(),
    ensures
        ({
            let (st, running) = arg_upto(cs, cursor, phantom, k, answers);
            &&& running
            &&& !st.in_simple && !st.in_double && !st.in_escape && !st.in_lookup
            &&& no_blank(st.cur)
            &&& forall|a: int| 0 <= a < st.r.len() ==> no_blank(#[trigger] st.r[a])
            &&& !phantom ==> st.done && forall|a: int| 0 <= a < st.r.len() ==> (#[trigger] st.r[a]).len() > 0
            &&& st.r.flatten_alt() + st.cur == cs.subrange(0, k).filter(|c: char| !is_blank(c))
        }),
    decreases k,
{
    reveal(Seq::filter);
    if k == 0 {
        assert(cs.subrange(0, 0).filter(|c: char| !is_blank(c)) =~= Seq::<char>::empty());
        assert(Seq::<Seq<char>>::empty().flatten_alt() + Seq::<char>::empty() =~= Seq::<char>::empty());
    } else {
        lemma_plain_upto(cs, cursor, phantom, k - 1, answers);
        let (st, running) = arg_upto(cs, cursor, phantom, k - 1, answers);
        let ch = cs[k - 1];
        let f = |c: char| !is_blank(c);
        let pre = cs.subrange(0, k - 1).filter(f);
        assert(cs.subrange(0, k).drop_last() =~= cs.subrange(0, k - 1));
        assert(cs.subrange(0, k).last() == ch);
        let (n, _) = arg_step(cs, cursor, phantom, k - 1, st, answers);
        assert(ch != '\'' && ch != '"' && ch != '\\' && ch != '{' && ch != '#');
        if is_blank(ch) {
            assert(cs.subrange(0, k).filter(f) == pre);
            if st.cur.len() != 0 {
                assert(n.r.drop_last() == st.r);
                assert(n.r.last() == st.cur);
                assert(n.r.flatten_alt() + n.cur =~= st.r.flatten_alt() + st.cur);
            } else if n.r.len() != st.r.len() {
                assert(n.r == st.r.push(Seq::empty()));
                assert(n.r.drop_last() == st.r);
                assert(n.r.last() == st.cur);
                assert(n.r.flatten_alt() + n.cur =~= st.r.flatten_alt() + st.cur);
            } else {
                assert(n.r == st.r && n.cur == st.cur);
            }
            assert(n.r.flatten_alt() + n.cur == pre);
        } else {
            assert(cs.subrange(0, k).filter(f) == pre.push(ch));
            assert(n.r.flatten_alt() + n.cur =~= (st.r.flatten_alt() + st.cur).push(ch));
            assert(n.r.flatten_alt() + n.cur == pre.push(ch));
        }
        assert(arg_upto(cs, cursor, phantom, k, answers).0 == n);
        assert(n.r.flatten_alt() + n.cur == cs.subrange(0, k).filter(f));
    }
}

/// A line without quotes, escapes, lookups or comments splits at white
/// space: no argument holds a space, a tab, a newline or a carriage
/// return; together, in order, they hold every other character of the
/// line; and, without the phantom argument, none is empty. So the
/// arguments are the words of the line.
pub proof fn plain_line_splits_at_blanks(
    cs: Seq<char>,
    cursor: int,
    phantom: bool,
    answers: Seq<Seq<Seq<char>>>,
)
    requires
        forall|j: int|
            0 <= j < cs.len() ==> #[trigger] cs[j] != '\'' && cs[j] != '"' && cs[j] != '\\' && cs[j] != '{' && cs[j]
                != '#',
    ensures
        ({
            let args = split_args_spec(cs, cursor, phantom, answers).0;
            &&& forall|a: int, j: int|
                0 <= a < args.len() && 0 <= j < args[a].len() ==> #[trigger] args[a][j] != ' ' && args[a][j] != '\t'
                    && args[a][j] != '\n' && args[a][j] != '\r'
            &&& args.flatten() == cs.filter(|c: char| c != ' ' && c != '\t' && c != '\n' && c != '\r')
            &&& !phantom ==> forall|a: int| 0 <= a < args.len() ==> (#[trigger] args[a]).len() > 0
        }),
{
    let n = cs.len() as int;
    lemma_plain_upto(cs, cursor, phantom, n, answers);
    assert(cs.subrange(0, n) =~= cs);
    let st = arg_upto(cs, cursor, phantom, n, answers).0;
    let args = split_args_spec(cs, cursor, phantom, answers).0;
    let f = |c: char| !is_blank(c);
    let g = |c: char| c != ' ' && c != '\t' && c != '\n' && c != '\r';
    assert(f =~= g);
    let r1 = if st.cur.len() != 0 {
        st.r.push(st.cur)
    } else {
        st.r
    };
    if st.cur.len() != 0 {
        assert(r1.drop_last() == st.r);
    } else {
        assert(st.r.flatten_alt() + st.cur =~= st.r.flatten_alt());
    }
    assert(r1.flatten_alt() == cs.filter(f));
    if args.len() != r1.len() {
        assert(args == r1.push(Seq::empty()));
        assert(args.drop_last() == r1);
        assert(args.flatten_alt() =~= r1.flatten_alt());
    }
    assert(args.flatten_alt() == cs.filter(g));
    args.lemma_flatten_and_flatten_alt_are_equivalent();
    assert forall|a: int, j: int| 0 <= a < args.len() && 0 <= j < args[a].len() implies #[trigger] args[a][j]
        != ' ' && args[a][j] != '\t' && args[a][j] != '\n' && args[a][j] != '\r' by {
        assert(no_blank(args[a]));
        assert(!is_blank(args[a][j]));
    }
}

proof fn lemma_quoted_upto(
    w: Seq<char>,
    qc: char,
    cursor: int,
    answers: Seq<Seq<Seq<char>>>,
    k: int,
)
    requires
        qc == '\'' || qc == '"',
        forall|j: int| 0 <= j < w.len() ==> #[trigger] w[j] != qc && w[j] != '{',
        1 <= k <= w.len() + 1,
    ensures
        ({
            let cs = seq![qc] + w + seq![qc];
            let (st, running) = arg_upto(cs, cursor, false, k, answers);
            &&& running && st.done
            &&& st.r.len() == 0 && st.cur == w.subrange(0, k - 1)
            &&& st.in_simple == (qc == '\'') && st.in_double == (qc == '"')
            &&& !st.in_escape && !st.in_lookup
        }),
    decreases k,
{
    let cs = seq![qc] + w + seq![qc];
    assert(cs[0] == qc);
    if k == 1 {
        assert(w.subrange(0, 0) =~= Seq::<char>::empty());
    } else {
        lemma_quoted_upto(w, qc, cursor, answers, k - 1);
        assert(cs[k - 1] == w[k - 2]);
        assert(w.subrange(0, k - 1) =~= w.subrange(0, k - 2).push(w[k - 2]));
    }
}

/// Quoting keeps an argument whole: a line that is one pair of single
/// quotes, or of double quotes, around text holding neither that quote
/// nor a lookup gives that text as its one argument, white space and all
/// (no argument where the text is empty).
pub proof fn quoted_text_is_one_argument(w: Seq<char>, qc: char, cursor: int, answers: Seq<Seq<Seq<char>>>)
    requires
        qc == '\'' || qc == '"',
        forall|j: int| 0 <= j < w.len() ==> #[trigger] w[j] != qc && w[j] != '{',
    ensures
        split_args_spec(seq![qc] + w + seq![qc], cursor, false, answers).0 == (if w.len() == 0 {
            Seq::<Seq<char>>::empty()
        } else {
            seq![w]
        }),
{
    let cs = seq![qc] + w + seq![qc];
    let n: int = w.len() as int + 1;
    lemma_quoted_upto(w, qc, cursor, answers, n);
    assert(w.subrange(0, n - 1) =~= w);
    assert(cs[n] == qc);
    assert(cs.len() == n + 1);
    let st = arg_upto(cs, cursor, false, n + 1, answers).0;
    assert(st.cur == w && st.r.len() == 0 && st.done);
    if w.len() != 0 {
        assert(st.r.push(st.cur) =~= seq![w]);
    }
}

/// Append `v` joined with spaces to `s`.
fn push_joined(s: &mut String, v: &Vec<String>)
    ensures
        final(s)@ == old(s)@ + join_space(strings_view(v@)),
{
    let ghost sv = strings_view(v@);
    let mut i: usize = 0;
    assert(sv.subrange(0, 0) =~= Seq::<Seq<char>>::empty());
    while i < v.len()
        invariant
            sv == strings_view(v@),
            0 <= i <= v@.len(),
            s@ == old(s)@ + join_space(sv.subrange(0, i as int)),
        decreases v@.len() - i,
    {
        let ghost before = s@;
        if i > 0 {
            s.append(" ");
            proof {
                reveal_strlit(" ");
            }
        }
        s.append(v[i].as_str());
        proof {
            let sub = sv.subrange(0, i + 1);
            assert(sub.drop_last() =~= sv.subrange(0, i as int));
            assert(sub.last() == v@[i as int]@);
            if i == 0 {
                assert(sub =~= seq![v@[0]@]);
            }
            assert(s@ =~= old(s)@ + join_space(sub));
        }
        i += 1;
    }
    assert(sv.subrange(0, i as int) =~= sv);
}

/// Split a command line into arguments, interpolating `{name}` lookups.
///
/// Arguments are separated by spaces, tabs and newlines; single quotes keep
/// their content literal; a backslash keeps the next character literal;
/// double quotes group but still interpolate; `#` at the start of an
/// argument comments out the rest. A lookup `{name}` is replaced by the
/// values `lookup(name)` gives: in double quotes all of them joined by
/// spaces, otherwise as arguments of their own, the first and last joined
/// to the text around them.
///
/// Also gives the index of the argument under the character index `cursor`
/// and the byte offset of the cursor in it. With
/// `add_phantom_arg_at_cursor_and_skip_lookup`, lookups are not performed
/// and a cursor that is not on a word gets an empty argument of its own.
pub fn split_line_args_cursor_indices<F: Fn(&str) -> Vec<String>>(
    c: &str,
    lookup: &F,
    cursor: usize,
    add_phantom_arg_at_cursor_and_skip_lookup: bool,
) -> (res: (Vec<String>, usize, usize))
    requires
        forall|s: &str| call_requires(*lookup, (s,)),
    ensures
        exists|answers: Seq<Seq<Seq<char>>>|
            {
                let names = asked_names(
                    c@,
                    cursor as int,
                    add_phantom_arg_at_cursor_and_skip_lookup,
                    answers,
                );
                &&& names.len() == answers.len()
                &&& forall|i: int|
                    0 <= i < answers.len() ==> answers_with(*lookup, names[i], #[trigger] answers[i])
                &&& (strings_view(res.0@), res.1 as int, res.2 as int) == #[trigger] split_args_spec(
                    c@,
                    cursor as int,
                    add_phantom_arg_at_cursor_and_skip_lookup,
                    answers,
                )
            },
{
    let phantom = add_phantom_arg_at_cursor_and_skip_lookup;
    let cs = chars_of(c);
    let n = cs.len();
    let ghost g = cs@;
    let ghost icursor = cursor as int;
    let mut r: Vec<String> = Vec::new();
    let mut cur = String::new();
    let mut passed_cursor = false;
    let mut arg_idx: usize = 0;
    let mut ch_idx: usize = 0;
    let mut done = !phantom;
    let mut in_simple = false;
    let mut in_double = false;
    let mut in_escape = false;
    let mut in_lookup = false;
    let mut lookup_name = String::new();
    let mut last_k: usize = 0;
    let mut running = true;
    let mut k: usize = 0;
    let ghost mut asked: Seq<Seq<char>> = Seq::empty();
    let ghost mut answers: Seq<Seq<Seq<char>>> = Seq::empty();
    assert(strings_view(r@) =~= Seq::<Seq<char>>::empty());
    while k < n && running
        invariant
            g == c@,
            icursor == cursor as int,
            phantom == add_phantom_arg_at_cursor_and_skip_lookup,
            cs@ == g,
            n == g.len(),
            0 <= k <= n,
            last_k < n || n == 0,
            forall|s: &str| call_requires(*lookup, (s,)),
            answers.len() == asked.len(),
            forall|i: int|
                0 <= i < answers.len() ==> answers_with(*lookup, asked[i], #[trigger] answers[i]),
            arg_upto(g, icursor, phantom, k as int, answers) == (
                ArgSt {
                    r: strings_view(r@),
                    cur: cur@,
                    passed_cursor,
                    arg_idx: arg_idx as int,
                    ch_idx: ch_idx as int,
                    done,
                    in_simple,
                    in_double,
                    in_escape,
                    in_lookup,
                    lookup_name: lookup_name@,
                    last_k: last_k as int,
                    asked,
                },
                running,
            ),
        decreases n - k,
    {
        let ghost st_before = ArgSt {
            r: strings_view(r@),
            cur: cur@,
            passed_cursor,
            arg_idx: arg_idx as int,
            ch_idx: ch_idx as int,
            done,
            in_simple,
            in_double,
            in_escape,
            in_lookup,
            lookup_name: lookup_name@,
            last_k: last_k as int,
            asked,
        };
        let ghost answers_before = answers;
        let ch = cs[k];
        last_k = k;
        if !done && k == cursor {
            arg_idx = r.len();
            let cs_ = cur.as_str();
            ch_idx = cs_.len();
            assert(cs_@ == cur@);
            assert(ch_idx == byte_len(cur@));
            assert(arg_idx == strings_view(r@).len());
            passed_cursor = true;
        }
        let ghost st_mark = ArgSt {
            r: strings_view(r@),
            cur: cur@,
            passed_cursor,
            arg_idx: arg_idx as int,
            ch_idx: ch_idx as int,
            done,
            in_simple,
            in_double,
            in_escape,
            in_lookup,
            lookup_name: lookup_name@,
            last_k: last_k as int,
            asked,
        };
        assert(st_mark.r == st_before.r);
        assert(st_mark.cur == st_before.cur);
        assert(st_mark.lookup_name == st_before.lookup_name);
        assert(st_mark.asked == st_before.asked);
        assert(!st_before.done && k == icursor ==> st_mark.arg_idx == st_before.r.len());
        assert(!st_before.done && k == icursor ==> st_mark.ch_idx == byte_len(st_before.cur));
        assert(st_mark == (if !st_before.done && k == icursor {
            ArgSt {
                arg_idx: st_before.r.len() as int,
                ch_idx: byte_len(st_before.cur),
                passed_cursor: true,
                last_k: k as int,
                ..st_before
            }
        } else {
            ArgSt { last_k: k as int, ..st_before }
        }));
        if in_escape {
            cur.append(char_str(ch).as_str());
            in_escape = false;
            assert(cur@ =~= st_mark.cur.push(ch));
        } else if in_lookup {
            if ch == '}' {
                let subst = lookup(lookup_name.as_str());
                proof {
                    let a = strings_view(subst@);
                    assert(answers_with(*lookup, lookup_name@, a));
                    lemma_upto_extend(g, icursor, phantom, k as int, answers, a);
                    asked = asked.push(lookup_name@);
                    answers = answers.push(a);
                }
                let len = subst.len();
                if len != 0 {
                    if in_double {
                        push_joined(&mut cur, &subst);
                    } else {
                        cur.append(subst[0].as_str());
                        if 1 < len {
                            let mut done_arg = String::new();
                            std::mem::swap(&mut done_arg, &mut cur);
                            proof {
                                lemma_sv_push(r@, done_arg);
                            }
                            r.push(done_arg);
                            let mut j: usize = 1;
                            let ghost base = strings_view(r@);
                            while j < len - 1
                                invariant
                                    1 <= j <= len - 1,
                                    len == subst@.len(),
                                    strings_view(r@) == base + strings_view(subst@).subrange(
                                        1,
                                        j as int,
                                    ),
                                decreases len - 1 - j,
                            {
                                let item = subst[j].clone();
                                assert(item@ == subst@[j as int]@);
                                proof {
                                    lemma_sv_push(r@, item);
                                }
                                r.push(item);
                                j += 1;
                                assert(strings_view(r@) =~= base + strings_view(subst@).subrange(
                                    1,
                                    j as int,
                                ));
                            }
                            cur = subst[len - 1].clone();
                        }
                    }
                }
                lookup_name = String::new();
                in_lookup = false;
            } else {
                lookup_name.append(char_str(ch).as_str());
            }
        } else if in_simple {
            if ch == '\'' {
                in_simple = false;
            } else {
                cur.append(char_str(ch).as_str());
            }
        } else if in_double {
            if ch == '"' {
                in_double = false;
            } else if ch == '{' && !phantom {
                in_lookup = true;
            } else {
                cur.append(char_str(ch).as_str());
            }
        } else if ch == '\'' {
            in_simple = true;
        } else if ch == '"' {
            in_double = true;
        } else if ch == '\\' {
            in_escape = true;
        } else if ch == '{' && !phantom {
            in_lookup = true;
        } else if ch == ' ' || ch == '\t' || ch == '\n' || ch == '\r' {
            if !cur.as_str().is_empty() {
                if !done && k == cursor {
                    arg_idx = r.len();
                    ch_idx = cur.as_str().len();
                    done = true;
                }
                let mut done_arg = String::new();
                std::mem::swap(&mut done_arg, &mut cur);
                proof {
                    lemma_sv_push(r@, done_arg);
                }
                r.push(done_arg);
                if !done && passed_cursor {
                    done = true;
                }
            } else if !done && passed_cursor {
                let e = String::new();
                proof {
                    lemma_sv_push(r@, e);
                }
                r.push(e);
                done = true;
            }
        } else if ch == '#' && cur.as_str().is_empty() {
            running = false;
        } else {
            cur.append(char_str(ch).as_str());
        }
        proof {
            let st_after = ArgSt {
                r: strings_view(r@),
                cur: cur@,
                passed_cursor,
                arg_idx: arg_idx as int,
                ch_idx: ch_idx as int,
                done,
                in_simple,
                in_double,
                in_escape,
                in_lookup,
                lookup_name: lookup_name@,
                last_k: last_k as int,
                asked,
            };
            assert(arg_upto(g, icursor, phantom, k as int, answers) == (st_before, true));
            let (sn, go) = arg_step(g, icursor, phantom, k as int, st_before, answers);
            assert(st_after.r =~= sn.r);
            assert(st_after.cur =~= sn.cur);
            assert(st_after.lookup_name =~= sn.lookup_name);
            assert(st_after.asked =~= sn.asked);
            assert(st_after == sn);
            assert(go == running);
            assert(arg_upto(g, icursor, phantom, k + 1, answers) == (st_after, running));
        }
        k += 1;
    }
    proof {
        lemma_upto_stopped(g, icursor, phantom, k as int, n as int, answers);
    }
    let ghost st_end = arg_upto(g, icursor, phantom, n as int, answers).0;
    if !cur.as_str().is_empty() {
        if !done && last_k + 1 == cursor {
            arg_idx = r.len();
            ch_idx = cur.as_str().len();
            done = true;
        }
        proof {
            lemma_sv_push(r@, cur);
        }
        r.push(cur);
    }
    if !done && !passed_cursor {
        arg_idx = r.len();
        let e = String::new();
        proof {
            lemma_sv_push(r@, e);
        }
        r.push(e);
    }
    proof {
        let (sr, sa, sc) = split_args_spec(g, icursor, phantom, answers);
        assert(strings_view(r@) =~= sr);
        assert(asked_names(g, icursor, phantom, answers) == asked);
        assert(split_args_spec(c@, cursor as int, phantom, answers) == (
            strings_view(r@),
            arg_idx as int,
            ch_idx as int,
        ));
    }
    (r, arg_idx, ch_idx)
}

/// Split a command line into arguments (see
/// `split_line_args_cursor_indices`), interpolating lookups.
pub fn split_line_args<F: Fn(&str) -> Vec<String>>(c: &str, lookup: &F) -> (r: Vec<String>)
    requires
        forall|s: &str| call_requires(*lookup, (s,)),
    ensures
        exists|answers: Seq<Seq<Seq<char>>>|
            {
                let names = asked_names(c@, 0, false, answers);
                &&& names.len() == answers.len()
                &&& forall|i: int|
                    0 <= i < answers.len() ==> answers_with(*lookup, names[i], #[trigger] answers[i])
                &&& strings_view(r@) == (#[trigger] split_args_spec(c@, 0, false, answers)).0
            },
{
    split_line_args_cursor_indices(c, lookup, 0, false).0
}

/// The string of the single character `c`.
fn char_str(c: char) -> (s: String)
    ensures
        s@ == seq![c],
{
    let v: Vec<char> = vec![c];
    let s = crate::text::string_of(v.as_slice());
    assert(s@ =~= seq![c]);
    s
}

/// The status line's view of the application: the focused view and the
/// tree it shows.
pub struct Line<'a, Tr> {
    pub focused: &'a crate::view::View,
    pub tree: &'a Tr,
}

impl<'a, Tr> Line<'a, Tr> {
    /// The status line for view `focused` on `tree`.
    pub fn new(focused: &'a crate::view::View, tree: &'a Tr) -> (r: Line<'a, Tr>)
        ensures
            *r.focused == *focused,
            *r.tree == *tree,
    {
        Line { focused, tree }
    }
}

} // verus!
