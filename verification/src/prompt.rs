use vstd::prelude::*;
use crate::text::{chars_of, is_whitespace, is_whitespace_spec, string_of};

verus! {

/// A line split into parts, and the index of the part holding the point (if
/// a point was given).
pub struct PromptSplitInfo {
    pub parts: Vec<String>,
    pub in_part: Option<usize>,
}

/// An optional index as a mathematical integer.
pub open spec fn opt_int(o: Option<usize>) -> Option<int> {
    match o {
        Some(i) => Some(i as int),
        None => None,
    }
}

/// The characters of each string.
pub open spec fn strings_view(v: Seq<String>) -> Seq<Seq<char>> {
    v.map_values(|s: String| s@)
}

/// Where the shell-like splitter stands between two characters.
#[derive(Clone, Copy, PartialEq, Eq, Structural)]
pub enum ShellMode {
    Word,
    Blank,
    SingleQuote,
    DoubleQuote,
}

/// The shell-like splitter's state: mode, finished parts, the part being
/// read, and the part holding the point once found.
pub struct ShellSt {
    pub mode: ShellMode,
    pub parts: Seq<Seq<char>>,
    pub curr: Seq<char>,
    pub in_part: Option<int>,
}

/// The character that `\c` stands for inside double quotes.
pub open spec fn dq_escape(c: char) -> char {
    if c == 't' {
        '\t'
    } else if c == 'n' {
        '\n'
    } else if c == 'r' {
        '\r'
    } else if c == 'e' {
        '\x1b'
    } else {
        c
    }
}

/// One step of the shell-like splitter on the character at `k`: the new
/// state, and where to go on (`None` when the line ends on a lone
/// backslash).
pub open spec fn shell_step(cs: Seq<char>, point: Option<usize>, k: int, st: ShellSt) -> (
    ShellSt,
    Option<int>,
) {
    let c = cs[k];
    // the point, if it falls on this character, marks the current part
    let st = if st.in_part is None && point == Some(k as usize) {
        ShellSt {
            in_part: Some(st.parts.len() as int),
            parts: if st.mode == ShellMode::Blank && is_whitespace_spec(c) {
                st.parts.push(Seq::empty())
            } else {
                st.parts
            },
            ..st
        }
    } else {
        st
    };
    let ws = is_whitespace_spec(c);
    let word_or_blank = st.mode == ShellMode::Word || st.mode == ShellMode::Blank;
    if word_or_blank && c == '\'' {
        (ShellSt { mode: ShellMode::SingleQuote, ..st }, Some(k + 1))
    } else if word_or_blank && c == '"' {
        (ShellSt { mode: ShellMode::DoubleQuote, ..st }, Some(k + 1))
    } else {
        match st.mode {
            ShellMode::Word => if c == '\\' {
                if k + 1 < cs.len() {
                    (ShellSt { curr: st.curr.push(cs[k + 1]), ..st }, Some(k + 2))
                } else {
                    (st, None)
                }
            } else if ws {
                (
                    ShellSt {
                        mode: ShellMode::Blank,
                        parts: st.parts.push(st.curr),
                        curr: Seq::empty(),
                        ..st
                    },
                    Some(k + 1),
                )
            } else {
                (ShellSt { curr: st.curr.push(c), ..st }, Some(k + 1))
            },
            ShellMode::Blank => if !ws {
                (ShellSt { mode: ShellMode::Word, curr: st.curr.push(c), ..st }, Some(k + 1))
            } else {
                (st, Some(k + 1))
            },
            ShellMode::SingleQuote => if c == '\'' {
                (ShellSt { mode: ShellMode::Word, ..st }, Some(k + 1))
            } else {
                (ShellSt { curr: st.curr.push(c), ..st }, Some(k + 1))
            },
            ShellMode::DoubleQuote => if c == '"' {
                (ShellSt { mode: ShellMode::Word, ..st }, Some(k + 1))
            } else if c == '\\' {
                if k + 1 < cs.len() {
                    (ShellSt { curr: st.curr.push(dq_escape(cs[k + 1])), ..st }, Some(k + 2))
                } else {
                    (st, None)
                }
            } else {
                (ShellSt { curr: st.curr.push(c), ..st }, Some(k + 1))
            },
        }
    }
}

/// The shell-like splitter run from character `k` to the end of the line.
pub open spec fn shell_run(cs: Seq<char>, point: Option<usize>, k: int, st: ShellSt) -> ShellSt
    decreases cs.len() - k,
{
    if k < 0 || k >= cs.len() {
        st
    } else {
        let (next, go) = shell_step(cs, point, k, st);
        match go {
            Some(k2) => if k2 > k {
                shell_run(cs, point, k2, next)
            } else {
                next
            },
            None => next,
        }
    }
}

/// The splitter's state before the first character.
pub open spec fn shell_init(cs: Seq<char>) -> ShellSt {
    ShellSt {
        mode: if cs.len() > 0 && is_whitespace_spec(cs[0]) {
            ShellMode::Blank
        } else {
            ShellMode::Word
        },
        parts: Seq::empty(),
        curr: Seq::empty(),
        in_part: None,
    }
}

/// The parts and point index of a shell-like split of `cs`: the final part
/// is kept unless the line ended in blanks (and something was kept before);
/// a point past the end belongs to the last part.
pub open spec fn shell_split_spec(cs: Seq<char>, point: Option<usize>) -> (
    Seq<Seq<char>>,
    Option<int>,
) {
    let st = shell_run(cs, point, 0, shell_init(cs));
    let unplaced = point is Some && st.in_part is None;
    let parts = if st.mode != ShellMode::Blank || st.parts.len() == 0 || unplaced {
        st.parts.push(st.curr)
    } else {
        st.parts
    };
    (parts, if unplaced { Some(parts.len() - 1) } else { st.in_part })
}

/// Turn parts read as characters into strings.
pub fn to_strings(parts: &Vec<Vec<char>>) -> (r: Vec<String>)
    ensures
        strings_view(r@) == parts@.map_values(|v: Vec<char>| v@),
{
    let mut r: Vec<String> = Vec::new();
    let mut i: usize = 0;
    while i < parts.len()
        invariant
            0 <= i <= parts@.len(),
            r@.len() == i,
            forall|j: int| 0 <= j < i ==> r@[j]@ == parts@[j]@,
        decreases parts@.len() - i,
    {
        let s = string_of(parts[i].as_slice());
        r.push(s);
        i += 1;
    }
    assert(strings_view(r@) =~= parts@.map_values(|v: Vec<char>| v@));
    r
}

/// Split `line` in a shell-like manner.
///
/// Words are split on (Unicode) white space; a backslash and single quotes
/// keep the literal meaning of what they quote; single quotes cannot hold a
/// single quote; inside double quotes a backslash escapes the next
/// character, with `\t`, `\n`, `\r`, `\e` standing for tab, newline,
/// carriage return and escape. No variable is interpolated.
///
/// There is always at least one part. `point` (a character index) sets
/// `in_part` to the index of the part holding it.
pub fn shell_like_split(line: &str, point: Option<usize>) -> (r: PromptSplitInfo)
    ensures
        (strings_view(r.parts@), opt_int(r.in_part)) == shell_split_spec(
            line@,
            point,
        ),
        r.parts@.len() >= 1,
        point is None ==> r.in_part is None,
        point is Some ==> (r.in_part matches Some(i) && i < r.parts@.len()),
{
    let cs = chars_of(line);
    let ghost g = cs@;
    let mut mode = if cs.len() > 0 && is_whitespace(cs[0]) {
        ShellMode::Blank
    } else {
        ShellMode::Word
    };
    let mut parts: Vec<Vec<char>> = Vec::new();
    let mut curr: Vec<char> = Vec::new();
    let mut in_part: Option<usize> = None;
    let mut k: usize = 0;
    let mut stopped = false;
    let ghost init = shell_init(g);
    assert(parts@.map_values(|v: Vec<char>| v@) =~= Seq::<Seq<char>>::empty());
    assert(curr@ =~= Seq::<char>::empty());
    while k < cs.len() && !stopped
        invariant
            cs@ == g,
            g == line@,
            k <= g.len(),
            in_part matches Some(i) ==> i <= parts@.len(),
            in_part matches Some(i) ==> (i < parts@.len() || mode != ShellMode::Blank),
            point is None ==> in_part is None,
            parts@.len() <= k,
            ({
                let st = ShellSt {
                    mode,
                    parts: parts@.map_values(|v: Vec<char>| v@),
                    curr: curr@,
                    in_part: opt_int(in_part),
                };
                &&& stopped ==> shell_run(g, point, 0, init) == st
                &&& !stopped ==> shell_run(g, point, 0, init) == shell_run(g, point, k as int, st)
            }),
        decreases g.len() - k + if stopped { 0int } else { 1int },
    {
        let ghost before = ShellSt {
            mode,
            parts: parts@.map_values(|v: Vec<char>| v@),
            curr: curr@,
            in_part: opt_int(in_part),
        };
        let c = cs[k];
        if in_part.is_none() && point == Some(k) {
            in_part = Some(parts.len());
            if mode == ShellMode::Blank && is_whitespace(c) {
                parts.push(Vec::new());
            }
        }
        let ws = is_whitespace(c);
        let mut next = k + 1;
        let word_or_blank = mode == ShellMode::Word || mode == ShellMode::Blank;
        if word_or_blank && c == '\'' {
            mode = ShellMode::SingleQuote;
        } else if word_or_blank && c == '"' {
            mode = ShellMode::DoubleQuote;
        } else {
            match mode {
                ShellMode::Word => {
                    if c == '\\' {
                        if k + 1 < cs.len() {
                            curr.push(cs[k + 1]);
                            next = k + 2;
                        } else {
                            stopped = true;
                        }
                    } else if ws {
                        let mut done: Vec<char> = Vec::new();
                        std::mem::swap(&mut done, &mut curr);
                        parts.push(done);
                        mode = ShellMode::Blank;
                    } else {
                        curr.push(c);
                    }
                },
                ShellMode::Blank => {
                    if !ws {
                        curr.push(c);
                        mode = ShellMode::Word;
                    }
                },
                ShellMode::SingleQuote => {
                    if c == '\'' {
                        mode = ShellMode::Word;
                    } else {
                        curr.push(c);
                    }
                },
                ShellMode::DoubleQuote => {
                    if c == '"' {
                        mode = ShellMode::Word;
                    } else if c == '\\' {
                        if k + 1 < cs.len() {
                            let e = cs[k + 1];
                            let d = if e == 't' {
                                '\t'
                            } else if e == 'n' {
                                '\n'
                            } else if e == 'r' {
                                '\r'
                            } else if e == 'e' {
                                '\x1b'
                            } else {
                                e
                            };
                            curr.push(d);
                            next = k + 2;
                        } else {
                            stopped = true;
                        }
                    } else {
                        curr.push(c);
                    }
                },
            }
        }
        proof {
            let after = ShellSt {
                mode,
                parts: parts@.map_values(|v: Vec<char>| v@),
                curr: curr@,
                in_part: opt_int(in_part),
            };
            let (sn, go) = shell_step(g, point, k as int, before);
            assert(after.parts =~= sn.parts);
            assert(after == sn);
            if stopped {
                assert(go is None);
            } else {
                assert(go == Some(next as int));
            }
        }
        if !stopped {
            k = next;
        }
    }
    let ghost st = ShellSt {
        mode,
        parts: parts@.map_values(|v: Vec<char>| v@),
        curr: curr@,
        in_part: opt_int(in_part),
    };
    assert(shell_run(g, point, 0, init) == st) by {
        if !stopped {
            assert(shell_run(g, point, k as int, st) == st);
        }
    }
    let unplaced = point.is_some() && in_part.is_none();
    if mode != ShellMode::Blank || parts.len() == 0 || unplaced {
        parts.push(curr);
    }
    if unplaced {
        in_part = Some(parts.len() - 1);
    }
    let strings = to_strings(&parts);
    proof {
        assert(strings_view(strings@).len() == strings@.len());
        let (sp, si) = shell_split_spec(g, point);
        assert(parts@.map_values(|v: Vec<char>| v@) =~= sp);
    }
    PromptSplitInfo { parts: strings, in_part }
}

} // verus!
