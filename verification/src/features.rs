use vstd::prelude::*;
use crate::readline::same_chars;
use crate::text::{chars_of, string_of};

verus! {

/// The display options: mouse reports, the alternate screen, pretty
/// display, and folding only children.
pub struct Options {
    pub mouse: bool,
    pub altscreen: bool,
    pub pretty: bool,
    pub onlychild: bool,
}

impl Default for Options {
    /// All options on.
    fn default() -> (r: Self)
        ensures
            r.mouse && r.altscreen && r.pretty && r.onlychild,
    {
        Options { mouse: true, altscreen: true, pretty: true, onlychild: true }
    }
}

/// How an option is written: `no` before it to unset it, `?` after it to
/// ask for its value, `!` after it to toggle it, and `=` with a value
/// after the name.
pub struct OptReq {
    pub no: bool,
    pub query: bool,
    pub toggle: bool,
    pub name: Seq<char>,
}

/// `s` up to its first `=`.
pub open spec fn before_eq(s: Seq<char>) -> Seq<char>
    decreases s.len(),
{
    if s.len() == 0 || s[0] == '=' {
        Seq::empty()
    } else {
        seq![s[0]] + before_eq(s.drop_first())
    }
}

/// How `s` asks for an option (see `OptReq`).
pub open spec fn parse_opt(s: Seq<char>) -> OptReq {
    let no = s.len() >= 2 && s[0] == 'n' && s[1] == 'o';
    let s1 = if no {
        s.subrange(2, s.len() as int)
    } else {
        s
    };
    let query = s1.len() > 0 && s1.last() == '?';
    let s2 = if query {
        s1.drop_last()
    } else {
        s1
    };
    let toggle = s2.len() > 0 && s2.last() == '!';
    let s3 = if toggle {
        s2.drop_last()
    } else {
        s2
    };
    OptReq { no, query, toggle, name: before_eq(s3) }
}

/// The new value of an option that is `cur`: toggled, or set (unset with
/// `no`); none when it already is so.
pub open spec fn flipped(cur: bool, no: bool, toggle: bool) -> Option<bool> {
    if toggle || cur == no {
        Some(!cur)
    } else {
        None
    }
}

/// The names of the options.
pub open spec fn mouse_name() -> Seq<char> {
    seq!['m', 'o', 'u', 's', 'e']
}

pub open spec fn alts_name() -> Seq<char> {
    seq!['a', 'l', 't', 's']
}

pub open spec fn altscreen_name() -> Seq<char> {
    seq!['a', 'l', 't', 's', 'c', 'r', 'e', 'e', 'n']
}

pub open spec fn pretty_name() -> Seq<char> {
    seq!['p', 'r', 'e', 't', 't', 'y']
}

pub open spec fn onchl_name() -> Seq<char> {
    seq!['o', 'n', 'c', 'h', 'l']
}

pub open spec fn onlychild_name() -> Seq<char> {
    seq!['o', 'n', 'l', 'y', 'c', 'h', 'i', 'l', 'd']
}

/// The answer to a query of option `name` that is `v`: its name, after
/// `no` when it is unset.
pub open spec fn shown(v: bool, name: Seq<char>) -> Seq<char> {
    if v {
        name
    } else {
        seq!['n', 'o'] + name
    }
}

/// The terminal sequence that turns mouse reports on or off.
pub open spec fn mouse_seq(on: bool) -> Seq<char> {
    seq!['\x1b', '[', '?', '1', '0', '0', '0', if on { 'h' } else { 'l' }]
}

/// The terminal sequence that enters or leaves the alternate screen.
pub open spec fn alts_seq(on: bool) -> Seq<char> {
    seq!['\x1b', '[', '?', '1', '0', '4', '9', if on { 'h' } else { 'l' }]
}

/// The message that an option is not implemented yet.
pub open spec fn niy(name: Seq<char>) -> Seq<char> {
    seq!['N', 'I', 'Y', ':', ' '] + name
}

/// The message for an unknown option.
pub open spec fn unknown(name: Seq<char>) -> Seq<char> {
    seq!['u', 'n', 'k', 'n', 'o', 'w', 'n', ' ', 'o', 'p', 't', 'i', 'o', 'n', ':', ' '] + name
}

/// A vector of the characters `cs`.
fn chars_vec(cs: &[char]) -> (r: Vec<char>)
    ensures
        r@ == cs@,
{
    let mut r: Vec<char> = Vec::new();
    crate::readline::push_chars(&mut r, cs);
    assert(r@ =~= cs@);
    r
}

/// `s` up to its first `=`.
fn before_eq_exec(s: &[char]) -> (r: Vec<char>)
    ensures
        r@ == before_eq(s@),
{
    let mut i: usize = 0;
    while i < s.len() && s[i] != '='
        invariant
            0 <= i <= s@.len(),
            forall|j: int| 0 <= j < i ==> s@[j] != '=',
        decreases s@.len() - i,
    {
        i += 1;
    }
    proof {
        lemma_before_eq(s@, i as int);
    }
    let r = crate::completions::typed_part(string_of(s).as_str(), i);
    r
}

proof fn lemma_before_eq(s: Seq<char>, i: int)
    requires
        0 <= i <= s.len(),
        forall|j: int| 0 <= j < i ==> s[j] != '=',
        i < s.len() ==> s[i] == '=',
    ensures
        before_eq(s) == s.subrange(0, i),
    decreases s.len(),
{
    if i > 0 {
        lemma_before_eq(s.drop_first(), i - 1);
        assert(seq![s[0]] + s.drop_first().subrange(0, i - 1) =~= s.subrange(0, i));
    } else {
        assert(s.subrange(0, 0) =~= Seq::<char>::empty());
    }
}

/// The value an option that is `cur` has after a request (see `flipped`).
pub open spec fn value_after(cur: bool, no: bool, toggle: bool) -> bool {
    match flipped(cur, no, toggle) {
        Some(v) => v,
        None => cur,
    }
}

/// Setting an option leaves it set, unsetting it (`no`) leaves it unset,
/// whatever it was; toggling (`!`) turns it over, and toggling twice
/// gives it back; a change is reported exactly when the value changes.
pub proof fn set_unset_toggle(cur: bool, no: bool)
    ensures
        value_after(cur, false, false),
        !value_after(cur, true, false),
        value_after(cur, no, true) == !cur,
        value_after(value_after(cur, no, true), no, true) == cur,
        forall|n: bool, t: bool| (flipped(cur, n, t) is Some) == (value_after(cur, n, t) != cur),
{
}

/// How a request is written: the option's name alone sets it, `no` before
/// it unsets it, `!` after it toggles it and `?` at the very end asks for
/// it; the name is what stands between.
pub proof fn request_forms(s: Seq<char>, no: bool, toggle: bool, query: bool)
    requires
        forall|j: int| 0 <= j < s.len() ==> #[trigger] s[j] != '=' && s[j] != '?' && s[j] != '!',
        !no ==> !(s.len() >= 2 && s[0] == 'n' && s[1] == 'o'),
    ensures
        ({
            let r = (if no { seq!['n', 'o'] } else { Seq::empty() }) + s + (if toggle {
                seq!['!']
            } else {
                Seq::empty()
            }) + (if query { seq!['?'] } else { Seq::empty() });
            let q = parse_opt(r);
            q.no == no && q.toggle == toggle && q.query == query && q.name == s
        }),
{
    let r = (if no { seq!['n', 'o'] } else { Seq::empty() }) + s + (if toggle {
        seq!['!']
    } else {
        Seq::empty()
    }) + (if query { seq!['?'] } else { Seq::empty() });
    let s1 = if no { r.subrange(2, r.len() as int) } else { r };
    if no {
        assert(r[0] == 'n' && r[1] == 'o');
    } else if r.len() >= 2 && r[0] == 'n' && r[1] == 'o' {
        assert(s.len() < 2);
        if s.len() == 1 {
            assert(r[1] == '!' || r[1] == '?');
        } else {
            assert(r[0] == '!' || r[0] == '?');
        }
    }
    let t = s + (if toggle { seq!['!'] } else { Seq::empty() });
    assert(s1 =~= t + (if query { seq!['?'] } else { Seq::empty() }));
    if query {
        assert(s1.drop_last() =~= t);
    } else if s1.len() > 0 {
        assert(s1.last() != '?');
    }
    if toggle {
        assert(t.drop_last() =~= s);
    } else {
        assert(t =~= s);
        if t.len() > 0 {
            assert(t.last() != '!');
        }
    }
    lemma_before_eq(s, s.len() as int);
    assert(s.subrange(0, s.len() as int) =~= s);
}

/// The new value of an option (see `flipped`).
fn flip(cur: bool, no: bool, toggle: bool) -> (r: Option<bool>)
    ensures
        r == flipped(cur, no, toggle),
{
    if toggle || cur == no {
        Some(!cur)
    } else {
        None
    }
}

/// The string of `pre` then `name`.
fn joined(pre: &[char], name: &Vec<char>) -> (r: String)
    ensures
        r@ == pre@ + name@,
{
    let mut v = chars_vec(pre);
    crate::readline::push_chars(&mut v, name.as_slice());
    string_of(v.as_slice())
}

impl Options {
    /// Set, unset, toggle or query an option (see `parse_opt`); gives the
    /// message to show, if any, and the sequence to send to the terminal
    /// when the mouse or the alternate screen changed.
    pub fn update(&mut self, opt: &str) -> (r: (Option<String>, Option<String>))
        ensures
            ({
                let q = parse_opt(opt@);
                let o = *old(self);
                let n = *final(self);
                if q.name == mouse_name() || q.name == alts_name() || q.name == altscreen_name()
                    || q.name == pretty_name() || q.name == onchl_name() || q.name == onlychild_name() {
                    let is_mouse = q.name == mouse_name();
                    let is_alts = q.name == alts_name() || q.name == altscreen_name();
                    let is_pretty = q.name == pretty_name();
                    let cur = if is_mouse {
                        o.mouse
                    } else if is_alts {
                        o.altscreen
                    } else if is_pretty {
                        o.pretty
                    } else {
                        o.onlychild
                    };
                    let full = if is_mouse {
                        mouse_name()
                    } else if is_alts {
                        altscreen_name()
                    } else if is_pretty {
                        pretty_name()
                    } else {
                        onlychild_name()
                    };
                    if q.query {
                        n == o && r.1 is None && (r.0 matches Some(m) && m@ == shown(cur, full))
                    } else {
                        match flipped(cur, q.no, q.toggle) {
                            None => n == o && r.0 is None && r.1 is None,
                            Some(v) => {
                                &&& n.mouse == (if is_mouse { v } else { o.mouse })
                                &&& n.altscreen == (if is_alts { v } else { o.altscreen })
                                &&& n.pretty == (if is_pretty { v } else { o.pretty })
                                &&& n.onlychild == (if !is_mouse && !is_alts && !is_pretty { v } else { o.onlychild })
                                &&& if is_mouse {
                                    r.0 is None && (r.1 matches Some(t) && t@ == mouse_seq(v))
                                } else if is_alts {
                                    r.0 is None && (r.1 matches Some(t) && t@ == alts_seq(v))
                                } else {
                                    r.1 is None && (r.0 matches Some(m) && m@ == niy(full))
                                }
                            },
                        }
                    }
                } else {
                    n == o && r.1 is None && (r.0 matches Some(m) && m@ == unknown(q.name))
                }
            }),
    {
        let s = chars_of(opt);
        let ghost sv = s@;
        let no = s.len() >= 2 && s[0] == 'n' && s[1] == 'o';
        let mut a: usize = if no {
            2
        } else {
            0
        };
        let mut b: usize = s.len();
        let query = a < b && s[b - 1] == '?';
        if query {
            b = b - 1;
        }
        let toggle = a < b && s[b - 1] == '!';
        if toggle {
            b = b - 1;
        }
        proof {
            let s1 = if no {
                sv.subrange(2, sv.len() as int)
            } else {
                sv
            };
            let s2 = if query {
                s1.drop_last()
            } else {
                s1
            };
            let s3 = if toggle {
                s2.drop_last()
            } else {
                s2
            };
            assert(s1 =~= sv.subrange(a as int, sv.len() as int));
            if query {
                assert(s2 =~= sv.subrange(a as int, sv.len() - 1));
            }
            assert(s3 =~= sv.subrange(a as int, b as int));
        }
        let head = s.as_slice().split_at(b).0;
        let mid = head.split_at(a).1;
        assert(mid@ =~= sv.subrange(a as int, b as int));
        let name = before_eq_exec(mid);
        assert(name@ == parse_opt(opt@).name);
        let is_mouse = same_chars(name.as_slice(), &['m', 'o', 'u', 's', 'e']);
        let is_alts = same_chars(name.as_slice(), &['a', 'l', 't', 's']) || same_chars(
            name.as_slice(),
            &['a', 'l', 't', 's', 'c', 'r', 'e', 'e', 'n'],
        );
        let is_pretty = same_chars(name.as_slice(), &['p', 'r', 'e', 't', 't', 'y']);
        let is_only = same_chars(name.as_slice(), &['o', 'n', 'c', 'h', 'l']) || same_chars(
            name.as_slice(),
            &['o', 'n', 'l', 'y', 'c', 'h', 'i', 'l', 'd'],
        );
        if !is_mouse && !is_alts && !is_pretty && !is_only {
            return (Some(joined(&['u', 'n', 'k', 'n', 'o', 'w', 'n', ' ', 'o', 'p', 't', 'i', 'o', 'n', ':', ' '], &name)), None);
        }
        let full = if is_mouse {
            chars_vec(&['m', 'o', 'u', 's', 'e'])
        } else if is_alts {
            chars_vec(&['a', 'l', 't', 's', 'c', 'r', 'e', 'e', 'n'])
        } else if is_pretty {
            chars_vec(&['p', 'r', 'e', 't', 't', 'y'])
        } else {
            chars_vec(&['o', 'n', 'l', 'y', 'c', 'h', 'i', 'l', 'd'])
        };
        let cur = if is_mouse {
            self.mouse
        } else if is_alts {
            self.altscreen
        } else if is_pretty {
            self.pretty
        } else {
            self.onlychild
        };
        if query {
            if cur {
                return (Some(joined(&[], &full)), None);
            } else {
                return (Some(joined(&['n', 'o'], &full)), None);
            }
        }
        let v = match flip(cur, no, toggle) {
            Some(v) => v,
            None => {
                return (None, None);
            },
        };
        if is_mouse {
            self.mouse = v;
            let last = if v {
                'h'
            } else {
                'l'
            };
            let t = chars_vec(&['\x1b', '[', '?', '1', '0', '0', '0', last]);
            (None, Some(string_of(t.as_slice())))
        } else if is_alts {
            self.altscreen = v;
            let last = if v {
                'h'
            } else {
                'l'
            };
            let t = chars_vec(&['\x1b', '[', '?', '1', '0', '4', '9', last]);
            (None, Some(string_of(t.as_slice())))
        } else if is_pretty {
            self.pretty = v;
            (Some(joined(&['N', 'I', 'Y', ':', ' '], &full)), None)
        } else {
            self.onlychild = v;
            (Some(joined(&['N', 'I', 'Y', ':', ' '], &full)), None)
        }
    }
}

} // verus!
