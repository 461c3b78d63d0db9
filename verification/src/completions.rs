use vstd::prelude::*;
use crate::prompt::{strings_view, to_strings};
use crate::readline::{lex_less, lex_lt, lemma_lex_irrefl, lemma_lex_total, lemma_lex_trans, same_chars, sorted_strict};
use crate::status::{ActionComplete, strs_view, vecs_view};
use crate::text::chars_of;

verus! {

broadcast use {
    vstd::seq_lib::to_multiset_insert,
    vstd::std_specs::vec::axiom_vec_index_decreases,
    vstd::std_specs::vec::axiom_vec_decreases_to_view,
};

/// The typed part of `word`: its first `ch_idx` characters (all of them
/// when it is shorter).
pub open spec fn typed(word: Seq<char>, ch_idx: int) -> Seq<char> {
    if ch_idx < word.len() {
        word.subrange(0, ch_idx)
    } else {
        word
    }
}

/// Sorted, equal strings side by side.
pub open spec fn sorted_le(f: Seq<Seq<char>>) -> bool {
    forall|i: int, j: int| 0 <= i < j < f.len() ==> !lex_lt(f[j], f[i])
}

/// The words among `words` that start with `pre`, each followed by a
/// space, in order.
pub open spec fn word_candidates(words: Seq<Seq<char>>, pre: Seq<char>) -> Seq<Seq<char>>
    decreases words.len(),
{
    if words.len() == 0 {
        Seq::empty()
    } else {
        let rest = word_candidates(words.drop_last(), pre);
        if pre.is_prefix_of(words.last()) {
            rest.push(words.last().push(' '))
        } else {
            rest
        }
    }
}

/// An entry of a directory, as completing a file name needs it.
pub struct DirEntry {
    pub name: String,
    pub is_dir: bool,
    pub exec_like: bool,
}

/// The completion a directory entry named `name` offers: the typed part
/// `wor`, a `/` if asked, the rest of the name after `search_for`, and
/// `/` after a directory or a space after a file.
pub open spec fn file_candidate(
    wor: Seq<char>,
    add_slash: bool,
    search_for: Seq<char>,
    name: Seq<char>,
    is_dir: bool,
) -> Seq<char> {
    wor + (if add_slash {
        seq!['/']
    } else {
        Seq::empty()
    }) + name.subrange(search_for.len() as int, name.len() as int) + seq![if is_dir { '/' } else { ' ' }]
}

/// The completions the entries `es` offer (see `file_candidate`): those
/// whose names start with `search_for`, and, with `filter_exec`, that look
/// executable.
pub open spec fn file_candidates(
    es: Seq<DirEntry>,
    wor: Seq<char>,
    add_slash: bool,
    search_for: Seq<char>,
    filter_exec: bool,
) -> Seq<Seq<char>>
    decreases es.len(),
{
    if es.len() == 0 {
        Seq::empty()
    } else {
        let rest = file_candidates(es.drop_last(), wor, add_slash, search_for, filter_exec);
        let e = es.last();
        if search_for.is_prefix_of(e.name@) && (!filter_exec || e.exec_like) {
            rest.push(file_candidate(wor, add_slash, search_for, e.name@, e.is_dir))
        } else {
            rest
        }
    }
}

/// The programs among the entries `es` (of the directories of the search
/// path) that start with `wor`: not directories, looking executable, each
/// followed by a space.
pub open spec fn program_candidates(es: Seq<DirEntry>, wor: Seq<char>) -> Seq<Seq<char>>
    decreases es.len(),
{
    if es.len() == 0 {
        Seq::empty()
    } else {
        let rest = program_candidates(es.drop_last(), wor);
        let e = es.last();
        if wor.is_prefix_of(e.name@) && !e.is_dir && e.exec_like {
            rest.push(e.name@.push(' '))
        } else {
            rest
        }
    }
}

/// The typed part of `word`: its first `ch_idx` characters.
pub fn typed_part(word: &str, ch_idx: usize) -> (r: Vec<char>)
    ensures
        r@ == typed(word@, ch_idx as int),
{
    let cs = chars_of(word);
    let n = if ch_idx < cs.len() {
        ch_idx
    } else {
        cs.len()
    };
    let mut r: Vec<char> = Vec::new();
    let mut i: usize = 0;
    while i < n
        invariant
            n <= cs@.len(),
            0 <= i <= n,
            r@ == cs@.subrange(0, i as int),
        decreases n - i,
    {
        r.push(cs[i]);
        assert(cs@.subrange(0, i + 1) =~= cs@.subrange(0, i as int).push(cs@[i as int]));
        i += 1;
    }
    assert(cs@.subrange(0, cs@.len() as int) =~= cs@);
    r
}

/// Whether `pre` starts `s`.
fn starts_with(s: &[char], pre: &[char]) -> (b: bool)
    ensures
        b == pre@.is_prefix_of(s@),
{
    if pre.len() > s.len() {
        return false;
    }
    let mut i: usize = 0;
    while i < pre.len()
        invariant
            pre@.len() <= s@.len(),
            0 <= i <= pre@.len(),
            forall|j: int| 0 <= j < i ==> pre@[j] == s@[j],
        decreases pre@.len() - i,
    {
        if pre[i] != s[i] {
            return false;
        }
        i += 1;
    }
    true
}

/// Inserting `x` in `s` adds `x` to what `s` holds.
proof fn lemma_insert_contains<A>(s: Seq<A>, p: int, x: A, y: A)
    requires
        0 <= p <= s.len(),
    ensures
        s.insert(p, x).contains(y) <==> (s.contains(y) || y == x),
{
    let t = s.insert(p, x);
    if s.contains(y) {
        let j = choose|j: int| 0 <= j < s.len() && s[j] == y;
        if j < p {
            assert(t[j] == y);
        } else {
            assert(t[j + 1] == y);
        }
    }
    if y == x {
        assert(t[p] == y);
    }
    if t.contains(y) {
        let k = choose|k: int| 0 <= k < t.len() && t[k] == y;
        if k < p {
            assert(s[k] == y);
        } else if k > p {
            assert(s[k - 1] == y);
        }
    }
}

/// Where `x` goes in the sorted `r`: after the strings before it.
fn insert_point(r: &Vec<Vec<char>>, x: &Vec<char>) -> (p: usize)
    ensures
        p <= r@.len(),
        forall|j: int| 0 <= j < p ==> lex_lt(#[trigger] r@[j]@, x@),
        p < r@.len() ==> !lex_lt(r@[p as int]@, x@),
{
    let mut q: usize = 0;
    while q < r.len()
        invariant
            q <= r@.len(),
            forall|j: int| 0 <= j < q ==> lex_lt(#[trigger] r@[j]@, x@),
        decreases r@.len() - q,
    {
        if !lex_less(r[q].as_slice(), x.as_slice()) {
            return q;
        }
        q += 1;
    }
    q
}

/// The strings of `v` sorted, each once.
pub fn sorted_set(v: &Vec<Vec<char>>) -> (r: Vec<Vec<char>>)
    ensures
        sorted_strict(vecs_view(r@)),
        vecs_view(r@).to_set() == vecs_view(v@).to_set(),
{
    let ghost vv = vecs_view(v@);
    let mut r: Vec<Vec<char>> = Vec::new();
    let mut i: usize = 0;
    while i < v.len()
        invariant
            vv == vecs_view(v@),
            0 <= i <= v@.len(),
            sorted_strict(vecs_view(r@)),
            forall|y: Seq<char>| vecs_view(r@).contains(y) <==> vv.subrange(0, i as int).contains(y),
        decreases v@.len() - i,
    {
        let x = &v[i];
        let p = insert_point(&r, x);
        let ghost before = vecs_view(r@);
        let ghost sub = vv.subrange(0, i + 1);
        proof {
            assert(sub =~= vv.subrange(0, i as int).push(x@));
            assert forall|y: Seq<char>| sub.contains(y) <==> (vv.subrange(0, i as int).contains(y) || y == x@) by {
                if sub.contains(y) {
                    let k = choose|k: int| 0 <= k < sub.len() && sub[k] == y;
                    if k < i {
                        assert(vv.subrange(0, i as int)[k] == y);
                    }
                }
                if vv.subrange(0, i as int).contains(y) {
                    let k = choose|k: int| 0 <= k < i && vv.subrange(0, i as int)[k] == y;
                    assert(sub[k] == y);
                }
                if y == x@ {
                    assert(sub[i as int] == y);
                }
            }
        }
        if p < r.len() && same_chars(r[p].as_slice(), x.as_slice()) {
            assert(before[p as int] == x@);
            assert(before.contains(x@));
        } else {
            r.insert(p, x.clone());
            proof {
                assert(vecs_view(r@) =~= before.insert(p as int, x@));
                assert forall|y: Seq<char>| vecs_view(r@).contains(y) <==> sub.contains(y) by {
                    lemma_insert_contains(before, p as int, x@, y);
                }
                if p < before.len() {
                    lemma_lex_total(before[p as int], x@);
                }
                assert forall|a: int, b: int| 0 <= a < b < vecs_view(r@).len() implies lex_lt(
                    vecs_view(r@)[a],
                    vecs_view(r@)[b],
                ) by {
                    let nr = vecs_view(r@);
                    if b < p {
                    } else if a < p && b == p {
                    } else if a < p && b > p {
                        lemma_lex_total(before[p as int], x@);
                        lemma_lex_trans(before[a], x@, before[p as int]);
                        if b - 1 > p {
                            lemma_lex_trans(before[a], before[p as int], before[b - 1]);
                        }
                    } else if a == p {
                        if b - 1 > p {
                            lemma_lex_trans(x@, before[p as int], before[b - 1]);
                        }
                    } else {
                    }
                }
            }
        }
        i += 1;
    }
    proof {
        assert(vv.subrange(0, i as int) =~= vv);
        assert(vecs_view(r@).to_set() =~= vv.to_set());
    }
    r
}

/// The strings of `v` sorted (equal ones kept).
pub fn sorted_all(v: &Vec<Vec<char>>) -> (r: Vec<Vec<char>>)
    ensures
        sorted_le(vecs_view(r@)),
        vecs_view(r@).to_multiset() == vecs_view(v@).to_multiset(),
{
    let ghost vv = vecs_view(v@);
    let mut r: Vec<Vec<char>> = Vec::new();
    let mut i: usize = 0;
    assert(vecs_view(r@) =~= vv.subrange(0, 0));
    while i < v.len()
        invariant
            vv == vecs_view(v@),
            0 <= i <= v@.len(),
            sorted_le(vecs_view(r@)),
            vecs_view(r@).to_multiset() == vv.subrange(0, i as int).to_multiset(),
        decreases v@.len() - i,
    {
        let x = &v[i];
        let p = insert_point(&r, x);
        let ghost before = vecs_view(r@);
        r.insert(p, x.clone());
        proof {
            assert(vecs_view(r@) =~= before.insert(p as int, x@));
            assert(vv.subrange(0, i + 1) =~= vv.subrange(0, i as int).insert(i as int, x@));
            assert forall|a: int, b: int| 0 <= a < b < vecs_view(r@).len() implies !lex_lt(
                vecs_view(r@)[b],
                vecs_view(r@)[a],
            ) by {
                if b < p {
                } else if a < p && b == p {
                    lemma_lex_irrefl(x@);
                    if lex_lt(x@, before[a]) {
                        lemma_lex_trans(x@, before[a], x@);
                    }
                } else if a < p && b > p {
                    if lex_lt(before[b - 1], before[a]) {
                        lemma_lex_trans(before[b - 1], before[a], x@);
                        if lex_lt(before[p as int], before[b - 1]) || before[p as int] == before[b - 1] {
                            if before[p as int] != before[b - 1] {
                                lemma_lex_trans(before[p as int], before[b - 1], x@);
                            }
                        } else {
                            lemma_lex_total(before[p as int], before[b - 1]);
                        }
                    }
                } else if a == p {
                    if lex_lt(before[b - 1], x@) {
                        if b - 1 > p {
                            if before[p as int] == before[b - 1] {
                            } else if lex_lt(before[p as int], before[b - 1]) {
                                lemma_lex_trans(before[p as int], before[b - 1], x@);
                            } else {
                                lemma_lex_total(before[p as int], before[b - 1]);
                            }
                        }
                    }
                } else {
                }
            }
        }
        i += 1;
    }
    assert(vv.subrange(0, i as int) =~= vv);
    r
}

/// Complete the word at `arg_idx` of `args` from `words` (with its first
/// `ch_idx` characters typed): the words that start with the typed part,
/// each followed by a space, sorted.
pub fn complete_words(words: &Vec<String>, args: &[&str], arg_idx: usize, ch_idx: usize) -> (r: Vec<String>)
    requires
        arg_idx < args@.len(),
    ensures
        sorted_le(strings_view(r@)),
        strings_view(r@).to_multiset() == word_candidates(
            strings_view(words@),
            typed(args@[arg_idx as int]@, ch_idx as int),
        ).to_multiset(),
{
    let wor = typed_part(args[arg_idx], ch_idx);
    let ghost wv = strings_view(words@);
    let mut found: Vec<Vec<char>> = Vec::new();
    let mut i: usize = 0;
    while i < words.len()
        invariant
            wv == strings_view(words@),
            0 <= i <= words@.len(),
            vecs_view(found@) == word_candidates(wv.subrange(0, i as int), wor@),
        decreases words@.len() - i,
    {
        let w = chars_of(words[i].as_str());
        let ghost sub = wv.subrange(0, i + 1);
        assert(sub.drop_last() =~= wv.subrange(0, i as int));
        if starts_with(w.as_slice(), wor.as_slice()) {
            let mut c = w;
            c.push(' ');
            let ghost before = vecs_view(found@);
            found.push(c);
            assert(vecs_view(found@) =~= before.push(wv[i as int].push(' ')));
        }
        i += 1;
    }
    assert(wv.subrange(0, i as int) =~= wv);
    let sorted = sorted_all(&found);
    let r = to_strings(&sorted);
    assert(strings_view(r@) =~= vecs_view(sorted@));
    r
}

/// The characters of `wor`, a `/` if asked, the rest of `name` after
/// `skip` characters, and `/` or a space.
fn candidate_of(wor: &Vec<char>, add_slash: bool, skip: usize, name: &Vec<char>, is_dir: bool) -> (r: Vec<char>)
    requires
        skip <= name@.len(),
    ensures
        r@ == wor@ + (if add_slash {
            seq!['/']
        } else {
            Seq::empty()
        }) + name@.subrange(skip as int, name@.len() as int) + seq![if is_dir { '/' } else { ' ' }],
{
    let mut r: Vec<char> = Vec::new();
    crate::readline::push_chars(&mut r, wor.as_slice());
    if add_slash {
        r.push('/');
    }
    let mut k: usize = skip;
    let ghost base = r@;
    while k < name.len()
        invariant
            skip <= k <= name@.len(),
            r@ == base + name@.subrange(skip as int, k as int),
        decreases name@.len() - k,
    {
        r.push(name[k]);
        assert(name@.subrange(skip as int, k + 1) =~= name@.subrange(skip as int, k as int).push(name@[k as int]));
        k += 1;
    }
    r.push(if is_dir {
        '/'
    } else {
        ' '
    });
    proof {
        let tail = if add_slash {
            seq!['/']
        } else {
            Seq::<char>::empty()
        };
        assert(base =~= wor@ + tail);
    }
    r
}

/// Complete a file name from the entries `entries` of the directory
/// searched (see `file_candidates`): sorted, each once.
pub fn complete_file_entries(
    entries: &Vec<DirEntry>,
    wor: &str,
    add_slash: bool,
    search_for: &str,
    filter_exec: bool,
) -> (r: Vec<String>)
    ensures
        sorted_strict(strings_view(r@)),
        strings_view(r@).to_set() == file_candidates(entries@, wor@, add_slash, search_for@, filter_exec).to_set(),
{
    let w = chars_of(wor);
    let sf = chars_of(search_for);
    let mut found: Vec<Vec<char>> = Vec::new();
    let mut i: usize = 0;
    while i < entries.len()
        invariant
            w@ == wor@,
            sf@ == search_for@,
            0 <= i <= entries@.len(),
            vecs_view(found@) == file_candidates(entries@.subrange(0, i as int), wor@, add_slash, search_for@, filter_exec),
        decreases entries@.len() - i,
    {
        let e = &entries[i];
        let name = chars_of(e.name.as_str());
        let ghost sub = entries@.subrange(0, i + 1);
        assert(sub.drop_last() =~= entries@.subrange(0, i as int));
        if starts_with(name.as_slice(), sf.as_slice()) && (!filter_exec || e.exec_like) {
            let c = candidate_of(&w, add_slash, sf.len(), &name, e.is_dir);
            let ghost before = vecs_view(found@);
            found.push(c);
            assert(vecs_view(found@) =~= before.push(
                file_candidate(wor@, add_slash, search_for@, e.name@, e.is_dir),
            ));
        }
        i += 1;
    }
    assert(entries@.subrange(0, i as int) =~= entries@);
    let set = sorted_set(&found);
    let r = to_strings(&set);
    assert(strings_view(r@) =~= vecs_view(set@));
    r
}

/// Complete a program name `wor` from the entries of the directories of
/// the search path (see `program_candidates`): sorted, each once.
pub fn complete_program_entries(entries: &Vec<DirEntry>, wor: &str) -> (r: Vec<String>)
    ensures
        sorted_strict(strings_view(r@)),
        strings_view(r@).to_set() == program_candidates(entries@, wor@).to_set(),
{
    let w = chars_of(wor);
    let mut found: Vec<Vec<char>> = Vec::new();
    let mut i: usize = 0;
    while i < entries.len()
        invariant
            w@ == wor@,
            0 <= i <= entries@.len(),
            vecs_view(found@) == program_candidates(entries@.subrange(0, i as int), wor@),
        decreases entries@.len() - i,
    {
        let e = &entries[i];
        let ghost sub = entries@.subrange(0, i + 1);
        assert(sub.drop_last() =~= entries@.subrange(0, i as int));
        let mut name = chars_of(e.name.as_str());
        if starts_with(name.as_slice(), w.as_slice()) && !e.is_dir && e.exec_like {
            name.push(' ');
            let ghost before = vecs_view(found@);
            found.push(name);
            assert(vecs_view(found@) =~= before.push(e.name@.push(' ')));
        }
        i += 1;
    }
    assert(entries@.subrange(0, i as int) =~= entries@);
    let set = sorted_set(&found);
    let r = to_strings(&set);
    assert(strings_view(r@) =~= vecs_view(set@));
    r
}


/// How the arguments of a command are completed: not at all, from a list
/// of words, by position (the last completer serving the arguments after
/// it), as the arguments of a command that start after the first `shift`
/// ones, as a program of the search path, or as a file path from the root
/// or from the cursor.
pub enum Completer {
    Nothing,
    Words(Vec<String>),
    Nth(Vec<Completer>),
    Of(Box<Command>, usize),
    PathLookup,
    FileFromRoot,
    FileFromCursor,
}

/// `r` is what the file completion `files` may give for the typed part
/// `wor` searched from the directory named by the first path that
/// `lookup` gives for `key`, nothing when it gives none.
pub open spec fn files_from_lookup<L, D>(
    lookup: L,
    files: D,
    key: Seq<char>,
    wor: Seq<char>,
    filter_exec: bool,
    r: Seq<String>,
) -> bool where L: Fn(&str) -> Vec<String>, D: Fn(&str, &str, bool) -> Vec<String> {
    exists|k: &str, found: Vec<String>|
        #![trigger call_ensures(lookup, (k,), found)]
        k@ == key && call_ensures(lookup, (k,), found) && if found@.len() == 0 {
            r.len() == 0
        } else {
            files_from(files, wor, found@[0]@, filter_exec, r)
        }
}

/// `r` is what the file completion `files` may give for the typed part
/// `wor` searched from the directory `from`.
pub open spec fn files_from<D>(files: D, wor: Seq<char>, from: Seq<char>, filter_exec: bool, r: Seq<String>) -> bool where
    D: Fn(&str, &str, bool) -> Vec<String>,
 {
    exists|w: &str, f: &str, out: Vec<String>|
        #![trigger call_ensures(files, (w, f, filter_exec), out)]
        w@ == wor && f@ == from && call_ensures(files, (w, f, filter_exec), out) && out@ == r
}

/// `r` is what completing argument `arg_idx` of `args` (its first `ch_idx`
/// characters typed) with `c` gives: nothing for `None`; the words that
/// start with the typed part, each followed by a space, sorted, for
/// `Words`; the completion of the completer serving the argument for
/// `Nth`; for `PathLookup`, a file path from the root directory when the
/// word is a path (from `/` when it starts with one), else the programs
/// among the entries of the search path that `programs` lists that start
/// with the typed part, sorted, each once; a file path from the root or the cursor (as
/// `lookup` names them) for the last two.
pub open spec fn completed<L, D, X>(
    c: Completer,
    args: Seq<&str>,
    arg_idx: int,
    ch_idx: int,
    lookup: L,
    files: D,
    programs: X,
    r: Seq<String>,
) -> bool where L: Fn(&str) -> Vec<String>, D: Fn(&str, &str, bool) -> Vec<String>, X: Fn() -> Vec<DirEntry>
    decreases c,
{
    let word = args[arg_idx]@;
    let wor = typed(word, ch_idx);
    match c {
        Completer::Nothing => r.len() == 0,
        Completer::Words(ws) => sorted_le(strings_view(r)) && strings_view(r).to_multiset() == word_candidates(
            strings_view(ws@),
            wor,
        ).to_multiset(),
        Completer::Nth(v) => if v@.len() == 0 {
            r.len() == 0
        } else if 0 <= arg_idx < v@.len() {
            completed(v@[arg_idx], args, arg_idx, ch_idx, lookup, files, programs, r)
        } else {
            completed(v@[v@.len() - 1], args, arg_idx, ch_idx, lookup, files, programs, r)
        },
        Completer::Of(cmd, shift) => if shift <= arg_idx {
            completed(
                cmd.comp,
                args.subrange(shift as int, args.len() as int),
                arg_idx - shift,
                ch_idx,
                lookup,
                files,
                programs,
                r,
            )
        } else {
            r.len() == 0
        },
        Completer::PathLookup => if word.len() > 0 && word[0] == '/' {
            files_from(files, wor, seq!['/'], true, r)
        } else if word.contains('/') {
            files_from_lookup(lookup, files, seq!['r', 'o', 'o', 't'], wor, true, r)
        } else {
            exists|es: Vec<DirEntry>|
                #![trigger call_ensures(programs, (), es)]
                call_ensures(programs, (), es) && sorted_strict(strings_view(r)) && strings_view(r).to_set()
                    == program_candidates(es@, wor).to_set()
        },
        Completer::FileFromRoot => files_from_lookup(lookup, files, seq!['r', 'o', 'o', 't'], wor, false, r),
        Completer::FileFromCursor => files_from_lookup(lookup, files, Seq::empty(), wor, false, r),
    }
}

/// Whether `c` has the character `x`.
fn has_char(c: &Vec<char>, x: char) -> (r: bool)
    ensures
        r == c@.contains(x),
{
    let mut i: usize = 0;
    while i < c.len()
        invariant
            0 <= i <= c@.len(),
            forall|j: int| 0 <= j < i ==> c@[j] != x,
        decreases c@.len() - i,
    {
        if c[i] == x {
            assert(c@[i as int] == x);
            return true;
        }
        i += 1;
    }
    false
}

impl Completer {
    /// The file completion `files` of `wor` from the first path `lookup`
    /// gives for `key`; nothing when it gives none.
    fn files_looked_up<L, D>(wor: &str, key: &str, filter_exec: bool, lookup: &L, files: &D) -> (r: Vec<String>)
        where L: Fn(&str) -> Vec<String>, D: Fn(&str, &str, bool) -> Vec<String>
        requires
            forall|k: &str| #[trigger] call_requires(*lookup, (k,)),
            forall|w: &str, f: &str, x: bool| #[trigger] call_requires(*files, (w, f, x)),
        ensures
            files_from_lookup(*lookup, *files, key@, wor@, filter_exec, r@),
    {
        let found = lookup(key);
        if found.len() == 0 {
            return Vec::new();
        }
        let from = found[0].as_str();
        let r = files(wor, from, filter_exec);
        assert(call_ensures(*files, (wor, from, filter_exec), r));
        r
    }

    /// Complete argument `arg_idx` of `args`, of which the first `ch_idx`
    /// characters are typed (see `completed`): `lookup` names the root
    /// (`"root"`) or the cursor (`""`) paths, `files` completes a file path
    /// from a directory, `programs` lists the entries of the directories of
    /// the search path.
    pub fn get_comp<L, D, X>(
        &self,
        args: &[&str],
        arg_idx: usize,
        ch_idx: usize,
        lookup: &L,
        files: &D,
        programs: &X,
    ) -> (r: Vec<String>) where
        L: Fn(&str) -> Vec<String>,
        D: Fn(&str, &str, bool) -> Vec<String>,
        X: Fn() -> Vec<DirEntry>,

        requires
            arg_idx < args@.len(),
            forall|k: &str| #[trigger] call_requires(*lookup, (k,)),
            forall|w: &str, f: &str, x: bool| #[trigger] call_requires(*files, (w, f, x)),
            call_requires(*programs, ()),
        ensures
            completed(*self, args@, arg_idx as int, ch_idx as int, *lookup, *files, *programs, r@),
        decreases self,
    {
        match self {
            Completer::Nothing => Vec::new(),
            Completer::Words(v) => complete_words(v, args, arg_idx, ch_idx),
            Completer::Nth(v) => {
                if v.len() == 0 {
                    Vec::new()
                } else {
                    let k = if arg_idx < v.len() {
                        arg_idx
                    } else {
                        v.len() - 1
                    };
                    v[k].get_comp(args, arg_idx, ch_idx, lookup, files, programs)
                }
            },
            Completer::Of(cmd, shift) => {
                if *shift <= arg_idx {
                    let (_, rest) = args.split_at(*shift);
                    assert(rest@ =~= args@.subrange(*shift as int, args@.len() as int));
                    cmd.comp.get_comp(rest, arg_idx - *shift, ch_idx, lookup, files, programs)
                } else {
                    Vec::new()
                }
            },
            Completer::PathLookup => {
                let word = chars_of(args[arg_idx]);
                let wor = crate::text::string_of(typed_part(args[arg_idx], ch_idx).as_slice());
                if word.len() > 0 && word[0] == '/' {
                    proof {
                        reveal_strlit("/");
                    }
                    let w = wor.as_str();
                    let slash = "/";
                    let r = files(w, slash, true);
                    assert(call_ensures(*files, (w, slash, true), r));
                    assert(slash@ == seq!['/']);
                    assert(files_from(*files, typed(args@[arg_idx as int]@, ch_idx as int), seq!['/'], true, r@));
                    r
                } else if has_char(&word, '/') {
                    let key = "root";
                    proof {
                        reveal_strlit("root");
                        assert(key@ =~= seq!['r', 'o', 'o', 't']);
                    }
                    Self::files_looked_up(wor.as_str(), key, true, lookup, files)
                } else {
                    let es = programs();
                    assert(call_ensures(*programs, (), es));
                    complete_program_entries(&es, wor.as_str())
                }
            },
            Completer::FileFromRoot => {
                let wor = crate::text::string_of(typed_part(args[arg_idx], ch_idx).as_slice());
                let key = "root";
                proof {
                    reveal_strlit("root");
                    assert(key@ =~= seq!['r', 'o', 'o', 't']);
                }
                Self::files_looked_up(wor.as_str(), key, false, lookup, files)
            },
            Completer::FileFromCursor => {
                let wor = crate::text::string_of(typed_part(args[arg_idx], ch_idx).as_slice());
                let key = "";
                proof {
                    reveal_strlit("");
                    assert(key@ =~= Seq::<char>::empty());
                }
                Self::files_looked_up(wor.as_str(), key, false, lookup, files)
            },
        }
    }
}


/// What completing with `c` may offer for argument `ai` of `args` (its
/// first `ci` characters typed) whatever the root and cursor paths are:
/// as `completed` says, a file completion from the root or the cursor being
/// one from some directory (or nothing when that path is not known).
pub open spec fn offered_by<D, X>(
    c: Completer,
    args: Seq<Seq<char>>,
    ai: int,
    ci: int,
    files: D,
    programs: X,
    r: Seq<Seq<char>>,
) -> bool where D: Fn(&str, &str, bool) -> Vec<String>, X: Fn() -> Vec<DirEntry>
    decreases c,
{
    let word = args[ai];
    let wor = typed(word, ci);
    match c {
        Completer::Nothing => r.len() == 0,
        Completer::Words(ws) => sorted_le(r) && r.to_multiset() == word_candidates(strings_view(ws@), wor).to_multiset(),
        Completer::Nth(v) => if v@.len() == 0 {
            r.len() == 0
        } else if 0 <= ai < v@.len() {
            offered_by(v@[ai], args, ai, ci, files, programs, r)
        } else {
            offered_by(v@[v@.len() - 1], args, ai, ci, files, programs, r)
        },
        Completer::Of(cmd, shift) => if shift <= ai {
            offered_by(cmd.comp, args.subrange(shift as int, args.len() as int), ai - shift, ci, files, programs, r)
        } else {
            r.len() == 0
        },
        Completer::PathLookup => if word.len() > 0 && word[0] == '/' {
            files_gave(files, wor, seq!['/'], true, r)
        } else if word.contains('/') {
            r.len() == 0 || exists|from: Seq<char>| files_gave(files, wor, from, true, r)
        } else {
            exists|es: Vec<DirEntry>|
                #![trigger call_ensures(programs, (), es)]
                call_ensures(programs, (), es) && sorted_strict(r) && r.to_set() == program_candidates(es@, wor).to_set()
        },
        Completer::FileFromRoot | Completer::FileFromCursor => r.len() == 0 || exists|from: Seq<char>|
            files_gave(files, wor, from, false, r),
    }
}

/// `r` is (the characters of) what `files` may give for `wor` from `from`.
pub open spec fn files_gave<D>(files: D, wor: Seq<char>, from: Seq<char>, filter_exec: bool, r: Seq<Seq<char>>) -> bool where
    D: Fn(&str, &str, bool) -> Vec<String>,
 {
    exists|w: &str, f: &str, out: Vec<String>|
        #![trigger call_ensures(files, (w, f, filter_exec), out)]
        w@ == wor && f@ == from && call_ensures(files, (w, f, filter_exec), out) && strings_view(out@) == r
}

/// What a completion gives is what it may offer, whatever the lookups.
proof fn lemma_offered<L, D, X>(
    c: Completer,
    args: Seq<&str>,
    ai: int,
    ci: int,
    lookup: L,
    files: D,
    programs: X,
    r: Seq<String>,
) where L: Fn(&str) -> Vec<String>, D: Fn(&str, &str, bool) -> Vec<String>, X: Fn() -> Vec<DirEntry>
    requires
        0 <= ai < args.len(),
        completed(c, args, ai, ci, lookup, files, programs, r),
    ensures
        offered_by(c, strs_view(args), ai, ci, files, programs, strings_view(r)),
    decreases c,
{
    assert(strs_view(args)[ai] == args[ai]@);
    let word = args[ai]@;
    let wor = typed(word, ci);
    match c {
        Completer::Nth(v) => {
            if v@.len() > 0 {
                if 0 <= ai < v@.len() {
                    lemma_offered(v@[ai], args, ai, ci, lookup, files, programs, r);
                } else {
                    lemma_offered(v@[v@.len() - 1], args, ai, ci, lookup, files, programs, r);
                }
            }
        },
        Completer::Of(cmd, shift) => {
            if shift <= ai {
                let rest = args.subrange(shift as int, args.len() as int);
                lemma_offered(cmd.comp, rest, ai - shift, ci, lookup, files, programs, r);
                assert(strs_view(rest) =~= strs_view(args).subrange(shift as int, args.len() as int));
            }
        },
        Completer::PathLookup => {
            if word.len() > 0 && word[0] == '/' {
                lemma_files_gave(files, wor, seq!['/'], true, r);
            } else if word.contains('/') {
                lemma_lookup_gave(lookup, files, seq!['r', 'o', 'o', 't'], wor, true, r);
            } else {
                let es = choose|es: Vec<DirEntry>|
                    call_ensures(programs, (), es) && sorted_strict(strings_view(r)) && strings_view(r).to_set()
                        == program_candidates(es@, wor).to_set();
                assert(call_ensures(programs, (), es));
            }
        },
        Completer::FileFromRoot => {
            lemma_lookup_gave(lookup, files, seq!['r', 'o', 'o', 't'], wor, false, r);
        },
        Completer::FileFromCursor => {
            lemma_lookup_gave(lookup, files, Seq::empty(), wor, false, r);
        },
        _ => {},
    }
}

proof fn lemma_files_gave<D>(files: D, wor: Seq<char>, from: Seq<char>, x: bool, r: Seq<String>) where
    D: Fn(&str, &str, bool) -> Vec<String>,

    requires
        files_from(files, wor, from, x, r),
    ensures
        files_gave(files, wor, from, x, strings_view(r)),
{
    let (w, f, out) = choose|w: &str, f: &str, out: Vec<String>|
        w@ == wor && f@ == from && call_ensures(files, (w, f, x), out) && out@ == r;
    assert(strings_view(out@) == strings_view(r));
}

proof fn lemma_lookup_gave<L, D>(lookup: L, files: D, key: Seq<char>, wor: Seq<char>, x: bool, r: Seq<String>) where
    L: Fn(&str) -> Vec<String>,
    D: Fn(&str, &str, bool) -> Vec<String>,

    requires
        files_from_lookup(lookup, files, key, wor, x, r),
    ensures
        strings_view(r).len() == 0 || exists|from: Seq<char>| files_gave(files, wor, from, x, strings_view(r)),
{
    let (k, found) = choose|k: &str, found: Vec<String>|
        k@ == key && call_ensures(lookup, (k,), found) && if found@.len() == 0 {
            r.len() == 0
        } else {
            files_from(files, wor, found@[0]@, x, r)
        };
    if found@.len() > 0 {
        lemma_files_gave(files, wor, found@[0]@, x, r);
    }
}

/// A command as completion knows it: its name, its documentation, and how
/// its arguments are completed.
pub struct Command {
    pub name: String,
    pub doc: String,
    pub comp: Completer,
}

/// What a key or a prompt runs: a command, a command with arguments bound
/// before those given, or actions one after the other.
pub enum Action {
    Fn(Command),
    Bind(Command, Vec<String>),
    Chain(Vec<Action>),
}

/// What `a` may offer to complete argument `ai` of `args` (its first `ci`
/// characters typed): its command's completion, after the bound arguments
/// for `Bind`, the first action's for `Chain`; nothing when there is no
/// such argument or no first action.
pub open spec fn action_offers<D, X>(
    a: Action,
    args: Seq<Seq<char>>,
    ai: int,
    ci: int,
    files: D,
    programs: X,
    r: Seq<Seq<char>>,
) -> bool where D: Fn(&str, &str, bool) -> Vec<String>, X: Fn() -> Vec<DirEntry>
    decreases a,
{
    if !(0 <= ai < args.len()) {
        r.len() == 0
    } else {
        match a {
            Action::Fn(cmd) => offered_by(cmd.comp, args, ai, ci, files, programs, r),
            Action::Bind(cmd, bound) => offered_by(
                cmd.comp,
                strings_view(bound@) + args,
                bound@.len() + ai,
                ci,
                files,
                programs,
                r,
            ),
            Action::Chain(v) => if v@.len() == 0 {
                r.len() == 0
            } else {
                action_offers(v@[0], args, ai, ci, files, programs, r)
            },
        }
    }
}

/// An action together with how files and programs are completed: `files`
/// completes a typed path from a directory (only executables when asked),
/// `programs` lists the entries of the directories of the search path.
pub struct Completing<D, X> where D: Fn(&str, &str, bool) -> Vec<String>, X: Fn() -> Vec<DirEntry> {
    action: Action,
    files: D,
    programs: X,
}

impl<D, X> Completing<D, X> where D: Fn(&str, &str, bool) -> Vec<String>, X: Fn() -> Vec<DirEntry> {
    /// The completions can be asked for anything.
    #[verifier::type_invariant]
    spec fn callable(self) -> bool {
        &&& forall|w: &str, f: &str, x: bool| #[trigger] call_requires(self.files, (w, f, x))
        &&& call_requires(self.programs, ())
    }

    /// `action`, completed with `files` and `programs`.
    pub fn new(action: Action, files: D, programs: X) -> (r: Self)
        requires
            forall|w: &str, f: &str, x: bool| #[trigger] call_requires(files, (w, f, x)),
            call_requires(programs, ()),
        ensures
            r.action() == action,
            r.files() == files,
            r.programs() == programs,
    {
        Completing { action, files, programs }
    }

    /// The action.
    pub closed spec fn action(self) -> Action {
        self.action
    }

    /// How files are completed.
    pub closed spec fn files(self) -> D {
        self.files
    }

    /// How programs are completed.
    pub closed spec fn programs(self) -> X {
        self.programs
    }
}

/// Complete with action `a` (see `action_offers`).
fn action_comp<L, D, X>(a: &Action, args: &[&str], arg_idx: usize, ch_idx: usize, lookup: &L, files: &D, programs: &X) -> (r: Vec<String>) where
    L: Fn(&str) -> Vec<String>,
    D: Fn(&str, &str, bool) -> Vec<String>,
    X: Fn() -> Vec<DirEntry>,

    requires
        forall|k: &str| #[trigger] call_requires(*lookup, (k,)),
        forall|w: &str, f: &str, x: bool| #[trigger] call_requires(*files, (w, f, x)),
        call_requires(*programs, ()),
    ensures
        action_offers(*a, strs_view(args@), arg_idx as int, ch_idx as int, *files, *programs, strings_view(r@)),
    decreases a,
{
    if arg_idx >= args.len() {
        return Vec::new();
    }
    match a {
        Action::Fn(cmd) => {
            let r = cmd.comp.get_comp(args, arg_idx, ch_idx, lookup, files, programs);
            proof {
                lemma_offered(cmd.comp, args@, arg_idx as int, ch_idx as int, *lookup, *files, *programs, r@);
            }
            r
        },
        Action::Bind(cmd, bound) => {
            let mut v: Vec<&str> = Vec::new();
            let mut i: usize = 0;
            while i < bound.len()
                invariant
                    0 <= i <= bound@.len(),
                    strs_view(v@) == strings_view(bound@.subrange(0, i as int)),
                decreases bound@.len() - i,
            {
                let ghost before = v@;
                v.push(bound[i].as_str());
                assert(strs_view(v@) =~= strs_view(before).push(bound@[i as int]@));
                assert(strings_view(bound@.subrange(0, i + 1)) =~= strings_view(bound@.subrange(0, i as int)).push(bound@[i as int]@));
                i += 1;
            }
            let n = v.len();
            let mut j: usize = 0;
            assert(bound@.subrange(0, i as int) =~= bound@);
            while j < args.len()
                invariant
                    0 <= j <= args@.len(),
                    v@.len() == n + j,
                    n == bound@.len(),
                    strs_view(v@) == strings_view(bound@) + strs_view(args@.subrange(0, j as int)),
                decreases args@.len() - j,
            {
                let ghost before = v@;
                v.push(args[j]);
                assert(strs_view(v@) =~= strs_view(before).push(args@[j as int]@));
                assert(strs_view(args@.subrange(0, j + 1)) =~= strs_view(args@.subrange(0, j as int)).push(args@[j as int]@));
                j += 1;
            }
            assert(args@.subrange(0, j as int) =~= args@);
            let total = v.len();
            let k = n + arg_idx;
            let r = cmd.comp.get_comp(v.as_slice(), k, ch_idx, lookup, files, programs);
            proof {
                lemma_offered(cmd.comp, v@, k as int, ch_idx as int, *lookup, *files, *programs, r@);
            }
            r
        },
        Action::Chain(acts) => {
            if acts.len() == 0 {
                Vec::new()
            } else {
                action_comp(&acts[0], args, arg_idx, ch_idx, lookup, files, programs)
            }
        },
    }
}

impl<D, X> ActionComplete for Completing<D, X> where D: Fn(&str, &str, bool) -> Vec<String>, X: Fn() -> Vec<DirEntry> {
    /// What the action may offer (see `action_offers`).
    open spec fn offers(&self, args: Seq<Seq<char>>, arg_idx: int, ch_idx: int, r: Seq<Seq<char>>) -> bool {
        action_offers(self.action(), args, arg_idx, ch_idx, self.files(), self.programs(), r)
    }

    fn get_comp<F: Fn(&str) -> Vec<String>>(&self, args: &[&str], arg_idx: usize, ch_idx: usize, lookup: &F) -> (r: Vec<String>) {
        proof {
            use_type_invariant(self);
        }
        action_comp(&self.action, args, arg_idx, ch_idx, lookup, &self.files, &self.programs)
    }
}

} // verus!
