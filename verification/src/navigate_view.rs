use vstd::prelude::*;
use crate::structs::IndexPath;
use crate::text::{chars_of, string_of};
use crate::readline::{dec, push_chars, push_dec};
use vstd::view::View as _;
use vstd::string::StringExecFns;
use crate::tree::{Node, NodePath, Provider, all_children, frags_of, sel_ok, selection};

verus! {

broadcast use {vstd::std_specs::vec::axiom_vec_index_decreases, vstd::std_specs::vec::axiom_vec_decreases_to_view};

/// One node met by the depth-first walk of a render: its path, for each
/// level below the root whether the node there is the last one shown
/// among its siblings, and the node itself.
pub struct Visit<F> {
    pub path: Seq<usize>,
    pub lasts: Seq<bool>,
    pub frags: Seq<F>,
    pub node: Node<F>,
}

/// The fragments of the nodes `s`.
pub open spec fn node_frags<F>(s: Seq<&Node<F>>) -> Seq<F> {
    s.map_values(|x: &Node<F>| x.fragment)
}

/// Every unfolded node met by the walk from `n` has its children loaded,
/// each shown position naming one of them.
pub open spec fn renderable<F>(n: Node<F>) -> bool
    decreases n, 1int,
{
    !n.folded ==> (n.children is Some && sel_ok(n) && renderable_among(n, selection(n).len() as int))
}

/// The first `k` shown children of `n` are renderable.
pub open spec fn renderable_among<F>(n: Node<F>, k: int) -> bool
    decreases n, 0int, k,
{
    match n.children {
        Some(c) => k <= 0 || k > c.1@.len() || c.1@[k - 1] >= c.0@.len() || (renderable_among(n, k - 1)
            && renderable(c.0@[c.1@[k - 1] as int])),
        None => true,
    }
}

/// The nodes a render meets from `n` (reached by `path`, with `lasts`,
/// below nodes of fragments `above`), depth first, each before the nodes
/// below it, and nothing below a folded node.
pub open spec fn visits<F>(n: Node<F>, path: Seq<usize>, lasts: Seq<bool>, above: Seq<F>) -> Seq<Visit<F>>
    decreases n, 1int,
{
    seq![Visit { path, lasts, frags: above.push(n.fragment), node: n }] + if n.folded {
        Seq::empty()
    } else {
        visits_among(n, path, lasts, above.push(n.fragment), selection(n).len() as int)
    }
}

/// The nodes met below the first `k` shown children of `n`.
pub open spec fn visits_among<F>(n: Node<F>, path: Seq<usize>, lasts: Seq<bool>, fr: Seq<F>, k: int) -> Seq<Visit<F>>
    decreases n, 0int, k,
{
    match n.children {
        Some(c) => if k <= 0 || k > c.1@.len() || c.1@[k - 1] >= c.0@.len() {
            Seq::empty()
        } else {
            visits_among(n, path, lasts, fr, k - 1) + visits(
                c.0@[c.1@[k - 1] as int],
                path.push((k - 1) as usize),
                lasts.push(k == c.1@.len()),
                fr,
            )
        },
        None => Seq::empty(),
    }
}

/// `x` brought into `lo..=hi`.
pub open spec fn clamp(x: int, lo: int, hi: int) -> int {
    if x < lo {
        lo
    } else if x > hi {
        hi
    } else {
        x
    }
}

/// The items of `w` whose place, counting from `t0` for the first, is in
/// `a..b`.
pub open spec fn window<T>(w: Seq<T>, t0: int, a: int, b: int) -> Seq<T> {
    let lo = clamp(a - t0, 0, w.len() as int);
    let hi = clamp(b - t0, 0, w.len() as int);
    if lo < hi {
        w.subrange(lo, hi)
    } else {
        Seq::empty()
    }
}

/// The window of two sequences one after the other is the window of the
/// first followed by that of the second.
proof fn lemma_window_concat<T>(w1: Seq<T>, w2: Seq<T>, t0: int, a: int, b: int)
    ensures
        window(w1 + w2, t0, a, b) == window(w1, t0, a, b) + window(w2, t0 + w1.len(), a, b),
{
    let w = w1 + w2;
    let l1 = w1.len() as int;
    let lo = clamp(a - t0, 0, w.len() as int);
    let hi = clamp(b - t0, 0, w.len() as int);
    let lo1 = clamp(a - t0, 0, l1);
    let hi1 = clamp(b - t0, 0, l1);
    let lo2 = clamp(a - t0 - l1, 0, w2.len() as int);
    let hi2 = clamp(b - t0 - l1, 0, w2.len() as int);
    let left = window(w1, t0, a, b);
    let right = window(w2, t0 + l1, a, b);
    assert(lo2 == clamp(a - (t0 + l1), 0, w2.len() as int));
    assert(hi2 == clamp(b - (t0 + l1), 0, w2.len() as int));
    if lo < hi {
        assert(left.len() == if lo1 < hi1 { hi1 - lo1 } else { 0 });
        assert forall|i: int| 0 <= i < hi - lo implies #[trigger] w.subrange(lo, hi)[i] == (left + right)[i] by {
            if i < left.len() {
                assert(lo1 < hi1);
                assert(lo + i < l1);
            } else {
                assert(lo2 < hi2);
                assert(lo + i >= l1);
            }
        }
        assert(window(w, t0, a, b) =~= left + right);
    } else {
        assert(left =~= Seq::<T>::empty());
        assert(right =~= Seq::<T>::empty());
        assert(window(w, t0, a, b) =~= left + right);
    }
}

/// The lengths of the walks below the first shown children grow with
/// their number.
proof fn lemma_among_len<F>(n: Node<F>, path: Seq<usize>, lasts: Seq<bool>, fr: Seq<F>, k: int, m: int)
    requires
        n.children is Some,
        sel_ok(n),
        0 <= k <= m <= selection(n).len(),
    ensures
        visits_among(n, path, lasts, fr, k).len() <= visits_among(n, path, lasts, fr, m).len(),
    decreases m - k,
{
    if k < m {
        lemma_among_len(n, path, lasts, fr, k, m - 1);
    }
}

/// Below a renderable node, the first shown children are renderable, and
/// each of them.
proof fn lemma_renderable_among<F>(n: Node<F>, k: int, m: int)
    requires
        n.children is Some,
        sel_ok(n),
        renderable_among(n, m),
        0 <= k < m <= selection(n).len(),
    ensures
        renderable_among(n, k),
        renderable(all_children(n)[selection(n)[k] as int]),
    decreases m - k,
{
    if k + 1 < m {
        lemma_renderable_among(n, k, m - 1);
    }
}

/// What a render keeps of a node it met in the visible range: its path,
/// the `lasts` of `Visit`, and the nodes from the root down to it.
struct VisitRec<'a, F> {
    path: Vec<usize>,
    lasts: Vec<bool>,
    nodes: Vec<&'a Node<F>>,
}

/// `r` records the visit `v`.
spec fn rec_of<F>(r: VisitRec<F>, v: Visit<F>) -> bool {
    r.path@ == v.path && r.lasts@ == v.lasts && r.nodes@.len() > 0 && *r.nodes@.last() == v.node
        && node_frags(r.nodes@) == v.frags
}

/// A copy of `v`.
fn copy_of<T: Copy>(v: &Vec<T>) -> (r: Vec<T>)
    ensures
        r@ == v@,
{
    let mut r: Vec<T> = Vec::new();
    let mut i: usize = 0;
    while i < v.len()
        invariant
            0 <= i <= v@.len(),
            r@ == v@.subrange(0, i as int),
        decreases v@.len() - i,
    {
        r.push(v[i]);
        assert(v@.subrange(0, i + 1) =~= v@.subrange(0, i as int).push(v@[i as int]));
        i += 1;
    }
    assert(v@.subrange(0, i as int) =~= v@);
    r
}

/// Walk the nodes from `n` (reached by `path`, with `lasts`, below the
/// nodes `nodes`), counting them in `total` and recording in `out` those
/// whose count falls in `a..b`.
fn collect_visits<'a, F>(
    n: &'a Node<F>,
    path: &mut Vec<usize>,
    lasts: &mut Vec<bool>,
    nodes: &mut Vec<&'a Node<F>>,
    a: usize,
    b: usize,
    total: &mut usize,
    out: &mut Vec<VisitRec<'a, F>>,
)
    requires
        renderable(*n),
        *old(total) + visits(*n, old(path)@, old(lasts)@, node_frags(old(nodes)@)).len() <= usize::MAX,
    ensures
        final(path)@ == old(path)@,
        final(lasts)@ == old(lasts)@,
        final(nodes)@ == old(nodes)@,
        *final(total) == *old(total) + visits(*n, old(path)@, old(lasts)@, node_frags(old(nodes)@)).len(),
        ({
            let w = window(visits(*n, old(path)@, old(lasts)@, node_frags(old(nodes)@)), *old(total) as int, a as int, b as int);
            &&& final(out)@.len() == old(out)@.len() + w.len()
            &&& final(out)@.subrange(0, old(out)@.len() as int) == old(out)@
            &&& forall|i: int| 0 <= i < w.len() ==> rec_of(#[trigger] final(out)@[old(out)@.len() + i], w[i])
        }),
    decreases *n, 1int,
{
    let ghost p0 = path@;
    let ghost l0 = lasts@;
    let ghost t0 = *total as int;
    let ghost o0 = out@;
    let ghost up = node_frags(old(nodes)@);
    let ghost fr = up.push(n.fragment);
    let ghost me = seq![Visit { path: p0, lasts: l0, frags: fr, node: *n }];
    nodes.push(n);
    assert(node_frags(nodes@) =~= fr);
    if a <= *total && *total < b {
        let rec = VisitRec { path: copy_of(path), lasts: copy_of(lasts), nodes: copy_of(nodes) };
        out.push(rec);
    }
    *total = *total + 1;
    proof {
        assert(out@.subrange(0, o0.len() as int) =~= o0);
        let w = window(me, t0, a as int, b as int);
        if a <= t0 && t0 < b {
            assert(w =~= me);
        } else {
            assert(w =~= Seq::<Visit<F>>::empty());
        }
    }
    if !n.folded {
        match &n.children {
            Some((kids, sel)) => {
                let count = sel.len();
                let mut k: usize = 0;
                proof {
                    assert(visits_among(*n, p0, l0, fr, 0) =~= Seq::<Visit<F>>::empty());
                    assert(me + visits_among(*n, p0, l0, fr, 0) =~= me);
                }
                while k < count
                    invariant
                        n.children == Some((*kids, *sel)),
                        !n.folded,
                        renderable(*n),
                        count == sel@.len(),
                        0 <= k <= count,
                        path@ == p0,
                        lasts@ == l0,
                        nodes@ == old(nodes)@.push(n),
                        me == seq![Visit { path: p0, lasts: l0, frags: fr, node: *n }],
                        fr == up.push(n.fragment),
                        up == node_frags(old(nodes)@),
                        node_frags(nodes@) == fr,
                        t0 + visits(*n, p0, l0, up).len() <= usize::MAX,
                        ({
                            let wk = me + visits_among(*n, p0, l0, fr, k as int);
                            &&& *total == t0 + wk.len()
                            &&& out@.len() == o0.len() + window(wk, t0, a as int, b as int).len()
                            &&& out@.subrange(0, o0.len() as int) == o0
                            &&& forall|i: int|
                                0 <= i < window(wk, t0, a as int, b as int).len() ==> rec_of(
                                    #[trigger] out@[o0.len() + i],
                                    window(wk, t0, a as int, b as int)[i],
                                )
                        }),
                    decreases count - k,
                {
                    let j = sel[k];
                    proof {
                        lemma_renderable_among(*n, k as int, count as int);
                        lemma_among_len(*n, p0, l0, fr, k as int + 1, count as int);
                        assert(selection(*n).len() == count);
                        assert(visits(*n, p0, l0, up) =~= me + visits_among(*n, p0, l0, fr, selection(*n).len() as int));
                    }
                    let ghost wk = me + visits_among(*n, p0, l0, fr, k as int);
                    let ghost sub = visits(kids@[j as int], p0.push(k), l0.push(k + 1 == count), fr);
                    let ghost mid = out@;
                    proof {
                        assert(visits_among(*n, p0, l0, fr, k + 1) == visits_among(*n, p0, l0, fr, k as int) + sub);
                        assert(me + visits_among(*n, p0, l0, fr, k + 1) =~= wk + sub);
                    }
                    path.push(k);
                    lasts.push(k + 1 == count);
                    collect_visits(&kids[j], path, lasts, nodes, a, b, total, out);
                    path.pop();
                    lasts.pop();
                    proof {
                        assert(path@ =~= p0);
                        assert(lasts@ =~= l0);
                        lemma_window_concat(wk, sub, t0, a as int, b as int);
                        let ww = window(wk, t0, a as int, b as int);
                        let ws = window(sub, t0 + wk.len(), a as int, b as int);
                        assert(out@.subrange(0, o0.len() as int) =~= o0) by {
                            assert(out@.subrange(0, mid.len() as int) == mid);
                            assert forall|i: int| 0 <= i < o0.len() implies out@.subrange(0, o0.len() as int)[i] == o0[i] by {
                                assert(out@[i] == mid[i]);
                                assert(mid.subrange(0, o0.len() as int)[i] == mid[i]);
                            }
                        }
                        assert forall|i: int| 0 <= i < (ww + ws).len() implies rec_of(
                            #[trigger] out@[o0.len() + i],
                            (ww + ws)[i],
                        ) by {
                            if i < ww.len() {
                                assert(out@[o0.len() + i] == out@.subrange(0, mid.len() as int)[o0.len() + i]);
                                assert(mid[o0.len() + i] == out@[o0.len() + i]);
                            } else {
                                assert(out@[o0.len() + i] == out@[mid.len() + (i - ww.len())]);
                            }
                        }
                    }
                    k += 1;
                }
                proof {
                    assert(selection(*n).len() == count);
                }
            },
            None => {},
        }
    }
    nodes.pop();
    proof {
        assert(nodes@ =~= old(nodes)@);
    }
}


/// The parts of a space a view reads to render: the root of the tree, the
/// provider that shows its nodes, and the cursor path.
pub struct ViewSpaceSubset<'a, F, P> {
    pub root: &'a Node<F>,
    pub provider: &'a P,
    pub cursor: &'a [usize],
}

/// The four columns drawn at one level of a line: on the node's own level
/// (`branch`) a branch, elsewhere the line of an ancestor going on below,
/// each in its form for a last child or not, in box drawing characters
/// when `pretty`, in ASCII otherwise.
pub open spec fn glyph(last: bool, branch: bool, pretty: bool) -> Seq<char> {
    if branch {
        if pretty {
            if last {
                seq!['\u{2514}', '\u{2500}', '\u{2500}', ' ']
            } else {
                seq!['\u{251c}', '\u{2500}', '\u{2500}', ' ']
            }
        } else if last {
            seq!['`', '-', '-', ' ']
        } else {
            seq!['|', '-', '-', ' ']
        }
    } else if last {
        seq![' ', ' ', ' ', ' ']
    } else if pretty {
        seq!['\u{2502}', ' ', ' ', ' ']
    } else {
        seq!['|', ' ', ' ', ' ']
    }
}

/// The columns drawn for the first `k` levels of a node with `lasts`.
pub open spec fn indent_upto(lasts: Seq<bool>, k: int, pretty: bool) -> Seq<char>
    decreases k,
{
    if k <= 0 {
        Seq::empty()
    } else {
        indent_upto(lasts, k - 1, pretty) + glyph(lasts[k - 1], k == lasts.len(), pretty)
    }
}

/// What a line starts with before the node's own text: its indentation,
/// an underline when the node is marked, reverse video on the cursor.
pub open spec fn line_prefix<F>(v: Visit<F>, cursor: Seq<usize>, pretty: bool) -> Seq<char> {
    indent_upto(v.lasts, v.lasts.len() as int, pretty) + (if v.node.marked {
        seq![' ', '\x1b', '[', '4', 'm']
    } else {
        Seq::empty()
    }) + (if v.path == cursor {
        seq!['\x1b', '[', '7', 'm']
    } else {
        Seq::empty()
    })
}

/// Line `at`, showing `path` now, must be drawn again: it is new, it held
/// or holds the cursor, or it showed another node.
pub open spec fn line_changed(m: Seq<IndexPath>, was: int, cursor: Seq<usize>, at: int, path: Seq<usize>) -> bool {
    at >= m.len() || at == was || path == cursor || path != m[at].0@
}

/// The last of the first `k` lines that shows the cursor, `was` if none.
pub open spec fn cursor_after<F>(ws: Seq<Visit<F>>, cursor: Seq<usize>, k: int, was: int) -> int
    decreases k,
{
    if k <= 0 {
        was
    } else if ws[k - 1].path == cursor {
        k - 1
    } else {
        cursor_after(ws, cursor, k - 1, was)
    }
}

/// The line rendered for visit `v` on line `at`: none when it need not be
/// drawn again, else its prefix followed by what the provider shows.
pub open spec fn line_ok<F, P: Provider<F>>(
    line: Option<String>,
    v: Visit<F>,
    at: int,
    m: Seq<IndexPath>,
    was: int,
    cursor: Seq<usize>,
    pretty: bool,
    prov: P,
) -> bool {
    if line_changed(m, was, cursor, at, v.path) {
        line matches Some(s) && s@ == line_prefix(v, cursor, pretty) + prov.shows(v.frags)
    } else {
        line is None
    }
}

/// `after` and `lines` are what rendering the tree at `root` with the
/// cursor at `cursor` on the visible range `a..b` gives, when the lines
/// showed the paths `m` before and the cursor was on line `was`: the heights
/// of the tree and of the range, the path shown on each visible line, the
/// cursor line (unchanged when the cursor is not visible), and for each
/// visible line, what is drawn again (see `line_ok`), each line left over
/// from a longer render blanked out.
pub open spec fn rendered<F, P: Provider<F>>(
    prov: P,
    root: Node<F>,
    cursor: Seq<usize>,
    a: int,
    b: int,
    pretty: bool,
    m: Seq<IndexPath>,
    was: int,
    after: View,
    lines: Seq<Option<String>>,
) -> bool {
    let all = visits(root, Seq::empty(), Seq::empty(), Seq::empty());
    let w = window(all, 0, a, b);
    &&& after.total_height == all.len()
    &&& after.visible_height == (if a < b { b - a } else { 0 })
    &&& after.line_mapping@.len() == w.len()
    &&& forall|i: int| 0 <= i < w.len() ==> (#[trigger] after.line_mapping@[i]).0@ == w[i].path
    &&& after.cursor_line == cursor_after(w, cursor, w.len() as int, was)
    &&& lines.len() == (if w.len() < m.len() { m.len() as int } else { w.len() as int })
    &&& forall|i: int| 0 <= i < w.len() ==> line_ok(#[trigger] lines[i], w[i], i, m, was, cursor, pretty, prov)
    &&& forall|i: int| w.len() <= i < lines.len() ==> (#[trigger] lines[i] matches Some(s) && s@.len() == 0)
}

/// The text drawing the first `k` of `lines` (`None` for a line left as
/// it is) from column `col`, each line cleared first with `clear`, after
/// moving to the first row.
pub open spec fn drawn(lines: Seq<Option<String>>, col: nat, clear: Seq<char>, k: int) -> Seq<char>
    decreases k,
{
    if k <= 0 {
        seq!['\x1b', '[', ';'] + dec(col) + seq!['H']
    } else {
        drawn(lines, col, clear, k - 1) + match lines[k - 1] {
            Some(s) => seq!['\x1b', '['] + dec(k as nat) + seq![';'] + dec(col) + seq!['H'] + clear + s@ + seq![
                '\x1b',
                '[',
                'm',
            ],
            None => Seq::empty(),
        }
    }
}

/// The paths the lines showed, forgotten when all is drawn again.
pub open spec fn kept(force: bool, m: Seq<IndexPath>) -> Seq<IndexPath> {
    if force {
        Seq::empty()
    } else {
        m
    }
}

/// The number of columns in `cols`.
pub open spec fn width_of(cols: std::ops::Range<usize>) -> int {
    if cols.start < cols.end {
        cols.end - cols.start
    } else {
        0
    }
}

/// How a line is cleared: with spaces over the `width` columns of the view
/// when other views share the screen, else to the end of the line.
pub open spec fn clear_with(shared: bool, width: int) -> Seq<char> {
    if shared {
        Seq::new(width as nat, |i: int| ' ')
    } else {
        seq!['\x1b', '[', 'K']
    }
}

/// The columns of one level (see `glyph`).
fn glyph_str(last: bool, branch: bool, pretty: bool) -> (r: &'static str)
    ensures
        r@ == glyph(last, branch, pretty),
{
    if branch {
        if pretty {
            if last {
                proof {
                    reveal_strlit("\u{2514}\u{2500}\u{2500} ");
                }
                "\u{2514}\u{2500}\u{2500} "
            } else {
                proof {
                    reveal_strlit("\u{251c}\u{2500}\u{2500} ");
                }
                "\u{251c}\u{2500}\u{2500} "
            }
        } else if last {
            proof {
                reveal_strlit("`-- ");
            }
            "`-- "
        } else {
            proof {
                reveal_strlit("|-- ");
            }
            "|-- "
        }
    } else if last {
        proof {
            reveal_strlit("    ");
        }
        "    "
    } else if pretty {
        proof {
            reveal_strlit("\u{2502}   ");
        }
        "\u{2502}   "
    } else {
        proof {
            reveal_strlit("|   ");
        }
        "|   "
    }
}

/// Whether `a` and `b` hold the same positions.
fn same_path(a: &[usize], b: &[usize]) -> (r: bool)
    ensures
        r == (a@ == b@),
{
    if a.len() != b.len() {
        return false;
    }
    let mut i: usize = 0;
    while i < a.len()
        invariant
            a@.len() == b@.len(),
            0 <= i <= a@.len(),
            forall|j: int| 0 <= j < i ==> a@[j] == b@[j],
        decreases a@.len() - i,
    {
        if a[i] != b[i] {
            return false;
        }
        i += 1;
    }
    assert(a@ =~= b@);
    true
}

/// The prefix of the line of the visit `rec` records (see `line_prefix`).
fn prefix_line<'a, F>(rec: &VisitRec<'a, F>, now_cursor: bool, pretty: bool) -> (line: String)
    requires
        rec.nodes@.len() > 0,
    ensures
        line@ == indent_upto(rec.lasts@, rec.lasts@.len() as int, pretty) + (if rec.nodes@.last().marked {
            seq![' ', '\x1b', '[', '4', 'm']
        } else {
            Seq::empty()
        }) + (if now_cursor {
            seq!['\x1b', '[', '7', 'm']
        } else {
            Seq::empty()
        }),
{
    let mut line = String::new();
    let mut i: usize = 0;
    let n = rec.lasts.len();
    while i < n
        invariant
            n == rec.lasts@.len(),
            0 <= i <= n,
            line@ == indent_upto(rec.lasts@, i as int, pretty),
        decreases n - i,
    {
        line.append(glyph_str(rec.lasts[i], i + 1 == n, pretty));
        i += 1;
    }
    let ghost ind = line@;
    let node = rec.nodes[rec.nodes.len() - 1];
    if node.marked {
        proof {
            reveal_strlit(" \x1b[4m");
        }
        line.append(" \x1b[4m");
    }
    let ghost mid = line@;
    if now_cursor {
        proof {
            reveal_strlit("\x1b[7m");
        }
        line.append("\x1b[7m");
    }
    proof {
        if node.marked {
            assert(mid == ind + seq![' ', '\x1b', '[', '4', 'm']);
        } else {
            assert(mid =~= ind + Seq::<char>::empty());
        }
        if now_cursor {
            assert(line@ == mid + seq!['\x1b', '[', '7', 'm']);
        } else {
            assert(line@ =~= mid + Seq::<char>::empty());
        }
    }
    line
}


/// Which part of the message scroll bar a message line is beside.
#[derive(Clone, Copy, PartialEq, Eq, Structural)]
pub enum ScrollPart {
    Before,
    Topmost,
    Top,
    Bar,
    Bot,
    Botmost,
    After,
}

/// The part of the scroll bar beside line `k` of the message window when
/// the bar runs from `top` to `bot` and the window holds at most `msh`
/// lines.
pub open spec fn scroll_part(k: int, top: int, bot: int, msh: int) -> ScrollPart {
    if k < top {
        ScrollPart::Before
    } else if top == k && 0 == top {
        ScrollPart::Topmost
    } else if bot == k && bot < msh {
        ScrollPart::Botmost
    } else if top == k {
        ScrollPart::Top
    } else if k < bot {
        ScrollPart::Bar
    } else if bot == k {
        ScrollPart::Bot
    } else {
        ScrollPart::After
    }
}

/// How a part of the scroll bar is drawn, in box drawing characters when
/// `pretty`, in ASCII otherwise.
pub open spec fn scroll_glyph(part: ScrollPart, pretty: bool) -> Seq<char> {
    match part {
        ScrollPart::Before | ScrollPart::After => if pretty {
            seq!['\u{2502}', ' ']
        } else {
            seq![':', ' ']
        },
        ScrollPart::Topmost | ScrollPart::Botmost => if pretty {
            seq!['\u{2503}', ' ']
        } else {
            seq!['%', ' ']
        },
        ScrollPart::Top => if pretty {
            seq!['\u{257d}', ' ']
        } else {
            seq!['+', ' ']
        },
        ScrollPart::Bar => if pretty {
            seq!['\u{2503}', ' ']
        } else {
            seq!['#', ' ']
        },
        ScrollPart::Bot => if pretty {
            seq!['\u{257f}', ' ']
        } else {
            seq!['+', ' ']
        },
    }
}

/// The first `k` lines of the message window showing `lines` from
/// `scroll`, each after its part of the scroll bar when `bar`.
pub open spec fn message_lines(
    lines: Seq<String>,
    scroll: int,
    top: int,
    bot: int,
    msh: int,
    bar: bool,
    pretty: bool,
    k: int,
) -> Seq<char>
    decreases k,
{
    if k <= 0 {
        Seq::empty()
    } else {
        message_lines(lines, scroll, top, bot, msh, bar, pretty, k - 1) + (if bar {
            scroll_glyph(scroll_part(k - 1, top, bot, msh), pretty)
        } else {
            Seq::empty()
        }) + lines[scroll + k - 1]@ + seq!['\r', '\n']
    }
}

/// The line that counts the lines of a message.
pub open spec fn count_line(n: nat) -> Seq<char> {
    seq!['-', '-', ' '] + dec(n) + seq![' ', 'l', 'i', 'n', 'e'] + (if n == 1 {
        Seq::empty()
    } else {
        seq!['s']
    }) + seq![' ', '-', '-', '\r', '\n']
}

/// The message window: at most `msh` of the `lines` of a message from
/// line `scroll` on, with a scroll bar when `bar` whose thumb is placed by
/// where the window stands in the message, then the count of lines when
/// `count` (it is left out during a completion session).
pub open spec fn message_window(lines: Seq<String>, scroll: int, msh: int, bar: bool, pretty: bool, count: bool) -> Seq<char> {
    let len = lines.len() as int;
    let height = if len < msh { len } else { msh };
    let top = scroll * msh / len;
    let bot = if top + msh * msh / len < height - 1 { top + msh * msh / len } else { height - 1 };
    message_lines(lines, scroll, top, bot, msh, bar, pretty, height) + if count {
        count_line(len as nat)
    } else {
        Seq::empty()
    }
}

/// The part of the scroll bar beside line `k` (see `scroll_part`).
fn scroll_part_at(k: usize, top: usize, bot: usize, msh: usize) -> (r: ScrollPart)
    ensures
        r == scroll_part(k as int, top as int, bot as int, msh as int),
{
    if k < top {
        ScrollPart::Before
    } else if top == k && 0 == top {
        ScrollPart::Topmost
    } else if bot == k && bot < msh {
        ScrollPart::Botmost
    } else if top == k {
        ScrollPart::Top
    } else if k < bot {
        ScrollPart::Bar
    } else if bot == k {
        ScrollPart::Bot
    } else {
        ScrollPart::After
    }
}

/// How a part of the scroll bar is drawn (see `scroll_glyph`).
fn scroll_glyph_str(part: ScrollPart, pretty: bool) -> (r: &'static str)
    ensures
        r@ == scroll_glyph(part, pretty),
{
    match part {
        ScrollPart::Before | ScrollPart::After => if pretty {
            proof {
                reveal_strlit("\u{2502} ");
            }
            "\u{2502} "
        } else {
            proof {
                reveal_strlit(": ");
            }
            ": "
        },
        ScrollPart::Topmost | ScrollPart::Botmost => if pretty {
            proof {
                reveal_strlit("\u{2503} ");
            }
            "\u{2503} "
        } else {
            proof {
                reveal_strlit("% ");
            }
            "% "
        },
        ScrollPart::Top => if pretty {
            proof {
                reveal_strlit("\u{257d} ");
            }
            "\u{257d} "
        } else {
            proof {
                reveal_strlit("+ ");
            }
            "+ "
        },
        ScrollPart::Bar => if pretty {
            proof {
                reveal_strlit("\u{2503} ");
            }
            "\u{2503} "
        } else {
            proof {
                reveal_strlit("# ");
            }
            "# "
        },
        ScrollPart::Bot => if pretty {
            proof {
                reveal_strlit("\u{257f} ");
            }
            "\u{257f} "
        } else {
            proof {
                reveal_strlit("+ ");
            }
            "+ "
        },
    }
}

/// The text of the message window (see `message_window`), written from
/// where the terminal cursor stands.
pub fn message_text(lines: &Vec<String>, scroll: usize, msh: usize, bar: bool, pretty: bool, count: bool) -> (out: String)
    requires
        lines@.len() > 0,
        msh > 0,
        scroll * msh <= usize::MAX,
        msh * msh <= usize::MAX,
        scroll + (if lines@.len() < msh { lines@.len() as int } else { msh as int }) <= lines@.len(),
    ensures
        out@ == message_window(lines@, scroll as int, msh as int, bar, pretty, count),
{
    let len = lines.len();
    let height = if len < msh { len } else { msh };
    let top = scroll * msh / len;
    let ms = msh * msh / len;
    proof {
        let (sc, m, l) = (scroll as int, msh as int, len as int);
        if m <= l {
            assert(sc < l);
            assert(sc * m / l < m) by (nonlinear_arith)
                requires
                    0 <= sc < l,
                    0 < m;
            assert(m * m / l <= m) by (nonlinear_arith)
                requires
                    0 < m <= l;
            assert(m + m <= m * m || m == 1) by (nonlinear_arith)
                requires
                    0 < m;
        } else {
            assert(sc == 0);
            assert(sc * m == 0) by (nonlinear_arith)
                requires
                    sc == 0;
        }
        assert(m * m / l <= m * m) by (nonlinear_arith)
            requires
                0 < l,
                0 <= m;
    }
    let bot = if top + ms < height - 1 { top + ms } else { height - 1 };
    let mut out = String::new();
    let mut k: usize = 0;
    while k < height
        invariant
            len == lines@.len(),
            0 <= k <= height,
            scroll + height <= len,
            out@ == message_lines(lines@, scroll as int, top as int, bot as int, msh as int, bar, pretty, k as int),
        decreases height - k,
    {
        if bar {
            out.append(scroll_glyph_str(scroll_part_at(k, top, bot, msh), pretty));
        }
        out.append(lines[scroll + k].as_str());
        proof {
            reveal_strlit("\r\n");
        }
        out.append("\r\n");
        k += 1;
        proof {
            let prev = message_lines(lines@, scroll as int, top as int, bot as int, msh as int, bar, pretty, k - 1);
            let g = if bar {
                scroll_glyph(scroll_part(k - 1, top as int, bot as int, msh as int), pretty)
            } else {
                Seq::empty()
            };
            assert(out@ =~= prev + g + lines@[scroll + k - 1]@ + seq!['\r', '\n']);
        }
    }
    if count {
        let mut tail: Vec<char> = Vec::new();
        tail.push('-');
        tail.push('-');
        tail.push(' ');
        push_dec(&mut tail, len);
        tail.push(' ');
        tail.push('l');
        tail.push('i');
        tail.push('n');
        tail.push('e');
        let ghost mid = tail@;
        if len != 1 {
            tail.push('s');
        }
        tail.push(' ');
        tail.push('-');
        tail.push('-');
        tail.push('\r');
        tail.push('\n');
        proof {
            if len == 1 {
                assert(tail@ =~= mid + Seq::<char>::empty() + seq![' ', '-', '-', '\r', '\n']);
            } else {
                assert(tail@ =~= mid + seq!['s'] + seq![' ', '-', '-', '\r', '\n']);
            }
            assert(mid =~= seq!['-', '-', ' '] + dec(len as nat) + seq![' ', 'l', 'i', 'n', 'e']);
            assert(tail@ =~= count_line(len as nat));
        }
        let t = string_of(tail.as_slice());
        out.append(t.as_str());
    } else {
        assert(out@ =~= out@ + Seq::<char>::empty());
    }
    out
}

/// How far one scroll moves.
#[derive(Clone, Copy, PartialEq, Eq, Structural)]
pub enum ViewJumpBy {
    Line,
    Mouse,
    HalfWin,
    Win,
}

/// The scroll amount named `name` (`line`, `win`, `halfwin` or `mouse`).
pub open spec fn jump_named(name: Seq<char>) -> Option<ViewJumpBy> {
    if name == seq!['l', 'i', 'n', 'e'] {
        Some(ViewJumpBy::Line)
    } else if name == seq!['w', 'i', 'n'] {
        Some(ViewJumpBy::Win)
    } else if name == seq!['h', 'a', 'l', 'f', 'w', 'i', 'n'] {
        Some(ViewJumpBy::HalfWin)
    } else if name == seq!['m', 'o', 'u', 's', 'e'] {
        Some(ViewJumpBy::Mouse)
    } else {
        None
    }
}

/// Lines one scroll moves in a window of `win` lines.
pub open spec fn jump_lines(by: ViewJumpBy, win: int) -> int {
    match by {
        ViewJumpBy::Line => 1,
        ViewJumpBy::Mouse => 3,
        ViewJumpBy::HalfWin => win / 2,
        ViewJumpBy::Win => win - 1,
    }
}

/// The first line shown after scrolling down by `by` from `scroll` in a
/// window of `win` lines, with `top` lines in all: never past the last
/// line.
pub open spec fn scrolled_down(by: ViewJumpBy, scroll: int, win: int, top: int) -> int {
    if scroll + jump_lines(by, win) < top {
        scroll + jump_lines(by, win)
    } else if top > 0 {
        top - 1
    } else {
        0
    }
}

/// The first line shown after scrolling up by `by` from `scroll` in a
/// window of `win` lines: never before line `bot`.
pub open spec fn scrolled_up(by: ViewJumpBy, scroll: int, win: int, bot: int) -> int {
    if bot + jump_lines(by, win) < scroll {
        scroll - jump_lines(by, win)
    } else {
        bot
    }
}

/// Paging by a whole window keeps one line in sight: scrolling down by
/// `win` from `scroll`, where the lines reach that far, the last line of
/// the old window (`scroll + win - 1`) is the first line of the new one,
/// and scrolling up does the reverse; a page is more than half a page
/// once the window has three lines.
pub proof fn page_keeps_one_line(scroll: int, win: int, top: int)
    requires
        0 <= scroll,
        1 <= win,
    ensures
        scroll + win - 1 < top ==> scrolled_down(ViewJumpBy::Win, scroll, win, top) == scroll + win - 1,
        win - 1 < scroll ==> scrolled_up(ViewJumpBy::Win, scroll, win, 0) == scroll - (win - 1),
        win >= 3 && scroll + win - 1 < top ==> scrolled_down(ViewJumpBy::HalfWin, scroll, win, top)
            < scrolled_down(ViewJumpBy::Win, scroll, win, top),
{
}

/// The smaller scroll amounts: `line` moves one line, `mouse` three and
/// `halfwin` half the window (rounded down), where the lines reach that
/// far.
pub proof fn small_scrolls(scroll: int, win: int, top: int)
    requires
        0 <= scroll,
        0 <= win,
    ensures
        scroll + 1 < top ==> scrolled_down(ViewJumpBy::Line, scroll, win, top) == scroll + 1,
        scroll + 3 < top ==> scrolled_down(ViewJumpBy::Mouse, scroll, win, top) == scroll + 3,
        scroll + win / 2 < top ==> scrolled_down(ViewJumpBy::HalfWin, scroll, win, top) == scroll + win / 2,
        1 < scroll ==> scrolled_up(ViewJumpBy::Line, scroll, win, 0) == scroll - 1,
        3 < scroll ==> scrolled_up(ViewJumpBy::Mouse, scroll, win, 0) == scroll - 3,
{
}

/// Scrolling down and then up by the same amount, where neither stops at
/// an end, comes back to the line it started from.
pub proof fn down_then_up(by: ViewJumpBy, scroll: int, win: int, top: int)
    requires
        0 <= scroll,
        1 <= win,
        scroll + jump_lines(by, win) < top,
        0 < jump_lines(by, win),
    ensures
        scrolled_up(by, scrolled_down(by, scroll, win, top), win, 0) == scroll,
{
}

fn same_chars(a: &Vec<char>, b: &[char]) -> (r: bool)
    ensures
        r == (a@ == b@),
{
    if a.len() != b.len() {
        return false;
    }
    let mut i: usize = 0;
    while i < a.len()
        invariant
            a@.len() == b@.len(),
            0 <= i <= a@.len(),
            forall|j: int| 0 <= j < i ==> a@[j] == b@[j],
        decreases a@.len() - i,
    {
        if a[i] != b[i] {
            return false;
        }
        i += 1;
    }
    assert(a@ =~= b@);
    true
}

impl ViewJumpBy {
    /// The scroll amount named `amount`; it must be one of the four names.
    pub fn new_by(amount: &str) -> (r: Self)
        requires
            jump_named(amount@) is Some,
        ensures
            jump_named(amount@) == Some(r),
    {
        let cs = chars_of(amount);
        proof {
            assert(['l', 'i', 'n', 'e']@ =~= seq!['l', 'i', 'n', 'e']);
            assert(['w', 'i', 'n']@ =~= seq!['w', 'i', 'n']);
            assert(['h', 'a', 'l', 'f', 'w', 'i', 'n']@ =~= seq!['h', 'a', 'l', 'f', 'w', 'i', 'n']);
            assert(['m', 'o', 'u', 's', 'e']@ =~= seq!['m', 'o', 'u', 's', 'e']);
        }
        if same_chars(&cs, &['l', 'i', 'n', 'e']) {
            ViewJumpBy::Line
        } else if same_chars(&cs, &['w', 'i', 'n']) {
            ViewJumpBy::Win
        } else if same_chars(&cs, &['h', 'a', 'l', 'f', 'w', 'i', 'n']) {
            ViewJumpBy::HalfWin
        } else if same_chars(&cs, &['m', 'o', 'u', 's', 'e']) {
            ViewJumpBy::Mouse
        } else {
            vstd::pervasive::unreached()
        }
    }

    /// Lines one scroll moves in a window of `win` lines.
    fn jump_by(&self, win: usize) -> (r: usize)
        requires
            *self is Win ==> win > 0,
        ensures
            r == jump_lines(*self, win as int),
    {
        match self {
            ViewJumpBy::Line => 1,
            ViewJumpBy::Mouse => 3,
            ViewJumpBy::HalfWin => win / 2,
            ViewJumpBy::Win => win - 1,
        }
    }

    /// Scroll down, to at most the line before `top`.
    pub fn down(&self, scroll: &mut usize, win: usize, top: usize)
        requires
            *self is Win ==> win > 0,
            *old(scroll) + jump_lines(*self, win as int) <= usize::MAX,
        ensures
            *final(scroll) == scrolled_down(*self, *old(scroll) as int, win as int, top as int),
    {
        let by = self.jump_by(win);
        if *scroll + by < top {
            *scroll = *scroll + by;
        } else {
            *scroll = if top > 0 {
                top - 1
            } else {
                0
            };
        }
    }

    /// Scroll up, to at least `bot`.
    pub fn up(&self, scroll: &mut usize, win: usize, bot: usize)
        requires
            *self is Win ==> win > 0,
            bot + jump_lines(*self, win as int) <= usize::MAX,
        ensures
            *final(scroll) == scrolled_up(*self, *old(scroll) as int, win as int, bot as int),
    {
        let by = self.jump_by(win);
        if bot + by < *scroll {
            *scroll = *scroll - by;
        } else {
            *scroll = bot;
        }
    }

    /// Scroll `view` down, within its total height.
    pub fn view_down(&self, view: &mut View)
        requires
            *self is Win ==> old(view).visible_height > 0,
            old(view).scroll + jump_lines(*self, old(view).visible_height as int) <= usize::MAX,
        ensures
            final(view).scroll == scrolled_down(
                *self,
                old(view).scroll as int,
                old(view).visible_height as int,
                old(view).total_height as int,
            ),
            final(view).visible_height == old(view).visible_height,
            final(view).total_height == old(view).total_height,
            final(view).line_mapping == old(view).line_mapping,
            final(view).cursor_line == old(view).cursor_line,
            final(view).cols == old(view).cols,
            final(view).rows == old(view).rows,
            final(view).has_multiple_spaces == old(view).has_multiple_spaces,
    {
        self.down(&mut view.scroll, view.visible_height, view.total_height)
    }

    /// Scroll `view` up, stopping on the first line.
    pub fn view_up(&self, view: &mut View)
        requires
            *self is Win ==> old(view).visible_height > 0,
        ensures
            final(view).scroll == scrolled_up(*self, old(view).scroll as int, old(view).visible_height as int, 0),
            final(view).visible_height == old(view).visible_height,
            final(view).total_height == old(view).total_height,
            final(view).line_mapping == old(view).line_mapping,
            final(view).cursor_line == old(view).cursor_line,
            final(view).cols == old(view).cols,
            final(view).rows == old(view).rows,
            final(view).has_multiple_spaces == old(view).has_multiple_spaces,
    {
        self.up(&mut view.scroll, view.visible_height, 0)
    }
}

/// What a tree view on screen remembers between renders: scroll, which
/// node each line shows, where the cursor line was, and the area it has.
pub struct View {
    pub scroll: usize,
    pub line_mapping: Vec<IndexPath>,
    pub cursor_line: usize,
    pub visible_height: usize,
    pub total_height: usize,
    pub cols: std::ops::Range<usize>,
    pub rows: usize,
    pub has_multiple_spaces: bool,
}

impl View {
    /// A view that has not been rendered yet.
    pub fn new() -> (r: View)
        ensures
            r.scroll == 0,
            r.line_mapping@.len() == 0,
            r.cursor_line == 0,
            r.visible_height == 0,
            r.total_height == 0,
            r.cols.start == 0 && r.cols.end == 0,
            r.rows == 0,
            !r.has_multiple_spaces,
    {
        View {
            scroll: 0,
            line_mapping: Vec::new(),
            cursor_line: 0,
            visible_height: 0,
            total_height: 0,
            cols: 0..0,
            rows: 0,
            has_multiple_spaces: false,
        }
    }

    /// Set the area the view has on screen.
    pub fn update(&mut self, cols: std::ops::Range<usize>, rows: usize, has_multiple_spaces: bool)
        ensures
            final(self).cols == cols,
            final(self).rows == rows,
            final(self).has_multiple_spaces == has_multiple_spaces,
            final(self).scroll == old(self).scroll,
            final(self).line_mapping == old(self).line_mapping,
            final(self).cursor_line == old(self).cursor_line,
            final(self).visible_height == old(self).visible_height,
            final(self).total_height == old(self).total_height,
    {
        self.cols = cols;
        self.rows = rows;
        self.has_multiple_spaces = has_multiple_spaces;
    }

    /// Compute the lines needed to re-render the visible range of the tree:
    /// walk the nodes shown (depth first, not below folded nodes), remember
    /// which node each visible line shows, draw again the lines that
    /// changed (`None` for the others), blank out the lines left over from
    /// a longer render, and note the cursor line and the heights.
    pub fn render_tree_range<F, P: Provider<F>>(
        &mut self,
        space: ViewSpaceSubset<F, P>,
        visible_range: std::ops::Range<usize>,
        pretty: bool,
    ) -> (lines: Vec<Option<String>>)
        requires
            renderable(*space.root),
            visits(*space.root, Seq::empty(), Seq::empty(), Seq::empty()).len() <= usize::MAX,
        ensures
            rendered(
                *space.provider,
                *space.root,
                space.cursor@,
                visible_range.start as int,
                visible_range.end as int,
                pretty,
                old(self).line_mapping@,
                old(self).cursor_line as int,
                *final(self),
                lines@,
            ),
            final(self).scroll == old(self).scroll,
            final(self).cols == old(self).cols,
            final(self).rows == old(self).rows,
            final(self).has_multiple_spaces == old(self).has_multiple_spaces,
    {
        let ghost all = visits(*space.root, Seq::empty(), Seq::empty(), Seq::empty());
        let ghost w = window(all, 0, visible_range.start as int, visible_range.end as int);
        let ghost m = self.line_mapping@;
        let ghost was = self.cursor_line as int;
        let cursor = space.cursor;
        let visible_height = if visible_range.start < visible_range.end {
            visible_range.end - visible_range.start
        } else {
            0
        };
        let mut path: Vec<usize> = Vec::new();
        let mut lasts: Vec<bool> = Vec::new();
        let mut nodes: Vec<&Node<F>> = Vec::new();
        let mut total: usize = 0;
        let mut recs: Vec<VisitRec<F>> = Vec::new();
        assert(node_frags(nodes@) =~= Seq::<F>::empty());
        collect_visits(space.root, &mut path, &mut lasts, &mut nodes, visible_range.start, visible_range.end, &mut total, &mut recs);
        proof {
            assert(path@ =~= Seq::<usize>::empty());
            assert(lasts@ =~= Seq::<bool>::empty());
            assert forall|i: int| 0 <= i < w.len() implies rec_of(#[trigger] recs@[i], w[i]) by {
                assert(recs@[0 + i] == recs@[i]);
            }
        }
        self.total_height = total;
        let old_len = self.line_mapping.len();
        let was_cursor = self.cursor_line;
        let mut lines: Vec<Option<String>> = Vec::new();
        let mut at: usize = 0;
        while at < recs.len()
            invariant
                recs@.len() == w.len(),
                forall|i: int| 0 <= i < w.len() ==> rec_of(#[trigger] recs@[i], w[i]),
                cursor@ == space.cursor@,
                old_len == m.len(),
                was_cursor == was,
                0 <= at <= w.len(),
                lines@.len() == at,
                forall|i: int| 0 <= i < at ==> line_ok(#[trigger] lines@[i], w[i], i, m, was, cursor@, pretty, *space.provider),
                self.line_mapping@.len() == (if at < m.len() { m.len() as int } else { at as int }),
                forall|i: int| 0 <= i < at ==> (#[trigger] self.line_mapping@[i]).0@ == w[i].path,
                forall|i: int| at <= i < m.len() ==> #[trigger] self.line_mapping@[i] == m[i],
                self.cursor_line == cursor_after(w, cursor@, at as int, was),
                self.total_height == all.len(),
                self.scroll == old(self).scroll,
                self.cols == old(self).cols,
                self.rows == old(self).rows,
                self.has_multiple_spaces == old(self).has_multiple_spaces,
            decreases w.len() - at,
        {
            let rec = &recs[at];
            let now_cursor = same_path(cursor, rec.path.as_slice());
            let need_push = self.line_mapping.len() == at;
            let changed = need_push || at == was_cursor || now_cursor || !same_path(
                rec.path.as_slice(),
                self.line_mapping[at].0.as_slice(),
            );
            proof {
                assert(rec_of(recs@[at as int], w[at as int]));
                assert(need_push == (at >= m.len()));
                if !need_push {
                    assert(self.line_mapping@[at as int] == m[at as int]);
                }
                assert(changed == line_changed(m, was, cursor@, at as int, w[at as int].path));
            }
            if !changed {
                lines.push(None);
            } else {
                let ip = IndexPath(copy_of(&rec.path));
                if need_push {
                    self.line_mapping.push(ip);
                } else {
                    self.line_mapping.set(at, ip);
                }
                let mut line = prefix_line(rec, now_cursor, pretty);
                if now_cursor {
                    self.cursor_line = at;
                }
                let k = rec.nodes.len() - 1;
                let (head, rest) = rec.nodes.as_slice().split_at(k);
                let shown = space.provider.display(&NodePath { head, tail: rest[0] });
                let ghost pre = line@;
                line.append(shown.as_str());
                proof {
                    assert(rest@[0] == rec.nodes@.last());
                    assert(head@ =~= rec.nodes@.subrange(0, k as int));
                    assert(frags_of(NodePath { head, tail: rest[0] }) =~= node_frags(rec.nodes@));
                    assert(pre == line_prefix(w[at as int], cursor@, pretty));
                    assert(line@ == line_prefix(w[at as int], cursor@, pretty) + space.provider.shows(w[at as int].frags));
                }
                lines.push(Some(line));
            }
            proof {
                assert(lines@[at as int] == lines@.last());
                assert forall|i: int| 0 <= i < at + 1 implies line_ok(#[trigger] lines@[i], w[i], i, m, was, cursor@, pretty, *space.provider) by {
                    if i < at {
                        assert(lines@[i] == lines@.subrange(0, at as int)[i]);
                    }
                }
            }
            at += 1;
        }
        let render_height = lines.len();
        while lines.len() < self.line_mapping.len()
            invariant
                render_height == w.len(),
                render_height <= lines@.len() <= self.line_mapping@.len(),
                forall|i: int| 0 <= i < w.len() ==> line_ok(#[trigger] lines@[i], w[i], i, m, was, cursor@, pretty, *space.provider),
                forall|i: int| w.len() <= i < lines@.len() ==> (#[trigger] lines@[i] matches Some(s) && s@.len() == 0),
            decreases self.line_mapping@.len() - lines@.len(),
        {
            lines.push(Some(String::new()));
        }
        let ghost before = self.line_mapping@;
        self.line_mapping.truncate(render_height);
        self.visible_height = visible_height;
        proof {
            assert forall|i: int| 0 <= i < w.len() implies (#[trigger] self.line_mapping@[i]).0@ == w[i].path by {
                assert(self.line_mapping@[i] == before[i]);
            }
        }
        lines
    }

    /// Re-render the lines of the tree that changed (all of them when
    /// `force`), over the rows from the scroll on: the text that moves the
    /// terminal cursor to each such line, clears it and draws it.
    pub fn render<F, P: Provider<F>>(&mut self, force: bool, space: ViewSpaceSubset<F, P>, pretty: bool) -> (out: String)
        requires
            renderable(*space.root),
            visits(*space.root, Seq::empty(), Seq::empty(), Seq::empty()).len() <= usize::MAX,
            old(self).scroll + old(self).rows <= usize::MAX,
            old(self).cols.start < usize::MAX,
        ensures
            exists|lines: Seq<Option<String>>|
                {
                    &&& #[trigger] rendered(
                        *space.provider,
                        *space.root,
                        space.cursor@,
                        old(self).scroll as int,
                        old(self).scroll + old(self).rows,
                        pretty,
                        kept(force, old(self).line_mapping@),
                        old(self).cursor_line as int,
                        *final(self),
                        lines,
                    )
                    &&& out@ == drawn(
                        lines,
                        (old(self).cols.start + 1) as nat,
                        clear_with(old(self).has_multiple_spaces, width_of(old(self).cols)),
                        lines.len() as int,
                    )
                },
            final(self).scroll == old(self).scroll,
            final(self).cols == old(self).cols,
            final(self).rows == old(self).rows,
            final(self).has_multiple_spaces == old(self).has_multiple_spaces,
    {
        if force {
            self.line_mapping.clear();
        }
        let ghost m = self.line_mapping@;
        assert(m =~= kept(force, old(self).line_mapping@));
        let range = self.scroll..self.scroll + self.rows;
        let lines = self.render_tree_range(space, range, pretty);
        let col = self.cols.start + 1;
        let width = if self.cols.start < self.cols.end {
            self.cols.end - self.cols.start
        } else {
            0
        };
        let mut clear: Vec<char> = Vec::new();
        if self.has_multiple_spaces {
            let mut i: usize = 0;
            while i < width
                invariant
                    0 <= i <= width,
                    clear@ == Seq::new(i as nat, |j: int| ' '),
                decreases width - i,
            {
                clear.push(' ');
                assert(clear@ =~= Seq::new((i + 1) as nat, |j: int| ' '));
                i += 1;
            }
        } else {
            clear.push('\x1b');
            clear.push('[');
            clear.push('K');
            assert(clear@ =~= seq!['\x1b', '[', 'K']);
        }
        let ghost cl = clear_with(self.has_multiple_spaces, width as int);
        let mut out: Vec<char> = Vec::new();
        out.push('\x1b');
        out.push('[');
        out.push(';');
        push_dec(&mut out, col);
        out.push('H');
        assert(out@ =~= drawn(lines@, col as nat, cl, 0));
        let mut off: usize = 0;
        while off < lines.len()
            invariant
                0 <= off <= lines@.len(),
                clear@ == cl,
                out@ == drawn(lines@, col as nat, cl, off as int),
            decreases lines@.len() - off,
        {
            let ghost before = out@;
            match &lines[off] {
                Some(line) => {
                    out.push('\x1b');
                    out.push('[');
                    push_dec(&mut out, off + 1);
                    out.push(';');
                    push_dec(&mut out, col);
                    out.push('H');
                    push_chars(&mut out, clear.as_slice());
                    let text = chars_of(line.as_str());
                    push_chars(&mut out, text.as_slice());
                    out.push('\x1b');
                    out.push('[');
                    out.push('m');
                    assert(out@ =~= before + (seq!['\x1b', '['] + dec((off + 1) as nat) + seq![';'] + dec(col as nat)
                        + seq!['H'] + cl + line@ + seq!['\x1b', '[', 'm']));
                },
                None => {
                    assert(out@ =~= before + Seq::<char>::empty());
                },
            }
            off += 1;
        }
        assert(cl == clear_with(old(self).has_multiple_spaces, width_of(old(self).cols)));
        assert(col as nat == (old(self).cols.start + 1) as nat);
        assert(rendered(
            *space.provider,
            *space.root,
            space.cursor@,
            old(self).scroll as int,
            old(self).scroll + old(self).rows,
            pretty,
            m,
            old(self).cursor_line as int,
            *self,
            lines@,
        ));
        string_of(out.as_slice())
    }

    /// The path of the node shown on `line`, if any.
    pub fn path_for(&self, line: usize) -> (r: Option<&IndexPath>)
        ensures
            line < self.line_mapping@.len() ==> r == Some(&self.line_mapping@[line as int]),
            line >= self.line_mapping@.len() ==> r is None,
    {
        if line < self.line_mapping.len() {
            Some(&self.line_mapping[line])
        } else {
            None
        }
    }
}

} // verus!
