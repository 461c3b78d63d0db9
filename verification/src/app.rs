use vstd::prelude::*;
use vstd::string::StringExecFns;
use crate::node::Movement;
use crate::prompt::strings_view;
use crate::view::{View, state_eq, lemma_state_eq_refl};
use vstd::view::View as _;

verus! {

broadcast use {vstd::std_specs::vec::axiom_vec_index_decreases, vstd::std_specs::vec::axiom_vec_decreases_to_view};

/// The views on screen: a single view, or views split side by side (0) or
/// one above the other (1).
pub enum ViewTree {
    Leaf(View),
    Split(Vec<ViewTree>, u8),
}

/// Two views with the same states (up to copying), cursor, offsets and
/// sorting.
pub open spec fn view_eq(a: View, b: View) -> bool {
    &&& state_eq(a.tree(), b.tree())
    &&& a.path() == b.path()
    &&& a.memory() == b.memory()
    &&& a.offset_spec() == b.offset_spec()
    &&& a.sorting() == b.sorting()
}

/// Two view trees of the same shape with equal views (up to copying).
pub open spec fn tree_eq(a: ViewTree, b: ViewTree) -> bool
    decreases a, 1int,
{
    match (a, b) {
        (ViewTree::Leaf(x), ViewTree::Leaf(y)) => view_eq(x, y),
        (ViewTree::Split(xs, dx), ViewTree::Split(ys, dy)) => dx == dy && trees_eq(xs@, ys@),
        _ => false,
    }
}

/// Two sequences of view trees, equal tree by tree (up to copying).
pub open spec fn trees_eq(xs: Seq<ViewTree>, ys: Seq<ViewTree>) -> bool
    decreases xs, 0int,
{
    &&& xs.len() == ys.len()
    &&& (xs.len() > 0 ==> {
        &&& trees_eq(xs.subrange(0, xs.len() - 1), ys.subrange(0, ys.len() - 1))
        &&& tree_eq(xs[xs.len() - 1], ys[ys.len() - 1])
    })
}

/// The subtree at path `p` (a position among the children of each split on
/// the way), if the path goes through splits only.
pub open spec fn subtree(t: ViewTree, p: Seq<usize>) -> Option<ViewTree>
    decreases p.len(),
{
    if p.len() == 0 {
        Some(t)
    } else {
        match t {
            ViewTree::Leaf(_) => None,
            ViewTree::Split(chs, _) => if p[0] < chs@.len() {
                subtree(chs@[p[0] as int], p.drop_first())
            } else {
                None
            },
        }
    }
}

/// `new` is `old` with the subtree at `p` replaced by one that `rel`
/// relates to the old one; everything off the path is unchanged.
pub open spec fn replaced_tree(
    old: ViewTree,
    new: ViewTree,
    p: Seq<usize>,
    rel: spec_fn(ViewTree, ViewTree) -> bool,
) -> bool
    decreases p.len(),
{
    if p.len() == 0 {
        rel(old, new)
    } else {
        match (old, new) {
            (ViewTree::Split(xs, dx), ViewTree::Split(ys, dy)) => {
                &&& dx == dy
                &&& xs@.len() == ys@.len()
                &&& p[0] < xs@.len()
                &&& forall|j: int| 0 <= j < xs@.len() && j != p[0] ==> ys@[j] == xs@[j]
                &&& replaced_tree(xs@[p[0] as int], ys@[p[0] as int], p.drop_first(), rel)
            },
            _ => false,
        }
    }
}

/// `new` is `old` with the subtree at `p` replaced by `sub`.
pub open spec fn tree_replaced(old: ViewTree, new: ViewTree, p: Seq<usize>, sub: ViewTree) -> bool {
    replaced_tree(old, new, p, |o: ViewTree, n: ViewTree| n == sub)
}

impl ViewTree {
    /// A copy of this tree and its views.
    pub fn duplicate(&self) -> (r: ViewTree)
        ensures
            tree_eq(r, *self),
        decreases *self,
    {
        match self {
            ViewTree::Leaf(v) => ViewTree::Leaf(v.duplicate()),
            ViewTree::Split(chs, d) => {
                let mut out: Vec<ViewTree> = Vec::new();
                let mut i: usize = 0;
                while i < chs.len()
                    invariant
                        *self is Split,
                        self->Split_0 == *chs,
                        0 <= i <= chs@.len(),
                        trees_eq(out@, chs@.subrange(0, i as int)),
                    decreases chs@.len() - i,
                {
                    proof {
                        assert(decreases_to!(*self => chs@[i as int]));
                    }
                    let c = chs[i].duplicate();
                    let ghost before = out@;
                    out.push(c);
                    proof {
                        let sub = chs@.subrange(0, i + 1);
                        assert(out@.subrange(0, out@.len() - 1) =~= before);
                        assert(sub.subrange(0, sub.len() - 1) =~= chs@.subrange(0, i as int));
                    }
                    i += 1;
                }
                assert(chs@.subrange(0, i as int) =~= chs@);
                ViewTree::Split(out, *d)
            },
        }
    }
}

proof fn lemma_replaced_self(old: ViewTree, new: ViewTree, p: Seq<usize>, sub: ViewTree)
    requires
        tree_replaced(old, new, p, sub),
    ensures
        subtree(new, p) == Some(sub),
    decreases p.len(),
{
    if p.len() > 0 {
        match (old, new) {
            (ViewTree::Split(xs, _), ViewTree::Split(ys, _)) => {
                lemma_replaced_self(xs@[p[0] as int], ys@[p[0] as int], p.drop_first(), sub);
            },
            _ => {},
        }
    }
}

/// The leaf at `p`, to be changed in place.
fn leaf_mut<'a>(t: &'a mut ViewTree, p: &[usize]) -> (r: &'a mut View)
    requires
        subtree(*old(t), p@) matches Some(ViewTree::Leaf(_)),
    ensures
        subtree(*old(t), p@) == Some(ViewTree::Leaf(*r)),
        tree_replaced(*old(t), *final(t), p@, ViewTree::Leaf(*final(r))),
    decreases p@.len(),
{
    if p.len() == 0 {
        match t {
            ViewTree::Leaf(v) => v,
            ViewTree::Split(_, _) => vstd::pervasive::unreached(),
        }
    } else {
        let k = p[0];
        let rest = p.split_at(1).1;
        assert(rest@ =~= p@.drop_first());
        match t {
            ViewTree::Leaf(_) => vstd::pervasive::unreached(),
            ViewTree::Split(chs, _) => leaf_mut(&mut chs[k], rest),
        }
    }
}

/// The subtree at `p`, to be changed in place.
fn subtree_mut<'a>(t: &'a mut ViewTree, p: &[usize]) -> (r: &'a mut ViewTree)
    requires
        subtree(*old(t), p@) is Some,
    ensures
        subtree(*old(t), p@) == Some(*r),
        tree_replaced(*old(t), *final(t), p@, *final(r)),
    decreases p@.len(),
{
    if p.len() == 0 {
        t
    } else {
        let k = p[0];
        let rest = p.split_at(1).1;
        assert(rest@ =~= p@.drop_first());
        match t {
            ViewTree::Leaf(_) => vstd::pervasive::unreached(),
            ViewTree::Split(chs, _) => subtree_mut(&mut chs[k], rest),
        }
    }
}

/// The subtree at `p`.
fn subtree_ref<'a>(t: &'a ViewTree, p: &[usize]) -> (r: &'a ViewTree)
    requires
        subtree(*t, p@) is Some,
    ensures
        subtree(*t, p@) == Some(*r),
    decreases p@.len(),
{
    if p.len() == 0 {
        t
    } else {
        let k = p[0];
        let rest = p.split_at(1).1;
        assert(rest@ =~= p@.drop_first());
        match t {
            ViewTree::Leaf(_) => vstd::pervasive::unreached(),
            ViewTree::Split(chs, _) => subtree_ref(&chs[k], rest),
        }
    }
}

/// What the application holds besides its terminal: the tree it shows, the
/// views on it, which view has the focus (a path in the view tree), and
/// user variables (each a list of strings, names unique).
pub struct Internal<Tr> {
    pub tree: Tr,
    pub views: ViewTree,
    pub focus: Vec<usize>,
    pub variables: Vec<(String, Vec<String>)>,
}

/// The names of the variables.
pub open spec fn var_names(vars: Seq<(String, Vec<String>)>) -> Seq<Seq<char>> {
    vars.map_values(|p: (String, Vec<String>)| p.0@)
}

/// The value of the variable `name`, if declared.
pub open spec fn var_value(vars: Seq<(String, Vec<String>)>, name: Seq<char>) -> Option<Seq<Seq<char>>>
    decreases vars.len(),
{
    if vars.len() == 0 {
        None
    } else if vars.last().0@ == name {
        Some(strings_view(vars.last().1@))
    } else {
        var_value(vars.drop_last(), name)
    }
}

impl<Tr> Internal<Tr> {
    /// The focused leaf exists.
    pub open spec fn focus_ok(&self) -> bool {
        subtree(self.views, self.focus@) matches Some(ViewTree::Leaf(_))
    }

    /// The focused view.
    pub open spec fn focused_view(&self) -> View {
        subtree(self.views, self.focus@)->Some_0->Leaf_0
    }

    /// The path of the group holding the focused view.
    pub open spec fn group_path(&self) -> Seq<usize> {
        self.focus@.subrange(0, self.focus@.len() - 1)
    }

    /// The focused view.
    pub fn focused(&self) -> (r: &View)
        requires
            self.focus_ok(),
        ensures
            *r == self.focused_view(),
    {
        match subtree_ref(&self.views, self.focus.as_slice()) {
            ViewTree::Leaf(v) => v,
            ViewTree::Split(_, _) => vstd::pervasive::unreached(),
        }
    }

    /// The focused view, to be changed in place.
    pub fn focused_mut(&mut self) -> (r: &mut View)
        requires
            old(self).focus_ok(),
        ensures
            *r == old(self).focused_view(),
            tree_replaced(old(self).views, final(self).views, old(self).focus@, ViewTree::Leaf(*final(r))),
            final(self).focus == old(self).focus,
            final(self).tree == old(self).tree,
            final(self).variables == old(self).variables,
    {
        leaf_mut(&mut self.views, self.focus.as_slice())
    }

    /// The focused view and the tree.
    pub fn focused_and_tree(&self) -> (r: (&View, &Tr))
        requires
            self.focus_ok(),
        ensures
            *r.0 == self.focused_view(),
            *r.1 == self.tree,
    {
        (self.focused(), &self.tree)
    }

    /// The focused view and the tree, to be changed in place.
    pub fn focused_and_tree_mut(&mut self) -> (r: (&mut View, &mut Tr))
        requires
            old(self).focus_ok(),
        ensures
            *r.0 == old(self).focused_view(),
            *r.1 == old(self).tree,
            tree_replaced(old(self).views, final(self).views, old(self).focus@, ViewTree::Leaf(*final(r.0))),
            final(self).tree == *final(r.1),
            final(self).focus == old(self).focus,
            final(self).variables == old(self).variables,
    {
        (leaf_mut(&mut self.views, self.focus.as_slice()), &mut self.tree)
    }

    /// The group (a split) that holds the focused view; `None` when the
    /// view tree is a single view.
    fn focused_group(&self) -> (r: Option<&ViewTree>)
        requires
            self.focus@.len() > 0 ==> subtree(self.views, self.group_path()) is Some,
        ensures
            self.focus@.len() == 0 ==> r is None,
            self.focus@.len() > 0 ==> (r matches Some(g) && subtree(self.views, self.group_path()) == Some(*g)),
    {
        if self.focus.len() == 0 {
            return None;
        }
        let len = self.focus.len();
        let p = self.focus.as_slice().split_at(len - 1).0;
        Some(subtree_ref(&self.views, p))
    }

    /// The group that holds the focused view, to be changed in place.
    fn focused_group_mut(&mut self) -> (r: Option<&mut ViewTree>)
        requires
            old(self).focus@.len() > 0 ==> subtree(old(self).views, old(self).group_path()) is Some,
        ensures
            old(self).focus@.len() == 0 ==> r is None && final(self).views == old(self).views,
            old(self).focus@.len() > 0 ==> (r matches Some(g) && subtree(old(self).views, old(self).group_path()) == Some(*g)
                && tree_replaced(old(self).views, final(self).views, old(self).group_path(), *final(g))),
            final(self).focus == old(self).focus,
            final(self).tree == old(self).tree,
            final(self).variables == old(self).variables,
    {
        if self.focus.len() == 0 {
            return None;
        }
        let len = self.focus.len();
        let p = self.focus.as_slice().split_at(len - 1).0;
        Some(subtree_mut(&mut self.views, p))
    }

    /// Flip the direction of the group holding the focused view.
    pub fn view_transpose(&mut self)
        requires
            old(self).focus@.len() > 0 ==> subtree(old(self).views, old(self).group_path()) is Some,
            old(self).focus@.len() > 0 ==> (subtree(old(self).views, old(self).group_path())
                matches Some(ViewTree::Split(_, d)) ==> d <= 1),
        ensures
            final(self).focus == old(self).focus,
            final(self).tree == old(self).tree,
            final(self).variables == old(self).variables,
            old(self).focus@.len() == 0 ==> final(self).views == old(self).views,
            old(self).focus@.len() > 0 ==> replaced_tree(
                old(self).views,
                final(self).views,
                old(self).group_path(),
                transposed(),
            ),
    {
        proof {
            if self.focus@.len() > 0 {
                lemma_replaced_rel_all(self.views, self.group_path(), transposed());
            }
        }
        let gr = self.focused_group_mut();
        match gr {
            Some(g) => match g {
                ViewTree::Split(_, d) => {
                    *d = 1 - *d;
                },
                ViewTree::Leaf(_) => {},
            },
            None => {},
        }
    }

    /// Keep only the focused view.
    pub fn view_close_other(&mut self)
        requires
            old(self).focus_ok(),
        ensures
            final(self).views matches ViewTree::Leaf(v) && view_eq(v, old(self).focused_view()),
            final(self).focus@ == Seq::<usize>::empty(),
            final(self).tree == old(self).tree,
            final(self).variables == old(self).variables,
    {
        let v = self.focused().duplicate();
        self.views = ViewTree::Leaf(v);
        self.focus.clear();
    }

    /// Move the focus to the next (or previous) view of its group, wrapping
    /// around.
    pub fn focus_to_view_adjacent(&mut self, movement: Movement)
        requires
            old(self).focus@.len() > 0 ==> subtree(old(self).views, old(self).group_path()) is Some,
            old(self).focus@.len() > 0 && movement is Forward ==> old(self).focus@.last() < usize::MAX,
            old(self).focus@.len() > 0 && movement is Backward && old(self).focus@.last() == 0 ==> (
            subtree(old(self).views, old(self).group_path()) matches Some(ViewTree::Split(v, _)) ==> v@.len() > 0),
        ensures
            final(self).views == old(self).views,
            final(self).tree == old(self).tree,
            final(self).variables == old(self).variables,
            ({
                let f = old(self).focus@;
                let g = if f.len() > 0 {
                    subtree(old(self).views, old(self).group_path())
                } else {
                    None
                };
                if g matches Some(ViewTree::Split(_, _)) {
                    let max = g->Some_0->Split_0@.len() as int;
                    let at = f.last() as int;
                    final(self).focus@ == f.update(
                        f.len() - 1,
                        (if movement is Forward {
                            if max <= at + 1 {
                                0
                            } else {
                                at + 1
                            }
                        } else {
                            (if at == 0 {
                                max
                            } else {
                                at
                            }) - 1
                        }) as usize,
                    )
                } else {
                    final(self).focus@ == f
                }
            }),
    {
        let max = match self.focused_group() {
            Some(ViewTree::Split(v, _)) => v.len(),
            _ => {
                return;
            },
        };
        let n = self.focus.len();
        if n > 0 {
            let it = self.focus[n - 1];
            match movement {
                Movement::Forward => {
                    let nx = it + 1;
                    self.focus.set(n - 1, if max <= nx { 0 } else { nx });
                },
                Movement::Backward => {
                    let base = if it == 0 {
                        max
                    } else {
                        it
                    };
                    self.focus.set(n - 1, base - 1);
                },
            }
        }
    }

    /// Set the variable `name` to `value`.
    pub fn declare(&mut self, name: &str, value: &[&str])
        ensures
            final(self).views == old(self).views,
            final(self).focus == old(self).focus,
            final(self).tree == old(self).tree,
            var_value(final(self).variables@, name@) == Some(value@.map_values(|s: &str| s@)),
            forall|other: Seq<char>|
                other != name@ ==> var_value(final(self).variables@, other) == var_value(
                    old(self).variables@,
                    other,
                ),
    {
        let mut vals: Vec<String> = Vec::new();
        let mut i: usize = 0;
        while i < value.len()
            invariant
                0 <= i <= value@.len(),
                strings_view(vals@) == value@.subrange(0, i as int).map_values(|s: &str| s@),
            decreases value@.len() - i,
        {
            let s = String::from_str(value[i]);
            let ghost before = vals@;
            vals.push(s);
            assert(vals@ =~= before.push(s));
            assert(strings_view(vals@) =~= strings_view(before).push(s@));
            assert(value@.subrange(0, i + 1).map_values(|s: &str| s@) =~= value@.subrange(
                0,
                i as int,
            ).map_values(|s: &str| s@).push(value@[i as int]@));
            i += 1;
        }
        assert(value@.subrange(0, i as int) =~= value@);
        let key = String::from_str(name);
        self.variables.push((key, vals));
        proof {
            let vs = self.variables@;
            assert(vs.drop_last() =~= old(self).variables@);
        }
    }

    /// The names of the declared variables (each once).
    pub fn var_list(&self) -> (r: Vec<&String>)
        ensures
            forall|i: int| 0 <= i < r@.len() ==> var_value(self.variables@, r@[i]@) is Some,
            forall|n: Seq<char>| var_value(self.variables@, n) is Some ==> exists|i: int|
                0 <= i < r@.len() && r@[i]@ == n,
            forall|i: int, j: int| 0 <= i < j < r@.len() ==> r@[i]@ != r@[j]@,
    {
        let vars = &self.variables;
        let mut r: Vec<&String> = Vec::new();
        let mut i: usize = vars.len();
        while i > 0
            invariant
                0 <= i <= vars@.len(),
                forall|k: int| 0 <= k < r@.len() ==> var_value(vars@, r@[k]@) is Some,
                forall|k: int, j: int| 0 <= k < j < r@.len() ==> r@[k]@ != r@[j]@,
                forall|k: int| i <= k < vars@.len() ==> exists|j: int| 0 <= j < r@.len() && r@[j]@ == #[trigger] vars@[k].0@,
            decreases i,
        {
            i -= 1;
            let name = &vars[i].0;
            let ghost old_r = r@;
            proof {
                lemma_var_value_some(vars@, i as int);
            }
            let mut seen = false;
            let mut j: usize = 0;
            while j < r.len()
                invariant
                    0 <= j <= r@.len(),
                    seen <==> exists|k: int| 0 <= k < j && r@[k]@ == name@,
                decreases r@.len() - j,
            {
                let a: &String = r[j];
                if a.eq(name) {
                    seen = true;
                }
                j += 1;
            }
            if !seen {
                r.push(name);
                proof {
                    assert(r@[r@.len() - 1]@ == vars@[i as int].0@);
                }
            }
            proof {
                assert forall|k: int| i <= k < vars@.len() implies exists|j: int|
                    0 <= j < r@.len() && r@[j]@ == #[trigger] vars@[k].0@ by {
                    if k == i {
                        if seen {
                            let w = choose|w: int| 0 <= w < old_r.len() && old_r[w]@ == name@;
                            assert(r@[w]@ == vars@[k].0@);
                        } else {
                            assert(r@[r@.len() - 1]@ == vars@[k].0@);
                        }
                    } else {
                        let w = choose|w: int| 0 <= w < old_r.len() && old_r[w]@ == vars@[k].0@;
                        assert(r@[w] == old_r[w]);
                    }
                }
            }
        }
        proof {
            assert forall|n: Seq<char>| var_value(vars@, n) is Some implies exists|k: int|
                0 <= k < r@.len() && r@[k]@ == n by {
                lemma_var_value_found(vars@, n);
                let w = choose|w: int| 0 <= w < vars@.len() && vars@[w].0@ == n;
                assert(exists|j: int| 0 <= j < r@.len() && r@[j]@ == vars@[w].0@);
            }
        }
        r
    }
}

/// How a new split lays its views out: side by side (0) or one above the
/// other (1).
#[derive(Clone, Copy, PartialEq, Eq, Structural)]
pub enum SplitDirection {
    Horizontal,
    Vertical,
}

/// The direction number a split stores.
pub open spec fn dir_num(d: SplitDirection) -> u8 {
    match d {
        SplitDirection::Horizontal => 0,
        SplitDirection::Vertical => 1,
    }
}

/// `n` is the split `o` with a copy of its leaf at `last` inserted right
/// after it.
pub open spec fn split_inserted(o: ViewTree, n: ViewTree, last: int) -> bool {
    &&& o matches ViewTree::Split(xs, a)
    &&& n matches ViewTree::Split(ys, b)
    &&& o->Split_1 == n->Split_1
    &&& {
        let xs = o->Split_0@;
        let ys = n->Split_0@;
        &&& 0 <= last < xs.len()
        &&& ys.len() == xs.len() + 1
        &&& forall|j: int| 0 <= j <= last ==> ys[j] == xs[j]
        &&& forall|j: int| last < j < xs.len() ==> ys[j + 1] == xs[j]
        &&& xs[last] matches ViewTree::Leaf(cur)
        &&& ys[last + 1] matches ViewTree::Leaf(v)
        &&& view_eq(ys[last + 1]->Leaf_0, xs[last]->Leaf_0)
    }
}

/// `n` is a new split in direction `d` of two copies of the leaf `o`.
pub open spec fn split_doubled(o: ViewTree, n: ViewTree, d: u8) -> bool {
    &&& o matches ViewTree::Leaf(cur)
    &&& n matches ViewTree::Split(ys, b)
    &&& n->Split_1 == d
    &&& n->Split_0@.len() == 2
    &&& tree_eq(n->Split_0@[0], o)
    &&& tree_eq(n->Split_0@[1], o)
}

/// `n` is the split `o` without its child at `at`.
pub open spec fn split_removed(o: ViewTree, n: ViewTree, at: int) -> bool {
    &&& o matches ViewTree::Split(xs, a)
    &&& n matches ViewTree::Split(ys, b)
    &&& o->Split_1 == n->Split_1
    &&& 0 <= at < o->Split_0@.len()
    &&& n->Split_0@ == o->Split_0@.remove(at)
}

impl<Tr> Internal<Tr> {
    /// Split the focused view in direction `d`: within its group when the
    /// group has that direction (the copy comes right after it and gets the
    /// focus), else in place, as a new group of the view and its copy.
    pub fn view_split(&mut self, d: SplitDirection)
        requires
            old(self).focus@.len() > 0 ==> subtree(old(self).views, old(self).group_path()) is Some,
            old(self).focus@.len() > 0 ==> (subtree(old(self).views, old(self).group_path())
                matches Some(ViewTree::Split(chs, _)) ==> old(self).focus@.last() < chs@.len()),
        ensures
            final(self).tree == old(self).tree,
            final(self).variables == old(self).variables,
            old(self).focus@.len() == 0 ==> ({
                &&& final(self).views matches ViewTree::Split(c, dd)
                &&& final(self).views->Split_1 == dir_num(d)
                &&& final(self).views->Split_0@.len() == 2
                &&& tree_eq(final(self).views->Split_0@[0], old(self).views)
                &&& tree_eq(final(self).views->Split_0@[1], old(self).views)
                &&& final(self).focus@ == seq![1usize]
            }),
            old(self).focus@.len() > 0 ==> ({
                let g = subtree(old(self).views, old(self).group_path())->0;
                let last = old(self).focus@.last();
                if g matches ViewTree::Split(chs, already) && g->Split_0@[last as int] is Leaf {
                    if g->Split_1 == dir_num(d) {
                        &&& replaced_tree(
                            old(self).views,
                            final(self).views,
                            old(self).group_path(),
                            |o: ViewTree, n: ViewTree| split_inserted(o, n, last as int),
                        )
                        &&& final(self).focus@ == old(self).focus@.update(
                            old(self).focus@.len() - 1,
                            (last + 1) as usize,
                        )
                    } else {
                        &&& replaced_tree(
                            old(self).views,
                            final(self).views,
                            old(self).focus@,
                            |o: ViewTree, n: ViewTree| split_doubled(o, n, dir_num(d)),
                        )
                        &&& final(self).focus@ == old(self).focus@.push(1)
                    }
                } else {
                    final(self).views == old(self).views && final(self).focus == old(self).focus
                }
            }),
    {
        let dd: u8 = match d {
            SplitDirection::Horizontal => 0,
            SplitDirection::Vertical => 1,
        };
        if self.focus.len() == 0 {
            let niw = self.views.duplicate();
            let mut cur = ViewTree::Split(Vec::new(), 0);
            std::mem::swap(&mut cur, &mut self.views);
            proof {
                lemma_tree_eq_refl(cur);
            }
            self.views = ViewTree::Split(vec![cur, niw], dd);
            self.focus.push(1);
            assert(self.focus@ =~= seq![1usize]);
            return;
        }
        let len = self.focus.len();
        let last = self.focus[len - 1];
        let ghost gp = self.group_path();
        let ghost old_views = self.views;
        proof {
            lemma_replaced_rel_all(old_views, gp, |o: ViewTree, n: ViewTree| split_inserted(o, n, last as int));
            lemma_subtree_push(old_views, gp, last);
            assert(self.focus@ =~= gp.push(last));
            if subtree(old_views, gp) matches Some(ViewTree::Split(xs, _)) && last < xs@.len() {
                lemma_replaced_child_all(old_views, gp, last);
                lemma_replaced_rel_all(old_views, gp.push(last), |o: ViewTree, n: ViewTree| split_doubled(o, n, dir_num(d)));
            }
        }
        let splits_leaf = match self.focused_group() {
            Some(ViewTree::Split(chs, _)) => match &chs[last] {
                ViewTree::Leaf(_) => true,
                ViewTree::Split(_, _) => false,
            },
            _ => false,
        };
        if !splits_leaf {
            return;
        }
        let mut grew = false;
        match self.focused_group_mut() {
            Some(g) => match g {
                ViewTree::Split(chs, already) => {
                    let n: usize = chs.len();
                    let niw = match &chs[last] {
                        ViewTree::Leaf(cur) => ViewTree::Leaf(cur.duplicate()),
                        ViewTree::Split(_, _) => vstd::pervasive::unreached(),
                    };
                    if dd == *already {
                        chs.insert(last + 1, niw);
                        grew = true;
                    } else {
                        let first = chs[last].duplicate();
                        chs.set(last, ViewTree::Split(vec![first, niw], dd));
                    }
                },
                ViewTree::Leaf(_) => vstd::pervasive::unreached(),
            },
            None => vstd::pervasive::unreached(),
        }
        if grew {
            self.focus.set(len - 1, last + 1);
        } else {
            self.focus.push(1);
        }
    }
}

/// `n` is the split `o` where, its child `k` being a split of two, the child
/// at `at` of that pair was closed: the pair at `k` is replaced by a copy of
/// the view left in it, all other children unchanged.
pub open spec fn pair_closed(o: ViewTree, n: ViewTree, k: int, at: int) -> bool {
    &&& o matches ViewTree::Split(xs, a)
    &&& n matches ViewTree::Split(ys, b)
    &&& o->Split_1 == n->Split_1
    &&& {
        let xs = o->Split_0@;
        let ys = n->Split_0@;
        &&& ys.len() == xs.len()
        &&& 0 <= k < xs.len()
        &&& 0 <= at < 2
        &&& xs[k] matches ViewTree::Split(pair, c)
        &&& xs[k]->Split_0@.len() == 2
        &&& forall|j: int| 0 <= j < xs.len() && j != k ==> ys[j] == xs[j]
        &&& tree_eq(ys[k], xs[k]->Split_0@[1 - at])
    }
}

impl<Tr> Internal<Tr> {
    /// Close the focused view. In a group of more than two views it is
    /// removed and the focus goes to the view before it (if any); in a group
    /// of two, the group's path becomes the focus and the view left over is
    /// copied into the enclosing group in the group's place (or
    /// becomes the whole view tree when the group was the root).
    pub fn view_close(&mut self)
        requires
            old(self).focus@.len() > 0 ==> subtree(old(self).views, old(self).group_path()) is Some,
            old(self).focus@.len() > 0 ==> (subtree(old(self).views, old(self).group_path())
                matches Some(ViewTree::Split(chs, _)) ==> old(self).focus@.last() < chs@.len()
                && chs@.len() != 1),
        ensures
            final(self).tree == old(self).tree,
            final(self).variables == old(self).variables,
            ({
                let f = old(self).focus@;
                let n = f.len();
                let at = f.last();
                let g = subtree(old(self).views, old(self).group_path());
                if n > 0 && g matches Some(ViewTree::Split(chs, _)) {
                    let v = g->0->Split_0@;
                    if v.len() > 2 {
                        &&& replaced_tree(
                            old(self).views,
                            final(self).views,
                            old(self).group_path(),
                            |o: ViewTree, n: ViewTree| split_removed(o, n, at as int),
                        )
                        &&& final(self).focus@ == (if at > 0 {
                            f.update(n - 1, (at - 1) as usize)
                        } else {
                            f
                        })
                    } else {
                        &&& final(self).focus@ == f.drop_last()
                        &&& n == 1 ==> tree_eq(final(self).views, v[1 - at])
                        &&& n > 1 ==> replaced_tree(
                            old(self).views,
                            final(self).views,
                            f.subrange(0, n - 2),
                            |o: ViewTree, nn: ViewTree| pair_closed(o, nn, f[n - 2] as int, at as int),
                        )
                    }
                } else {
                    final(self).views == old(self).views && final(self).focus == old(self).focus
                }
            }),
    {
        if self.focus.len() == 0 {
            return;
        }
        let len = self.focus.len();
        let at = self.focus[len - 1];
        let count: usize = match self.focused_group() {
            Some(ViewTree::Split(v, _)) => v.len(),
            _ => {
                return;
            },
        };
        let ghost gp = self.group_path();
        let ghost old_views = self.views;
        if count > 2 {
            proof {
                lemma_replaced_rel_all(old_views, gp, |o: ViewTree, n: ViewTree| split_removed(o, n, at as int));
            }
            match self.focused_group_mut() {
                Some(g) => match g {
                    ViewTree::Split(v, _) => {
                        v.remove(at);
                    },
                    ViewTree::Leaf(_) => vstd::pervasive::unreached(),
                },
                None => vstd::pervasive::unreached(),
            }
            if 0 < at {
                self.focus.set(len - 1, at - 1);
            }
            return;
        }
        let rest = match self.focused_group() {
            Some(ViewTree::Split(v, _)) => v[1 - at].duplicate(),
            _ => vstd::pervasive::unreached(),
        };
        let ghost f = self.focus@;
        self.focus.pop();
        if len == 1 {
            self.views = rest;
            return;
        }
        let k = self.focus[len - 2];
        let ghost gp2 = f.subrange(0, len - 2);
        proof {
            assert(gp =~= gp2.push(k));
            assert(self.focus@ =~= gp);
            lemma_subtree_prefix(old_views, gp2, k);
            lemma_subtree_push(old_views, gp2, k);
            lemma_replaced_rel_all(old_views, gp2, |o: ViewTree, nn: ViewTree| pair_closed(o, nn, k as int, at as int));
        }
        let p2 = self.focus.as_slice().split_at(len - 2).0;
        assert(p2@ =~= gp2);
        let g = subtree_mut(&mut self.views, p2);
        match g {
            ViewTree::Split(w, _) => {
                w.set(k, rest);
            },
            ViewTree::Leaf(_) => vstd::pervasive::unreached(),
        }
    }
}

/// A path through splits goes through splits all the way: its prefix one
/// shorter leads to a split holding the last step.
proof fn lemma_subtree_prefix(t: ViewTree, p: Seq<usize>, k: usize)
    requires
        subtree(t, p.push(k)) is Some,
    ensures
        subtree(t, p) matches Some(ViewTree::Split(chs, _)),
        k < subtree(t, p)->0->Split_0@.len(),
    decreases p.len(),
{
    let q = p.push(k);
    if p.len() == 0 {
        assert(q.drop_first() =~= Seq::<usize>::empty());
        assert(q[0] == k);
    } else {
        assert(q.drop_first() =~= p.drop_first().push(k));
        assert(q[0] == p[0]);
        match t {
            ViewTree::Split(chs, _) => {
                lemma_subtree_prefix(chs@[p[0] as int], p.drop_first(), k);
            },
            ViewTree::Leaf(_) => {},
        }
    }
}

proof fn lemma_tree_eq_refl(t: ViewTree)
    ensures
        tree_eq(t, t),
    decreases t, 1int,
{
    match t {
        ViewTree::Leaf(v) => {
            lemma_state_eq_refl(v.tree());
        },
        ViewTree::Split(chs, _) => {
            lemma_trees_eq_refl(chs@);
        },
    }
}

proof fn lemma_trees_eq_refl(xs: Seq<ViewTree>)
    ensures
        trees_eq(xs, xs),
    decreases xs, 0int,
{
    if xs.len() > 0 {
        lemma_trees_eq_refl(xs.subrange(0, xs.len() - 1));
        lemma_tree_eq_refl(xs[xs.len() - 1]);
    }
}

/// Replacing the child `k` of the split at `p` is replacing the subtree at
/// `p` pushed with `k`.
proof fn lemma_replaced_child_all(old: ViewTree, p: Seq<usize>, k: usize)
    requires
        subtree(old, p) matches Some(ViewTree::Split(xs, _)),
        k < subtree(old, p)->0->Split_0@.len(),
    ensures
        forall|new: ViewTree, ys: Vec<ViewTree>|
            #[trigger] tree_replaced(old, new, p, ViewTree::Split(ys, subtree(old, p)->0->Split_1))
                && ys@.len() == subtree(old, p)->0->Split_0@.len()
                && (forall|j: int| 0 <= j < ys@.len() && j != k ==> ys@[j] == subtree(old, p)->0->Split_0@[j])
                ==> tree_replaced(old, new, p.push(k), ys@[k as int]),
    decreases p.len(),
{
    assert forall|new: ViewTree, ys: Vec<ViewTree>|
        #[trigger] tree_replaced(old, new, p, ViewTree::Split(ys, subtree(old, p)->0->Split_1))
            && ys@.len() == subtree(old, p)->0->Split_0@.len()
            && (forall|j: int| 0 <= j < ys@.len() && j != k ==> ys@[j] == subtree(old, p)->0->Split_0@[j])
        implies tree_replaced(old, new, p.push(k), ys@[k as int]) by {
        lemma_replaced_child(old, new, p, k, ys);
    }
}

proof fn lemma_replaced_child(old: ViewTree, new: ViewTree, p: Seq<usize>, k: usize, ys: Vec<ViewTree>)
    requires
        subtree(old, p) matches Some(ViewTree::Split(xs, _)),
        k < subtree(old, p)->0->Split_0@.len(),
        tree_replaced(old, new, p, ViewTree::Split(ys, subtree(old, p)->0->Split_1)),
        ys@.len() == subtree(old, p)->0->Split_0@.len(),
        forall|j: int| 0 <= j < ys@.len() && j != k ==> ys@[j] == subtree(old, p)->0->Split_0@[j],
    ensures
        tree_replaced(old, new, p.push(k), ys@[k as int]),
    decreases p.len(),
{
    let q = p.push(k);
    if p.len() == 0 {
        assert(q.drop_first() =~= Seq::<usize>::empty());
        assert(q[0] == k);
        let xs = old->Split_0;
        assert(new == ViewTree::Split(ys, old->Split_1));
        assert(tree_replaced(xs@[k as int], ys@[k as int], q.drop_first(), ys@[k as int]));
        assert forall|j: int| 0 <= j < xs@.len() && j != q[0] implies ys@[j] == xs@[j] by {
            assert(ys@[j] == subtree(old, p)->0->Split_0@[j]);
        }
    } else {
        assert(q.drop_first() =~= p.drop_first().push(k));
        assert(q[0] == p[0]);
        match (old, new) {
            (ViewTree::Split(xs, _), ViewTree::Split(zs, _)) => {
                lemma_replaced_child(xs@[p[0] as int], zs@[p[0] as int], p.drop_first(), k, ys);
            },
            _ => {},
        }
    }
}

proof fn lemma_subtree_push(t: ViewTree, p: Seq<usize>, k: usize)
    requires
        subtree(t, p) is Some,
    ensures
        subtree(t, p.push(k)) == (match subtree(t, p)->0 {
            ViewTree::Split(chs, _) => if k < chs@.len() {
                Some(chs@[k as int])
            } else {
                None
            },
            ViewTree::Leaf(_) => None,
        }),
    decreases p.len(),
{
    let q = p.push(k);
    if p.len() == 0 {
        assert(q.drop_first() =~= Seq::<usize>::empty());
        assert(q[0] == k);
        match t {
            ViewTree::Split(chs, _) => {
                if k < chs@.len() {
                    assert(subtree(chs@[k as int], q.drop_first()) == Some(chs@[k as int]));
                }
            },
            ViewTree::Leaf(_) => {},
        }
    } else {
        assert(q.drop_first() =~= p.drop_first().push(k));
        assert(q[0] == p[0]);
        match t {
            ViewTree::Split(chs, _) => {
                lemma_subtree_push(chs@[p[0] as int], p.drop_first(), k);
            },
            ViewTree::Leaf(_) => {},
        }
    }
}

proof fn lemma_var_value_some(vars: Seq<(String, Vec<String>)>, i: int)
    requires
        0 <= i < vars.len(),
    ensures
        var_value(vars, vars[i].0@) is Some,
    decreases vars.len(),
{
    if vars.last().0@ != vars[i].0@ {
        assert(i != vars.len() - 1);
        lemma_var_value_some(vars.drop_last(), i);
    }
}

proof fn lemma_var_value_found(vars: Seq<(String, Vec<String>)>, n: Seq<char>)
    requires
        var_value(vars, n) is Some,
    ensures
        exists|w: int| 0 <= w < vars.len() && vars[w].0@ == n,
    decreases vars.len(),
{
    if vars.last().0@ != n {
        lemma_var_value_found(vars.drop_last(), n);
        let w = choose|w: int| 0 <= w < vars.len() - 1 && vars.drop_last()[w].0@ == n;
        assert(vars[w].0@ == n);
    } else {
        assert(vars[vars.len() - 1].0@ == n);
    }
}

proof fn lemma_replaced_rel_all(old: ViewTree, p: Seq<usize>, rel: spec_fn(ViewTree, ViewTree) -> bool)
    requires
        subtree(old, p) is Some,
    ensures
        forall|new: ViewTree, sub: ViewTree|
            #[trigger] tree_replaced(old, new, p, sub) && rel(subtree(old, p)->0, sub) ==> replaced_tree(
                old,
                new,
                p,
                rel,
            ),
    decreases p.len(),
{
    assert forall|new: ViewTree, sub: ViewTree|
        #[trigger] tree_replaced(old, new, p, sub) && rel(subtree(old, p)->0, sub) implies replaced_tree(
            old,
            new,
            p,
            rel,
        ) by {
        lemma_replaced_rel(old, new, p, sub, rel);
    }
}

proof fn lemma_replaced_rel(
    old: ViewTree,
    new: ViewTree,
    p: Seq<usize>,
    sub: ViewTree,
    rel: spec_fn(ViewTree, ViewTree) -> bool,
)
    requires
        subtree(old, p) is Some,
        tree_replaced(old, new, p, sub),
        rel(subtree(old, p)->0, sub),
    ensures
        replaced_tree(old, new, p, rel),
    decreases p.len(),
{
    if p.len() > 0 {
        match (old, new) {
            (ViewTree::Split(xs, _), ViewTree::Split(ys, _)) => {
                lemma_replaced_rel(xs@[p[0] as int], ys@[p[0] as int], p.drop_first(), sub, rel);
            },
            _ => {},
        }
    }
}

/// The split direction number a move in direction `d` goes along: a
/// horizontal move goes along a split numbered 1, a vertical one along 0.
pub open spec fn move_dir(d: SplitDirection) -> u8 {
    match d {
        SplitDirection::Horizontal => 1,
        SplitDirection::Vertical => 0,
    }
}

/// The child a move enters a split `v` by: along the move's direction the
/// edge it comes from (the last child moving forward, the first moving
/// back), across it the first.
pub open spec fn entry_child(len: int, dd: u8, d: u8, mv: Movement) -> int {
    if dd == d && mv is Forward {
        len - 1
    } else {
        0
    }
}

/// Going down from `t` to a view by entry children, the focus path `f`
/// gets longer by each child taken.
pub open spec fn descend(t: ViewTree, f: Seq<usize>, d: u8, mv: Movement) -> Seq<usize>
    decreases t,
{
    match t {
        ViewTree::Leaf(_) => f,
        ViewTree::Split(v, dd) => {
            let idx = entry_child(v@.len() as int, dd, d, mv);
            if 0 <= idx < v@.len() {
                descend(v@[idx], f.push(idx as usize), d, mv)
            } else {
                f
            }
        },
    }
}

/// Each split on the way down from `t` by entry children has children.
pub open spec fn descend_ok(t: ViewTree, d: u8, mv: Movement) -> bool
    decreases t,
{
    match t {
        ViewTree::Leaf(_) => true,
        ViewTree::Split(v, dd) => {
            let idx = entry_child(v@.len() as int, dd, d, mv);
            v@.len() > 0 && descend_ok(v@[idx], d, mv)
        },
    }
}

/// Climbing from the group at depth `n - 1` of focus path `f`: the
/// nearest group along direction `d` decides. If the move stays within it,
/// the path to the neighbour and the neighbour; if not (or there is no
/// such group), nothing moves.
pub open spec fn climb(views: ViewTree, f: Seq<usize>, d: u8, mv: Movement, n: int) -> Option<(Seq<usize>, ViewTree)>
    decreases n,
{
    if n <= 0 {
        None
    } else {
        match subtree(views, f.subrange(0, n - 1)) {
            Some(ViewTree::Split(v, dd)) => if dd == d {
                let nl = f[n - 1] + if mv is Forward { 1int } else { -1int };
                if 0 <= nl < v@.len() {
                    Some((f.subrange(0, n - 1).push(nl as usize), v@[nl]))
                } else {
                    None
                }
            } else {
                climb(views, f, d, mv, n - 1)
            },
            _ => climb(views, f, d, mv, n - 1),
        }
    }
}

/// The groups along focus path `f` have at most `i32::MAX` views each.
pub open spec fn groups_small(views: ViewTree, f: Seq<usize>) -> bool {
    forall|i: int|
        0 <= i < f.len() ==> (#[trigger] subtree(views, f.subrange(0, i)) matches Some(ViewTree::Split(v, _))
            ==> v@.len() <= i32::MAX)
}

/// Go down from `t`, the subtree at `f`, by entry children (see `descend`).
fn descend_push(t: &ViewTree, f: &mut Vec<usize>, d: u8, mv: Movement)
    requires
        descend_ok(*t, d, mv),
    ensures
        final(f)@ == descend(*t, old(f)@, d, mv),
    decreases *t,
{
    match t {
        ViewTree::Leaf(_) => {},
        ViewTree::Split(v, dd) => {
            let idx = if *dd == d && mv == Movement::Forward {
                v.len() - 1
            } else {
                0
            };
            f.push(idx);
            descend_push(&v[idx], f, d, mv);
        },
    }
}

impl<Tr> Internal<Tr> {
    /// Move the focus to the neighbouring view in direction `d`: within the
    /// nearest group along `d` that holds the focused view, to the next (or
    /// previous) view if there is one, entering it at the edge the move
    /// comes from; otherwise the focus stays.
    pub fn focus_to_view(&mut self, d: SplitDirection, movement: Movement)
        requires
            old(self).focus_ok(),
            groups_small(old(self).views, old(self).focus@),
            climb(old(self).views, old(self).focus@, move_dir(d), movement, old(self).focus@.len() as int)
                matches Some(target) ==> descend_ok(target.1, move_dir(d), movement),
        ensures
            final(self).views == old(self).views,
            final(self).tree == old(self).tree,
            final(self).variables == old(self).variables,
            final(self).focus@ == match climb(
                old(self).views,
                old(self).focus@,
                move_dir(d),
                movement,
                old(self).focus@.len() as int,
            ) {
                Some(target) => descend(target.1, target.0, move_dir(d), movement),
                None => old(self).focus@,
            },
    {
        let dn: u8 = match d {
            SplitDirection::Horizontal => 1,
            SplitDirection::Vertical => 0,
        };
        let ghost f0 = self.focus@;
        let mut n = self.focus.len();
        while n > 0
            invariant
                self.focus@ == f0,
                dn == move_dir(d),
                n <= f0.len(),
                old(self).views == self.views,
                old(self).focus@ == f0,
                old(self).tree == self.tree,
                old(self).variables == self.variables,
                subtree(self.views, f0) matches Some(ViewTree::Leaf(_)),
                groups_small(self.views, f0),
                climb(self.views, f0, dn, movement, n as int) == climb(self.views, f0, dn, movement, f0.len() as int),
                climb(self.views, f0, dn, movement, f0.len() as int) matches Some(target) ==> descend_ok(target.1, dn, movement),
            decreases n,
        {
            let prefix = self.focus.as_slice().split_at(n - 1).0;
            proof {
                assert(prefix@ =~= f0.subrange(0, n - 1));
                lemma_subtree_prefix_some(self.views, f0, n - 1);
            }
            let g = subtree_ref(&self.views, prefix);
            match g {
                ViewTree::Split(v, dd) => {
                    if *dd == dn {
                        proof {
                            lemma_subtree_prefix_step(self.views, f0, n - 1);
                            assert(groups_small(self.views, f0));
                            assert(subtree(self.views, f0.subrange(0, n - 1)) == Some(*g));
                        }
                        let at = self.focus[n - 1] as i64;
                        let len = v.len() as i64;
                        let nl: i64 = if movement == Movement::Forward {
                            at + 1
                        } else {
                            at - 1
                        };
                        let ghost c = climb(self.views, f0, dn, movement, n as int);
                        if 0 <= nl && nl < len {
                            let nl = nl as usize;
                            self.focus.truncate(n);
                            self.focus.set(n - 1, nl);
                            assert(self.focus@ =~= f0.subrange(0, n - 1).push(nl));
                            assert(c == Some((f0.subrange(0, n - 1).push(nl), v@[nl as int])));
                            descend_push(&v[nl], &mut self.focus, dn, movement);
                        } else {
                            assert(c is None);
                        }
                        return;
                    }
                },
                ViewTree::Leaf(_) => {},
            }
            n = n - 1;
        }
    }
}

/// A prefix of a path to a view leads to a subtree.
proof fn lemma_subtree_prefix_some(t: ViewTree, p: Seq<usize>, k: int)
    requires
        subtree(t, p) is Some,
        0 <= k <= p.len(),
    ensures
        subtree(t, p.subrange(0, k)) is Some,
    decreases p.len(),
{
    if k > 0 {
        match t {
            ViewTree::Split(chs, _) => {
                assert(p.subrange(0, k).drop_first() =~= p.drop_first().subrange(0, k - 1));
                lemma_subtree_prefix_some(chs@[p[0] as int], p.drop_first(), k - 1);
            },
            ViewTree::Leaf(_) => {},
        }
    }
}

/// The subtree at a strict prefix of a path to a view is a split, and the
/// path's next step is one of its children.
proof fn lemma_subtree_prefix_step(t: ViewTree, p: Seq<usize>, k: int)
    requires
        subtree(t, p) is Some,
        0 <= k < p.len(),
    ensures
        subtree(t, p.subrange(0, k)) matches Some(ViewTree::Split(v, _)) && p[k] < v@.len(),
    decreases p.len(),
{
    match t {
        ViewTree::Split(chs, _) => {
            if k > 0 {
                assert(p.subrange(0, k).drop_first() =~= p.drop_first().subrange(0, k - 1));
                lemma_subtree_prefix_step(chs@[p[0] as int], p.drop_first(), k - 1);
            } else {
                assert(p.subrange(0, 0) =~= Seq::<usize>::empty());
            }
        },
        ViewTree::Leaf(_) => {},
    }
}

/// The nodes a lookup names: the one under the cursor, the root, or the
/// marked ones.
#[derive(Clone, Copy, PartialEq, Eq, Structural, Debug)]
pub enum LookupObj {
    Cursor,
    Root,
    Selection,
}

/// What a lookup gives of each node: its full path, its path from the
/// root, its file name, or its extension (empty without one).
#[derive(Clone, Copy, PartialEq, Eq, Structural, Debug)]
pub enum LookupProp {
    Path,
    Relative,
    FileName,
    Extension,
}

/// What a `{name}` asks for: a property of nodes, a variable, or nothing
/// this version answers (an unknown property, or a property of a
/// variable).
pub enum LookupReq {
    Nodes(LookupObj, LookupProp),
    Variable(Seq<char>),
    Unanswered,
}

/// `s` before its first `.`, and after it (all of `s`, and nothing, without
/// one).
pub open spec fn split_dot(s: Seq<char>) -> (Seq<char>, Seq<char>)
    decreases s.len(),
{
    if s.len() == 0 {
        (Seq::empty(), Seq::empty())
    } else if s[0] == '.' {
        (Seq::empty(), s.drop_first())
    } else {
        let (a, b) = split_dot(s.drop_first());
        (seq![s[0]] + a, b)
    }
}

/// What lookup `name` asks for: the empty name is the path under the
/// cursor; `obj.ppt` with `obj` empty (the cursor), `root` or `selection`
/// and `ppt` empty, `relative`, `file-name` or `extension`; any other name
/// without a property is a variable.
pub open spec fn lookup_req(name: Seq<char>) -> LookupReq {
    if name.len() == 0 {
        LookupReq::Nodes(LookupObj::Cursor, LookupProp::Path)
    } else {
        let (obj, ppt) = split_dot(name);
        let o = if obj.len() == 0 {
            Some(LookupObj::Cursor)
        } else if obj == seq!['r', 'o', 'o', 't'] {
            Some(LookupObj::Root)
        } else if obj == seq!['s', 'e', 'l', 'e', 'c', 't', 'i', 'o', 'n'] {
            Some(LookupObj::Selection)
        } else {
            None
        };
        let p = if ppt.len() == 0 {
            Some(LookupProp::Path)
        } else if ppt == seq!['r', 'e', 'l', 'a', 't', 'i', 'v', 'e'] {
            Some(LookupProp::Relative)
        } else if ppt == seq!['f', 'i', 'l', 'e', '-', 'n', 'a', 'm', 'e'] {
            Some(LookupProp::FileName)
        } else if ppt == seq!['e', 'x', 't', 'e', 'n', 's', 'i', 'o', 'n'] {
            Some(LookupProp::Extension)
        } else {
            None
        };
        match (o, p) {
            (Some(o), Some(p)) => LookupReq::Nodes(o, p),
            (Some(_), None) => LookupReq::Unanswered,
            (None, Some(LookupProp::Path)) => LookupReq::Variable(obj),
            _ => LookupReq::Unanswered,
        }
    }
}

/// `split_dot` computed.
fn split_dot_exec(s: &[char]) -> (r: (Vec<char>, Vec<char>))
    ensures
        (r.0@, r.1@) == split_dot(s@),
{
    let mut i: usize = 0;
    while i < s.len() && s[i] != '.'
        invariant
            0 <= i <= s@.len(),
            forall|j: int| 0 <= j < i ==> s@[j] != '.',
        decreases s@.len() - i,
    {
        i += 1;
    }
    proof {
        lemma_split_dot(s@, i as int);
    }
    let (a, b) = s.split_at(i);
    let mut before: Vec<char> = Vec::new();
    crate::readline::push_chars(&mut before, a);
    let mut after: Vec<char> = Vec::new();
    if i < s.len() {
        crate::readline::push_chars(&mut after, b.split_at(1).1);
        assert(b@.subrange(1, b@.len() as int) =~= s@.subrange(i + 1, s@.len() as int));
    }
    assert(before@ =~= s@.subrange(0, i as int));
    (before, after)
}

proof fn lemma_split_dot(s: Seq<char>, i: int)
    requires
        0 <= i <= s.len(),
        forall|j: int| 0 <= j < i ==> s[j] != '.',
        i < s.len() ==> s[i] == '.',
    ensures
        split_dot(s) == (s.subrange(0, i), if i < s.len() {
            s.subrange(i + 1, s.len() as int)
        } else {
            Seq::<char>::empty()
        }),
    decreases s.len(),
{
    if i > 0 {
        lemma_split_dot(s.drop_first(), i - 1);
        assert(seq![s[0]] + s.drop_first().subrange(0, i - 1) =~= s.subrange(0, i));
        if i < s.len() {
            assert(s.drop_first().subrange(i, s.len() - 1) =~= s.subrange(i + 1, s.len() as int));
        }
    } else {
        assert(s.subrange(0, 0) =~= Seq::<char>::empty());
        if s.len() > 0 {
            assert(s.drop_first() =~= s.subrange(1, s.len() as int));
        }
    }
}

/// What `name` asks for (see `lookup_req`); `None` when nothing answers it.
pub fn parse_lookup(name: &str) -> (r: Option<(LookupObj, LookupProp)>)
    ensures
        match lookup_req(name@) {
            LookupReq::Nodes(o, p) => r == Some((o, p)),
            _ => r is None,
        },
{
    let cs = crate::text::chars_of(name);
    if cs.len() == 0 {
        return Some((LookupObj::Cursor, LookupProp::Path));
    }
    let (obj, ppt) = split_dot_exec(cs.as_slice());
    let o = if obj.len() == 0 {
        Some(LookupObj::Cursor)
    } else if crate::readline::same_chars(obj.as_slice(), &['r', 'o', 'o', 't']) {
        Some(LookupObj::Root)
    } else if crate::readline::same_chars(obj.as_slice(), &['s', 'e', 'l', 'e', 'c', 't', 'i', 'o', 'n']) {
        Some(LookupObj::Selection)
    } else {
        None
    };
    let p = if ppt.len() == 0 {
        Some(LookupProp::Path)
    } else if crate::readline::same_chars(ppt.as_slice(), &['r', 'e', 'l', 'a', 't', 'i', 'v', 'e']) {
        Some(LookupProp::Relative)
    } else if crate::readline::same_chars(ppt.as_slice(), &['f', 'i', 'l', 'e', '-', 'n', 'a', 'm', 'e']) {
        Some(LookupProp::FileName)
    } else if crate::readline::same_chars(ppt.as_slice(), &['e', 'x', 't', 'e', 'n', 's', 'i', 'o', 'n']) {
        Some(LookupProp::Extension)
    } else {
        None
    };
    match (o, p) {
        (Some(o), Some(p)) => Some((o, p)),
        _ => None,
    }
}

impl<Tr> Internal<Tr> {
    /// The values of `{name}` (see `lookup_req`): what `nodes` gives of the
    /// nodes it names, or the value of a variable (empty when it was not
    /// declared).
    pub fn lookup<Q: Fn(LookupObj, LookupProp) -> Vec<String>>(&self, name: &str, nodes: &Q) -> (r: Vec<String>)
        requires
            !(lookup_req(name@) is Unanswered),
            forall|o: LookupObj, p: LookupProp| call_requires(*nodes, (o, p)),
        ensures
            match lookup_req(name@) {
                LookupReq::Nodes(o, p) => call_ensures(*nodes, (o, p), r),
                LookupReq::Variable(v) => strings_view(r@) == match var_value(self.variables@, v) {
                    Some(vals) => vals,
                    None => Seq::empty(),
                },
                LookupReq::Unanswered => false,
            },
    {
        match parse_lookup(name) {
            Some((o, p)) => nodes(o, p),
            None => {
                let cs = crate::text::chars_of(name);
                let (obj, _) = split_dot_exec(cs.as_slice());
                self.var_get(&obj)
            },
        }
    }

    /// The value of the variable named `name`, empty when not declared.
    fn var_get(&self, name: &Vec<char>) -> (r: Vec<String>)
        ensures
            strings_view(r@) == match var_value(self.variables@, name@) {
                Some(vals) => vals,
                None => Seq::empty(),
            },
    {
        let mut i: usize = self.variables.len();
        assert(self.variables@.subrange(0, i as int) =~= self.variables@);
        while i > 0
            invariant
                0 <= i <= self.variables@.len(),
                var_value(self.variables@, name@) == var_value(self.variables@.subrange(0, i as int), name@),
            decreases i,
        {
            i -= 1;
            let k = crate::text::chars_of(self.variables[i].0.as_str());
            proof {
                let sub = self.variables@.subrange(0, i + 1);
                assert(sub.drop_last() =~= self.variables@.subrange(0, i as int));
            }
            if crate::readline::same_chars(k.as_slice(), name.as_slice()) {
                let vals = &self.variables[i].1;
                let mut out: Vec<String> = Vec::new();
                let mut j: usize = 0;
                while j < vals.len()
                    invariant
                        0 <= j <= vals@.len(),
                        strings_view(out@) == strings_view(vals@.subrange(0, j as int)),
                    decreases vals@.len() - j,
                {
                    let ghost before = out@;
                    out.push(vals[j].clone());
                    assert(strings_view(out@) =~= strings_view(before).push(vals@[j as int]@));
                    assert(strings_view(vals@.subrange(0, j + 1)) =~= strings_view(vals@.subrange(0, j as int)).push(vals@[j as int]@));
                    j += 1;
                }
                assert(vals@.subrange(0, j as int) =~= vals@);
                return out;
            }
        }
        assert(self.variables@.subrange(0, 0) =~= Seq::<(String, Vec<String>)>::empty());
        Vec::new()
    }
}


/// A group flipped in direction (side by side and one above the other
/// swapped), with the same children; a single view is left as it is.
pub open spec fn transposed() -> spec_fn(ViewTree, ViewTree) -> bool {
    |o: ViewTree, n: ViewTree| match o {
        ViewTree::Split(chs, d) => n matches ViewTree::Split(chs2, d2) && chs2 == chs && d2 == 1 - d,
        ViewTree::Leaf(_) => n == o,
    }
}

/// Two sequences of view trees that agree tree by tree are the same.
proof fn lemma_trees_eq_pointwise(xs: Seq<ViewTree>, ys: Seq<ViewTree>)
    requires
        xs.len() == ys.len(),
        forall|j: int| 0 <= j < xs.len() ==> #[trigger] tree_eq(xs[j], ys[j]),
    ensures
        trees_eq(xs, ys),
    decreases xs.len(),
{
    if xs.len() > 0 {
        let x1 = xs.subrange(0, xs.len() - 1);
        let y1 = ys.subrange(0, ys.len() - 1);
        assert forall|j: int| 0 <= j < x1.len() implies #[trigger] tree_eq(x1[j], y1[j]) by {
            assert(x1[j] == xs[j]);
            assert(y1[j] == ys[j]);
            assert(tree_eq(xs[j], ys[j]));
        }
        lemma_trees_eq_pointwise(x1, y1);
        assert(tree_eq(xs[xs.len() - 1], ys[ys.len() - 1]));
    }
}

/// Transposing the group at `p` twice gives the views back: when `v1` is
/// `v0` with that group transposed and `v2` is `v1` with it transposed
/// again, `v2` is `v0` (up to copying).
pub proof fn transpose_twice(v0: ViewTree, v1: ViewTree, v2: ViewTree, p: Seq<usize>)
    requires
        subtree(v0, p) matches Some(ViewTree::Split(_, d)) ==> d <= 1,
        replaced_tree(v0, v1, p, transposed()),
        replaced_tree(v1, v2, p, transposed()),
    ensures
        tree_eq(v2, v0),
    decreases p.len(),
{
    if p.len() == 0 {
        assert(v2 == v0);
        lemma_tree_eq_refl(v0);
    } else {
        match (v0, v1, v2) {
            (ViewTree::Split(xs, dx), ViewTree::Split(ys, _), ViewTree::Split(zs, _)) => {
                let k = p[0] as int;
                transpose_twice(xs@[k], ys@[k], zs@[k], p.drop_first());
                assert forall|j: int| 0 <= j < zs@.len() implies #[trigger] tree_eq(zs@[j], xs@[j]) by {
                    if j != k {
                        assert(zs@[j] == xs@[j]);
                        lemma_tree_eq_refl(xs@[j]);
                    }
                }
                lemma_trees_eq_pointwise(zs@, xs@);
            },
            _ => {},
        }
    }
}


/// A name without a dot, not `root` nor `selection`, asks for the variable
/// of that name: so `lookup` gives back the value the last `declare` of it
/// set, and nothing when it was never declared.
pub proof fn lookup_names_a_variable(name: Seq<char>)
    requires
        name.len() > 0,
        !name.contains('.'),
        name != seq!['r', 'o', 'o', 't'],
        name != seq!['s', 'e', 'l', 'e', 'c', 't', 'i', 'o', 'n'],
    ensures
        lookup_req(name) == LookupReq::Variable(name),
{
    assert forall|j: int| 0 <= j < name.len() implies name[j] != '.' by {
        if name[j] == '.' {
            assert(name.contains('.'));
        }
    }
    lemma_split_dot(name, name.len() as int);
    assert(name.subrange(0, name.len() as int) =~= name);
}

} // verus!
