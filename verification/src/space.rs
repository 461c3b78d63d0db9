use vstd::prelude::*;
use crate::structs::{IndexPath, Target};
use crate::tree::{
    Node, Provider, all_children, has_child, loaded_anew, node_at, replaced, selection, sel_ok, shown,
    shown_child, tried, try_ok, valid,
};

verus! {

broadcast use {vstd::std_specs::vec::axiom_vec_index_decreases, vstd::std_specs::vec::axiom_vec_decreases_to_view};

/// Why a request on a space was refused.
pub enum SpaceNavError {
    BrokenTarget,
    CannotRemoveRoot,
}

/// A tree being navigated: its nodes, the provider giving them, the
/// provider's name, and the cursor (how many steps of the remembered path
/// are current, and that path).
pub struct Space<F, P> {
    pub tree: Node<F>,
    pub provider: P,
    pub provider_name: String,
    pub cursor: (usize, IndexPath),
}

/// Every shown position in the tree is a child, all the way down.
pub open spec fn tree_ok<F>(n: Node<F>) -> bool
    decreases n, 1int,
{
    sel_ok(n) && children_ok(n, all_children(n).len() as int)
}

/// The first `k` children of `n` are well formed (see `tree_ok`).
pub open spec fn children_ok<F>(n: Node<F>, k: int) -> bool
    decreases n, 0int, k,
{
    match n.children {
        Some(c) => k <= 0 || k > c.0@.len() || (children_ok(n, k - 1) && tree_ok(c.0@[k - 1])),
        None => true,
    }
}

/// The paths of the marked nodes below `n` (reached by `prefix`), depth
/// first, each node after the nodes below it.
pub open spec fn marked_in<F>(n: Node<F>, prefix: Seq<usize>) -> Seq<Seq<usize>>
    decreases n, 1int,
{
    marked_among(n, prefix, selection(n).len() as int) + if n.marked {
        seq![prefix]
    } else {
        Seq::empty()
    }
}

/// The paths of the marked nodes below the first `k` shown children of
/// `n`.
pub open spec fn marked_among<F>(n: Node<F>, prefix: Seq<usize>, k: int) -> Seq<Seq<usize>>
    decreases n, 0int, k,
{
    match n.children {
        Some(c) => if k <= 0 || k > c.1@.len() || c.1@[k - 1] >= c.0@.len() {
            Seq::empty()
        } else {
            marked_among(n, prefix, k - 1) + marked_in(c.0@[c.1@[k - 1] as int], prefix.push((k - 1) as usize))
        },
        None => Seq::empty(),
    }
}

/// The paths of the marked nodes below `n` as index paths.
fn collect_marked<F>(n: &Node<F>, prefix: &mut Vec<usize>, out: &mut Vec<IndexPath>)
    requires
        tree_ok(*n),
    ensures
        final(prefix)@ == old(prefix)@,
        final(out)@.len() == old(out)@.len() + marked_in(*n, old(prefix)@).len(),
        forall|i: int| 0 <= i < old(out)@.len() ==> (#[trigger] final(out)@[i]).0@ == old(out)@[i].0@,
        forall|i: int|
            0 <= i < marked_in(*n, old(prefix)@).len() ==> (#[trigger] final(out)@[old(out)@.len() + i]).0@
                == marked_in(*n, old(prefix)@)[i],
    decreases *n, 1int,
{
    let ghost pre = prefix@;
    let ghost base = out@;
    match &n.children {
        Some((nodes, sel)) => {
            let mut k: usize = 0;
            assert(forall|i: int| 0 <= i < sel@.len() ==> (#[trigger] sel@[i]) < nodes@.len());
            while k < sel.len()
                invariant
                    n.children == Some((*nodes, *sel)),
                    forall|i: int| 0 <= i < sel@.len() ==> (#[trigger] sel@[i]) < nodes@.len(),
                    tree_ok(*n),
                    0 <= k <= sel@.len(),
                    prefix@ == pre,
                    out@.len() == base.len() + marked_among(*n, pre, k as int).len(),
                    forall|i: int| 0 <= i < base.len() ==> (#[trigger] out@[i]).0@ == base[i].0@,
                    forall|i: int|
                        0 <= i < marked_among(*n, pre, k as int).len() ==> (#[trigger] out@[base.len() + i]).0@
                            == marked_among(*n, pre, k as int)[i],
                decreases sel@.len() - k,
            {
                let j = sel[k];
                assert(j < nodes@.len());
                proof {
                    lemma_child_ok(*n, j as int);
                }
                let ghost mid = out@;
                let ghost before = marked_among(*n, pre, k as int);
                prefix.push(k);
                collect_marked(&nodes[j], prefix, out);
                prefix.pop();
                proof {
                    assert(prefix@ =~= pre);
                    let sub = marked_in(nodes@[j as int], pre.push(k));
                    assert(marked_among(*n, pre, k + 1) == before + sub);
                    assert forall|i: int| 0 <= i < marked_among(*n, pre, k + 1).len() implies (#[trigger] out@[base.len() + i]).0@
                        == marked_among(*n, pre, k + 1)[i] by {
                        if i < before.len() {
                            assert(out@[base.len() + i] == out@[base.len() + i]);
                            assert(mid[base.len() + i].0@ == before[i]);
                        } else {
                            assert(out@[mid.len() + (i - before.len())].0@ == sub[i - before.len()]);
                        }
                    }
                }
                k += 1;
            }
        },
        None => {},
    }
    if n.marked {
        let mut copy: Vec<usize> = Vec::new();
        let mut i: usize = 0;
        while i < prefix.len()
            invariant
                0 <= i <= prefix@.len(),
                copy@ == prefix@.subrange(0, i as int),
            decreases prefix@.len() - i,
        {
            copy.push(prefix[i]);
            assert(prefix@.subrange(0, i + 1) =~= prefix@.subrange(0, i as int).push(prefix@[i as int]));
            i += 1;
        }
        assert(copy@ =~= prefix@);
        out.push(IndexPath(copy));
    }
}

/// A child of a well-formed node is well formed.
proof fn lemma_child_ok<F>(n: Node<F>, j: int)
    requires
        tree_ok(n),
        n.children is Some,
        0 <= j < all_children(n).len(),
    ensures
        tree_ok(all_children(n)[j]),
{
    lemma_children_ok(n, all_children(n).len() as int, j);
}

proof fn lemma_children_ok<F>(n: Node<F>, k: int, j: int)
    requires
        children_ok(n, k),
        n.children is Some,
        0 <= j < k <= all_children(n).len(),
    ensures
        tree_ok(all_children(n)[j]),
    decreases k,
{
    if j < k - 1 {
        lemma_children_ok(n, k - 1, j);
    }
}

/// The positions of an index path.
pub open spec fn ip_view(ip: IndexPath) -> Seq<usize> {
    ip.0@
}

/// The positions a target names: the cursor's current ones, or the path's.
pub open spec fn target_seq(cur: Seq<usize>, at: Target) -> Seq<usize> {
    match at {
        Target::Cursor => cur,
        Target::Path(p) => ip_view(p),
        Target::TrustedPath(p) => ip_view(p),
    }
}

/// Whether following a target stays on shown children (a path that cannot
/// be trusted only as long as the nodes on the way are loaded).
pub open spec fn target_ok<F>(tree: Node<F>, cur: Seq<usize>, at: Target) -> bool {
    match at {
        Target::Path(p) => try_ok(tree, ip_view(p)),
        _ => valid(tree, target_seq(cur, at)),
    }
}

/// The node a target names, if it can be reached.
pub open spec fn target_node<F>(tree: Node<F>, cur: Seq<usize>, at: Target) -> Option<Node<F>> {
    match at {
        Target::Path(p) => tried(tree, ip_view(p)),
        _ => Some(node_at(tree, target_seq(cur, at))),
    }
}

/// `t2` is `t` folded as asked when it is loaded or is being folded;
/// otherwise `t` loaded afresh and unfolded.
pub open spec fn folded_to<F>(t: Node<F>, t2: Node<F>, is: bool) -> bool {
    if is || t.children is Some {
        t2 == (Node { folded: is, ..t })
    } else {
        loaded_anew(t, t2, is)
    }
}

impl<F, P> Space<F, P> {
    /// The remembered cursor path.
    pub open spec fn path_of(&self) -> Seq<usize> {
        ip_view(self.cursor.1)
    }

    /// The current part of the cursor path.
    pub open spec fn cur(&self) -> Seq<usize> {
        self.path_of().subrange(0, self.cursor.0 as int)
    }

    /// The current steps are remembered.
    pub open spec fn tip_ok(&self) -> bool {
        self.cursor.0 <= self.path_of().len()
    }

    /// The current cursor path.
    pub fn cursor(&self) -> (r: &[usize])
        requires
            self.tip_ok(),
        ensures
            r@ == self.cur(),
    {
        let (tip, ip) = &self.cursor;
        ip.0.as_slice().split_at(*tip).0
    }

    /// Put the cursor at the first `tip` steps of `index_path`.
    pub fn cursor_to(&mut self, tip: usize, index_path: IndexPath)
        ensures
            final(self).cursor.0 == tip,
            final(self).path_of() == ip_view(index_path),
            final(self).tree == old(self).tree,
            final(self).provider == old(self).provider,
            final(self).provider_name == old(self).provider_name,
    {
        self.cursor = (tip, index_path);
    }

    /// The current cursor path without its last step.
    pub fn cursor_head(&self) -> (r: &[usize])
        requires
            1 <= self.cursor.0,
            self.tip_ok(),
        ensures
            r@ == self.path_of().subrange(0, self.cursor.0 - 1),
    {
        let (tip, ip) = &self.cursor;
        ip.0.as_slice().split_at(*tip - 1).0
    }

    /// The last current step, to be changed in place.
    pub fn cursor_tail_mut(&mut self) -> (r: &mut usize)
        requires
            1 <= old(self).cursor.0,
            old(self).tip_ok(),
        ensures
            *r == old(self).path_of()[old(self).cursor.0 - 1],
            final(self).path_of() == old(self).path_of().update(old(self).cursor.0 - 1, *final(r)),
            final(self).cursor.0 == old(self).cursor.0,
            final(self).tree == old(self).tree,
            final(self).provider == old(self).provider,
            final(self).provider_name == old(self).provider_name,
    {
        let (tip, ip) = &mut self.cursor;
        let k = *tip - 1;
        let v = &mut ip.0;
        &mut v[k]
    }

    /// Forget the remembered steps beyond the current ones.
    pub fn cursor_truncate(&mut self)
        requires
            old(self).tip_ok(),
        ensures
            final(self).path_of() == old(self).cur(),
            final(self).cursor.0 == old(self).cursor.0,
            final(self).tree == old(self).tree,
            final(self).provider == old(self).provider,
            final(self).provider_name == old(self).provider_name,
    {
        let (tip, ip) = &mut self.cursor;
        let t = *tip;
        ip.0.truncate(t);
    }

    /// Whether the cursor is on the root.
    pub fn is_cursor_root(&self) -> (b: bool)
        ensures
            b == (self.cursor.0 == 0),
    {
        0 == self.cursor.0
    }

    /// The provider's name.
    pub fn provider_name(&self) -> (r: &str)
        ensures
            r@ == self.provider_name@,
    {
        self.provider_name.as_str()
    }

    /// The tree, and the provider to be used on it.
    pub fn tree_and_mut_provider(&mut self) -> (r: (&Node<F>, &mut P))
        ensures
            *r.0 == old(self).tree,
            *r.1 == old(self).provider,
            final(self).tree == old(self).tree,
            final(self).provider == *final(r.1),
            final(self).cursor == old(self).cursor,
            final(self).provider_name == old(self).provider_name,
    {
        (&self.tree, &mut self.provider)
    }

    /// The paths of the marked nodes, depth first, each node after the
    /// nodes below it.
    pub fn iter_marked(&self) -> (r: Vec<IndexPath>)
        requires
            tree_ok(self.tree),
        ensures
            r@.len() == marked_in(self.tree, Seq::empty()).len(),
            forall|i: int| 0 <= i < r@.len() ==> (#[trigger] r@[i]).0@ == marked_in(self.tree, Seq::empty())[i],
    {
        let mut prefix: Vec<usize> = Vec::new();
        let mut out: Vec<IndexPath> = Vec::new();
        assert(prefix@ =~= Seq::<usize>::empty());
        collect_marked(&self.tree, &mut prefix, &mut out);
        assert forall|i: int| 0 <= i < out@.len() implies (#[trigger] out@[i]).0@ == marked_in(self.tree, Seq::empty())[i] by {
            assert(out@[0 + i] == out@[i]);
        }
        out
    }

    /// The path a target names: the cursor's, a path that leads to a node
    /// (none where a node on the way is not loaded), or a trusted path.
    pub fn target_to_path(&self, at: Target) -> (r: Option<IndexPath>)
        requires
            self.tip_ok(),
            target_ok(self.tree, self.cur(), at),
        ensures
            match target_node(self.tree, self.cur(), at) {
                Some(_) => r matches Some(p) && p.0@ == target_seq(self.cur(), at),
                None => r is None,
            },
    {
        match at {
            Target::Cursor => {
                let c = self.cursor();
                let mut v: Vec<usize> = Vec::new();
                let mut i: usize = 0;
                while i < c.len()
                    invariant
                        0 <= i <= c@.len(),
                        v@ == c@.subrange(0, i as int),
                    decreases c@.len() - i,
                {
                    v.push(c[i]);
                    assert(c@.subrange(0, i + 1) =~= c@.subrange(0, i as int).push(c@[i as int]));
                    i += 1;
                }
                assert(v@ =~= c@);
                Some(IndexPath(v))
            },
            Target::Path(p) => {
                if self.tree.try_resolve_node(p.0.as_slice()).is_some() {
                    Some(p)
                } else {
                    None
                }
            },
            Target::TrustedPath(p) => Some(p),
        }
    }

    /// The node a target names, if it can be reached.
    pub fn resolve_node(&self, at: &Target) -> (r: Option<&Node<F>>)
        requires
            self.tip_ok(),
            target_ok(self.tree, self.cur(), *at),
        ensures
            match target_node(self.tree, self.cur(), *at) {
                Some(x) => r matches Some(y) && *y == x,
                None => r is None,
            },
    {
        match at {
            Target::Cursor => Some(self.tree.resolve_node(self.cursor())),
            Target::Path(p) => self.tree.try_resolve_node(p.0.as_slice()),
            Target::TrustedPath(p) => Some(self.tree.resolve_node(p.0.as_slice())),
        }
    }

    /// Whether the node a target names is folded.
    pub fn get_folded(&self, at: Target) -> (r: Option<bool>)
        requires
            self.tip_ok(),
            target_ok(self.tree, self.cur(), at),
        ensures
            match target_node(self.tree, self.cur(), at) {
                Some(x) => r == Some(x.folded),
                None => r is None,
            },
    {
        match self.resolve_node(&at) {
            Some(n) => Some(n.is_folded()),
            None => None,
        }
    }

    /// Whether the node a target names is marked.
    pub fn get_marked(&self, at: Target) -> (r: Option<bool>)
        requires
            self.tip_ok(),
            target_ok(self.tree, self.cur(), at),
        ensures
            match target_node(self.tree, self.cur(), at) {
                Some(x) => r == Some(x.marked),
                None => r is None,
            },
    {
        match self.resolve_node(&at) {
            Some(n) => Some(n.is_marked()),
            None => None,
        }
    }

    /// Mark or unmark the node a target names, if it can be reached.
    pub fn set_marked(&mut self, at: Target, is: bool)
        requires
            old(self).tip_ok(),
            target_ok(old(self).tree, old(self).cur(), at),
        ensures
            final(self).cursor == old(self).cursor,
            final(self).provider == old(self).provider,
            final(self).provider_name == old(self).provider_name,
            match target_node(old(self).tree, old(self).cur(), at) {
                Some(t) => replaced(
                    old(self).tree,
                    final(self).tree,
                    target_seq(old(self).cur(), at),
                    (Node { marked: is, ..t }),
                ),
                None => final(self).tree == old(self).tree,
            },
    {
        let ghost cur = self.cur();
        let tip = self.cursor.0;
        let ip = &self.cursor.1;
        let path: &[usize] = match &at {
            Target::Cursor => ip.0.as_slice().split_at(tip).0,
            Target::Path(p) => p.0.as_slice(),
            Target::TrustedPath(p) => p.0.as_slice(),
        };
        assert(path@ == target_seq(cur, at));
        proof {
            if at is Path {
                crate::tree::lemma_tried_valid(self.tree, path@);
            }
        }
        let is_path = match &at {
            Target::Path(_) => true,
            _ => false,
        };
        if is_path {
            if self.tree.try_resolve_node(path).is_none() {
                return;
            }
        }
        let n = self.tree.resolve_node_mut(path);
        n.set_marked(is);
    }
}

impl<F, P: Provider<F>> Space<F, P> {
    /// A space on the provider's tree, its root not loaded, the cursor on
    /// it.
    pub fn new(provider: P, provider_name: String) -> (r: Self)
        ensures
            r.tree.children is None,
            r.tree.folded,
            !r.tree.marked,
            r.provider == provider,
            r.provider_name == provider_name,
            r.cursor.0 == 0,
            r.path_of().len() == 0,
    {
        let root = provider.provide_root();
        Space { tree: Node::new(root), provider, provider_name, cursor: (0, IndexPath(Vec::new())) }
    }

    /// Fold or unfold the node a target names; unfolding a node whose
    /// children were not loaded loads them. Gives how many children are
    /// shown, none where the target cannot be reached.
    pub fn set_folded(&mut self, at: Target, is: bool) -> (r: Option<usize>)
        requires
            old(self).tip_ok(),
            target_ok(old(self).tree, old(self).cur(), at),
        ensures
            final(self).cursor == old(self).cursor,
            final(self).provider_name == old(self).provider_name,
            match target_node(old(self).tree, old(self).cur(), at) {
                Some(t) => {
                    let p = target_seq(old(self).cur(), at);
                    &&& valid(final(self).tree, p)
                    &&& replaced(old(self).tree, final(self).tree, p, node_at(final(self).tree, p))
                    &&& folded_to(t, node_at(final(self).tree, p), is)
                    &&& r is Some
                    &&& r->0 == shown(node_at(final(self).tree, p)).len()
                },
                None => r is None && final(self).tree == old(self).tree,
            },
    {
        let ghost cur = self.cur();
        let tip = self.cursor.0;
        let ip = &self.cursor.1;
        let path: &[usize] = match &at {
            Target::Cursor => ip.0.as_slice().split_at(tip).0,
            Target::Path(p) => p.0.as_slice(),
            Target::TrustedPath(p) => p.0.as_slice(),
        };
        assert(path@ == target_seq(cur, at));
        proof {
            if at is Path {
                crate::tree::lemma_tried_valid(self.tree, path@);
            }
        }
        let is_path = match &at {
            Target::Path(_) => true,
            _ => false,
        };
        if is_path {
            if self.tree.try_resolve_node(path).is_none() {
                return None;
            }
        }
        let ghost t = node_at(self.tree, path@);
        if is || self.tree.resolve_node(path).is_loaded() {
            let n = self.tree.resolve_node_mut(path);
            n.set_folded(is);
            let c = n.child_count();
            let ghost t2 = *n;
            proof {
                crate::tree::lemma_replaced_at(old(self).tree, self.tree, path@, t2);
            }
            return Some(c);
        }
        let c = self.tree.load(&mut self.provider, path, true, is);
        Some(c)
    }

    /// Go down into the node under the cursor, unfolding (and loading) it:
    /// to the remembered child, or the first.
    pub fn cursor_enter(&mut self)
        requires
            old(self).tip_ok(),
            valid(old(self).tree, old(self).cur()),
            old(self).cursor.0 < usize::MAX,
        ensures
            final(self).tip_ok(),
            final(self).provider_name == old(self).provider_name,
            valid(final(self).tree, old(self).cur()),
            replaced(old(self).tree, final(self).tree, old(self).cur(), node_at(final(self).tree, old(self).cur())),
            folded_to(node_at(old(self).tree, old(self).cur()), node_at(final(self).tree, old(self).cur()), false),
            ({
                let cc = shown(node_at(final(self).tree, old(self).cur())).len();
                let tip = old(self).cursor.0 as int;
                let p1 = if cc <= old(self).path_of().len() {
                    old(self).cur()
                } else {
                    old(self).path_of()
                };
                let p2 = if p1.len() == tip {
                    p1.push(0)
                } else {
                    p1
                };
                if cc == 0 {
                    final(self).cursor == old(self).cursor
                } else {
                    final(self).path_of() == p2 && final(self).cursor.0 == tip + 1
                }
            }),
    {
        let cc = match self.set_folded(Target::Cursor, false) {
            Some(cc) => cc,
            None => {
                return;
            },
        };
        if cc == 0 {
            return;
        }
        let remembered = self.cursor.1.0.len();
        if cc <= remembered {
            self.cursor_truncate();
        }
        let (tip, ip) = &mut self.cursor;
        if ip.0.len() == *tip {
            ip.0.push(0);
        }
        *tip = *tip + 1;
    }

    /// Go up to the parent, if not on the root.
    pub fn cursor_leave(&mut self)
        ensures
            final(self).cursor.0 == if old(self).cursor.0 == 0 {
                0
            } else {
                old(self).cursor.0 - 1
            },
            final(self).path_of() == old(self).path_of(),
            final(self).tree == old(self).tree,
            final(self).provider == old(self).provider,
            final(self).provider_name == old(self).provider_name,
    {
        self.cursor.0 = if self.cursor.0 == 0 {
            0
        } else {
            self.cursor.0 - 1
        };
    }

    /// Go to the next sibling (wrapping around to the first, with
    /// `wrapping`); the remembered steps below are forgotten.
    pub fn cursor_next(&mut self, wrapping: bool)
        requires
            old(self).tip_ok(),
            old(self).cursor.0 > 0 ==> valid(old(self).tree, old(self).path_of().subrange(0, old(self).cursor.0 - 1)),
            old(self).cursor.0 > 0 && wrapping ==> old(self).path_of()[old(self).cursor.0 - 1] < usize::MAX,
        ensures
            final(self).tree == old(self).tree,
            final(self).provider == old(self).provider,
            final(self).provider_name == old(self).provider_name,
            final(self).cursor.0 == old(self).cursor.0,
            ({
                let tip = old(self).cursor.0 as int;
                let m = if tip > 0 {
                    shown(node_at(old(self).tree, old(self).path_of().subrange(0, tip - 1))).len() as int
                } else {
                    0
                };
                if tip == 0 || m == 0 {
                    final(self).cursor == old(self).cursor
                } else {
                    let k = old(self).path_of()[tip - 1] as int;
                    let nk = if !wrapping {
                        if k < m - 1 {
                            k + 1
                        } else {
                            k
                        }
                    } else if k == m - 1 {
                        0
                    } else {
                        k + 1
                    };
                    final(self).path_of() == old(self).cur().update(tip - 1, nk as usize)
                }
            }),
    {
        if self.cursor.0 == 0 {
            return;
        }
        let m = self.tree.resolve_node(self.cursor_head()).child_count();
        if m == 0 {
            return;
        }
        let k = self.cursor_tail_mut();
        if !wrapping {
            if *k < m - 1 {
                *k = *k + 1;
            }
        } else if *k == m - 1 {
            *k = 0;
        } else {
            *k = *k + 1;
        }
        self.cursor_truncate();
    }

    /// Go to the previous sibling (wrapping around to the last, with
    /// `wrapping`); the remembered steps below are forgotten.
    pub fn cursor_prev(&mut self, wrapping: bool)
        requires
            old(self).tip_ok(),
            old(self).cursor.0 > 0 ==> valid(old(self).tree, old(self).path_of().subrange(0, old(self).cursor.0 - 1)),
        ensures
            final(self).tree == old(self).tree,
            final(self).provider == old(self).provider,
            final(self).provider_name == old(self).provider_name,
            final(self).cursor.0 == old(self).cursor.0,
            ({
                let tip = old(self).cursor.0 as int;
                let m = if tip > 0 {
                    shown(node_at(old(self).tree, old(self).path_of().subrange(0, tip - 1))).len() as int
                } else {
                    0
                };
                if tip == 0 || m == 0 {
                    final(self).cursor == old(self).cursor
                } else {
                    let k = old(self).path_of()[tip - 1] as int;
                    let nk = if !wrapping {
                        if 0 < k {
                            k - 1
                        } else {
                            k
                        }
                    } else if k == 0 {
                        m - 1
                    } else {
                        k - 1
                    };
                    final(self).path_of() == old(self).cur().update(tip - 1, nk as usize)
                }
            }),
    {
        if self.cursor.0 == 0 {
            return;
        }
        let m = self.tree.resolve_node(self.cursor_head()).child_count();
        if m == 0 {
            return;
        }
        let k = self.cursor_tail_mut();
        if !wrapping {
            if 0 < *k {
                *k = *k - 1;
            }
        } else if *k == 0 {
            *k = m - 1;
        } else {
            *k = *k - 1;
        }
        self.cursor_truncate();
    }
}

} // verus!
