use vstd::prelude::*;
use crate::fisovec::Order;

verus! {

broadcast use {vstd::std_specs::vec::axiom_vec_index_decreases, vstd::std_specs::vec::axiom_vec_decreases_to_view};

/// A node of the tree a provider gives: its fragment (what the provider
/// knows of it), its children once loaded (all of them, and the positions
/// of those shown, in display order), whether it is folded, and whether it
/// is marked.
pub struct Node<F> {
    pub fragment: F,
    pub children: Option<(Vec<Node<F>>, Vec<usize>)>,
    pub folded: bool,
    pub marked: bool,
}

/// A path of nodes from the root: the nodes above, and the last one.
pub struct NodePath<'a, F> {
    pub head: &'a [&'a Node<F>],
    pub tail: &'a Node<F>,
}

/// The fragments along a node path, from the root to its last node.
pub open spec fn frags_of<F>(path: NodePath<F>) -> Seq<F> {
    path.head@.map_values(|n: &Node<F>| n.fragment).push(path.tail.fragment)
}

/// What gives a tree its nodes: the fragments below a path, which of them
/// are shown, in which order, and how. Paths are given to it by their
/// fragments, from the root down.
pub trait Provider<F> {
    /// `out` is a list of fragments `provide` may give below `path`.
    spec fn gives(&self, path: Seq<F>, out: Seq<F>) -> bool;

    /// Whether the node at `path` is shown.
    spec fn keeps(&self, path: Seq<F>) -> bool;

    /// How the nodes at `left` and `right` are ordered.
    spec fn orders(&self, left: Seq<F>, right: Seq<F>) -> Order;

    /// The text showing the node at `path`.
    spec fn shows(&self, path: Seq<F>) -> Seq<char>;

    /// The fragment of the root.
    fn provide_root(&self) -> F;

    /// The fragments of the children of the node at `path`.
    fn provide(&mut self, path: &NodePath<F>) -> (r: Vec<F>)
        ensures
            old(self).gives(frags_of(*path), r@);

    /// How the nodes at `left` and `right` are ordered.
    fn order(&self, left: &NodePath<F>, right: &NodePath<F>) -> (r: Order)
        ensures
            r == self.orders(frags_of(*left), frags_of(*right));

    /// Whether the node at `path` is shown.
    fn keep(&self, path: &NodePath<F>) -> (b: bool)
        ensures
            b == self.keeps(frags_of(*path));

    /// How the node at `path` is shown on its line (it may hold terminal
    /// styling).
    fn display(&self, path: &NodePath<F>) -> (r: String)
        ensures
            r@ == self.shows(frags_of(*path));
}

/// Position `nth` among the shown children of `n` is a child.
pub open spec fn has_child<F>(n: Node<F>, nth: int) -> bool {
    match n.children {
        Some(c) => 0 <= nth < c.1@.len() && c.1@[nth] < c.0@.len(),
        None => false,
    }
}

/// The child shown at position `nth` of `n`.
pub open spec fn shown_child<F>(n: Node<F>, nth: int) -> Node<F> {
    let c = n.children->0;
    c.0@[c.1@[nth] as int]
}

/// Whether the positions `p` lead from `n` down through shown children.
pub open spec fn valid<F>(n: Node<F>, p: Seq<usize>) -> bool
    decreases p.len(),
{
    p.len() == 0 || (has_child(n, p[0] as int) && valid(shown_child(n, p[0] as int), p.drop_first()))
}

/// The node the positions `p` lead to from `n`.
pub open spec fn node_at<F>(n: Node<F>, p: Seq<usize>) -> Node<F>
    decreases p.len(),
{
    if p.len() == 0 {
        n
    } else {
        node_at(shown_child(n, p[0] as int), p.drop_first())
    }
}

/// Whether following `p` from `n` stays on shown children as long as the
/// nodes on the way are loaded.
pub open spec fn try_ok<F>(n: Node<F>, p: Seq<usize>) -> bool
    decreases p.len(),
{
    p.len() == 0 || n.children is None || (has_child(n, p[0] as int) && try_ok(
        shown_child(n, p[0] as int),
        p.drop_first(),
    ))
}

/// The node `p` leads to from `n`, or none when a node on the way is not
/// loaded.
pub open spec fn tried<F>(n: Node<F>, p: Seq<usize>) -> Option<Node<F>>
    decreases p.len(),
{
    if p.len() == 0 {
        Some(n)
    } else if n.children is None {
        None
    } else {
        tried(shown_child(n, p[0] as int), p.drop_first())
    }
}

/// `new` is `old` with the node at `p` replaced by `sub`, all else equal.
pub open spec fn replaced<F>(old: Node<F>, new: Node<F>, p: Seq<usize>, sub: Node<F>) -> bool
    decreases p.len(),
{
    if p.len() == 0 {
        new == sub
    } else {
        &&& old.children is Some
        &&& new.children is Some
        &&& new.fragment == old.fragment
        &&& new.folded == old.folded
        &&& new.marked == old.marked
        &&& {
            let oc = old.children->0;
            let nc = new.children->0;
            let k = oc.1@[p[0] as int] as int;
            &&& nc.1 == oc.1
            &&& nc.0@.len() == oc.0@.len()
            &&& forall|j: int| 0 <= j < oc.0@.len() && j != k ==> nc.0@[j] == oc.0@[j]
            &&& replaced(oc.0@[k], nc.0@[k], p.drop_first(), sub)
        }
    }
}

/// The children shown, in display order.
pub open spec fn shown<F>(n: Node<F>) -> Seq<Node<F>> {
    match n.children {
        Some(c) => c.1@.map_values(|k: usize| c.0@[k as int]),
        None => Seq::empty(),
    }
}

/// Every shown position of `n` is a child.
pub open spec fn sel_ok<F>(n: Node<F>) -> bool {
    n.children matches Some(c) ==> forall|i: int| 0 <= i < c.1@.len() ==> (#[trigger] c.1@[i]) < c.0@.len()
}

impl<F> Node<F> {
    /// A node of `fragment`: not loaded, folded, not marked.
    pub fn new(fragment: F) -> (r: Self)
        ensures
            r.fragment == fragment,
            r.children is None,
            r.folded,
            !r.marked,
    {
        Node { fragment, children: None, folded: true, marked: false }
    }

    /// What the provider knows of this node.
    pub fn fragment(&self) -> (r: &F)
        ensures
            *r == self.fragment,
    {
        &self.fragment
    }

    /// Whether the children were loaded.
    pub fn is_loaded(&self) -> (b: bool)
        ensures
            b == self.children is Some,
    {
        self.children.is_some()
    }

    /// Whether it is folded.
    pub fn is_folded(&self) -> (b: bool)
        ensures
            b == self.folded,
    {
        self.folded
    }

    /// Whether it is marked.
    pub fn is_marked(&self) -> (b: bool)
        ensures
            b == self.marked,
    {
        self.marked
    }

    /// Fold or unfold it.
    pub fn set_folded(&mut self, is: bool)
        ensures
            *final(self) == (Node { folded: is, ..*old(self) }),
    {
        self.folded = is;
    }

    /// Mark or unmark it.
    pub fn set_marked(&mut self, is: bool)
        ensures
            *final(self) == (Node { marked: is, ..*old(self) }),
    {
        self.marked = is;
    }

    /// The children shown, in display order; none before they are loaded.
    pub fn children(&self) -> (r: Option<Vec<&Node<F>>>)
        requires
            sel_ok(*self),
        ensures
            self.children is None ==> r is None,
            self.children is Some ==> (r matches Some(v) && v@.len() == shown(*self).len() && forall|i: int|
                0 <= i < v@.len() ==> *(#[trigger] v@[i]) == shown(*self)[i]),
    {
        match &self.children {
            None => None,
            Some((nodes, sel)) => {
                let mut v: Vec<&Node<F>> = Vec::new();
                let mut i: usize = 0;
                assert(forall|j: int| 0 <= j < sel@.len() ==> (#[trigger] sel@[j]) < nodes@.len());
                while i < sel.len()
                    invariant
                        self.children == Some((*nodes, *sel)),
                        forall|j: int| 0 <= j < sel@.len() ==> (#[trigger] sel@[j]) < nodes@.len(),
                        0 <= i <= sel@.len(),
                        v@.len() == i,
                        forall|j: int| 0 <= j < i ==> *(#[trigger] v@[j]) == nodes@[sel@[j] as int],
                    decreases sel@.len() - i,
                {
                    v.push(&nodes[sel[i]]);
                    i += 1;
                }
                Some(v)
            },
        }
    }

    /// How many children are shown (none before they are loaded).
    pub fn child_count(&self) -> (n: usize)
        ensures
            n == shown(*self).len(),
    {
        match &self.children {
            Some((_, sel)) => sel.len(),
            None => 0,
        }
    }

    /// The child shown at position `nth`, once loaded.
    pub fn child(&self, nth: usize) -> (r: Option<&Node<F>>)
        requires
            self.children is Some ==> has_child(*self, nth as int),
        ensures
            self.children is None ==> r is None,
            self.children is Some ==> (r matches Some(c) && *c == shown_child(*self, nth as int)),
    {
        match &self.children {
            Some((nodes, sel)) => Some(&nodes[sel[nth]]),
            None => None,
        }
    }

    /// The child shown at position `nth`, once loaded, to be changed in
    /// place.
    pub fn child_mut(&mut self, nth: usize) -> (r: Option<&mut Node<F>>)
        requires
            old(self).children is Some ==> has_child(*old(self), nth as int),
        ensures
            old(self).children is None ==> r is None && *final(self) == *old(self),
            old(self).children is Some ==> {
                &&& r is Some
                &&& *r->0 == shown_child(*old(self), nth as int)
                &&& final(self).children is Some
                &&& final(self).fragment == old(self).fragment
                &&& final(self).folded == old(self).folded
                &&& final(self).marked == old(self).marked
                &&& final(self).children.unwrap().1 == old(self).children.unwrap().1
                &&& final(self).children.unwrap().0@ == old(self).children.unwrap().0@.update(
                    old(self).children.unwrap().1@[nth as int] as int,
                    *final(r->0),
                )
            },
    {
        assert(seq![nth].drop_first() =~= Seq::<usize>::empty());
        match &mut self.children {
            Some((nodes, sel)) => {
                let k = sel[nth];
                Some(&mut nodes[k])
            },
            None => None,
        }
    }
}

/// Following a path goes step by step: a valid path's prefix leads to a
/// node from which the rest is valid, and one more step is its shown
/// child.
proof fn lemma_valid_prefix<F>(n: Node<F>, p: Seq<usize>, i: int)
    requires
        valid(n, p),
        0 <= i <= p.len(),
    ensures
        valid(n, p.subrange(0, i)),
        valid(node_at(n, p.subrange(0, i)), p.subrange(i, p.len() as int)),
        node_at(n, p) == node_at(node_at(n, p.subrange(0, i)), p.subrange(i, p.len() as int)),
        i < p.len() ==> has_child(node_at(n, p.subrange(0, i)), p[i] as int) && node_at(n, p.subrange(0, i + 1))
            == shown_child(node_at(n, p.subrange(0, i)), p[i] as int),
    decreases p.len(),
{
    if i == 0 {
        assert(p.subrange(0, 0) =~= Seq::<usize>::empty());
        assert(p.subrange(0, p.len() as int) =~= p);
        if p.len() > 0 {
            let c = shown_child(n, p[0] as int);
            assert(p.subrange(0, 1).drop_first() =~= Seq::<usize>::empty());
            assert(p.subrange(0, 1)[0] == p[0]);
            assert(node_at(c, Seq::<usize>::empty()) == c);
            assert(node_at(n, p.subrange(0, 1)) == node_at(c, p.subrange(0, 1).drop_first()));
        }
    } else {
        let c = shown_child(n, p[0] as int);
        lemma_valid_prefix(c, p.drop_first(), i - 1);
        assert(p.subrange(0, i).drop_first() =~= p.drop_first().subrange(0, i - 1));
        assert(p.subrange(0, i)[0] == p[0]);
        assert(node_at(n, p.subrange(0, i)) == node_at(c, p.drop_first().subrange(0, i - 1)));
        assert(p.drop_first().subrange(i - 1, p.len() - 1) =~= p.subrange(i, p.len() as int));
        if i < p.len() {
            assert(p.subrange(0, i + 1).drop_first() =~= p.drop_first().subrange(0, i));
            assert(p.subrange(0, i + 1)[0] == p[0]);
            assert(p.drop_first()[i - 1] == p[i]);
            assert(node_at(n, p.subrange(0, i + 1)) == node_at(c, p.drop_first().subrange(0, i)));
        }
    }
}

/// Following a path while loaded goes step by step too.
proof fn lemma_tried_step<F>(n: Node<F>, p: Seq<usize>, i: int)
    requires
        try_ok(n, p),
        0 <= i < p.len(),
        tried(n, p.subrange(0, i)) is Some,
    ensures
        try_ok(tried(n, p.subrange(0, i))->0, p.subrange(i, p.len() as int)),
        tried(n, p) == tried(tried(n, p.subrange(0, i))->0, p.subrange(i, p.len() as int)),
        tried(n, p.subrange(0, i))->0.children is Some ==> has_child(tried(n, p.subrange(0, i))->0, p[i] as int)
            && tried(n, p.subrange(0, i + 1)) == Some(shown_child(tried(n, p.subrange(0, i))->0, p[i] as int)),
        tried(n, p.subrange(0, i))->0.children is None ==> tried(n, p) is None,
    decreases p.len(),
{
    if i == 0 {
        assert(p.subrange(0, 0) =~= Seq::<usize>::empty());
        assert(p.subrange(0, p.len() as int) =~= p);
        assert(p.subrange(0, 1).drop_first() =~= Seq::<usize>::empty());
        assert(p.subrange(0, 1)[0] == p[0]);
        if n.children is Some {
            let c = shown_child(n, p[0] as int);
            assert(tried(c, Seq::<usize>::empty()) == Some(c));
            assert(tried(n, p.subrange(0, 1)) == tried(c, p.subrange(0, 1).drop_first()));
        }
    } else {
        if n.children is Some {
            let c = shown_child(n, p[0] as int);
            assert(p.subrange(0, i).drop_first() =~= p.drop_first().subrange(0, i - 1));
            assert(p.subrange(0, i)[0] == p[0]);
            assert(tried(n, p.subrange(0, i)) == tried(c, p.drop_first().subrange(0, i - 1)));
            lemma_tried_step(c, p.drop_first(), i - 1);
            assert(p.drop_first().subrange(i - 1, p.len() - 1) =~= p.subrange(i, p.len() as int));
            assert(p.subrange(0, i + 1).drop_first() =~= p.drop_first().subrange(0, i));
            assert(p.subrange(0, i + 1)[0] == p[0]);
            assert(p.drop_first()[i - 1] == p[i]);
            assert(tried(n, p.subrange(0, i + 1)) == tried(c, p.drop_first().subrange(0, i)));
        }
    }
}

/// A path followed while loaded all the way is a path.
pub proof fn lemma_tried_valid<F>(n: Node<F>, p: Seq<usize>)
    requires
        try_ok(n, p),
    ensures
        tried(n, p) is Some ==> valid(n, p) && node_at(n, p) == tried(n, p)->0,
    decreases p.len(),
{
    if p.len() > 0 && n.children is Some {
        lemma_tried_valid(shown_child(n, p[0] as int), p.drop_first());
    }
}

/// Replacing the node at `p` keeps `p` a path, to the new node.
pub proof fn lemma_replaced_at<F>(old: Node<F>, new: Node<F>, p: Seq<usize>, sub: Node<F>)
    requires
        valid(old, p),
        replaced(old, new, p, sub),
    ensures
        valid(new, p),
        node_at(new, p) == sub,
    decreases p.len(),
{
    if p.len() > 0 {
        let oc = old.children->0;
        let nc = new.children->0;
        let k = oc.1@[p[0] as int] as int;
        lemma_replaced_at(oc.0@[k], nc.0@[k], p.drop_first(), sub);
    }
}

impl<'a, F> NodePath<'a, F> {
    /// The nodes of the path, from the root to its last.
    pub fn iter_all(&self) -> (r: Vec<&'a Node<F>>)
        ensures
            r@ == self.head@.push(self.tail),
    {
        let mut r: Vec<&'a Node<F>> = Vec::new();
        let mut i: usize = 0;
        while i < self.head.len()
            invariant
                0 <= i <= self.head@.len(),
                r@ == self.head@.subrange(0, i as int),
            decreases self.head@.len() - i,
        {
            r.push(self.head[i]);
            assert(self.head@.subrange(0, i + 1) =~= self.head@.subrange(0, i as int).push(self.head@[i as int]));
            i += 1;
        }
        assert(self.head@.subrange(0, i as int) =~= self.head@);
        r.push(self.tail);
        r
    }
}

impl<F> Node<F> {
    /// The node at `path`, to be changed in place.
    fn at_mut(&mut self, path: &[usize]) -> (r: &mut Node<F>)
        requires
            valid(*old(self), path@),
        ensures
            *r == node_at(*old(self), path@),
            replaced(*old(self), *final(self), path@, *final(r)),
        decreases path@.len(),
    {
        if path.len() == 0 {
            self
        } else {
            let k = path[0];
            let rest = path.split_at(1).1;
            assert(rest@ =~= path@.drop_first());
            match &mut self.children {
                Some((nodes, sel)) => {
                    let j = sel[k];
                    nodes[j].at_mut(rest)
                },
                None => vstd::pervasive::unreached(),
            }
        }
    }

    /// The nodes from here down `index_path`: one more than its steps.
    pub fn resolve(&self, index_path: &[usize]) -> (r: Vec<&Node<F>>)
        requires
            valid(*self, index_path@),
        ensures
            r@.len() == index_path@.len() + 1,
            forall|i: int| 0 <= i < r@.len() ==> *(#[trigger] r@[i]) == node_at(*self, index_path@.subrange(0, i)),
    {
        let ghost p = index_path@;
        let mut acc: Vec<&Node<F>> = Vec::new();
        acc.push(self);
        let mut cur: &Node<F> = self;
        let mut i: usize = 0;
        assert(p.subrange(0, 0) =~= Seq::<usize>::empty());
        while i < index_path.len()
            invariant
                p == index_path@,
                valid(*self, p),
                0 <= i <= p.len(),
                *cur == node_at(*self, p.subrange(0, i as int)),
                acc@.len() == i + 1,
                forall|j: int| 0 <= j < acc@.len() ==> *(#[trigger] acc@[j]) == node_at(*self, p.subrange(0, j)),
            decreases p.len() - i,
        {
            proof {
                lemma_valid_prefix(*self, p, i as int);
            }
            let next = match cur.child(index_path[i]) {
                Some(c) => c,
                None => vstd::pervasive::unreached(),
            };
            acc.push(next);
            cur = next;
            i += 1;
        }
        acc
    }

    /// The node at `path`.
    pub fn resolve_node(&self, path: &[usize]) -> (r: &Node<F>)
        requires
            valid(*self, path@),
        ensures
            *r == node_at(*self, path@),
    {
        let ghost p = path@;
        let mut cur: &Node<F> = self;
        let mut i: usize = 0;
        assert(p.subrange(0, 0) =~= Seq::<usize>::empty());
        while i < path.len()
            invariant
                p == path@,
                valid(*self, p),
                0 <= i <= p.len(),
                *cur == node_at(*self, p.subrange(0, i as int)),
            decreases p.len() - i,
        {
            proof {
                lemma_valid_prefix(*self, p, i as int);
            }
            cur = match cur.child(path[i]) {
                Some(c) => c,
                None => vstd::pervasive::unreached(),
            };
            i += 1;
        }
        assert(p.subrange(0, p.len() as int) =~= p);
        cur
    }

    /// The node at `path`, to be changed in place.
    pub fn resolve_node_mut(&mut self, path: &[usize]) -> (r: &mut Node<F>)
        requires
            valid(*old(self), path@),
        ensures
            *r == node_at(*old(self), path@),
            replaced(*old(self), *final(self), path@, *final(r)),
    {
        self.at_mut(path)
    }

    /// The node at `path`, or none where a node on the way is not loaded
    /// (for a path that cannot be trusted).
    pub fn try_resolve_node(&self, path: &[usize]) -> (r: Option<&Node<F>>)
        requires
            try_ok(*self, path@),
        ensures
            match tried(*self, path@) {
                Some(x) => r matches Some(y) && *y == x,
                None => r is None,
            },
    {
        let ghost p = path@;
        let mut cur: &Node<F> = self;
        let mut i: usize = 0;
        assert(p.subrange(0, 0) =~= Seq::<usize>::empty());
        while i < path.len()
            invariant
                p == path@,
                try_ok(*self, p),
                0 <= i <= p.len(),
                tried(*self, p.subrange(0, i as int)) == Some(*cur),
            decreases p.len() - i,
        {
            proof {
                lemma_tried_step(*self, p, i as int);
            }
            match cur.child(path[i]) {
                Some(c) => {
                    cur = c;
                },
                None => {
                    return None;
                },
            }
            i += 1;
        }
        assert(p.subrange(0, p.len() as int) =~= p);
        Some(cur)
    }

    /// The node at `path`, or none where a node on the way is not loaded,
    /// to be changed in place.
    pub fn try_resolve_node_mut(&mut self, path: &[usize]) -> (r: Option<&mut Node<F>>)
        requires
            try_ok(*old(self), path@),
        ensures
            tried(*old(self), path@) is None ==> r is None && *final(self) == *old(self),
            tried(*old(self), path@) is Some ==> r is Some && *r->0 == tried(*old(self), path@)->0 && replaced(
                *old(self),
                *final(self),
                path@,
                *final(r->0),
            ),
    {
        proof {
            lemma_tried_valid(*self, path@);
        }
        if self.try_resolve_node(path).is_none() {
            return None;
        }
        Some(self.at_mut(path))
    }
}

/// The children of `t` (all of them), none before they are loaded.
pub open spec fn all_children<F>(t: Node<F>) -> Seq<Node<F>> {
    match t.children {
        Some(c) => c.0@,
        None => Seq::empty(),
    }
}

/// The positions of the children of `t` shown, none before they are
/// loaded.
pub open spec fn selection<F>(t: Node<F>) -> Seq<usize> {
    match t.children {
        Some(c) => c.1@,
        None => Seq::empty(),
    }
}

/// `t2` is `t` with `child` added last among its children (`t` loaded if it
/// was not), shown at position `at` among those shown, or not shown.
pub open spec fn child_added<F>(t: Node<F>, t2: Node<F>, child: Node<F>, at: Option<int>) -> bool {
    &&& t2.fragment == t.fragment
    &&& t2.folded == t.folded
    &&& t2.marked == t.marked
    &&& t2.children is Some
    &&& all_children(t2) == all_children(t).push(child)
    &&& match at {
        Some(pos) => 0 <= pos <= selection(t).len() && selection(t2) == selection(t).insert(
            pos,
            all_children(t).len() as usize,
        ),
        None => selection(t2) == selection(t),
    }
}

/// `t2` is `t` with the child shown at `child` removed: the last child takes
/// its place among all, and the position of that last one is renumbered.
pub open spec fn child_removed<F>(t: Node<F>, t2: Node<F>, child: int) -> bool {
    let nodes = all_children(t);
    let sel = selection(t);
    let pk = sel[child];
    &&& t2.fragment == t.fragment
    &&& t2.folded == t.folded
    &&& t2.marked == t.marked
    &&& t2.children is Some
    &&& all_children(t2) == nodes.update(pk as int, nodes.last()).drop_last()
    &&& selection(t2) == crate::input::replace_first(sel.remove(child), (nodes.len() - 1) as usize, pk)
}

/// Freshly provided children: not loaded, folded, not marked.
pub open spec fn fresh<F>(nodes: Seq<Node<F>>) -> bool {
    forall|i: int| 0 <= i < nodes.len() ==> (#[trigger] nodes[i]).children is None && nodes[i].folded
        && !nodes[i].marked
}

/// Positions of distinct children among `n`.
pub open spec fn distinct_below(sel: Seq<usize>, n: int) -> bool {
    &&& forall|i: int| 0 <= i < sel.len() ==> (#[trigger] sel[i]) < n
    &&& forall|i: int, j: int| 0 <= i < j < sel.len() ==> sel[i] != sel[j]
}

/// `t2` is `t` loaded afresh: its children are new nodes (not loaded,
/// folded, not marked), those shown are distinct children, its fragment and
/// mark are kept, and it is folded as asked.
pub open spec fn loaded_anew<F>(t: Node<F>, t2: Node<F>, folded: bool) -> bool {
    &&& t2.fragment == t.fragment
    &&& t2.marked == t.marked
    &&& t2.folded == folded
    &&& t2.children is Some
    &&& fresh(all_children(t2))
    &&& distinct_below(selection(t2), all_children(t2).len() as int)
}

/// The fragments from the root `root` down to the node at `p`.
pub open spec fn frags_along<F>(root: Node<F>, p: Seq<usize>) -> Seq<F> {
    Seq::new((p.len() + 1) as nat, |i: int| node_at(root, p.subrange(0, i)).fragment)
}

/// The fragments of `nodes`.
pub open spec fn frags<F>(nodes: Seq<Node<F>>) -> Seq<F> {
    nodes.map_values(|n: Node<F>| n.fragment)
}

/// Where the child `x` goes among the shown children `sel` (positions into
/// the children's fragments `fs`) below the node with fragments `pf`: before
/// the first, from `q` on, that `prov` orders after it, or last.
pub open spec fn place_of<F, P: Provider<F>>(prov: P, pf: Seq<F>, fs: Seq<F>, sel: Seq<usize>, x: F, q: int) -> int
    decreases sel.len() - q,
{
    if q < 0 || q >= sel.len() {
        sel.len() as int
    } else if prov.orders(pf.push(x), pf.push(fs[sel[q] as int])) == Order::Less {
        q
    } else {
        place_of(prov, pf, fs, sel, x, q + 1)
    }
}

/// The children shown among the first `k` of the fragments `fs` below the
/// node with fragments `pf`, in display order: those `prov` keeps, each put
/// in turn where `place_of` says.
pub open spec fn shown_sorted<F, P: Provider<F>>(prov: P, pf: Seq<F>, fs: Seq<F>, k: int) -> Seq<usize>
    decreases k,
{
    if k <= 0 {
        Seq::empty()
    } else {
        let s = shown_sorted(prov, pf, fs, k - 1);
        if prov.keeps(pf.push(fs[k - 1])) {
            s.insert(place_of(prov, pf, fs, s, fs[k - 1], 0), (k - 1) as usize)
        } else {
            s
        }
    }
}

proof fn lemma_place_of<F, P: Provider<F>>(prov: P, pf: Seq<F>, fs: Seq<F>, sel: Seq<usize>, x: F, q: int)
    requires
        0 <= q <= sel.len(),
    ensures
        q <= place_of(prov, pf, fs, sel, x, q) <= sel.len(),
    decreases sel.len() - q,
{
    if q < sel.len() && prov.orders(pf.push(x), pf.push(fs[sel[q] as int])) != Order::Less {
        lemma_place_of(prov, pf, fs, sel, x, q + 1);
    }
}

/// Where a new shown node goes among those shown: before the first that
/// the provider orders after it, or last.
fn place_among<'a, F, P: Provider<F>>(
    provider: &P,
    parents: &'a [&'a Node<F>],
    node: &'a Node<F>,
    nodes: &'a Vec<Node<F>>,
    sel: &Vec<usize>,
) -> (q: usize)
    requires
        forall|i: int| 0 <= i < sel@.len() ==> (#[trigger] sel@[i]) < nodes@.len(),
    ensures
        q <= sel@.len(),
        q == place_of(
            *provider,
            parents@.map_values(|n: &Node<F>| n.fragment),
            frags(nodes@),
            sel@,
            node.fragment,
            0,
        ),
{
    let ghost pf = parents@.map_values(|n: &Node<F>| n.fragment);
    let ghost fs = frags(nodes@);
    let np = NodePath { head: parents, tail: node };
    let mut q: usize = 0;
    while q < sel.len()
        invariant
            q <= sel@.len(),
            forall|i: int| 0 <= i < sel@.len() ==> (#[trigger] sel@[i]) < nodes@.len(),
            pf == parents@.map_values(|n: &Node<F>| n.fragment),
            fs == frags(nodes@),
            np == (NodePath { head: parents, tail: node }),
            place_of(*provider, pf, fs, sel@, node.fragment, 0) == place_of(*provider, pf, fs, sel@, node.fragment, q as int),
        decreases sel@.len() - q,
    {
        let other = NodePath { head: parents, tail: &nodes[sel[q]] };
        proof {
            assert(frags_of(np) == pf.push(node.fragment));
            assert(frags_of(other) == pf.push(fs[sel@[q as int] as int]));
        }
        if provider.order(&np, &other) == Order::Less {
            return q;
        }
        q += 1;
    }
    q
}

impl<F> Node<F> {
    /// Whether a new child would be shown and where (see `place_among`).
    fn child_place<P: Provider<F>>(&self, provider: &P, path: &[usize], child: &Node<F>) -> (r: (bool, usize))
        requires
            valid(*self, path@),
            sel_ok(node_at(*self, path@)),
        ensures
            r.1 <= selection(node_at(*self, path@)).len(),
            r.0 == provider.keeps(frags_along(*self, path@).push(child.fragment)),
            r.0 ==> r.1 == place_of(
                *provider,
                frags_along(*self, path@),
                frags(all_children(node_at(*self, path@))),
                selection(node_at(*self, path@)),
                child.fragment,
                0,
            ),
    {
        let parents = self.resolve(path);
        assert(parents@.map_values(|n: &Node<F>| n.fragment) =~= frags_along(*self, path@));
        let n = parents.len();
        let target = parents[n - 1];
        assert(*target == node_at(*self, path@)) by {
            assert(path@.subrange(0, n - 1) =~= path@);
        }
        let cp = NodePath { head: parents.as_slice(), tail: child };
        assert(frags_of(cp) == frags_along(*self, path@).push(child.fragment));
        if !provider.keep(&cp) {
            return (false, 0);
        }
        match &target.children {
            None => (true, 0),
            Some((nodes, sel)) => (true, place_among(provider, parents.as_slice(), child, nodes, sel)),
        }
    }

    /// Add `child` last among the children of the node at `path` (loading
    /// it, with no children, if it was not); when the provider shows it, it
    /// goes before the first shown child the provider orders after it (see
    /// `place_of`).
    pub fn add_child<P: Provider<F>>(&mut self, provider: &mut P, path: &[usize], child: Node<F>)
        requires
            valid(*old(self), path@),
            sel_ok(node_at(*old(self), path@)),
        ensures
            valid(*final(self), path@),
            replaced(*old(self), *final(self), path@, node_at(*final(self), path@)),
            *final(provider) == *old(provider),
            ({
                let t = node_at(*old(self), path@);
                let pf = frags_along(*old(self), path@);
                child_added(
                    t,
                    node_at(*final(self), path@),
                    child,
                    if old(provider).keeps(pf.push(child.fragment)) {
                        Some(place_of(*old(provider), pf, frags(all_children(t)), selection(t), child.fragment, 0))
                    } else {
                        None
                    },
                )
            }),
    {
        let (keep, pos) = self.child_place(provider, path, &child);
        let ghost t = node_at(*self, path@);
        let target = self.at_mut(path);
        if target.children.is_none() {
            target.children = Some((Vec::new(), Vec::new()));
        }
        match &mut target.children {
            Some((nodes, sel)) => {
                let n = nodes.len();
                if keep {
                    sel.insert(pos, n);
                }
                nodes.push(child);
            },
            None => {},
        }
        let ghost t2 = *target;
        proof {
            lemma_replaced_at(*old(self), *self, path@, t2);
            let at: Option<int> = if keep {
                Some(pos as int)
            } else {
                None
            };
            assert(child_added(t, t2, child, at));
        }
    }

    /// Remove the child shown at position `child` of the node at `path`:
    /// the last child takes its place among all (see `child_removed`).
    pub fn remove_child(&mut self, path: &[usize], child: usize)
        requires
            valid(*old(self), path@),
            has_child(node_at(*old(self), path@), child as int),
        ensures
            valid(*final(self), path@),
            replaced(*old(self), *final(self), path@, node_at(*final(self), path@)),
            child_removed(node_at(*old(self), path@), node_at(*final(self), path@), child as int),
    {
        let ghost t = node_at(*self, path@);
        let target = self.at_mut(path);
        match &mut target.children {
            Some((nodes, sel)) => {
                let ghost sel0 = sel@;
                let pk = sel.remove(child);
                nodes.swap_remove(pk);
                let n = nodes.len();
                let mut j: usize = 0;
                let ghost s1 = sel@;
                while j < sel.len() && sel[j] != n
                    invariant
                        s1 == sel@,
                        0 <= j <= s1.len(),
                        forall|i: int| 0 <= i < j ==> s1[i] != n,
                    decreases s1.len() - j,
                {
                    j += 1;
                }
                if j < sel.len() {
                    sel.set(j, pk);
                    proof {
                        crate::input::lemma_replace_first_at(s1, n, pk, j as int);
                    }
                } else {
                    proof {
                        crate::input::lemma_replace_first_none(s1, n, pk);
                    }
                }
            },
            None => {},
        }
        let ghost t2 = *target;
        proof {
            lemma_replaced_at(*old(self), *self, path@, t2);
        }
    }

    /// The children of the node at `path` as the provider gives them: with
    /// `reload`, or when they were not loaded, they are asked for (once, for
    /// the fragments along `path`), one fresh node per fragment given, and
    /// those the provider keeps are shown, ordered by it (see
    /// `shown_sorted`); the node is folded (or not) as `folded` says. Gives
    /// how many children are shown.
    pub fn load<P: Provider<F>>(&mut self, provider: &mut P, path: &[usize], reload: bool, folded: bool) -> (r: usize)
        requires
            valid(*old(self), path@),
        ensures
            valid(*final(self), path@),
            replaced(*old(self), *final(self), path@, node_at(*final(self), path@)),
            ({
                let t = node_at(*old(self), path@);
                let t2 = node_at(*final(self), path@);
                let pf = frags_along(*old(self), path@);
                if !reload && t.children is Some {
                    &&& t2 == (Node { folded, ..t })
                    &&& r == shown(t).len()
                    &&& *final(provider) == *old(provider)
                } else {
                    &&& loaded_anew(t, t2, folded)
                    &&& r == selection(t2).len()
                    &&& old(provider).gives(pf, frags(all_children(t2)))
                    &&& selection(t2) == shown_sorted(
                        *final(provider),
                        pf,
                        frags(all_children(t2)),
                        all_children(t2).len() as int,
                    )
                }
            }),
    {
        let ghost t = node_at(*self, path@);
        let ghost pf = frags_along(*self, path@);
        if !reload && self.resolve_node(path).is_loaded() {
            let target = self.at_mut(path);
            if target.folded != folded {
                target.folded = folded;
            }
            let c = target.child_count();
            let ghost t2 = *target;
            proof {
                lemma_replaced_at(*old(self), *self, path@, t2);
            }
            return c;
        }
        let ghost p0 = *provider;
        let mut fragments = {
            let parents = self.resolve(path);
            let n = parents.len();
            let (head, _) = parents.as_slice().split_at(n - 1);
            let np = NodePath { head, tail: parents[n - 1] };
            proof {
                assert(head@ =~= parents@.subrange(0, n - 1));
                assert(frags_of(np) =~= pf);
            }
            provider.provide(&np)
        };
        let ghost f0 = fragments@;
        let ghost p1 = *provider;
        let mut rev: Vec<F> = Vec::new();
        while fragments.len() > 0
            invariant
                fragments@ == f0.subrange(0, fragments@.len() as int),
                rev@.len() + fragments@.len() == f0.len(),
                forall|j: int| 0 <= j < rev@.len() ==> #[trigger] rev@[j] == f0[f0.len() - 1 - j],
            decreases fragments@.len(),
        {
            let ghost before = fragments@;
            match fragments.pop() {
                Some(f) => {
                    rev.push(f);
                    assert(fragments@ =~= f0.subrange(0, fragments@.len() as int));
                },
                None => {},
            }
        }
        let mut nodes: Vec<Node<F>> = Vec::new();
        while rev.len() > 0
            invariant
                fresh(nodes@),
                nodes@.len() + rev@.len() == f0.len(),
                forall|j: int| 0 <= j < rev@.len() ==> #[trigger] rev@[j] == f0[f0.len() - 1 - j],
                forall|j: int| 0 <= j < nodes@.len() ==> (#[trigger] nodes@[j]).fragment == f0[j],
            decreases rev@.len(),
        {
            match rev.pop() {
                Some(f) => {
                    nodes.push(Node::new(f));
                },
                None => {},
            }
        }
        assert(frags(nodes@) =~= f0);
        let sel = {
            let parents = self.resolve(path);
            proof {
                assert(parents@.map_values(|n: &Node<F>| n.fragment) =~= pf);
            }
            let mut sel: Vec<usize> = Vec::new();
            let mut i: usize = 0;
            while i < nodes.len()
                invariant
                    0 <= i <= nodes@.len(),
                    distinct_below(sel@, i as int),
                    *provider == p1,
                    frags(nodes@) == f0,
                    parents@.map_values(|n: &Node<F>| n.fragment) == pf,
                    sel@ == shown_sorted(p1, pf, f0, i as int),
                decreases nodes@.len() - i,
            {
                let np = NodePath { head: parents.as_slice(), tail: &nodes[i] };
                proof {
                    assert(frags_of(np) == pf.push(f0[i as int]));
                }
                if provider.keep(&np) {
                    let q = place_among(provider, parents.as_slice(), &nodes[i], &nodes, &sel);
                    let ghost before = sel@;
                    sel.insert(q, i);
                    proof {
                        assert forall|a: int| 0 <= a < sel@.len() implies (#[trigger] sel@[a]) < i + 1 by {
                            if a < q {
                                assert(sel@[a] == before[a]);
                            } else if a > q {
                                assert(sel@[a] == before[a - 1]);
                            }
                        }
                        assert forall|a: int, b: int| 0 <= a < b < sel@.len() implies sel@[a] != sel@[b] by {
                            if a < q && b < q {
                            } else if a < q && b == q {
                                assert(before[a] < i);
                            } else if a < q && b > q {
                                assert(sel@[b] == before[b - 1]);
                            } else if a == q {
                                assert(sel@[b] == before[b - 1]);
                                assert(before[b - 1] < i);
                            } else {
                                assert(sel@[a] == before[a - 1]);
                                assert(sel@[b] == before[b - 1]);
                            }
                        }
                    }
                }
                i += 1;
            }
            sel
        };
        let count = sel.len();
        let target = self.at_mut(path);
        target.children = Some((nodes, sel));
        target.folded = folded;
        let ghost t2 = *target;
        proof {
            lemma_replaced_at(*old(self), *self, path@, t2);
            assert(frags(all_children(t2)) == f0);
        }
        count
    }
}

} // verus!
