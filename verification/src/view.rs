use vstd::prelude::*;
use crate::node::{Sorting, SortingProp};
use vstd::view::View as _;

verus! {

/// What the view remembers of one node: whether it is unfolded or marked,
/// and the states of its children, each with the index of the child node it
/// stands for.
pub struct State {
    pub unfolded: bool,
    pub marked: bool,
    pub children: Vec<(usize, State)>,
}

/// Number of lines a state occupies on screen: one for a folded node; for an
/// unfolded one, its children's lines plus one line for itself unless it has
/// exactly one child.
pub open spec fn height(s: State) -> nat
    decreases s, 1int,
{
    if s.unfolded {
        (if s.children@.len() == 1 { 0nat } else { 1nat }) + heights(s.children@)
    } else {
        1
    }
}

/// Total height of a sequence of child states.
pub open spec fn heights(chs: Seq<(usize, State)>) -> nat
    decreases chs, 0int,
{
    if chs.len() == 0 {
        0
    } else {
        heights(chs.subrange(0, chs.len() - 1)) + height(chs[chs.len() - 1].1)
    }
}

proof fn lemma_heights_prefix(chs: Seq<(usize, State)>, i: int)
    requires
        0 <= i <= chs.len(),
    ensures
        heights(chs.subrange(0, i)) <= heights(chs),
    decreases chs.len() - i,
{
    if i < chs.len() {
        lemma_heights_prefix(chs, i + 1);
        assert(chs.subrange(0, i + 1).subrange(0, i) =~= chs.subrange(0, i));
    } else {
        assert(chs.subrange(0, i) =~= chs);
    }
}

/// `a` and `b` hold the same flags and, recursively, the same children.
pub open spec fn state_eq(a: State, b: State) -> bool
    decreases a, 1int,
{
    &&& a.unfolded == b.unfolded
    &&& a.marked == b.marked
    &&& children_eq(a.children@, b.children@)
}

/// The two sequences of child states are the same, child by child.
pub open spec fn children_eq(ca: Seq<(usize, State)>, cb: Seq<(usize, State)>) -> bool
    decreases ca, 0int,
{
    &&& ca.len() == cb.len()
    &&& (ca.len() > 0 ==> {
        &&& children_eq(ca.subrange(0, ca.len() - 1), cb.subrange(0, cb.len() - 1))
        &&& ca[ca.len() - 1].0 == cb[cb.len() - 1].0
        &&& state_eq(ca[ca.len() - 1].1, cb[cb.len() - 1].1)
    })
}

/// Every state is the same as itself.
pub proof fn lemma_state_eq_refl(s: State)
    ensures
        state_eq(s, s),
    decreases s, 1int,
{
    lemma_children_eq_refl(s.children@);
}

/// Every sequence of child states is the same as itself.
pub proof fn lemma_children_eq_refl(cs: Seq<(usize, State)>)
    ensures
        children_eq(cs, cs),
    decreases cs, 0int,
{
    if cs.len() > 0 {
        lemma_children_eq_refl(cs.subrange(0, cs.len() - 1));
        lemma_state_eq_refl(cs[cs.len() - 1].1);
    }
}

impl State {
    /// A copy of this state and of all the states below it.
    pub fn duplicate(&self) -> (r: State)
        ensures
            state_eq(r, *self),
        decreases *self,
    {
        let mut children: Vec<(usize, State)> = Vec::new();
        let mut i: usize = 0;
        while i < self.children.len()
            invariant
                0 <= i <= self.children@.len(),
                children_eq(children@, self.children@.subrange(0, i as int)),
            decreases self.children@.len() - i,
        {
            let k = self.children[i].0;
            let st = self.children[i].1.duplicate();
            let ghost before = children@;
            children.push((k, st));
            proof {
                let sub = self.children@.subrange(0, i + 1);
                assert(children@.subrange(0, children@.len() - 1) =~= before);
                assert(sub.subrange(0, sub.len() - 1) =~= self.children@.subrange(0, i as int));
            }
            i += 1;
        }
        assert(self.children@.subrange(0, i as int) =~= self.children@);
        State { unfolded: self.unfolded, marked: self.marked, children }
    }

    /// Number of lines this state occupies (see `height`).
    pub fn visible_height(&self) -> (h: usize)
        requires
            height(*self) <= usize::MAX,
        ensures
            h == height(*self),
        decreases *self,
    {
        if self.unfolded {
            let mut sum: usize = 0;
            let mut i: usize = 0;
            while i < self.children.len()
                invariant
                    self.unfolded,
                    height(*self) <= usize::MAX,
                    0 <= i <= self.children@.len(),
                    sum == heights(self.children@.subrange(0, i as int)),
                decreases self.children@.len() - i,
            {
                proof {
                    lemma_heights_prefix(self.children@, i + 1);
                    assert(self.children@.subrange(0, i + 1).subrange(0, i as int)
                        =~= self.children@.subrange(0, i as int));
                }
                let h = self.children[i].1.visible_height();
                sum = sum + h;
                i += 1;
            }
            assert(self.children@.subrange(0, i as int) =~= self.children@);
            (if 1 == self.children.len() { 0 } else { 1 }) + sum
        } else {
            1
        }
    }

    /// Fold this node.
    pub fn fold(&mut self)
        ensures
            !final(self).unfolded,
            final(self).marked == old(self).marked,
            final(self).children == old(self).children,
    {
        self.unfolded = false;
    }
}

/// Whether `p` is a path of child positions that exists from `s` down.
pub open spec fn valid_path(s: State, p: Seq<usize>) -> bool
    decreases p.len(),
{
    if p.len() == 0 {
        true
    } else {
        p[0] < s.children@.len() && valid_path(s.children@[p[0] as int].1, p.drop_first())
    }
}

/// The state reached from `s` by following `p`.
pub open spec fn state_at(s: State, p: Seq<usize>) -> State
    decreases p.len(),
{
    if p.len() == 0 {
        s
    } else {
        state_at(s.children@[p[0] as int].1, p.drop_first())
    }
}

/// `new` is `old` with the state at `p` replaced by `sub`, all else equal.
pub open spec fn replaced_at(old: State, new: State, p: Seq<usize>, sub: State) -> bool
    decreases p.len(),
{
    if p.len() == 0 {
        new == sub
    } else {
        &&& new.unfolded == old.unfolded
        &&& new.marked == old.marked
        &&& new.children@.len() == old.children@.len()
        &&& forall|j: int|
            0 <= j < old.children@.len() && j != p[0] ==> new.children@[j] == old.children@[j]
        &&& new.children@[p[0] as int].0 == old.children@[p[0] as int].0
        &&& replaced_at(old.children@[p[0] as int].1, new.children@[p[0] as int].1, p.drop_first(), sub)
    }
}

/// Line (counted from 1) of the node at the end of `p`, given that the node
/// `s` is at line `acc`: each step down passes the node's own line and the
/// lines of the siblings before.
pub open spec fn line_of(s: State, p: Seq<usize>, acc: nat) -> nat
    decreases p.len(),
{
    if p.len() == 0 {
        acc
    } else {
        line_of(
            s.children@[p[0] as int].1,
            p.drop_first(),
            1 + acc + heights(s.children@.subrange(0, p[0] as int)),
        )
    }
}

proof fn lemma_line_of_grows(s: State, p: Seq<usize>, acc: nat)
    ensures
        acc <= line_of(s, p, acc),
    decreases p.len(),
{
    if p.len() > 0 {
        lemma_line_of_grows(
            s.children@[p[0] as int].1,
            p.drop_first(),
            1 + acc + heights(s.children@.subrange(0, p[0] as int)),
        );
    }
}

proof fn lemma_path_prefix(s: State, p: Seq<usize>, n: int)
    requires
        valid_path(s, p),
        0 <= n <= p.len(),
    ensures
        valid_path(s, p.subrange(0, n)),
    decreases p.len(),
{
    if n > 0 {
        lemma_path_prefix(s.children@[p[0] as int].1, p.drop_first(), n - 1);
        assert(p.subrange(0, n).drop_first() =~= p.drop_first().subrange(0, n - 1));
    }
}

proof fn lemma_path_extend(s: State, p: Seq<usize>, k: usize)
    requires
        valid_path(s, p),
    ensures
        valid_path(s, p.push(k)) <==> k < state_at(s, p).children@.len(),
        valid_path(s, p.push(k)) ==> state_at(s, p.push(k)) == state_at(s, p).children@[k as int].1,
    decreases p.len(),
{
    if p.len() > 0 {
        lemma_path_extend(s.children@[p[0] as int].1, p.drop_first(), k);
        assert(p.push(k).drop_first() =~= p.drop_first().push(k));
        assert(p.push(k)[0] == p[0]);
    } else {
        let q = p.push(k);
        assert(q.drop_first() =~= Seq::<usize>::empty());
        assert(q[0] == k);
        assert(state_at(s, p) == s);
        if k < s.children@.len() {
            assert(valid_path(s.children@[k as int].1, q.drop_first()));
            assert(valid_path(s, q));
            assert(state_at(s, q) == state_at(s.children@[k as int].1, q.drop_first()));
        }
    }
}

proof fn lemma_path_split(s: State, p: Seq<usize>, n: int)
    requires
        0 <= n <= p.len(),
    ensures
        valid_path(s, p) <==> (valid_path(s, p.subrange(0, n)) && valid_path(
            state_at(s, p.subrange(0, n)),
            p.subrange(n, p.len() as int),
        )),
        valid_path(s, p.subrange(0, n)) ==> state_at(s, p) == state_at(
            state_at(s, p.subrange(0, n)),
            p.subrange(n, p.len() as int),
        ),
    decreases p.len(),
{
    if n == 0 {
        assert(p.subrange(0, p.len() as int) =~= p);
    } else {
        lemma_path_split(s.children@[p[0] as int].1, p.drop_first(), n - 1);
        assert(p.subrange(0, n).drop_first() =~= p.drop_first().subrange(0, n - 1));
        assert(p.subrange(n, p.len() as int) =~= p.drop_first().subrange(
            n - 1,
            p.drop_first().len() as int,
        ));
    }
}

proof fn lemma_replaced_keeps_paths(old: State, new: State, p: Seq<usize>, sub: State, q: Seq<usize>)
    requires
        valid_path(old, p),
        replaced_at(old, new, p, sub),
        sub.children == state_at(old, p).children,
        valid_path(old, q),
    ensures
        valid_path(new, q),
    decreases p.len(),
{
    if p.len() == 0 {
        if q.len() > 0 {
            assert(new.children@[q[0] as int] == old.children@[q[0] as int]);
        }
    } else if q.len() > 0 {
        if q[0] == p[0] {
            lemma_replaced_keeps_paths(
                old.children@[p[0] as int].1,
                new.children@[p[0] as int].1,
                p.drop_first(),
                sub,
                q.drop_first(),
            );
        } else {
            assert(new.children@[q[0] as int] == old.children@[q[0] as int]);
        }
    }
}

proof fn lemma_replaced_keeps_paths_all(old: State, p: Seq<usize>, q: Seq<usize>)
    requires
        valid_path(old, p),
        valid_path(old, q),
    ensures
        forall|new: State, sub: State|
            #[trigger] replaced_at(old, new, p, sub) && sub.children == state_at(old, p).children
                ==> valid_path(new, q),
{
    assert forall|new: State, sub: State|
        #[trigger] replaced_at(old, new, p, sub) && sub.children == state_at(old, p).children implies valid_path(new, q) by {
        lemma_replaced_keeps_paths(old, new, p, sub, q);
    }
}

proof fn lemma_replaced_at_self(old: State, new: State, p: Seq<usize>, sub: State)
    requires
        valid_path(old, p),
        replaced_at(old, new, p, sub),
    ensures
        valid_path(new, p),
        state_at(new, p) == sub,
    decreases p.len(),
{
    if p.len() > 0 {
        lemma_replaced_at_self(
            old.children@[p[0] as int].1,
            new.children@[p[0] as int].1,
            p.drop_first(),
            sub,
        );
    }
}

proof fn lemma_replaced_at_self_all(old: State, p: Seq<usize>)
    requires
        valid_path(old, p),
    ensures
        forall|new: State, sub: State|
            #[trigger] replaced_at(old, new, p, sub) ==> state_at(new, p) == sub,
{
    assert forall|new: State, sub: State| #[trigger] replaced_at(old, new, p, sub) implies state_at(
        new,
        p,
    ) == sub by {
        lemma_replaced_at_self(old, new, p, sub);
    }
}

/// The state at `p` below `s`, to be changed in place.
fn state_at_mut<'a>(s: &'a mut State, p: &[usize]) -> (r: &'a mut State)
    requires
        valid_path(*old(s), p@),
    ensures
        *r == state_at(*old(s), p@),
        replaced_at(*old(s), *final(s), p@, *final(r)),
    decreases p@.len(),
{
    if p.len() == 0 {
        s
    } else {
        let k = p[0];
        let rest = p.split_at(1).1;
        assert(rest@ =~= p@.drop_first());
        let child = &mut s.children[k].1;
        state_at_mut(child, rest)
    }
}

/// The state at `p` below `s`.
fn state_at_ref<'a>(s: &'a State, p: &[usize]) -> (r: &'a State)
    requires
        valid_path(*s, p@),
    ensures
        *r == state_at(*s, p@),
    decreases p@.len(),
{
    if p.len() == 0 {
        s
    } else {
        let k = p[0];
        let rest = p.split_at(1).1;
        assert(rest@ =~= p@.drop_first());
        state_at_ref(&s.children[k].1, rest)
    }
}

/// Scroll offsets of a view, in columns and lines.
#[derive(Clone, Copy)]
pub struct Offset {
    pub shift: i32,
    pub scroll: i32,
}

#[derive(Clone, Copy)]
struct ViewSettings {
    sort: Sorting,
    reverse: bool,
}

/// A view on a tree: the states of its nodes, a cursor, and scroll offsets.
///
/// The cursor is a path of child positions from the root; only its first
/// `cursor_path_len` steps are current, the rest remembers where to go back
/// down on `enter`.
pub struct View {
    pub root: State,
    cursor: Vec<usize>,
    cursor_path_len: usize,
    offset: Offset,
    settings: ViewSettings,
}

impl View {
    /// The whole remembered cursor stays a path of the tree, and the current
    /// part is a prefix of it.
    pub closed spec fn wf(&self) -> bool {
        &&& self.cursor_path_len <= self.cursor@.len()
        &&& valid_path(self.root, self.cursor@)
    }

    /// The states of the tree.
    pub closed spec fn tree(&self) -> State {
        self.root
    }

    /// The current cursor path.
    pub closed spec fn path(&self) -> Seq<usize> {
        self.cursor@.subrange(0, self.cursor_path_len as int)
    }

    /// The remembered cursor, current part and beyond.
    pub closed spec fn memory(&self) -> Seq<usize> {
        self.cursor@
    }

    /// The scroll offsets.
    pub closed spec fn offset_spec(&self) -> Offset {
        self.offset
    }

    /// The sorting settings.
    pub closed spec fn sorting(&self) -> (Sorting, bool) {
        (self.settings.sort, self.settings.reverse)
    }

    /// The state under the cursor.
    pub open spec fn cursor_state(&self) -> State {
        state_at(self.tree(), self.path())
    }

    /// A view of `root` with the cursor on the root, no scroll, sorted by
    /// name.
    pub fn from_state(root: State) -> (v: View)
        ensures
            v.wf(),
            v.tree() == root,
            v.path() == Seq::<usize>::empty(),
            v.memory() == Seq::<usize>::empty(),
            v.offset_spec().shift == 0,
            v.offset_spec().scroll == 0,
            v.sorting() == (Sorting { prop: SortingProp::Name, dirs_first: false }, false),
    {
        let v = View {
            root,
            cursor: Vec::new(),
            cursor_path_len: 0,
            offset: Offset { shift: 0, scroll: 0 },
            settings: ViewSettings {
                sort: Sorting::new(SortingProp::Name, false),
                reverse: false,
            },
        };
        assert(v.path() =~= Seq::<usize>::empty());
        v
    }

    /// The current cursor path.
    pub fn cursor_path(&self) -> (r: &[usize])
        requires
            self.wf(),
        ensures
            r@ == self.path(),
    {
        self.cursor.as_slice().split_at(self.cursor_path_len).0
    }

    /// A copy of this view, with a copy of its states.
    pub fn duplicate(&self) -> (r: View)
        ensures
            state_eq(r.tree(), self.tree()),
            r.path() == self.path(),
            r.memory() == self.memory(),
            r.offset_spec() == self.offset_spec(),
            r.sorting() == self.sorting(),
    {
        let mut cursor: Vec<usize> = Vec::new();
        let mut i: usize = 0;
        while i < self.cursor.len()
            invariant
                0 <= i <= self.cursor@.len(),
                cursor@ == self.cursor@.subrange(0, i as int),
            decreases self.cursor@.len() - i,
        {
            cursor.push(self.cursor[i]);
            i += 1;
            assert(cursor@ =~= self.cursor@.subrange(0, i as int));
        }
        assert(cursor@ =~= self.cursor@);
        View {
            root: self.root.duplicate(),
            cursor,
            cursor_path_len: self.cursor_path_len,
            offset: self.offset,
            settings: self.settings,
        }
    }

    /// The scroll offsets.
    pub fn view_offset(&self) -> (r: Offset)
        ensures
            r == self.offset_spec(),
    {
        self.offset
    }

    /// Screen position of the cursor: indentation of the current depth and
    /// line of the remembered cursor, both minus the scroll offsets.
    pub fn cursor_offset(&self) -> (r: Offset)
        requires
            self.wf(),
            line_of(self.tree(), self.memory(), 1) <= usize::MAX,
            i32::MIN <= (self.path().len() as i32) * 4 <= i32::MAX,
            i32::MIN <= (self.path().len() as i32) * 4 - self.offset_spec().shift <= i32::MAX,
            i32::MIN <= (line_of(self.tree(), self.memory(), 1) as i32) - self.offset_spec().scroll
                <= i32::MAX,
        ensures
            r.shift == (self.path().len() as i32) * 4 - self.offset_spec().shift,
            r.scroll == (line_of(self.tree(), self.memory(), 1) as i32) - self.offset_spec().scroll,
    {
        let mut state: &State = &self.root;
        let mut acc: usize = 1;
        let mut i: usize = 0;
        assert(self.cursor@.subrange(0, self.cursor@.len() as int) =~= self.cursor@);
        assert(self.cursor@.subrange(0, 0) =~= Seq::<usize>::empty());
        while i < self.cursor.len()
            invariant
                0 <= i <= self.cursor@.len(),
                valid_path(self.root, self.cursor@),
                valid_path(self.root, self.cursor@.subrange(0, i as int)),
                *state == state_at(self.root, self.cursor@.subrange(0, i as int)),
                line_of(self.root, self.cursor@, 1) == line_of(
                    *state,
                    self.cursor@.subrange(i as int, self.cursor@.len() as int),
                    acc as nat,
                ),
                line_of(self.root, self.cursor@, 1) <= usize::MAX,
            decreases self.cursor@.len() - i,
        {
            let idx = self.cursor[i];
            proof {
                lemma_path_split(self.root, self.cursor@, i as int);
                let rest = self.cursor@.subrange(i as int, self.cursor@.len() as int);
                assert(rest[0] == idx);
                assert(rest.drop_first() =~= self.cursor@.subrange(i + 1, self.cursor@.len() as int));
                lemma_line_of_grows(
                    state.children@[idx as int].1,
                    rest.drop_first(),
                    (1 + acc + heights(state.children@.subrange(0, idx as int))) as nat,
                );
                assert(self.cursor@.subrange(0, i + 1) =~= self.cursor@.subrange(0, i as int).push(idx));
                lemma_path_extend(self.root, self.cursor@.subrange(0, i as int), idx);
            }
            let mut sum: usize = 0;
            let mut j: usize = 0;
            while j < idx
                invariant
                    0 <= j <= idx < state.children@.len(),
                    sum == heights(state.children@.subrange(0, j as int)),
                    1 + acc + heights(state.children@.subrange(0, idx as int)) <= usize::MAX,
                decreases idx - j,
            {
                proof {
                    lemma_heights_prefix(state.children@.subrange(0, idx as int), j + 1);
                    assert(state.children@.subrange(0, idx as int).subrange(0, j + 1)
                        =~= state.children@.subrange(0, j + 1));
                    assert(state.children@.subrange(0, j + 1).subrange(0, j as int)
                        =~= state.children@.subrange(0, j as int));
                }
                let h = state.children[j].1.visible_height();
                sum = sum + h;
                j += 1;
            }
            acc = 1 + acc + sum;
            state = &state.children[idx].1;
            i += 1;
        }
        assert(self.cursor@.subrange(i as int, self.cursor@.len() as int) =~= Seq::<usize>::empty());
        let len = self.cursor_path_len as i32;
        Offset { shift: len * 4 - self.offset.shift, scroll: acc as i32 - self.offset.scroll }
    }

    /// The line of the remembered cursor on screen, before scrolling.
    pub open spec fn cursor_line(&self) -> nat {
        line_of(self.tree(), self.memory(), 1)
    }

    /// Put the cursor back on the root (the rest of the path is remembered).
    pub fn cursor_to_root(&mut self)
        requires
            old(self).wf(),
        ensures
            final(self).wf(),
            final(self).path() == Seq::<usize>::empty(),
            final(self).memory() == old(self).memory(),
            final(self).tree() == old(self).tree(),
            final(self).offset_spec() == old(self).offset_spec(),
            final(self).sorting() == old(self).sorting(),
    {
        self.cursor_path_len = 0;
        assert(self.path() =~= Seq::<usize>::empty());
    }

    /// Number of lines the whole tree occupies.
    pub fn visible_height(&self) -> (h: usize)
        requires
            height(self.tree()) <= usize::MAX,
        ensures
            h == height(self.tree()),
    {
        self.root.visible_height()
    }

    /// Scroll so that the cursor line keeps `stride` lines of margin from the
    /// top and bottom of a window `height` lines tall, never scrolling above
    /// the first line.
    pub fn ensure_cursor_within(&mut self, height: i32, stride: i32)
        requires
            old(self).wf(),
            old(self).cursor_line() <= usize::MAX,
            i32::MIN <= (old(self).path().len() as i32) * 4 <= i32::MAX,
            i32::MIN <= (old(self).path().len() as i32) * 4 - old(self).offset_spec().shift
                <= i32::MAX,
            i32::MIN <= (old(self).cursor_line() as i32) - old(self).offset_spec().scroll
                <= i32::MAX,
            scroll_fits(
                old(self).offset_spec().scroll as int,
                (old(self).cursor_line() as i32) - old(self).offset_spec().scroll,
                height as int,
                stride as int,
            ),
        ensures
            final(self).wf(),
            final(self).offset_spec().scroll == clamp_scroll(
                old(self).offset_spec().scroll as int,
                (old(self).cursor_line() as i32) - old(self).offset_spec().scroll,
                height as int,
                stride as int,
            ),
            final(self).offset_spec().shift == old(self).offset_spec().shift,
            final(self).tree() == old(self).tree(),
            final(self).path() == old(self).path(),
            final(self).memory() == old(self).memory(),
            final(self).sorting() == old(self).sorting(),
    {
        let c_off = self.cursor_offset();
        if c_off.scroll - 1 < stride {
            self.offset.scroll = self.offset.scroll + (c_off.scroll - 1 - stride);
        } else if height - stride < c_off.scroll {
            self.offset.scroll = self.offset.scroll + (c_off.scroll - 1 - (height - stride - 1));
        }
        self.fit_offset(height);
    }

    /// Never scroll above the first line.
    pub fn fit_offset(&mut self, _height: i32)
        requires
            old(self).wf(),
        ensures
            final(self).wf(),
            final(self).offset_spec().scroll == if old(self).offset_spec().scroll < 0 {
                0
            } else {
                old(self).offset_spec().scroll
            },
            final(self).offset_spec().shift == old(self).offset_spec().shift,
            final(self).tree() == old(self).tree(),
            final(self).path() == old(self).path(),
            final(self).memory() == old(self).memory(),
            final(self).sorting() == old(self).sorting(),
    {
        if self.offset.scroll < 0 {
            self.offset.scroll = 0;
        }
    }

    /// The state under the cursor.
    pub fn at_cursor(&self) -> (r: &State)
        requires
            self.wf(),
        ensures
            *r == self.cursor_state(),
    {
        proof {
            lemma_path_prefix(self.root, self.cursor@, self.cursor_path_len as int);
        }
        let path = self.cursor.as_slice().split_at(self.cursor_path_len).0;
        state_at_ref(&self.root, path)
    }

    /// The state under the cursor, to be changed in place. The view stays
    /// well formed as long as the children of that state are left as they
    /// were.
    pub fn at_cursor_mut(&mut self) -> (r: &mut State)
        requires
            old(self).wf(),
        ensures
            *r == old(self).cursor_state(),
            replaced_at(old(self).tree(), final(self).tree(), old(self).path(), *final(r)),
            final(self).cursor_state() == *final(r),
            final(self).path() == old(self).path(),
            final(self).memory() == old(self).memory(),
            final(self).offset_spec() == old(self).offset_spec(),
            final(self).sorting() == old(self).sorting(),
            (*final(r)).children == old(self).cursor_state().children ==> final(self).wf(),
    {
        proof {
            lemma_path_prefix(self.root, self.cursor@, self.cursor_path_len as int);
            lemma_path_split(self.root, self.cursor@, self.cursor_path_len as int);
        }
        let ghost old_root = self.root;
        let ghost cursor = self.cursor@;
        let ghost path = self.cursor@.subrange(0, self.cursor_path_len as int);
        let path_slice = self.cursor.as_slice().split_at(self.cursor_path_len).0;
        let r = state_at_mut(&mut self.root, path_slice);
        proof {
            lemma_replaced_keeps_paths_all(old_root, path, cursor);
            lemma_replaced_at_self_all(old_root, path);
        }
        r
    }

    /// The state of the parent of the node under the cursor, if the cursor
    /// is not on the root.
    pub fn at_parent(&self) -> (r: Option<&State>)
        requires
            self.wf(),
        ensures
            self.path().len() == 0 ==> r is None,
            self.path().len() > 0 ==> (r matches Some(p) && *p == state_at(
                self.tree(),
                self.path().drop_last(),
            )),
    {
        if 0 == self.cursor_path_len {
            None
        } else {
            proof {
                lemma_path_prefix(self.root, self.cursor@, self.cursor_path_len - 1);
                assert(self.path().drop_last() =~= self.cursor@.subrange(
                    0,
                    self.cursor_path_len - 1,
                ));
            }
            let path = self.cursor.as_slice().split_at(self.cursor_path_len - 1).0;
            Some(state_at_ref(&self.root, path))
        }
    }

    /// Go down to the first child (or to the remembered one), if the node
    /// under the cursor has children.
    pub fn enter(&mut self)
        requires
            old(self).wf(),
        ensures
            final(self).wf(),
            final(self).tree() == old(self).tree(),
            final(self).offset_spec() == old(self).offset_spec(),
            final(self).sorting() == old(self).sorting(),
            old(self).cursor_state().children@.len() == 0 ==> final(self).path() == old(
                self,
            ).path() && final(self).memory() == old(self).memory(),
            old(self).cursor_state().children@.len() > 0 ==> {
                let k = if old(self).memory().len() == old(self).path().len() {
                    0usize
                } else {
                    old(self).memory()[old(self).path().len() as int]
                };
                &&& final(self).path() == old(self).path().push(k)
                &&& final(self).memory() == if old(self).memory().len() == old(
                    self,
                ).path().len() {
                    old(self).memory().push(0)
                } else {
                    old(self).memory()
                }
            },
    {
        if !self.at_cursor().children.is_empty() {
            if self.cursor.len() == self.cursor_path_len {
                proof {
                    assert(self.cursor@.subrange(0, self.cursor_path_len as int) =~= self.cursor@);
                    lemma_path_extend(self.root, self.cursor@, 0);
                }
                self.cursor.push(0);
            }
            let clen = self.cursor.len();
            assert(self.cursor_path_len < clen);
            self.cursor_path_len = self.cursor_path_len + 1;
            assert(self.path() =~= old(self).path().push(self.cursor@[self.cursor_path_len - 1]));
        }
    }

    /// Go up to the parent, if not on the root.
    pub fn leave(&mut self)
        requires
            old(self).wf(),
        ensures
            final(self).wf(),
            final(self).tree() == old(self).tree(),
            final(self).memory() == old(self).memory(),
            final(self).offset_spec() == old(self).offset_spec(),
            final(self).sorting() == old(self).sorting(),
            final(self).path() == if old(self).path().len() > 0 {
                old(self).path().drop_last()
            } else {
                old(self).path()
            },
    {
        if 0 < self.cursor_path_len {
            self.cursor_path_len = self.cursor_path_len - 1;
            assert(self.path() =~= old(self).path().drop_last());
        }
    }

    /// Go to the next sibling, if there is one; forgets the remembered path
    /// below the cursor. Nothing happens on the root.
    pub fn next(&mut self)
        requires
            old(self).wf(),
        ensures
            final(self).wf(),
            final(self).tree() == old(self).tree(),
            final(self).offset_spec() == old(self).offset_spec(),
            final(self).sorting() == old(self).sorting(),
            old(self).path().len() == 0 ==> final(self).path() == old(self).path()
                && final(self).memory() == old(self).memory(),
            old(self).path().len() > 0 ==> {
                let p = old(self).path();
                let last = p.last();
                let count = state_at(old(self).tree(), p.drop_last()).children@.len();
                let moved = if last + 1 < count {
                    p.drop_last().push((last + 1) as usize)
                } else {
                    p
                };
                final(self).path() == moved && final(self).memory() == moved
            },
    {
        if let Some(par) = self.at_parent() {
            let len = par.children.len();
            proof {
                lemma_path_prefix(self.root, self.cursor@, self.cursor_path_len as int);
            }
            let ghost path = self.cursor@.subrange(0, self.cursor_path_len as int);
            self.cursor.truncate(self.cursor_path_len);
            assert(self.cursor@ =~= path);
            let n = self.cursor.len();
            let idx = self.cursor[n - 1];
            proof {
                let pre = path.drop_last();
                assert(path =~= pre.push(idx));
                lemma_path_prefix(self.root, path, n - 1);
                assert(path.subrange(0, n - 1) =~= pre);
                lemma_path_extend(self.root, pre, idx);
            }
            if idx + 1 < len {
                proof {
                    lemma_path_extend(self.root, path.drop_last(), (idx + 1) as usize);
                    assert(self.cursor@.update(n - 1, (idx + 1) as usize) =~= path.drop_last().push(
                        (idx + 1) as usize,
                    ));
                }
                self.cursor.set(n - 1, idx + 1);
            }
            assert(self.path() =~= self.cursor@);
        }
    }

    /// Go to the previous sibling, if there is one; forgets the remembered
    /// path below the cursor.
    pub fn prev(&mut self)
        requires
            old(self).wf(),
        ensures
            final(self).wf(),
            final(self).tree() == old(self).tree(),
            final(self).offset_spec() == old(self).offset_spec(),
            final(self).sorting() == old(self).sorting(),
            ({
                let p = old(self).path();
                let moved = if p.len() > 0 && p.last() > 0 {
                    p.drop_last().push((p.last() - 1) as usize)
                } else {
                    p
                };
                final(self).path() == moved && final(self).memory() == moved
            }),
    {
        proof {
            lemma_path_prefix(self.root, self.cursor@, self.cursor_path_len as int);
        }
        let ghost path = self.cursor@.subrange(0, self.cursor_path_len as int);
        self.cursor.truncate(self.cursor_path_len);
        assert(self.cursor@ =~= path);
        let n = self.cursor.len();
        if n > 0 {
            let idx = self.cursor[n - 1];
            if 0 < idx {
                proof {
                    let pre = path.drop_last();
                    assert(path =~= pre.push(idx));
                    lemma_path_prefix(self.root, path, n - 1);
                    assert(path.subrange(0, n - 1) =~= pre);
                    lemma_path_extend(self.root, pre, idx);
                    lemma_path_extend(self.root, pre, (idx - 1) as usize);
                    assert(self.cursor@.update(n - 1, (idx - 1) as usize) =~= pre.push(
                        (idx - 1) as usize,
                    ));
                }
                self.cursor.set(n - 1, idx - 1);
            }
        }
        assert(self.path() =~= self.cursor@);
    }

    /// Fold the node under the cursor.
    pub fn fold(&mut self)
        requires
            old(self).wf(),
        ensures
            final(self).wf(),
            flags_set(*old(self), *final(self), false, old(self).cursor_state().marked),
    {
        let st = self.at_cursor_mut();
        st.fold();
    }

    /// Unfold the node under the cursor; when its state has no children yet,
    /// `loaded` (the states of its node's children, in the order shown)
    /// become them.
    pub fn unfold(&mut self, loaded: Vec<(usize, State)>)
        requires
            old(self).wf(),
        ensures
            final(self).wf(),
            replaced_at(
                old(self).tree(),
                final(self).tree(),
                old(self).path(),
                (State {
                    unfolded: true,
                    marked: old(self).cursor_state().marked,
                    children: if old(self).cursor_state().children@.len() == 0 {
                        loaded
                    } else {
                        old(self).cursor_state().children
                    },
                }),
            ),
            final(self).cursor_state().unfolded,
            final(self).cursor_state().marked == old(self).cursor_state().marked,
            final(self).cursor_state().children == if old(self).cursor_state().children@.len() == 0 {
                loaded
            } else {
                old(self).cursor_state().children
            },
            final(self).path() == old(self).path(),
            final(self).memory() == old(self).memory(),
            final(self).offset_spec() == old(self).offset_spec(),
            final(self).sorting() == old(self).sorting(),
    {
        proof {
            if self.cursor_state().children@.len() == 0 {
                View::lemma_memory_ends_at_leaf(*self);
            }
            lemma_path_prefix(self.root, self.cursor@, self.cursor_path_len as int);
        }
        let ghost old_root = self.root;
        let ghost old_children = self.cursor_state().children;
        let path_slice = self.cursor.as_slice().split_at(self.cursor_path_len).0;
        assert(path_slice@ =~= old(self).path());
        let st = state_at_mut(&mut self.root, path_slice);
        if st.children.len() == 0 {
            st.children = loaded;
        }
        st.unfolded = true;
        let ghost sub = *st;
        proof {
            lemma_replaced_path(old_root, self.root, old(self).path(), sub);
            if old_children@.len() == 0 {
                assert(self.cursor@ =~= self.path());
            } else {
                lemma_path_split(old_root, self.cursor@, self.cursor_path_len as int);
                lemma_path_split(self.root, self.cursor@, self.cursor_path_len as int);
                assert(self.cursor_state().children == old_children);
            }
        }
    }

    /// Unfold the root; when its state has no children yet, `loaded` (the
    /// states of the root node's children, in the order shown) become them.
    pub fn unfold_root(&mut self, loaded: Vec<(usize, State)>)
        requires
            old(self).wf(),
        ensures
            final(self).wf(),
            final(self).tree() == (State {
                unfolded: true,
                marked: old(self).tree().marked,
                children: if old(self).tree().children@.len() == 0 {
                    loaded
                } else {
                    old(self).tree().children
                },
            }),
            final(self).path() == old(self).path(),
            final(self).memory() == old(self).memory(),
            final(self).offset_spec() == old(self).offset_spec(),
            final(self).sorting() == old(self).sorting(),
    {
        if self.root.children.len() == 0 {
            proof {
                if self.cursor@.len() > 0 {
                    assert(valid_path(self.root, self.cursor@));
                }
            }
            self.root.children = loaded;
        }
        self.root.unfolded = true;
    }

    /// Start over from the state `root` (the tree was read anew): the
    /// cursor back on the root, nothing remembered below it.
    pub fn renew_root(&mut self, root: State)
        ensures
            final(self).wf(),
            final(self).tree() == root,
            final(self).path() == Seq::<usize>::empty(),
            final(self).memory() == Seq::<usize>::empty(),
            final(self).offset_spec() == old(self).offset_spec(),
            final(self).sorting() == old(self).sorting(),
    {
        self.root = root;
        self.cursor.clear();
        self.cursor_path_len = 0;
        assert(self.path() =~= Seq::<usize>::empty());
    }

    /// Whether the node under the cursor is unfolded.
    pub fn unfolded(&self) -> (b: bool)
        requires
            self.wf(),
        ensures
            b == self.cursor_state().unfolded,
    {
        self.at_cursor().unfolded
    }

    /// Mark the node under the cursor.
    pub fn mark(&mut self)
        requires
            old(self).wf(),
        ensures
            final(self).wf(),
            flags_set(*old(self), *final(self), old(self).cursor_state().unfolded, true),
    {
        let st = self.at_cursor_mut();
        st.marked = true;
    }

    /// Whether the node under the cursor is marked.
    pub fn marked(&self) -> (b: bool)
        requires
            self.wf(),
        ensures
            b == self.cursor_state().marked,
    {
        self.at_cursor().marked
    }

    /// Flip the mark of the node under the cursor.
    pub fn toggle_marked(&mut self)
        requires
            old(self).wf(),
        ensures
            final(self).wf(),
            flags_set(
                *old(self),
                *final(self),
                old(self).cursor_state().unfolded,
                !old(self).cursor_state().marked,
            ),
    {
        let st = self.at_cursor_mut();
        st.marked = !st.marked;
    }

    /// Change how children are sorted.
    pub fn set_sorting(&mut self, sort: Sorting, reverse: bool)
        requires
            old(self).wf(),
        ensures
            final(self).wf(),
            final(self).sorting() == (sort, reverse),
            final(self).tree() == old(self).tree(),
            final(self).path() == old(self).path(),
            final(self).memory() == old(self).memory(),
            final(self).offset_spec() == old(self).offset_spec(),
    {
        self.settings.sort = sort;
        self.settings.reverse = reverse;
    }
}

/// `new` is `old` with only the flags of the state under the cursor set to
/// `unfolded` and `marked`.
pub open spec fn flags_set(old: View, new: View, unfolded: bool, marked: bool) -> bool {
    let sub = old.cursor_state();
    &&& replaced_at(old.tree(), new.tree(), old.path(), new.cursor_state())
    &&& new.cursor_state().unfolded == unfolded
    &&& new.cursor_state().marked == marked
    &&& new.cursor_state().children == sub.children
    &&& new.path() == old.path()
    &&& new.memory() == old.memory()
    &&& new.offset_spec() == old.offset_spec()
    &&& new.sorting() == old.sorting()
}

/// The i32 arithmetic of `ensure_cursor_within` stays in range, for a view
/// scrolled by `scroll` whose cursor is on screen line `cs`.
pub open spec fn scroll_fits(scroll: int, cs: int, height: int, stride: int) -> bool {
    let fits = |x: int| i32::MIN <= x <= i32::MAX;
    &&& fits(cs - 1)
    &&& fits(cs - 1 - stride)
    &&& (cs - 1 < stride ==> fits(scroll + (cs - 1 - stride)))
    &&& fits(height - stride)
    &&& (!(cs - 1 < stride) && height - stride < cs ==> {
        &&& fits(height - stride - 1)
        &&& fits(cs - 1 - (height - stride - 1))
        &&& fits(scroll + (cs - 1 - (height - stride - 1)))
    })
}

/// The scroll offset that `ensure_cursor_within` settles on.
pub open spec fn clamp_scroll(scroll: int, cs: int, height: int, stride: int) -> int {
    let moved = if cs - 1 < stride {
        scroll + (cs - 1 - stride)
    } else if height - stride < cs {
        scroll + (cs - 1 - (height - stride - 1))
    } else {
        scroll
    };
    if moved < 0 {
        0
    } else {
        moved
    }
}

/// Replacing the state at `p` keeps `p` a path, to the new state.
proof fn lemma_replaced_path(old: State, new: State, p: Seq<usize>, sub: State)
    requires
        valid_path(old, p),
        replaced_at(old, new, p, sub),
    ensures
        valid_path(new, p),
        state_at(new, p) == sub,
    decreases p.len(),
{
    if p.len() > 0 {
        lemma_replaced_path(old.children@[p[0] as int].1, new.children@[p[0] as int].1, p.drop_first(), sub);
    }
}

impl View {
    /// Below a state without children nothing is remembered.
    proof fn lemma_memory_ends_at_leaf(v: View)
        requires
            v.wf(),
            v.cursor_state().children@.len() == 0,
        ensures
            v.memory() == v.path(),
    {
        let n = v.cursor_path_len as int;
        lemma_path_split(v.root, v.cursor@, n);
        if v.cursor@.len() > n {
            let rest = v.cursor@.subrange(n, v.cursor@.len() as int);
            assert(valid_path(state_at(v.root, v.cursor@.subrange(0, n)), rest));
            assert(rest[0] < state_at(v.root, v.cursor@.subrange(0, n)).children@.len());
        }
        assert(v.cursor@ =~= v.cursor@.subrange(0, n));
    }
}


/// Going up then down again comes back along the remembered path: when
/// `v1` is `v0` after `leave` (off the root) and `v2` is `v1` after `enter`,
/// the cursor is where it was and the memory is unchanged.
pub proof fn leave_then_enter(v0: View, v1: View, v2: View)
    requires
        v0.wf(),
        v0.path().len() > 0,
        v1.wf(),
        v1.tree() == v0.tree(),
        v1.memory() == v0.memory(),
        v1.path() == v0.path().drop_last(),
        v2.tree() == v1.tree(),
        v1.cursor_state().children@.len() > 0 ==> {
            let k = if v1.memory().len() == v1.path().len() {
                0usize
            } else {
                v1.memory()[v1.path().len() as int]
            };
            &&& v2.path() == v1.path().push(k)
            &&& v2.memory() == if v1.memory().len() == v1.path().len() {
                v1.memory().push(0)
            } else {
                v1.memory()
            }
        },
    ensures
        v2.path() == v0.path(),
        v2.memory() == v0.memory(),
{
    let p = v0.path();
    let n = p.len() - 1;
    let m = v0.memory();
    lemma_path_prefix(v0.root, m, v0.cursor_path_len as int);
    assert(valid_path(v0.root, p));
    lemma_path_prefix(v0.root, p, n);
    assert(p.subrange(0, n) =~= p.drop_last());
    lemma_path_extend(v0.root, p.drop_last(), p[n]);
    assert(p.drop_last().push(p[n]) =~= p);
    assert(v1.cursor_state() == state_at(v0.root, p.drop_last()));
    assert(m.len() > n);
    assert(m[n] == p[n]);
}


/// The two children have the same position and the same states.
pub open spec fn entry_same(x: (usize, State), y: (usize, State)) -> bool {
    x.0 == y.0 && state_eq(x.1, y.1)
}

/// Two sequences of child states that agree child by child are the same.
proof fn lemma_children_eq_pointwise(a: Seq<(usize, State)>, b: Seq<(usize, State)>)
    requires
        a.len() == b.len(),
        forall|j: int| 0 <= j < a.len() ==> #[trigger] entry_same(a[j], b[j]),
    ensures
        children_eq(a, b),
    decreases a.len(),
{
    if a.len() > 0 {
        let a1 = a.subrange(0, a.len() - 1);
        let b1 = b.subrange(0, b.len() - 1);
        assert forall|j: int| 0 <= j < a1.len() implies #[trigger] entry_same(a1[j], b1[j]) by {
            assert(a1[j] == a[j]);
            assert(b1[j] == b[j]);
            assert(entry_same(a[j], b[j]));
        }
        lemma_children_eq_pointwise(a1, b1);
        assert(entry_same(a[a.len() - 1], b[b.len() - 1]));
    }
}

/// Replacing the state at `p` twice, the second time with one the same as
/// the first state there, gives back the same tree.
proof fn lemma_replaced_twice(t0: State, t1: State, t2: State, p: Seq<usize>, s1: State, s2: State)
    requires
        valid_path(t0, p),
        replaced_at(t0, t1, p, s1),
        replaced_at(t1, t2, p, s2),
        state_eq(s2, state_at(t0, p)),
    ensures
        state_eq(t2, t0),
    decreases p.len(),
{
    if p.len() > 0 {
        let k = p[0] as int;
        lemma_replaced_twice(
            t0.children@[k].1,
            t1.children@[k].1,
            t2.children@[k].1,
            p.drop_first(),
            s1,
            s2,
        );
        assert forall|j: int| 0 <= j < t2.children@.len() implies #[trigger] entry_same(t2.children@[j], t0.children@[j]) by {
            if j != k {
                assert(t2.children@[j] == t0.children@[j]);
                lemma_state_eq_refl(t0.children@[j].1);
            }
        }
        lemma_children_eq_pointwise(t2.children@, t0.children@);
    }
}

/// Flipping the mark of the node under the cursor twice gives the view
/// back: the same states, cursor, memory, offsets and sorting.
pub proof fn toggle_marked_twice(v0: View, v1: View, v2: View)
    requires
        v0.wf(),
        flags_set(v0, v1, v0.cursor_state().unfolded, !v0.cursor_state().marked),
        flags_set(v1, v2, v1.cursor_state().unfolded, !v1.cursor_state().marked),
    ensures
        state_eq(v2.tree(), v0.tree()),
        v2.path() == v0.path(),
        v2.memory() == v0.memory(),
        v2.offset_spec() == v0.offset_spec(),
        v2.sorting() == v0.sorting(),
{
    let p = v0.path();
    lemma_path_prefix(v0.root, v0.memory(), v0.cursor_path_len as int);
    let s0 = v0.cursor_state();
    let s2 = v2.cursor_state();
    assert(s2 == s0);
    lemma_state_eq_refl(s0);
    lemma_replaced_twice(v0.tree(), v1.tree(), v2.tree(), p, v1.cursor_state(), s2);
}

} // verus!
