use vstd::prelude::*;

verus! {

/// The outcome of comparing two items.
#[derive(Clone, Copy, PartialEq, Eq, Structural)]
pub enum Order {
    Less,
    Equal,
    Greater,
}

/// How a `FisoVec` is filtered and sorted: `keep` says which items are
/// shown, `compare` orders them by a total preorder `le`.
pub trait FilterSorter<T> {
    /// Whether `a` comes no later than `b`.
    spec fn le(&self, a: T, b: T) -> bool;

    /// Whether `a` is shown.
    spec fn keeps(&self, a: T) -> bool;

    /// Any two items are ordered one way or the other.
    proof fn le_total(&self, a: T, b: T)
        ensures
            self.le(a, b) || self.le(b, a),
    ;

    /// The order is transitive.
    proof fn le_transitive(&self, a: T, b: T, c: T)
        requires
            self.le(a, b),
            self.le(b, c),
        ensures
            self.le(a, c),
    ;

    /// Compare `a` with `b`.
    fn compare(&self, a: &T, b: &T) -> (r: Order)
        ensures
            r is Less <==> (self.le(*a, *b) && !self.le(*b, *a)),
            r is Greater <==> (self.le(*b, *a) && !self.le(*a, *b)),
            r is Equal <==> (self.le(*a, *b) && self.le(*b, *a)),
    ;

    /// Whether `a` is shown.
    fn keep(&self, a: &T) -> (r: bool)
        ensures
            r == self.keeps(*a),
    ;
}

/// A vector with a filtered and sorted selection of its items: the items
/// stay where they are, `indices` lists the shown ones in display order.
pub struct FisoVec<T> {
    inner: Vec<T>,
    indices: Vec<usize>,
}

/// `s` lists the indices below `n` of the items that `keep` accepts, each
/// once, none other.
pub open spec fn selects(s: Seq<usize>, n: int, keep: spec_fn(int) -> bool) -> bool {
    &&& forall|i: int| 0 <= i < s.len() ==> s[i] < n && keep(s[i] as int)
    &&& forall|i: int, j: int| 0 <= i < j < s.len() ==> s[i] != s[j]
    &&& forall|k: int| 0 <= k < n && #[trigger] keep(k) ==> s.contains(k as usize)
}

/// How many of the indices below `n` `keep` accepts.
pub open spec fn kept_count(n: int, keep: spec_fn(int) -> bool) -> nat
    decreases n,
{
    if n <= 0 {
        0
    } else {
        kept_count(n - 1, keep) + if keep(n - 1) {
            1nat
        } else {
            0nat
        }
    }
}

/// The indices below `n` that `keep` accepts.
pub open spec fn kept_set(n: int, keep: spec_fn(int) -> bool) -> Set<usize> {
    Set::new(|k: usize| k < n && keep(k as int))
}

proof fn lemma_kept_set(n: int, keep: spec_fn(int) -> bool)
    requires
        0 <= n <= usize::MAX + 1,
    ensures
        kept_set(n, keep).finite(),
        kept_set(n, keep).len() == kept_count(n, keep),
    decreases n,
{
    if n == 0 {
        assert(kept_set(n, keep) =~= Set::<usize>::empty());
    } else {
        lemma_kept_set(n - 1, keep);
        let prev = kept_set(n - 1, keep);
        if keep(n - 1) {
            assert(kept_set(n, keep) =~= prev.insert((n - 1) as usize));
        } else {
            assert(kept_set(n, keep) =~= prev);
        }
    }
}

/// As many items are shown as are kept, each once: the indices a
/// `filter_sort` shows number the items its sorter keeps.
pub proof fn selects_count(s: Seq<usize>, n: int, keep: spec_fn(int) -> bool)
    requires
        selects(s, n, keep),
        0 <= n <= usize::MAX + 1,
    ensures
        s.len() == kept_count(n, keep),
        s.no_duplicates(),
{
    assert(s.no_duplicates());
    s.unique_seq_to_set();
    assert forall|k: usize| #[trigger] s.to_set().contains(k) <==> kept_set(n, keep).contains(k) by {
        if s.to_set().contains(k) {
            let i = choose|i: int| 0 <= i < s.len() && s[i] == k;
        }
        if kept_set(n, keep).contains(k) {
            assert(keep(k as int));
        }
    }
    assert(s.to_set() =~= kept_set(n, keep));
    lemma_kept_set(n, keep);
}

impl<T> FisoVec<T> {
    /// All the items, in place.
    pub closed spec fn items(&self) -> Seq<T> {
        self.inner@
    }

    /// The indices of the shown items, in display order.
    pub closed spec fn shown(&self) -> Seq<usize> {
        self.indices@
    }

    /// Every shown index points to an item.
    pub open spec fn wf(&self) -> bool {
        forall|i: int| 0 <= i < self.shown().len() ==> self.shown()[i] < self.items().len()
    }

    /// All of `items`, shown in their order.
    pub fn from_vec(items: Vec<T>) -> (r: Self)
        ensures
            r.items() == items@,
            r.shown().len() == items@.len(),
            forall|i: int| 0 <= i < items@.len() ==> r.shown()[i] == i,
            r.wf(),
    {
        let n = items.len();
        let mut indices: Vec<usize> = Vec::new();
        let mut i: usize = 0;
        while i < n
            invariant
                0 <= i <= n,
                indices@.len() == i,
                forall|j: int| 0 <= j < i ==> indices@[j] == j,
            decreases n - i,
        {
            indices.push(i);
            i += 1;
        }
        FisoVec { inner: items, indices }
    }

    /// Show the items `with` keeps, sorted by its order (ties in no
    /// particular order).
    pub fn filter_sort<F: FilterSorter<T>>(&mut self, with: &F)
        ensures
            final(self).items() == old(self).items(),
            final(self).wf(),
            selects(
                final(self).shown(),
                old(self).items().len() as int,
                |k: int| with.keeps(old(self).items()[k]),
            ),
            forall|i: int, j: int|
                0 <= i < j < final(self).shown().len() ==> with.le(
                    old(self).items()[final(self).shown()[i] as int],
                    old(self).items()[final(self).shown()[j] as int],
                ),
    {
        let n = self.inner.len();
        let ghost items = self.inner@;
        let ghost keep = |k: int| with.keeps(items[k]);
        let mut sel: Vec<usize> = Vec::new();
        let mut k: usize = 0;
        while k < n
            invariant
                n == items.len(),
                items == self.inner@,
                keep == (|k: int| with.keeps(items[k])),
                0 <= k <= n,
                forall|i: int| 0 <= i < sel@.len() ==> sel@[i] < k && keep(sel@[i] as int),
                forall|i: int, j: int| 0 <= i < j < sel@.len() ==> sel@[i] != sel@[j],
                forall|q: int| 0 <= q < k && #[trigger] keep(q) ==> sel@.contains(q as usize),
                forall|i: int, j: int|
                    0 <= i < j < sel@.len() ==> with.le(items[sel@[i] as int], items[sel@[j] as int]),
            decreases n - k,
        {
            if with.keep(&self.inner[k]) {
                // insert after every item that does not come later
                let mut p: usize = 0;
                while p < sel.len() && with.compare(&self.inner[k], &self.inner[sel[p]]) != Order::Less
                    invariant
                        n == items.len(),
                        items == self.inner@,
                        k < n,
                        0 <= p <= sel@.len(),
                        forall|i: int| 0 <= i < sel@.len() ==> sel@[i] < k,
                        forall|i: int| 0 <= i < p ==> with.le(items[sel@[i] as int], items[k as int]),
                    decreases sel@.len() - p,
                {
                    proof {
                        with.le_total(items[k as int], items[sel@[p as int] as int]);
                    }
                    p += 1;
                }
                let ghost before = sel@;
                proof {
                    if p < sel@.len() {
                        assert forall|i: int| p <= i < before.len() implies with.le(
                            items[k as int],
                            items[before[i] as int],
                        ) by {
                            if i > p {
                                with.le_transitive(
                                    items[k as int],
                                    items[before[p as int] as int],
                                    items[before[i] as int],
                                );
                            }
                        }
                    }
                }
                sel.insert(p, k);
                proof {
                    assert forall|i: int, j: int| 0 <= i < j < sel@.len() implies with.le(
                        items[sel@[i] as int],
                        items[sel@[j] as int],
                    ) by {
                        if j < p {
                        } else if j == p {
                        } else if i < p {
                            with.le_transitive(
                                items[before[i] as int],
                                items[k as int],
                                items[before[j - 1] as int],
                            );
                        } else if i == p {
                        } else {
                        }
                    }
                    assert forall|q: int| 0 <= q < k + 1 && #[trigger] keep(q) implies sel@.contains(
                        q as usize,
                    ) by {
                        if q == k {
                            assert(sel@[p as int] == k);
                        } else {
                            assert(before.contains(q as usize));
                            let w = choose|w: int| 0 <= w < before.len() && before[w] == q as usize;
                            if w < p {
                                assert(sel@[w] == q as usize);
                            } else {
                                assert(sel@[w + 1] == q as usize);
                            }
                        }
                    }
                }
            } else {
                proof {
                    assert forall|q: int| 0 <= q < k + 1 && #[trigger] keep(q) implies sel@.contains(
                        q as usize,
                    ) by {
                        if q == k {
                            assert(false);
                        }
                    }
                }
            }
            k += 1;
        }
        self.indices = sel;
    }

    /// Number of shown items.
    pub fn len(&self) -> (r: usize)
        ensures
            r == self.shown().len(),
    {
        self.indices.len()
    }

    /// The shown items, in display order.
    pub fn iter(&self) -> (r: Vec<&T>)
        requires
            self.wf(),
        ensures
            r@.len() == self.shown().len(),
            forall|i: int| 0 <= i < r@.len() ==> *r@[i] == self.items()[self.shown()[i] as int],
    {
        let mut r: Vec<&T> = Vec::new();
        let mut i: usize = 0;
        while i < self.indices.len()
            invariant
                self.wf(),
                0 <= i <= self.indices@.len(),
                r@.len() == i,
                forall|j: int| 0 <= j < i ==> *r@[j] == self.inner@[self.indices@[j] as int],
            decreases self.indices@.len() - i,
        {
            assert(self.shown()[i as int] < self.items().len());
            r.push(&self.inner[self.indices[i]]);
            i += 1;
        }
        r
    }

    /// The `i`-th shown item.
    pub fn index(&self, i: usize) -> (r: &T)
        requires
            i < self.shown().len(),
            self.shown()[i as int] < self.items().len(),
        ensures
            *r == self.items()[self.shown()[i as int] as int],
    {
        &self.inner[self.indices[i]]
    }

    /// All the items, in place, as a slice.
    pub fn as_slice(&self) -> (r: &[T])
        ensures
            r@ == self.items(),
    {
        self.inner.as_slice()
    }

    /// All the items, in place.
    pub fn into_inner(self) -> (r: Vec<T>)
        ensures
            r@ == self.items(),
    {
        self.inner
    }

    /// Take the item at `k` out of the items (the shown indices are left as
    /// they are).
    pub(crate) fn inner_remove(&mut self, k: usize) -> (r: T)
        requires
            k < old(self).items().len(),
        ensures
            r == old(self).items()[k as int],
            final(self).items() == old(self).items().remove(k as int),
            final(self).shown() == old(self).shown(),
    {
        self.inner.remove(k)
    }
}

impl<T> Default for FisoVec<T> {
    /// No items, none shown.
    fn default() -> (r: Self)
        ensures
            r.items().len() == 0,
            r.shown().len() == 0,
            r.wf(),
    {
        FisoVec { inner: Vec::new(), indices: Vec::new() }
    }
}


/// However many times a vector is filtered and sorted, its items stay as
/// they were: `states` are the vector after each `filter_sort`, each
/// keeping the items of the one before, and the last gives back the items
/// of the first.
pub proof fn items_survive_filter_sorts<T>(states: Seq<FisoVec<T>>)
    requires
        states.len() > 0,
        forall|i: int| 0 < i < states.len() ==> #[trigger] states[i].items() == states[i - 1].items(),
    ensures
        states.last().items() == states[0].items(),
    decreases states.len(),
{
    if states.len() > 1 {
        let prev = states.drop_last();
        assert forall|i: int| 0 < i < prev.len() implies #[trigger] prev[i].items() == prev[i - 1].items() by {
            assert(prev[i] == states[i]);
            assert(prev[i - 1] == states[i - 1]);
            assert(states[i].items() == states[i - 1].items());
        }
        items_survive_filter_sorts(prev);
        assert(states[states.len() - 1].items() == states[states.len() - 2].items());
    }
}

} // verus!
