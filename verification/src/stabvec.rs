use vstd::prelude::*;

verus! {

/// A vector whose keys stay valid: removing an item leaves a hole instead of
/// shifting the items after it, and inserting fills the first hole.
pub struct StabVec<T> {
    slots: Vec<Option<T>>,
    free_slots: usize,
}

/// Number of holes in `s`.
pub open spec fn count_free<T>(s: Seq<Option<T>>) -> nat
    decreases s.len(),
{
    if s.len() == 0 {
        0
    } else {
        count_free(s.drop_last()) + if s.last() is None { 1nat } else { 0nat }
    }
}

/// `s` has no hole at its end.
pub open spec fn no_trailing_hole<T>(s: Seq<Option<T>>) -> bool {
    s.len() == 0 || s.last() is Some
}

/// Index of the first hole of `s`, if any.
pub open spec fn first_free<T>(s: Seq<Option<T>>) -> Option<int> {
    if exists|i: int| 0 <= i < s.len() && s[i] is None {
        Some(choose|i: int| 0 <= i < s.len() && s[i] is None && forall|j: int| 0 <= j < i ==> s[j] is Some)
    } else {
        None
    }
}

/// The slots after inserting `it`, and the key it was given.
pub open spec fn insert_spec<T>(s: Seq<Option<T>>, it: T) -> (Seq<Option<T>>, int) {
    match first_free(s) {
        Some(k) => (s.update(k, Some(it)), k),
        None => (s.push(Some(it)), s.len() as int),
    }
}

/// `s` without its trailing holes.
pub open spec fn trim<T>(s: Seq<Option<T>>) -> Seq<Option<T>>
    decreases s.len(),
{
    if s.len() > 0 && s.last() is None {
        trim(s.drop_last())
    } else {
        s
    }
}

/// The slots after removing the item at `k`.
pub open spec fn remove_spec<T>(s: Seq<Option<T>>, k: int) -> Seq<Option<T>> {
    trim(s.update(k, None))
}

/// The occupied slots of `s`, in key order, with their keys.
pub open spec fn occupied<T>(s: Seq<Option<T>>) -> Seq<(usize, T)>
    decreases s.len(),
{
    if s.len() == 0 {
        Seq::empty()
    } else {
        let rest = occupied(s.drop_last());
        match s.last() {
            Some(t) => rest.push(((s.len() - 1) as usize, t)),
            None => rest,
        }
    }
}

impl<T> View for StabVec<T> {
    type V = Seq<Option<T>>;

    closed spec fn view(&self) -> Seq<Option<T>> {
        self.slots@
    }
}

proof fn lemma_first_free<T>(s: Seq<Option<T>>)
    ensures
        first_free(s) matches Some(k) ==> 0 <= k < s.len() && s[k] is None && forall|j: int|
            0 <= j < k ==> s[j] is Some,
        first_free(s) is None ==> forall|j: int| 0 <= j < s.len() ==> s[j] is Some,
{
    if exists|i: int| 0 <= i < s.len() && s[i] is None {
        let i0 = choose|i: int| 0 <= i < s.len() && s[i] is None;
        lemma_least_free(s, i0);
    }
}

proof fn lemma_least_free<T>(s: Seq<Option<T>>, i: int)
    requires
        0 <= i < s.len(),
        s[i] is None,
    ensures
        exists|k: int| 0 <= k < s.len() && s[k] is None && forall|j: int| 0 <= j < k ==> s[j] is Some,
    decreases i,
{
    if exists|j: int| 0 <= j < i && s[j] is None {
        let j = choose|j: int| 0 <= j < i && s[j] is None;
        lemma_least_free(s, j);
    }
}

proof fn lemma_count_free_update<T>(s: Seq<Option<T>>, k: int, v: Option<T>)
    requires
        0 <= k < s.len(),
    ensures
        count_free(s.update(k, v)) + (if s[k] is None { 1int } else { 0int }) == count_free(s) + (
        if v is None { 1int } else { 0int }),
    decreases s.len(),
{
    let u = s.update(k, v);
    if k == s.len() - 1 {
        assert(u.drop_last() =~= s.drop_last());
    } else {
        lemma_count_free_update(s.drop_last(), k, v);
        assert(u.drop_last() =~= s.drop_last().update(k, v));
    }
}

proof fn lemma_count_free_push<T>(s: Seq<Option<T>>, v: Option<T>)
    ensures
        count_free(s.push(v)) == count_free(s) + if v is None { 1nat } else { 0nat },
{
    assert(s.push(v).drop_last() =~= s);
}

proof fn lemma_count_free_all_some<T>(s: Seq<Option<T>>)
    requires
        forall|j: int| 0 <= j < s.len() ==> s[j] is Some,
    ensures
        count_free(s) == 0,
    decreases s.len(),
{
    if s.len() > 0 {
        lemma_count_free_all_some(s.drop_last());
    }
}

proof fn lemma_trim_props<T>(s: Seq<Option<T>>)
    ensures
        no_trailing_hole(trim(s)),
        trim(s).len() <= s.len(),
        trim(s) =~= s.subrange(0, trim(s).len() as int),
        forall|j: int| trim(s).len() <= j < s.len() ==> s[j] is None,
        count_free(s) == count_free(trim(s)) + (s.len() - trim(s).len()),
    decreases s.len(),
{
    if s.len() > 0 && s.last() is None {
        lemma_trim_props(s.drop_last());
        assert forall|j: int| trim(s).len() <= j < s.len() implies s[j] is None by {
            if j < s.len() - 1 {
                assert(s.drop_last()[j] == s[j]);
            }
        }
    }
}

proof fn lemma_count_free_le<T>(s: Seq<Option<T>>)
    ensures
        count_free(s) <= s.len(),
    decreases s.len(),
{
    if s.len() > 0 {
        lemma_count_free_le(s.drop_last());
    }
}

impl<T> StabVec<T> {
    /// Slot bookkeeping: the hole counter is the number of holes, the last
    /// slot is never a hole, and the slots fit in memory.
    pub closed spec fn wf(&self) -> bool {
        &&& self.free_slots == count_free(self.slots@)
        &&& no_trailing_hole(self.slots@)
        &&& self.slots@.len() <= usize::MAX
    }

    /// A well-formed vector has at most `usize::MAX` slots.
    pub proof fn lemma_wf_len(&self)
        requires
            self.wf(),
        ensures
            self@.len() <= usize::MAX,
    {
    }

    /// An empty vector.
    pub fn new() -> (r: Self)
        ensures
            r.wf(),
            r@ == Seq::<Option<T>>::empty(),
    {
        StabVec { slots: Vec::new(), free_slots: 0 }
    }

    /// A vector holding `items` at keys `0..items.len()`.
    pub fn from_vec(items: Vec<T>) -> (r: Self)
        ensures
            r.wf(),
            r@.len() == items@.len(),
            forall|i: int| 0 <= i < items@.len() ==> r@[i] == Some(items@[i]),
    {
        let mut slots: Vec<Option<T>> = Vec::new();
        let total = items.len();
        let mut items = items;
        let ghost orig = items@;
        let mut rev: Vec<T> = Vec::new();
        while items.len() > 0
            invariant
                rev@.len() + items@.len() == orig.len(),
                items@ =~= orig.subrange(0, items@.len() as int),
                forall|i: int| 0 <= i < rev@.len() ==> rev@[i] == orig[orig.len() - 1 - i],
            decreases items.len(),
        {
            let x = items.pop().unwrap();
            rev.push(x);
        }
        while rev.len() > 0
            invariant
                slots@.len() + rev@.len() == orig.len(),
                forall|i: int| 0 <= i < slots@.len() ==> slots@[i] == Some(orig[i]),
                forall|i: int| 0 <= i < rev@.len() ==> rev@[i] == orig[orig.len() - 1 - i],
            decreases rev.len(),
        {
            let x = rev.pop().unwrap();
            slots.push(Some(x));
        }
        proof {
            lemma_count_free_all_some(slots@);
        }
        assert(slots@.len() == total);
        StabVec { slots, free_slots: 0 }
    }

    /// Put `it` in the first hole, or at the end if there is none; its key.
    pub fn insert(&mut self, it: T) -> (k: usize)
        requires
            old(self).wf(),
            old(self)@.len() < usize::MAX,
        ensures
            final(self).wf(),
            (final(self)@, k as int) == insert_spec(old(self)@, it),
    {
        proof {
            lemma_first_free(self.slots@);
        }
        let mut found: Option<usize> = None;
        if self.free_slots != 0 {
            let mut i: usize = 0;
            while i < self.slots.len() && found.is_none()
                invariant
                    0 <= i <= self.slots@.len(),
                    self.slots@ == old(self).slots@,
                    forall|j: int| 0 <= j < i ==> self.slots@[j] is Some,
                    found matches Some(k) ==> k == i && k < self.slots@.len() && self.slots@[k as int] is None,
                decreases self.slots@.len() - i + if found is None { 1int } else { 0int },
            {
                if self.slots[i].is_none() {
                    found = Some(i);
                } else {
                    i += 1;
                }
            }
            proof {
                if found is None {
                    assert(forall|j: int| 0 <= j < self.slots@.len() ==> self.slots@[j] is Some);
                    if first_free(self.slots@) is Some {
                        let k = first_free(self.slots@)->0;
                        assert(self.slots@[k] is Some);
                    }
                }
            }
        } else {
            proof {
                if first_free(self.slots@) is Some {
                    let k = first_free(self.slots@)->0;
                    lemma_count_free_update(self.slots@, k, Some(it));
                }
            }
        }
        proof {
            if let Some(k) = found {
                assert(self.slots@[k as int] is None);
                assert(first_free(self.slots@) is Some);
                assert(first_free(self.slots@) == Some(k as int)) by {
                    let f = first_free(self.slots@)->0;
                    assert(self.slots@[f] is None);
                    assert(self.slots@[k as int] is None);
                    if f < k {
                        assert(self.slots@[f] is Some);
                    }
                    if k < f {
                        assert(self.slots@[k as int] is Some);
                    }
                }
            }
        }
        match found {
            Some(k) => {
                proof {
                    lemma_count_free_update(self.slots@, k as int, Some(it));
                }
                self.slots.set(k, Some(it));
                self.free_slots = self.free_slots - 1;
                proof {
                    assert(no_trailing_hole(self.slots@));
                }
                k
            },
            None => {
                proof {
                    lemma_count_free_push(self.slots@, Some(it));
                }
                self.slots.push(Some(it));
                self.slots.len() - 1
            },
        }
    }

    /// Take the item at `k` out, leaving a hole (trailing holes are dropped).
    pub fn remove(&mut self, k: usize) -> (r: Option<T>)
        requires
            old(self).wf(),
            k < old(self)@.len(),
        ensures
            final(self).wf(),
            r == old(self)@[k as int],
            final(self)@ == remove_spec(old(self)@, k as int),
    {
        let r = self.slots[k].take();
        proof {
            lemma_count_free_update(old(self).slots@, k as int, None);
            lemma_count_free_le(old(self).slots@);
        }
        assert(self.slots@ == old(self).slots@.update(k as int, None));
        proof {
            lemma_count_free_le(self.slots@);
        }
        assert(r == old(self).slots@[k as int]);
        assert(self.free_slots == count_free(old(self).slots@));
        let len = self.slots.len();
        if r.is_some() {
            assert(count_free(self.slots@) == self.free_slots + 1);
            assert(self.free_slots + 1 <= len);
            self.free_slots = self.free_slots + 1;
        }
        let ghost full = self.slots@;
        proof {
            lemma_trim_props(full);
        }
        while self.slots.len() > 0 && self.slots[self.slots.len() - 1].is_none()
            invariant
                trim(self.slots@) == trim(full),
                self.free_slots == count_free(self.slots@),
            decreases self.slots@.len(),
        {
            let ghost before = self.slots@;
            self.slots.pop();
            proof {
                assert(self.slots@ =~= before.drop_last());
                assert(count_free(before) == count_free(self.slots@) + 1);
            }
            self.free_slots = self.free_slots - 1;
        }
        r
    }

    /// Put `it` at `k`; what was there before.
    pub fn replace(&mut self, k: usize, it: T) -> (r: Option<T>)
        requires
            old(self).wf(),
            k < old(self)@.len(),
        ensures
            final(self).wf(),
            r == old(self)@[k as int],
            final(self)@ == old(self)@.update(k as int, Some(it)),
    {
        proof {
            lemma_count_free_update(self.slots@, k as int, Some(it));
        }
        let mut tmp = Some(it);
        std::mem::swap(&mut self.slots[k], &mut tmp);
        if tmp.is_none() {
            self.free_slots = self.free_slots - 1;
        }
        proof {
            if k == self.slots@.len() - 1 {
                assert(self.slots@.last() is Some);
            } else {
                assert(self.slots@.last() == old(self).slots@.last());
            }
        }
        tmp
    }

    /// The item at `k`, which must be occupied.
    pub fn index(&self, k: usize) -> (r: &T)
        requires
            k < self@.len(),
            self@[k as int] is Some,
        ensures
            Some(*r) == self@[k as int],
    {
        self.slots[k].as_ref().unwrap()
    }

    /// The items in key order.
    pub fn iter(&self) -> (r: Vec<&T>)
        ensures
            r@.len() == occupied(self@).len(),
            forall|i: int| 0 <= i < r@.len() ==> *r@[i] == occupied(self@)[i].1,
    {
        let mut r: Vec<&T> = Vec::new();
        let mut i: usize = 0;
        while i < self.slots.len()
            invariant
                0 <= i <= self.slots@.len(),
                r@.len() == occupied(self.slots@.subrange(0, i as int)).len(),
                forall|j: int|
                    0 <= j < r@.len() ==> *r@[j] == occupied(self.slots@.subrange(0, i as int))[j].1,
            decreases self.slots@.len() - i,
        {
            assert(self.slots@.subrange(0, i + 1).drop_last() =~= self.slots@.subrange(0, i as int));
            if let Some(x) = &self.slots[i] {
                r.push(x);
            }
            i += 1;
        }
        assert(self.slots@.subrange(0, i as int) =~= self.slots@);
        r
    }

    /// The items in key order, each with its key.
    pub fn iter_ref(&self) -> (r: Vec<(usize, &T)>)
        ensures
            r@.len() == occupied(self@).len(),
            forall|i: int|
                0 <= i < r@.len() ==> r@[i].0 == occupied(self@)[i].0 && *r@[i].1 == occupied(
                    self@,
                )[i].1,
    {
        let mut r: Vec<(usize, &T)> = Vec::new();
        let mut i: usize = 0;
        while i < self.slots.len()
            invariant
                0 <= i <= self.slots@.len(),
                r@.len() == occupied(self.slots@.subrange(0, i as int)).len(),
                forall|j: int|
                    0 <= j < r@.len() ==> r@[j].0 == occupied(self.slots@.subrange(0, i as int))[j].0
                        && *r@[j].1 == occupied(self.slots@.subrange(0, i as int))[j].1,
            decreases self.slots@.len() - i,
        {
            assert(self.slots@.subrange(0, i + 1).drop_last() =~= self.slots@.subrange(0, i as int));
            if let Some(x) = &self.slots[i] {
                r.push((i, x));
            }
            i += 1;
        }
        assert(self.slots@.subrange(0, i as int) =~= self.slots@);
        r
    }
}

impl<T> Default for StabVec<T> {
    fn default() -> (r: Self)
        ensures
            r.wf(),
            r@ == Seq::<Option<T>>::empty(),
    {
        StabVec::new()
    }
}

/// Inserting puts the item at the key it returns, and every other occupied
/// key keeps its item.
pub proof fn insert_keeps_keys<T>(v: StabVec<T>, it: T)
    requires
        v.wf(),
    ensures
        ({
            let (s, k) = insert_spec(v@, it);
            &&& 0 <= k < s.len()
            &&& s[k] == Some(it)
            &&& v@[k] is None || k == v@.len()
            &&& forall|j: int| 0 <= j < v@.len() && j != k ==> s[j] == v@[j]
        }),
{
    lemma_first_free(v@);
}

/// Removing empties the key, and every other key below the new length keeps
/// its item; the slots dropped from the end were all holes.
pub proof fn remove_keeps_keys<T>(v: StabVec<T>, k: int)
    requires
        v.wf(),
        0 <= k < v@.len(),
    ensures
        ({
            let s = remove_spec(v@, k);
            &&& s.len() <= v@.len()
            &&& no_trailing_hole(s)
            &&& forall|j: int| 0 <= j < s.len() && j != k ==> s[j] == v@[j]
            &&& k < s.len() ==> s[k] is None
            &&& forall|j: int| s.len() <= j < v@.len() && j != k ==> v@[j] is None
        }),
{
    lemma_trim_props(v@.update(k, None));
    let u = v@.update(k, None);
    let s = trim(u);
    assert forall|j: int| 0 <= j < s.len() && j != k implies s[j] == v@[j] by {
        assert(s[j] == u.subrange(0, s.len() as int)[j]);
    }
    if k < s.len() {
        assert(s[k] == u.subrange(0, s.len() as int)[k]);
    }
    assert forall|j: int| s.len() <= j < v@.len() && j != k implies v@[j] is None by {
        assert(u[j] is None);
    }
}

/// Removing the key that an insertion returned gives the item back and
/// restores the slots as they were.
pub proof fn remove_undoes_insert<T>(v: StabVec<T>, it: T)
    requires
        v.wf(),
    ensures
        ({
            let (s, k) = insert_spec(v@, it);
            &&& s[k] == Some(it)
            &&& remove_spec(s, k) == v@
        }),
{
    lemma_first_free(v@);
    let (s, k) = insert_spec(v@, it);
    let u = s.update(k, None);
    if k == v@.len() {
        assert(u.drop_last() =~= v@);
        assert(trim(u) == trim(v@));
    } else {
        assert(u =~= v@);
    }
    lemma_trim_noop(v@);
}

/// `(k, x)` is listed among the occupied slots exactly when slot `k`
/// holds `x`.
pub proof fn lemma_listed<T>(s: Seq<Option<T>>, k: int, x: T)
    requires
        0 <= k <= usize::MAX,
        s.len() <= usize::MAX,
    ensures
        occupied(s).contains((k as usize, x)) <==> (k < s.len() && s[k] == Some(x)),
    decreases s.len(),
{
    if s.len() > 0 {
        let rest = s.drop_last();
        lemma_listed(rest, k, x);
        if k < s.len() - 1 {
            assert(rest[k] == s[k]);
        }
        match s.last() {
            Some(t) => {
                let r0 = occupied(rest);
                assert(occupied(s) == r0.push(((s.len() - 1) as usize, t)));
                if occupied(s).contains((k as usize, x)) {
                    let i = choose|i: int| 0 <= i < occupied(s).len() && occupied(s)[i] == (k as usize, x);
                    if i < r0.len() {
                        assert(r0[i] == occupied(s)[i]);
                    }
                }
                if k < s.len() && s[k] == Some(x) {
                    if k == s.len() - 1 {
                        assert(occupied(s)[r0.len() as int] == (k as usize, x));
                    } else {
                        let i = choose|i: int| 0 <= i < r0.len() && r0[i] == (k as usize, x);
                        assert(occupied(s)[i] == r0[i]);
                    }
                }
            },
            None => {},
        }
    }
}

/// Inserting gives the least key not listed by `iter_ref`; afterwards the
/// listing holds the new item at that key, and every pair listed before.
pub proof fn insert_in_listing<T>(v: StabVec<T>, it: T)
    requires
        v.wf(),
        v@.len() < usize::MAX,
    ensures
        ({
            let (s, k) = insert_spec(v@, it);
            &&& forall|x: T| !(#[trigger] occupied(v@).contains((k as usize, x)))
            &&& forall|j: int| 0 <= j < k ==> #[trigger] occupied(v@).contains((j as usize, v@[j]->0))
            &&& forall|j: int, x: T|
                0 <= j <= usize::MAX ==> (#[trigger] occupied(s).contains((j as usize, x)) <==> ((j == k && x
                    == it) || occupied(v@).contains((j as usize, x))))
        }),
{
    lemma_first_free(v@);
    let (s, k) = insert_spec(v@, it);
    assert forall|x: T| !(#[trigger] occupied(v@).contains((k as usize, x))) by {
        lemma_listed(v@, k, x);
    }
    assert forall|j: int| 0 <= j < k implies #[trigger] occupied(v@).contains((j as usize, v@[j]->0)) by {
        let x = v@[j]->0;
        lemma_listed(v@, j, x);
    }
    assert forall|j: int, x: T| 0 <= j <= usize::MAX implies (#[trigger] occupied(s).contains((j as usize, x)) <==> ((
    j == k && x == it) || occupied(v@).contains((j as usize, x)))) by {
        lemma_listed(v@, j, x);
        lemma_listed(s, j, x);
        if j < v@.len() && j != k {
            assert(s[j] == v@[j]);
        }
    }
}

/// Removing an occupied key gives its item back; afterwards the listing
/// is the one before without that key.
pub proof fn remove_in_listing<T>(v: StabVec<T>, k: int)
    requires
        v.wf(),
        0 <= k < v@.len(),
        v@[k] is Some,
    ensures
        occupied(v@).contains((k as usize, v@[k]->0)),
        forall|j: int, x: T|
            0 <= j <= usize::MAX ==> (#[trigger] occupied(remove_spec(v@, k)).contains((j as usize, x)) <==> (j
                != k && occupied(v@).contains((j as usize, x)))),
{
    lemma_listed(v@, k, v@[k]->0);
    let u = v@.update(k, None);
    lemma_trim_props(u);
    let s = trim(u);
    assert forall|j: int, x: T| 0 <= j <= usize::MAX implies (#[trigger] occupied(s).contains((j as usize, x)) <==> (j
        != k && occupied(v@).contains((j as usize, x)))) by {
        lemma_listed(v@, j, x);
        lemma_listed(s, j, x);
        if j < s.len() {
            assert(s[j] == u.subrange(0, s.len() as int)[j]);
        }
        if j < v@.len() && j >= s.len() {
            assert(u[j] is None);
        }
    }
}

/// Replacing an occupied key gives what it held; afterwards the listing
/// holds the new item at that key and every other pair as before.
pub proof fn replace_in_listing<T>(v: StabVec<T>, k: int, it: T)
    requires
        v.wf(),
        0 <= k < v@.len(),
    ensures
        forall|j: int, x: T|
            0 <= j <= usize::MAX ==> (#[trigger] occupied(v@.update(k, Some(it))).contains((j as usize, x)) <==> ((j
                == k && x == it) || (j != k && occupied(v@).contains((j as usize, x))))),
{
    let s = v@.update(k, Some(it));
    assert forall|j: int, x: T| 0 <= j <= usize::MAX implies (#[trigger] occupied(s).contains((j as usize, x)) <==> ((
    j == k && x == it) || (j != k && occupied(v@).contains((j as usize, x))))) by {
        lemma_listed(v@, j, x);
        lemma_listed(s, j, x);
    }
}

proof fn lemma_trim_noop<T>(s: Seq<Option<T>>)
    requires
        no_trailing_hole(s),
    ensures
        trim(s) == s,
{
}

} // verus!
