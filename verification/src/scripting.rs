use vstd::prelude::*;

verus! {

/// The range of steps a search takes from `from` in a slice of `len`
/// items: all other items when wrapping, else up to the end (forward) or
/// the start (backward).
pub open spec fn search_steps(len: int, from: int, forward: bool, wrapping: bool) -> (int, int) {
    if wrapping {
        (1, len - 1)
    } else if forward {
        (1, len - from)
    } else {
        (1, from + 1)
    }
}

/// The stride of a search: one forward, or `len - 1` (one back, modulo
/// `len`) backward.
pub open spec fn search_stride(len: int, forward: bool) -> int {
    if forward {
        1
    } else {
        len - 1
    }
}

/// The index the search looks at on step `k`.
pub open spec fn search_pos(len: int, from: int, forward: bool, k: int) -> int {
    (from + k * search_stride(len, forward)) % len
}

/// The index on step `k` is `from + k` moved into the slice: what is left
/// past it when it runs over the end.
proof fn lemma_search_pos_mod(len: int, x: int)
    requires
        0 < len,
        0 <= x < 2 * len,
    ensures
        x < len ==> x % len == x,
        x >= len ==> x % len == x - len,
{
    if x < len {
        vstd::arithmetic::div_mod::lemma_small_mod(x as nat, len as nat);
    } else {
        vstd::arithmetic::div_mod::lemma_mod_multiples_vanish(1, x - len, len);
        vstd::arithmetic::div_mod::lemma_small_mod((x - len) as nat, len as nat);
    }
}

/// The steps of a search, in the terms of its ranges: forward without
/// wrapping it looks at `from + 1`, `from + 2`, ... up to the last index;
/// backward without wrapping at `from - 1`, `from - 2`, ... down to 0;
/// wrapping it looks at every other index of the slice.
pub proof fn search_order(len: int, from: int, forward: bool, wrapping: bool, k: int)
    requires
        0 <= from < len,
        search_steps(len, from, forward, wrapping).0 <= k < search_steps(len, from, forward, wrapping).1,
    ensures
        !wrapping && forward ==> search_pos(len, from, forward, k) == from + k,
        !wrapping && !forward ==> search_pos(len, from, forward, k) == from - k,
        wrapping ==> 0 <= search_pos(len, from, forward, k) < len && search_pos(len, from, forward, k) != from,
{
    if forward {
        assert(k * search_stride(len, forward) == k);
        lemma_search_pos_mod(len, from + k);
    } else {
        assert(k * (len - 1) == len * k + (-k)) by (nonlinear_arith);
        let x = from - k;
        if x >= 0 {
            vstd::arithmetic::div_mod::lemma_mod_multiples_vanish(k, x, len);
            vstd::arithmetic::div_mod::lemma_small_mod(x as nat, len as nat);
            assert(len * k + x == from + k * (len - 1));
        } else {
            vstd::arithmetic::div_mod::lemma_mod_multiples_vanish(k - 1, x + len, len);
            vstd::arithmetic::div_mod::lemma_small_mod((x + len) as nat, len as nat);
            assert(len * (k - 1) + (x + len) == from + k * (len - 1)) by (nonlinear_arith)
                requires
                    x == from - k,
            ;
        }
    }
}

/// Search `slice` from (not including) `from`, forward or backward,
/// wrapping around or not, for the first item `predicate` accepts.
pub fn slice_search<T, F: Fn(&T) -> bool>(
    slice: &[T],
    from: usize,
    predicate: F,
    forward: bool,
    wrapping: bool,
) -> (r: Option<usize>)
    requires
        forall|x: &T| predicate.requires((x,)),
        slice@.len() > 0 && !wrapping && forward ==> from <= slice@.len(),
        slice@.len() > 0 ==> ({
            let (lo, hi) = search_steps(slice@.len() as int, from as int, forward, wrapping);
            hi <= usize::MAX && (hi > lo ==> from + (hi - 1) * search_stride(
                slice@.len() as int,
                forward,
            ) <= usize::MAX)
        }),
    ensures
        slice@.len() == 0 ==> r is None,
        slice@.len() > 0 ==> ({
            let len = slice@.len() as int;
            let (lo, hi) = search_steps(len, from as int, forward, wrapping);
            match r {
                Some(n) => exists|k: int|
                    lo <= k < hi && n == search_pos(len, from as int, forward, k)
                        && predicate.ensures((&slice@[n as int],), true) && forall|j: int|
                        lo <= j < k ==> #[trigger] predicate.ensures(
                            (&slice@[search_pos(len, from as int, forward, j)],),
                            false,
                        ),
                None => forall|j: int|
                    lo <= j < hi ==> #[trigger] predicate.ensures(
                        (&slice@[search_pos(len, from as int, forward, j)],),
                        false,
                    ),
            }
        }),
{
    let len = slice.len();
    if len == 0 {
        return None;
    }
    let dir = if forward {
        1
    } else {
        len - 1
    };
    let hi: usize = if wrapping {
        len - 1
    } else if forward {
        len - from
    } else {
        from + 1
    };
    let mut k: usize = 1;
    while k < hi
        invariant
            len == slice@.len(),
            len > 0,
            dir == search_stride(len as int, forward),
            (1int, hi as int) == search_steps(len as int, from as int, forward, wrapping),
            hi > 1 ==> from + (hi - 1) * dir <= usize::MAX,
            1 <= k,
            forall|x: &T| predicate.requires((x,)),
            forall|j: int|
                1 <= j < k ==> #[trigger] predicate.ensures(
                    (&slice@[search_pos(len as int, from as int, forward, j)],),
                    false,
                ),
        decreases hi - k,
    {
        proof {
            assert(k * dir <= (hi - 1) * dir) by (nonlinear_arith)
                requires
                    k <= hi - 1,
                    0 <= dir,
            ;
        }
        let n = (from + k * dir) % len;
        if predicate(&slice[n]) {
            proof {
                let kk = k as int;
                assert(n == search_pos(len as int, from as int, forward, kk));
                assert(1 <= kk < hi);
                assert(predicate.ensures((&slice@[n as int],), true));
            }
            return Some(n);
        }
        k += 1;
    }
    None
}

} // verus!
