//! Stable ordering by a pair of integers.

use vstd::prelude::*;

verus! {

pub open spec fn key_le(a: (int, int), b: (int, int)) -> bool {
    a.0 < b.0 || (a.0 == b.0 && a.1 <= b.1)
}

/// Where item `k` goes among the first `m` items of `order`: after every item
/// whose key is not greater.
pub open spec fn insert_position(keys: Seq<(int, int)>, order: Seq<int>, k: int, m: int) -> int
    decreases m,
{
    if m <= 0 {
        0
    } else if key_le(keys[order[m - 1]], keys[k]) {
        m
    } else {
        insert_position(keys, order, k, m - 1)
    }
}

/// The indices of the first `n` keys in ascending order of the keys, equal
/// keys in the order in which they came.
pub open spec fn sorted_order(keys: Seq<(int, int)>, n: int) -> Seq<int>
    decreases n,
{
    if n <= 0 {
        Seq::empty()
    } else {
        let before = sorted_order(keys, n - 1);
        before.insert(insert_position(keys, before, n - 1, before.len() as int), n - 1)
    }
}

/// `order` lists each of `0..n` once, keys ascending, ties by index.
pub open spec fn is_stable_order(keys: Seq<(int, int)>, order: Seq<int>, n: int) -> bool {
    &&& order.len() == n
    &&& forall|i: int| #![trigger order[i]] 0 <= i < n ==> 0 <= order[i] < n
    &&& forall|i: int, j: int|
        #![trigger order[i], order[j]]
        0 <= i < j < n ==> order[i] != order[j] && key_le(keys[order[i]], keys[order[j]]) && (
        keys[order[i]] == keys[order[j]] ==> order[i] < order[j])
    &&& forall|k: int| 0 <= k < n ==> #[trigger] order.contains(k)
}

proof fn lemma_insert_position(keys: Seq<(int, int)>, order: Seq<int>, k: int, m: int)
    requires
        0 <= m <= order.len(),
        forall|i: int, j: int|
            #![trigger order[i], order[j]]
            0 <= i < j < order.len() ==> key_le(keys[order[i]], keys[order[j]]),
    ensures
        0 <= insert_position(keys, order, k, m) <= m,
        forall|i: int|
            0 <= i < insert_position(keys, order, k, m) ==> key_le(
                keys[#[trigger] order[i]],
                keys[k],
            ),
        forall|i: int|
            insert_position(keys, order, k, m) <= i < m ==> !key_le(
                keys[#[trigger] order[i]],
                keys[k],
            ),
    decreases m,
{
    if m > 0 {
        if key_le(keys[order[m - 1]], keys[k]) {
            assert forall|i: int| 0 <= i < m implies key_le(keys[#[trigger] order[i]], keys[k]) by {
                if i < m - 1 {
                    assert(key_le(keys[order[i]], keys[order[m - 1]]));
                }
            }
        } else {
            lemma_insert_position(keys, order, k, m - 1);
        }
    }
}

/// Sorting is a stable permutation in ascending order.
pub proof fn lemma_sorted_order(keys: Seq<(int, int)>, n: int)
    requires
        0 <= n <= keys.len(),
    ensures
        is_stable_order(keys, sorted_order(keys, n), n),
    decreases n,
{
    if n > 0 {
        lemma_sorted_order(keys, n - 1);
        let before = sorted_order(keys, n - 1);
        let at = insert_position(keys, before, n - 1, before.len() as int);
        lemma_insert_position(keys, before, n - 1, before.len() as int);
        let order = sorted_order(keys, n);
        assert(order == before.insert(at, n - 1));
        assert forall|i: int, j: int|
            #![trigger order[i], order[j]]
            0 <= i < j < n implies order[i] != order[j] && key_le(keys[order[i]], keys[order[j]])
            && (keys[order[i]] == keys[order[j]] ==> order[i] < order[j]) by {
            let ii = if i < at {
                i
            } else {
                i - 1
            };
            let jj = if j < at {
                j
            } else {
                j - 1
            };
            if i != at {
                assert(order[i] == before[ii]);
            }
            if j != at {
                assert(order[j] == before[jj]);
            }
        }
        assert forall|k: int| 0 <= k < n implies #[trigger] order.contains(k) by {
            if k == n - 1 {
                assert(order[at] == k);
            } else {
                assert(before.contains(k));
                let i = choose|i: int| 0 <= i < before.len() && before[i] == k;
                if i < at {
                    assert(order[i] == k);
                } else {
                    assert(order[i + 1] == k);
                }
            }
        }
    }
}

pub open spec fn keys_view(keys: Seq<(usize, usize)>) -> Seq<(int, int)> {
    Seq::new(keys.len(), |i: int| (keys[i].0 as int, keys[i].1 as int))
}

pub open spec fn indices_view(order: Seq<usize>) -> Seq<int> {
    Seq::new(order.len(), |i: int| order[i] as int)
}

pub open spec fn wide_keys_view(keys: Seq<(usize, u128)>) -> Seq<(int, int)> {
    Seq::new(keys.len(), |i: int| (keys[i].0 as int, keys[i].1 as int))
}

/// The indices of `keys` in ascending order, equal keys in their given order.
pub fn stable_order_wide(keys: &Vec<(usize, u128)>) -> (order: Vec<usize>)
    ensures
        indices_view(order@) == sorted_order(wide_keys_view(keys@), keys@.len() as int),
        is_stable_order(wide_keys_view(keys@), indices_view(order@), keys@.len() as int),
        forall|i: int| 0 <= i < order@.len() ==> #[trigger] order@[i] < keys@.len(),
        order@.len() == keys@.len(),
{
    let ghost kv = wide_keys_view(keys@);
    let mut order: Vec<usize> = Vec::new();
    let mut n: usize = 0;
    assert(indices_view(order@) =~= sorted_order(kv, 0));
    while n < keys.len()
        invariant
            kv == wide_keys_view(keys@),
            n <= keys@.len(),
            order@.len() == n,
            indices_view(order@) == sorted_order(kv, n as int),
            forall|i: int| 0 <= i < order@.len() ==> #[trigger] order@[i] < n,
        decreases keys.len() - n,
    {
        let ghost before = order@;
        let ghost bv = indices_view(before);
        let mut m: usize = order.len();
        while m > 0 && !(keys[order[m - 1]].0 < keys[n].0 || (keys[order[m - 1]].0 == keys[n].0
            && keys[order[m - 1]].1 <= keys[n].1))
            invariant
                kv == wide_keys_view(keys@),
                n < keys@.len(),
                m <= order@.len(),
                order@.len() == n,
                order@ == before,
                bv == indices_view(before),
                forall|i: int| 0 <= i < order@.len() ==> #[trigger] order@[i] < n,
                insert_position(kv, bv, n as int, bv.len() as int) == insert_position(
                    kv,
                    bv,
                    n as int,
                    m as int,
                ),
            decreases m,
        {
            assert(bv[m - 1] == before[m - 1]);
            m = m - 1;
        }
        proof {
            if m > 0 {
                assert(bv[m - 1] == before[m - 1]);
            }
            assert(m == insert_position(kv, bv, n as int, bv.len() as int));
        }
        order.insert(m, n);
        assert(indices_view(order@) =~= bv.insert(m as int, n as int));
        n = n + 1;
    }
    proof {
        lemma_sorted_order(kv, keys@.len() as int);
    }
    order
}

/// The indices of `keys` in ascending order, equal keys in their given order.
pub fn stable_order(keys: &Vec<(usize, usize)>) -> (order: Vec<usize>)
    ensures
        indices_view(order@) == sorted_order(keys_view(keys@), keys@.len() as int),
        is_stable_order(keys_view(keys@), indices_view(order@), keys@.len() as int),
        forall|i: int| 0 <= i < order@.len() ==> #[trigger] order@[i] < keys@.len(),
        order@.len() == keys@.len(),
{
    let mut wide: Vec<(usize, u128)> = Vec::new();
    let mut i: usize = 0;
    while i < keys.len()
        invariant
            i <= keys@.len(),
            wide@.len() == i,
            forall|k: int|
                0 <= k < i ==> (#[trigger] wide@[k]).0 == keys@[k].0 && wide@[k].1 == keys@[k].1,
        decreases keys.len() - i,
    {
        wide.push((keys[i].0, keys[i].1 as u128));
        i = i + 1;
    }
    assert(wide_keys_view(wide@) =~= keys_view(keys@));
    stable_order_wide(&wide)
}

/// Number of the first `m` items of the ascending `s` that are below `x`.
pub open spec fn lower_bound(s: Seq<int>, x: int, m: int) -> int
    decreases m,
{
    if m <= 0 {
        0
    } else if s[m - 1] < x {
        m
    } else {
        lower_bound(s, x, m - 1)
    }
}

/// `s` with `x` in its place, once.
pub open spec fn with_key(s: Seq<int>, x: int) -> Seq<int> {
    let at = lower_bound(s, x, s.len() as int);
    if at < s.len() && s[at] == x {
        s
    } else {
        s.insert(at, x)
    }
}

pub open spec fn is_ascending(s: Seq<int>) -> bool {
    forall|i: int, j: int| #![trigger s[i], s[j]] 0 <= i < j < s.len() ==> s[i] < s[j]
}

pub proof fn lemma_lower_bound(s: Seq<int>, x: int, m: int)
    requires
        is_ascending(s),
        0 <= m <= s.len(),
    ensures
        0 <= lower_bound(s, x, m) <= m,
        forall|i: int| 0 <= i < lower_bound(s, x, m) ==> #[trigger] s[i] < x,
        forall|i: int| lower_bound(s, x, m) <= i < m ==> #[trigger] s[i] >= x,
    decreases m,
{
    if m > 0 {
        if s[m - 1] < x {
            assert forall|i: int| 0 <= i < m implies #[trigger] s[i] < x by {
                if i < m - 1 {
                    assert(s[i] < s[m - 1]);
                }
            }
        } else {
            lemma_lower_bound(s, x, m - 1);
        }
    }
}

/// Putting a key in its place keeps the order and adds just that key.
pub proof fn lemma_with_key(s: Seq<int>, x: int)
    requires
        is_ascending(s),
    ensures
        is_ascending(with_key(s, x)),
        forall|y: int| #[trigger] with_key(s, x).contains(y) <==> (s.contains(y) || y == x),
        with_key(s, x).len() <= s.len() + 1,
{
    lemma_lower_bound(s, x, s.len() as int);
    let at = lower_bound(s, x, s.len() as int);
    let after = with_key(s, x);
    if at < s.len() && s[at] == x {
    } else {
        assert(after == s.insert(at, x));
        assert forall|i: int, j: int| #![trigger after[i], after[j]] 0 <= i < j < after.len() implies after[i]
            < after[j] by {
            let ii = if i < at {
                i
            } else {
                i - 1
            };
            let jj = if j < at {
                j
            } else {
                j - 1
            };
            if i != at {
                assert(after[i] == s[ii]);
            }
            if j != at {
                assert(after[j] == s[jj]);
            }
        }
        assert forall|y: int| #[trigger] after.contains(y) <==> (s.contains(y) || y == x) by {
            if s.contains(y) {
                let i = choose|i: int| 0 <= i < s.len() && s[i] == y;
                if i < at {
                    assert(after[i] == y);
                } else {
                    assert(after[i + 1] == y);
                }
            }
            if y == x {
                assert(after[at] == y);
            }
            if after.contains(y) && y != x {
                let i = choose|i: int| 0 <= i < after.len() && after[i] == y;
                if i < at {
                    assert(s[i] == y);
                } else {
                    assert(s[i - 1] == y);
                }
            }
        }
    }
}

/// Puts `x` in its place, once.
pub fn insert_key(keys: &mut Vec<usize>, x: usize)
    requires
        is_ascending(indices_view(old(keys)@)),
    ensures
        indices_view(final(keys)@) == with_key(indices_view(old(keys)@), x as int),
        is_ascending(indices_view(final(keys)@)),
        old(keys)@.len() <= final(keys)@.len() <= old(keys)@.len() + 1,
        forall|y: int|
            #[trigger] indices_view(final(keys)@).contains(y) <==> (indices_view(
                old(keys)@,
            ).contains(y) || y == x),
{
    let ghost before = keys@;
    let ghost bv = indices_view(before);
    let mut at: usize = keys.len();
    while at > 0 && keys[at - 1] >= x
        invariant
            keys@ == before,
            bv == indices_view(before),
            at <= keys@.len(),
            lower_bound(bv, x as int, bv.len() as int) == lower_bound(bv, x as int, at as int),
        decreases at,
    {
        assert(bv[at - 1] == before[at - 1]);
        at = at - 1;
    }
    proof {
        lemma_with_key(bv, x as int);
        if at > 0 {
            assert(bv[at - 1] == before[at - 1]);
        }
        if at < keys@.len() {
            assert(bv[at as int] == before[at as int]);
        }
    }
    if at < keys.len() && keys[at] == x {
        return;
    }
    keys.insert(at, x);
    assert(indices_view(keys@) =~= bv.insert(at as int, x as int));
}

} // verus!
