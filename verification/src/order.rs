//! Stable ordering of items by integer keys.
use vstd::prelude::*;

verus! {

/// Where an item with key `k` goes in `order` (a list of indices into `keys`):
/// after every leading entry whose key is at most `k`.
pub open spec fn insert_position(order: Seq<usize>, keys: Seq<i64>, k: i64) -> int
    decreases order.len(),
{
    if order.len() == 0 {
        0
    } else if keys[order[0] as int] > k {
        0
    } else {
        1 + insert_position(order.drop_first(), keys, k)
    }
}

/// The indices `0..n` ordered by `keys`, each index placed after those with
/// equal keys that come before it (a stable sort).
pub open spec fn stable_order(keys: Seq<i64>, n: nat) -> Seq<usize>
    decreases n,
{
    if n == 0 {
        seq![]
    } else {
        let o = stable_order(keys, (n - 1) as nat);
        o.insert(insert_position(o, keys, keys[n - 1]), (n - 1) as usize)
    }
}

/// The indices of `keys` in stable ascending order of key.
pub open spec fn sorted_order(keys: Seq<i64>) -> Seq<usize> {
    stable_order(keys, keys.len())
}

/// `order` lists each of `0..n` once, in ascending key order, with ties in
/// ascending index order.
pub open spec fn is_stable_order(order: Seq<usize>, keys: Seq<i64>, n: nat) -> bool {
    &&& order.len() == n
    &&& forall|i: int| 0 <= i < order.len() ==> (#[trigger] order[i]) < n
    &&& forall|i: int, j: int| 0 <= i < j < order.len() ==> order[i] != order[j]
    &&& forall|i: int, j: int|
        0 <= i < j < order.len() ==> keys[#[trigger] order[i] as int] <= keys[#[trigger] order[j] as int]
    &&& forall|i: int, j: int|
        0 <= i < j < order.len() && keys[order[i] as int] == keys[order[j] as int] ==> #[trigger] order[i]
            < #[trigger] order[j]
}

proof fn lemma_insert_position_bounds(order: Seq<usize>, keys: Seq<i64>, k: i64)
    ensures
        0 <= insert_position(order, keys, k) <= order.len(),
    decreases order.len(),
{
    if order.len() > 0 && keys[order[0] as int] <= k {
        lemma_insert_position_bounds(order.drop_first(), keys, k);
    }
}

proof fn lemma_insert_position_split(order: Seq<usize>, keys: Seq<i64>, k: i64)
    requires
        forall|i: int, j: int|
            0 <= i < j < order.len() ==> keys[#[trigger] order[i] as int] <= keys[#[trigger] order[j] as int],
    ensures
        forall|i: int| 0 <= i < insert_position(order, keys, k) ==> keys[#[trigger] order[i] as int] <= k,
        forall|i: int| insert_position(order, keys, k) <= i < order.len() ==> keys[#[trigger] order[i] as int] > k,
    decreases order.len(),
{
    lemma_insert_position_bounds(order, keys, k);
    if order.len() > 0 {
        let t = order.drop_first();
        assert forall|i: int, j: int| 0 <= i < j < t.len() implies keys[#[trigger] t[i] as int] <= keys[#[trigger] t[j] as int] by {
            assert(t[i] == order[i + 1] && t[j] == order[j + 1]);
        }
        if keys[order[0] as int] <= k {
            lemma_insert_position_split(t, keys, k);
            assert forall|i: int| 0 <= i < insert_position(order, keys, k) implies keys[#[trigger] order[i] as int] <= k by {
                if i > 0 {
                    assert(order[i] == t[i - 1]);
                }
            }
            assert forall|i: int| insert_position(order, keys, k) <= i < order.len() implies keys[#[trigger] order[i] as int] > k by {
                assert(order[i] == t[i - 1]);
            }
        } else {
            assert forall|i: int| 0 <= i < order.len() implies keys[#[trigger] order[i] as int] > k by {
                if i > 0 {
                    assert(keys[order[0] as int] <= keys[order[i] as int]);
                }
            }
        }
    }
}

/// The stable order lists every index once, sorted by key, ties by index.
pub proof fn lemma_stable_order(keys: Seq<i64>, n: nat)
    requires
        n <= keys.len(),
        n <= usize::MAX,
    ensures
        is_stable_order(stable_order(keys, n), keys, n),
    decreases n,
{
    if n > 0 {
        let o = stable_order(keys, (n - 1) as nat);
        lemma_stable_order(keys, (n - 1) as nat);
        let k = keys[n - 1];
        let p = insert_position(o, keys, k);
        lemma_insert_position_split(o, keys, k);
        lemma_insert_position_bounds(o, keys, k);
        let r = o.insert(p, (n - 1) as usize);
        assert(r == stable_order(keys, n));
        assert forall|i: int| 0 <= i < r.len() implies (#[trigger] r[i]) < n by {
            if i < p {
                assert(r[i] == o[i]);
            } else if i > p {
                assert(r[i] == o[i - 1]);
            }
        }
        assert forall|i: int, j: int| 0 <= i < j < r.len() implies r[i] != r[j] by {
            if i < p && j < p {
                assert(r[i] == o[i] && r[j] == o[j]);
            } else if i < p && j == p {
                assert(r[i] == o[i]);
            } else if i < p && j > p {
                assert(r[i] == o[i] && r[j] == o[j - 1]);
            } else if i == p {
                assert(r[j] == o[j - 1]);
            } else {
                assert(r[i] == o[i - 1] && r[j] == o[j - 1]);
            }
        }
        assert forall|i: int, j: int|
            0 <= i < j < r.len() implies keys[#[trigger] r[i] as int] <= keys[#[trigger] r[j] as int] by {
            if i < p && j < p {
                assert(r[i] == o[i] && r[j] == o[j]);
            } else if i < p && j == p {
                assert(r[i] == o[i]);
            } else if i < p && j > p {
                assert(r[i] == o[i] && r[j] == o[j - 1]);
            } else if i == p {
                assert(r[j] == o[j - 1]);
            } else {
                assert(r[i] == o[i - 1] && r[j] == o[j - 1]);
            }
        }
        assert forall|i: int, j: int|
            0 <= i < j < r.len() && keys[r[i] as int] == keys[r[j] as int] implies #[trigger] r[i]
                < #[trigger] r[j] by {
            if i < p && j < p {
                assert(r[i] == o[i] && r[j] == o[j]);
            } else if i < p && j == p {
                assert(r[i] == o[i]);
            } else if i < p && j > p {
                assert(r[i] == o[i] && r[j] == o[j - 1]);
            } else if i == p {
                assert(r[j] == o[j - 1]);
                assert(keys[r[j] as int] > k);
            } else {
                assert(r[i] == o[i - 1] && r[j] == o[j - 1]);
            }
        }
    }
}

/// The indices of `keys` in stable ascending order of key.
pub fn stable_sort_order(keys: &Vec<i64>) -> (order: Vec<usize>)
    ensures
        order@ == sorted_order(keys@),
        is_stable_order(order@, keys@, keys@.len()),
{
    let n = keys.len();
    let mut order: Vec<usize> = Vec::new();
    let mut i: usize = 0;
    while i < n
        invariant
            n == keys@.len(),
            i <= n,
            order@ == stable_order(keys@, i as nat),
            forall|q: int| 0 <= q < order@.len() ==> (#[trigger] order@[q]) < i,
            order@.len() == i,
        decreases n - i,
    {
        let k = keys[i];
        let ghost o = order@;
        let mut j: usize = 0;
        proof {
            assert(o.skip(0) =~= o);
        }
        while j < order.len() && keys[order[j]] <= k
            invariant
                n == keys@.len(),
                i < n,
                order@ == o,
                o.len() == i,
                forall|q: int| 0 <= q < o.len() ==> (#[trigger] o[q]) < i,
                j <= o.len(),
                insert_position(o, keys@, k) == j + insert_position(o.skip(j as int), keys@, k),
            decreases o.len() - j,
        {
            proof {
                assert(o.skip(j as int).drop_first() =~= o.skip(j + 1));
                assert(o.skip(j as int)[0] == o[j as int]);
            }
            j = j + 1;
        }
        proof {
            if j < o.len() {
                assert(o.skip(j as int)[0] == o[j as int]);
            }
            assert(insert_position(o, keys@, k) == j);
        }
        order.insert(j, i);
        proof {
            assert forall|q: int| 0 <= q < order@.len() implies (#[trigger] order@[q]) < i + 1 by {
                if q < j {
                    assert(order@[q] == o[q]);
                } else if q > j {
                    assert(order@[q] == o[q - 1]);
                }
            }
        }
        i = i + 1;
    }
    proof {
        lemma_stable_order(keys@, n as nat);
    }
    order
}

/// `insert_position` for unsigned keys.
pub open spec fn insert_position_usize(order: Seq<usize>, keys: Seq<usize>, k: usize) -> int
    decreases order.len(),
{
    if order.len() == 0 {
        0
    } else if keys[order[0] as int] > k {
        0
    } else {
        1 + insert_position_usize(order.drop_first(), keys, k)
    }
}

/// `stable_order` for unsigned keys: the indices `0..n` ordered by key, each
/// placed after the earlier ones with equal keys.
pub open spec fn stable_order_usize(keys: Seq<usize>, n: nat) -> Seq<usize>
    decreases n,
{
    if n == 0 {
        seq![]
    } else {
        let o = stable_order_usize(keys, (n - 1) as nat);
        o.insert(insert_position_usize(o, keys, keys[n - 1]), (n - 1) as usize)
    }
}

proof fn lemma_insert_position_usize_bounds(order: Seq<usize>, keys: Seq<usize>, k: usize)
    ensures
        0 <= insert_position_usize(order, keys, k) <= order.len(),
    decreases order.len(),
{
    if order.len() > 0 && keys[order[0] as int] <= k {
        lemma_insert_position_usize_bounds(order.drop_first(), keys, k);
    }
}

/// The indices of `keys` in stable ascending order of key.
pub fn stable_sort_order_usize(keys: &Vec<usize>) -> (order: Vec<usize>)
    ensures
        order@ == stable_order_usize(keys@, keys@.len()),
        forall|q: int| 0 <= q < order@.len() ==> (#[trigger] order@[q]) < keys@.len(),
        order@.len() == keys@.len(),
{
    let n = keys.len();
    let mut order: Vec<usize> = Vec::new();
    let mut i: usize = 0;
    while i < n
        invariant
            n == keys@.len(),
            i <= n,
            order@ == stable_order_usize(keys@, i as nat),
            forall|q: int| 0 <= q < order@.len() ==> (#[trigger] order@[q]) < i,
            order@.len() == i,
        decreases n - i,
    {
        let k = keys[i];
        let ghost o = order@;
        let mut j: usize = 0;
        proof {
            assert(o.skip(0) =~= o);
        }
        while j < order.len() && keys[order[j]] <= k
            invariant
                n == keys@.len(),
                i < n,
                order@ == o,
                o.len() == i,
                forall|q: int| 0 <= q < o.len() ==> (#[trigger] o[q]) < i,
                j <= o.len(),
                insert_position_usize(o, keys@, k) == j + insert_position_usize(o.skip(j as int), keys@, k),
            decreases o.len() - j,
        {
            proof {
                assert(o.skip(j as int).drop_first() =~= o.skip(j + 1));
                assert(o.skip(j as int)[0] == o[j as int]);
            }
            j = j + 1;
        }
        proof {
            if j < o.len() {
                assert(o.skip(j as int)[0] == o[j as int]);
            }
            assert(insert_position_usize(o, keys@, k) == j);
            lemma_insert_position_usize_bounds(o, keys@, k);
        }
        order.insert(j, i);
        proof {
            assert forall|q: int| 0 <= q < order@.len() implies (#[trigger] order@[q]) < i + 1 by {
                if q < j {
                    assert(order@[q] == o[q]);
                } else if q > j {
                    assert(order@[q] == o[q - 1]);
                }
            }
        }
        i = i + 1;
    }
    order
}

/// `is_stable_order` for unsigned keys: `order` lists each of `0..n` once,
/// in ascending key order, with ties in ascending index order.
pub open spec fn is_stable_order_usize(order: Seq<usize>, keys: Seq<usize>, n: nat) -> bool {
    &&& order.len() == n
    &&& forall|i: int| 0 <= i < order.len() ==> (#[trigger] order[i]) < n
    &&& forall|i: int, j: int| 0 <= i < j < order.len() ==> order[i] != order[j]
    &&& forall|i: int, j: int|
        0 <= i < j < order.len() ==> keys[#[trigger] order[i] as int] <= keys[#[trigger] order[j] as int]
    &&& forall|i: int, j: int|
        0 <= i < j < order.len() && keys[order[i] as int] == keys[order[j] as int] ==> #[trigger] order[i]
            < #[trigger] order[j]
}

proof fn lemma_insert_position_usize_split(order: Seq<usize>, keys: Seq<usize>, k: usize)
    requires
        forall|i: int, j: int|
            0 <= i < j < order.len() ==> keys[#[trigger] order[i] as int] <= keys[#[trigger] order[j] as int],
    ensures
        forall|i: int| 0 <= i < insert_position_usize(order, keys, k) ==> keys[#[trigger] order[i] as int] <= k,
        forall|i: int| insert_position_usize(order, keys, k) <= i < order.len() ==> keys[#[trigger] order[i] as int] > k,
    decreases order.len(),
{
    lemma_insert_position_usize_bounds(order, keys, k);
    if order.len() > 0 {
        let t = order.drop_first();
        assert forall|i: int, j: int| 0 <= i < j < t.len() implies keys[#[trigger] t[i] as int] <= keys[#[trigger] t[j] as int] by {
            assert(t[i] == order[i + 1] && t[j] == order[j + 1]);
        }
        if keys[order[0] as int] <= k {
            lemma_insert_position_usize_split(t, keys, k);
            assert forall|i: int| 0 <= i < insert_position_usize(order, keys, k) implies keys[#[trigger] order[i] as int] <= k by {
                if i > 0 {
                    assert(order[i] == t[i - 1]);
                }
            }
            assert forall|i: int| insert_position_usize(order, keys, k) <= i < order.len() implies keys[#[trigger] order[i] as int] > k by {
                assert(order[i] == t[i - 1]);
            }
        } else {
            assert forall|i: int| 0 <= i < order.len() implies keys[#[trigger] order[i] as int] > k by {
                if i > 0 {
                    assert(keys[order[0] as int] <= keys[order[i] as int]);
                }
            }
        }
    }
}

/// The stable order lists every index once, sorted by key, ties by index.
pub proof fn lemma_stable_order_usize(keys: Seq<usize>, n: nat)
    requires
        n <= keys.len(),
        n <= usize::MAX,
    ensures
        is_stable_order_usize(stable_order_usize(keys, n), keys, n),
    decreases n,
{
    if n > 0 {
        let o = stable_order_usize(keys, (n - 1) as nat);
        lemma_stable_order_usize(keys, (n - 1) as nat);
        let k = keys[n - 1];
        let p = insert_position_usize(o, keys, k);
        lemma_insert_position_usize_split(o, keys, k);
        lemma_insert_position_usize_bounds(o, keys, k);
        let r = o.insert(p, (n - 1) as usize);
        assert(r == stable_order_usize(keys, n));
        assert forall|i: int| 0 <= i < r.len() implies (#[trigger] r[i]) < n by {
            if i < p {
                assert(r[i] == o[i]);
            } else if i > p {
                assert(r[i] == o[i - 1]);
            }
        }
        assert forall|i: int, j: int| 0 <= i < j < r.len() implies r[i] != r[j] by {
            if i < p && j < p {
                assert(r[i] == o[i] && r[j] == o[j]);
            } else if i < p && j == p {
                assert(r[i] == o[i]);
            } else if i < p && j > p {
                assert(r[i] == o[i] && r[j] == o[j - 1]);
            } else if i == p {
                assert(r[j] == o[j - 1]);
            } else {
                assert(r[i] == o[i - 1] && r[j] == o[j - 1]);
            }
        }
        assert forall|i: int, j: int|
            0 <= i < j < r.len() implies keys[#[trigger] r[i] as int] <= keys[#[trigger] r[j] as int] by {
            if i < p && j < p {
                assert(r[i] == o[i] && r[j] == o[j]);
            } else if i < p && j == p {
                assert(r[i] == o[i]);
            } else if i < p && j > p {
                assert(r[i] == o[i] && r[j] == o[j - 1]);
            } else if i == p {
                assert(r[j] == o[j - 1]);
            } else {
                assert(r[i] == o[i - 1] && r[j] == o[j - 1]);
            }
        }
        assert forall|i: int, j: int|
            0 <= i < j < r.len() && keys[r[i] as int] == keys[r[j] as int] implies #[trigger] r[i]
                < #[trigger] r[j] by {
            if i < p && j < p {
                assert(r[i] == o[i] && r[j] == o[j]);
            } else if i < p && j == p {
                assert(r[i] == o[i]);
            } else if i < p && j > p {
                assert(r[i] == o[i] && r[j] == o[j - 1]);
            } else if i == p {
                assert(r[j] == o[j - 1]);
                assert(keys[r[j] as int] > k);
            } else {
                assert(r[i] == o[i - 1] && r[j] == o[j - 1]);
            }
        }
    }
}

/// An order that lists `n` distinct positions below `n` lists each of them.
pub proof fn lemma_order_onto(o: Seq<usize>, n: nat, x: int)
    requires
        o.len() == n,
        forall|i: int| 0 <= i < o.len() ==> (#[trigger] o[i]) < n,
        forall|i: int, j: int| 0 <= i < j < o.len() ==> o[i] != o[j],
        0 <= x < n,
    ensures
        exists|k: int| 0 <= k < n && o[k] == x,
{
    let s = o.map_values(|u: usize| u as int);
    assert(s.no_duplicates()) by {
        assert forall|i: int, j: int| 0 <= i < s.len() && 0 <= j < s.len() && i != j implies s[i] != s[j] by {
            if i < j {
                assert(o[i] != o[j]);
            } else {
                assert(o[j] != o[i]);
            }
        }
    }
    s.unique_seq_to_set();
    vstd::seq_lib::seq_to_set_is_finite(s);
    vstd::set_lib::lemma_int_range(0, n as int);
    let r = vstd::set_lib::set_int_range(0, n as int);
    assert(s.to_set().subset_of(r)) by {
        assert forall|v: int| s.to_set().contains(v) implies r.contains(v) by {
            let k = choose|k: int| 0 <= k < s.len() && s[k] == v;
            assert(o[k] < n);
        }
    }
    vstd::set_lib::lemma_subset_equality(s.to_set(), r);
    assert(r.contains(x));
    assert(s.to_set().contains(x));
    let k = choose|k: int| 0 <= k < s.len() && s[k] == x;
    assert(o[k] == x);
}

} // verus!
