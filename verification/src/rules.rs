//! Productions as plain data: which alternatives a symbol owns.

use crate::grammar::{productions_view, Production};
use vstd::prelude::*;

verus! {

/// The positions, among the first `k` keys, of the keys equal to `s`, in
/// order.
pub open spec fn positions(keys: Seq<u32>, s: int, k: int) -> Seq<int>
    decreases k,
{
    if k <= 0 {
        Seq::empty()
    } else if keys[k - 1] == s {
        positions(keys, s, k - 1).push(k - 1)
    } else {
        positions(keys, s, k - 1)
    }
}

/// The left-hand sides of a list of rules.
pub open spec fn owners(rules: Seq<(u32, Seq<u32>)>) -> Seq<u32> {
    rules.map_values(|r: (u32, Seq<u32>)| r.0)
}

/// The positions of all productions that `s` owns, in order.
pub open spec fn alternatives_of(rules: Seq<(u32, Seq<u32>)>, s: int) -> Seq<int> {
    positions(owners(rules), s, rules.len() as int)
}

/// Whether `s` owns no production: it is a terminal of the grammar.
pub open spec fn is_terminal(rules: Seq<(u32, Seq<u32>)>, s: int) -> bool {
    alternatives_of(rules, s).len() == 0
}

/// The positions in a row of an index, as numbers.
pub open spec fn row_view(row: Vec<usize>) -> Seq<int> {
    row@.map_values(|i: usize| i as int)
}

/// Whether an index holds, for each key below its length, the positions of
/// that key.
pub open spec fn indexes(index: Seq<Vec<usize>>, keys: Seq<u32>) -> bool {
    forall|s: int|
        0 <= s < index.len() ==> row_view(#[trigger] index[s]) == positions(
            keys,
            s,
            keys.len() as int,
        )
}

/// Every position found among the first `k` keys is below `k` and holds the
/// key that was looked for.
pub proof fn lemma_positions_sound(keys: Seq<u32>, s: int, k: int)
    requires
        k <= keys.len(),
    ensures
        forall|j: int|
            0 <= j < positions(keys, s, k).len() ==> {
                let i = #[trigger] positions(keys, s, k)[j];
                0 <= i < k && keys[i] == s
            },
    decreases k,
{
    if k > 0 {
        lemma_positions_sound(keys, s, k - 1);
        let prev = positions(keys, s, k - 1);
        let cur = positions(keys, s, k);
        assert forall|j: int| 0 <= j < cur.len() implies {
            let i = #[trigger] cur[j];
            0 <= i < k && keys[i] == s
        } by {
            if j < prev.len() {
                assert(cur[j] == prev[j]);
            }
        }
    }
}

/// Every place among the first `k` that holds the key is among the positions
/// found.
pub proof fn lemma_positions_complete(keys: Seq<u32>, s: int, k: int, i: int)
    requires
        0 <= i < k <= keys.len(),
        keys[i] == s,
    ensures
        positions(keys, s, k).contains(i),
    decreases k,
{
    if i == k - 1 {
        let a = positions(keys, s, k - 1);
        assert(a.push(k - 1)[a.len() as int] == k - 1);
    } else {
        lemma_positions_complete(keys, s, k - 1, i);
        let a = positions(keys, s, k - 1);
        let j = choose|j: int| 0 <= j < a.len() && a[j] == i;
        if keys[k - 1] == s {
            assert(a.push(k - 1)[j] == i);
        }
    }
}

/// A key that no place holds has no position.
pub proof fn lemma_positions_none(keys: Seq<u32>, s: int, k: int)
    requires
        k <= keys.len(),
        forall|i: int| 0 <= i < k ==> keys[i] != s,
    ensures
        positions(keys, s, k).len() == 0,
    decreases k,
{
    if k > 0 {
        lemma_positions_none(keys, s, k - 1);
    }
}

/// The largest of the first `k` keys, and -1 where there is none.
pub open spec fn max_key(keys: Seq<u32>, k: int) -> int
    decreases k,
{
    if k <= 0 {
        -1
    } else if keys[k - 1] > max_key(keys, k - 1) {
        keys[k - 1] as int
    } else {
        max_key(keys, k - 1)
    }
}

/// How many numbers the keys span: one more than the largest key.
pub open spec fn key_span(keys: Seq<u32>) -> int {
    max_key(keys, keys.len() as int) + 1
}

/// No key among the first `k` is above the largest of them.
pub proof fn lemma_max_key_bounds(keys: Seq<u32>, k: int)
    requires
        k <= keys.len(),
    ensures
        -1 <= max_key(keys, k) <= u32::MAX,
        forall|i: int| 0 <= i < k ==> keys[i] <= max_key(keys, k),
    decreases k,
{
    if k > 0 {
        lemma_max_key_bounds(keys, k - 1);
    }
}

/// A number at or above the span of the keys is no key.
pub proof fn lemma_beyond_span(keys: Seq<u32>, s: int)
    requires
        s >= key_span(keys),
    ensures
        positions(keys, s, keys.len() as int).len() == 0,
{
    lemma_max_key_bounds(keys, keys.len() as int);
    lemma_positions_none(keys, s, keys.len() as int);
}

/// The span of the keys, unless a key is `u32::MAX`.
pub fn span_of(keys: &Vec<u32>) -> (n: Option<usize>)
    ensures
        match n {
            Some(n) => n == key_span(keys@) && n <= u32::MAX,
            None => key_span(keys@) > u32::MAX,
        },
{
    let mut n: usize = 0;
    let mut k: usize = 0;
    while k < keys.len()
        invariant
            k <= keys.len(),
            n == max_key(keys@, k as int) + 1,
            n <= u32::MAX,
        decreases keys.len() - k,
    {
        let key = keys[k];
        if key == u32::MAX {
            proof {
                lemma_max_key_grows(keys@, k + 1, keys@.len() as int);
            }
            return None;
        }
        if key as usize >= n {
            n = key as usize + 1;
        }
        k += 1;
    }
    Some(n)
}

/// The largest key does not shrink when more keys are looked at.
pub proof fn lemma_max_key_grows(keys: Seq<u32>, k: int, m: int)
    requires
        k <= m <= keys.len(),
    ensures
        max_key(keys, k) <= max_key(keys, m),
    decreases m - k,
{
    if k < m {
        lemma_max_key_grows(keys, k, m - 1);
    }
}

/// For each key below `n`, the positions at which `keys` holds it.
pub fn index_keys(keys: &Vec<u32>, n: usize) -> (index: Vec<Vec<usize>>)
    ensures
        index@.len() == n,
        indexes(index@, keys@),
{
    let mut index: Vec<Vec<usize>> = Vec::new();
    let mut s: usize = 0;
    while s < n
        invariant
            s <= n,
            index@.len() == s,
            forall|t: int| 0 <= t < s ==> row_view(#[trigger] index@[t]) == Seq::<int>::empty(),
        decreases n - s,
    {
        let row: Vec<usize> = Vec::new();
        assert(row_view(row) =~= Seq::<int>::empty());
        index.push(row);
        s += 1;
    }
    let mut k: usize = 0;
    while k < keys.len()
        invariant
            k <= keys.len(),
            index@.len() == n,
            forall|t: int|
                0 <= t < n ==> row_view(#[trigger] index@[t]) == positions(keys@, t, k as int),
        decreases keys.len() - k,
    {
        let key = keys[k] as usize;
        if key < n {
            let ghost before = index@;
            index[key].push(k);
            assert(row_view(index@[key as int]) =~= row_view(before[key as int]).push(k as int));
            assert(forall|t: int| 0 <= t < n && t != key ==> index@[t] == before[t]);
        }
        k += 1;
    }
    index
}

/// The left-hand sides of `rules`.
pub fn owners_of(rules: &Vec<Production>) -> (keys: Vec<u32>)
    ensures
        keys@ == owners(productions_view(rules@)),
{
    let mut keys: Vec<u32> = Vec::new();
    let mut k: usize = 0;
    while k < rules.len()
        invariant
            k <= rules.len(),
            keys@.len() == k,
            forall|i: int| 0 <= i < k ==> keys@[i] == rules@[i].lhs,
        decreases rules.len() - k,
    {
        keys.push(rules[k].lhs);
        k += 1;
    }
    assert(keys@ =~= owners(productions_view(rules@)));
    keys
}

/// Whether `s` owns a production.
pub fn owns_production(rules: &Vec<Production>, s: u32) -> (b: bool)
    ensures
        b == !is_terminal(productions_view(rules@), s as int),
{
    let ghost keys = owners(productions_view(rules@));
    let mut k: usize = 0;
    while k < rules.len()
        invariant
            k <= rules.len(),
            keys == owners(productions_view(rules@)),
            positions(keys, s as int, k as int).len() == 0,
        decreases rules.len() - k,
    {
        assert(keys[k as int] == rules@[k as int].lhs);
        if rules[k].lhs == s {
            proof {
                lemma_positions_complete(keys, s as int, keys.len() as int, k as int);
            }
            return true;
        }
        k += 1;
    }
    false
}

/// For each symbol below `n`, the positions of the productions it owns.
pub fn index_rules(rules: &Vec<Production>, n: usize) -> (index: Vec<Vec<usize>>)
    ensures
        index@.len() == n,
        forall|s: int|
            0 <= s < n ==> row_view(#[trigger] index@[s]) == alternatives_of(
                productions_view(rules@),
                s,
            ),
{
    let keys = owners_of(rules);
    index_keys(&keys, n)
}

} // verus!
