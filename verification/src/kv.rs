//! Keyed entry vectors.
//!
//! The book keeps its per-participant entries (positions, oracles) as
//! plain vectors of `(key, value)` pairs with pairwise-distinct keys, so
//! that every lookup and every iteration is deterministic and fully
//! visible to the verifier.

use vstd::prelude::*;

verus! {

/// No two entries share a key.
pub open spec fn kv_distinct<V>(s: Seq<(u64, V)>) -> bool {
    forall|i: int, j: int| 0 <= i < j < s.len() ==> s[i].0 != s[j].0
}

/// Some entry has key `k`.
pub open spec fn kv_has<V>(s: Seq<(u64, V)>, k: u64) -> bool {
    exists|i: int| 0 <= i < s.len() && s[i].0 == k
}

/// Index of the entry with key `k` (meaningful only when `kv_has`).
pub open spec fn kv_idx<V>(s: Seq<(u64, V)>, k: u64) -> int {
    choose|i: int| 0 <= i < s.len() && s[i].0 == k
}

/// Value stored under key `k` (meaningful only when `kv_has`).
pub open spec fn kv_get<V>(s: Seq<(u64, V)>, k: u64) -> V {
    s[kv_idx(s, k)].1
}

/// With distinct keys, any index holding `k` is the index of `k`.
pub proof fn lemma_kv_idx_unique<V>(s: Seq<(u64, V)>, i: int)
    requires
        kv_distinct(s),
        0 <= i < s.len(),
    ensures
        kv_has(s, s[i].0),
        kv_idx(s, s[i].0) == i,
        kv_get(s, s[i].0) == s[i].1,
{
    let k = s[i].0;
    assert(kv_has(s, k));
    let j = kv_idx(s, k);
    if i < j {
        assert(s[i].0 != s[j].0);
    } else if j < i {
        assert(s[j].0 != s[i].0);
    }
}

/// Appending a fresh key keeps keys distinct and leaves every other
/// binding as it was.
pub proof fn lemma_kv_push<V>(s: Seq<(u64, V)>, k: u64, v: V)
    requires
        kv_distinct(s),
        !kv_has(s, k),
    ensures
        kv_distinct(s.push((k, v))),
        kv_has(s.push((k, v)), k),
        kv_get(s.push((k, v)), k) == v,
        forall|k2: u64| k2 != k ==> kv_has(s.push((k, v)), k2) == kv_has(s, k2),
        forall|k2: u64|
            k2 != k && kv_has(s, k2) ==> kv_get(s.push((k, v)), k2) == kv_get(s, k2),
{
    let t = s.push((k, v));
    assert(forall|i: int, j: int| 0 <= i < j < t.len() ==> t[i].0 != t[j].0) by {
        assert(forall|i: int| 0 <= i < s.len() ==> t[i] == s[i]);
        assert(t[s.len() as int].0 == k);
    }
    assert(t[s.len() as int].0 == k);
    lemma_kv_idx_unique(t, s.len() as int);
    assert forall|k2: u64| k2 != k implies kv_has(t, k2) == kv_has(s, k2) by {
        if kv_has(s, k2) {
            let i = kv_idx(s, k2);
            assert(t[i].0 == k2);
        }
        if kv_has(t, k2) {
            let i = kv_idx(t, k2);
            assert(i < s.len());
            assert(s[i].0 == k2);
        }
    }
    assert forall|k2: u64| k2 != k && kv_has(s, k2) implies kv_get(t, k2) == kv_get(s, k2) by {
        let i = kv_idx(s, k2);
        assert(s[i].0 == k2);
        assert(t[i].0 == k2);
        lemma_kv_idx_unique(t, i);
        lemma_kv_idx_unique(s, i);
    }
}

/// Replacing the value at index `i` rebinds that key alone.
pub proof fn lemma_kv_update<V>(s: Seq<(u64, V)>, i: int, v: V)
    requires
        kv_distinct(s),
        0 <= i < s.len(),
    ensures
        kv_distinct(s.update(i, (s[i].0, v))),
        kv_has(s.update(i, (s[i].0, v)), s[i].0),
        kv_get(s.update(i, (s[i].0, v)), s[i].0) == v,
        forall|k2: u64| kv_has(s.update(i, (s[i].0, v)), k2) == kv_has(s, k2),
        forall|k2: u64|
            k2 != s[i].0 && kv_has(s, k2) ==> kv_get(s.update(i, (s[i].0, v)), k2) == kv_get(
                s,
                k2,
            ),
{
    let k = s[i].0;
    let t = s.update(i, (k, v));
    assert(forall|j: int| 0 <= j < t.len() ==> t[j].0 == s[j].0);
    lemma_kv_idx_unique(t, i);
    assert forall|k2: u64| kv_has(t, k2) == kv_has(s, k2) by {
        if kv_has(s, k2) {
            let j = kv_idx(s, k2);
            assert(t[j].0 == k2);
        }
        if kv_has(t, k2) {
            let j = kv_idx(t, k2);
            assert(s[j].0 == k2);
        }
    }
    assert forall|k2: u64| k2 != k && kv_has(s, k2) implies kv_get(t, k2) == kv_get(s, k2) by {
        let j = kv_idx(s, k2);
        assert(s[j].0 == k2);
        assert(j != i);
        assert(t[j] == s[j]);
        lemma_kv_idx_unique(t, j);
        lemma_kv_idx_unique(s, j);
    }
}

/// Removing the entry at index `i` unbinds that key alone.
pub proof fn lemma_kv_remove<V>(s: Seq<(u64, V)>, i: int)
    requires
        kv_distinct(s),
        0 <= i < s.len(),
    ensures
        kv_distinct(s.remove(i)),
        !kv_has(s.remove(i), s[i].0),
        forall|k2: u64| k2 != s[i].0 ==> kv_has(s.remove(i), k2) == kv_has(s, k2),
        forall|k2: u64|
            k2 != s[i].0 && kv_has(s, k2) ==> kv_get(s.remove(i), k2) == kv_get(s, k2),
{
    let k = s[i].0;
    let t = s.remove(i);
    assert(forall|j: int| 0 <= j < i ==> t[j] == s[j]);
    assert(forall|j: int| i <= j < t.len() ==> t[j] == s[j + 1]);
    assert forall|p: int, q: int| 0 <= p < q < t.len() implies t[p].0 != t[q].0 by {
        let p2 = if p < i { p } else { p + 1 };
        let q2 = if q < i { q } else { q + 1 };
        assert(s[p2].0 != s[q2].0);
    }
    assert forall|j: int| 0 <= j < t.len() implies t[j].0 != k by {
        let j2 = if j < i { j } else { j + 1 };
        assert(t[j].0 == s[j2].0);
        if j2 < i {
            assert(s[j2].0 != s[i].0);
        } else {
            assert(s[i].0 != s[j2].0);
        }
    }
    assert forall|k2: u64| k2 != k implies kv_has(t, k2) == kv_has(s, k2) by {
        if kv_has(s, k2) {
            let j = kv_idx(s, k2);
            assert(j != i);
            let j2 = if j < i { j } else { j - 1 };
            assert(t[j2].0 == k2);
        }
        if kv_has(t, k2) {
            let j = kv_idx(t, k2);
            let j2 = if j < i { j } else { j + 1 };
            assert(s[j2].0 == k2);
        }
    }
    assert forall|k2: u64| k2 != k && kv_has(s, k2) implies kv_get(t, k2) == kv_get(s, k2) by {
        let j = kv_idx(s, k2);
        assert(s[j].0 == k2);
        assert(j != i);
        let j2 = if j < i { j } else { j - 1 };
        assert(t[j2] == s[j]);
        lemma_kv_idx_unique(t, j2);
        lemma_kv_idx_unique(s, j);
    }
}

/// Find the entry with key `k`, scanning in entry order.
pub fn kv_find<V>(m: &Vec<(u64, V)>, k: u64) -> (r: Option<usize>)
    ensures
        match r {
            Some(i) => 0 <= i < m@.len() && m@[i as int].0 == k,
            None => !kv_has(m@, k),
        },
{
    let mut i: usize = 0;
    while i < m.len()
        invariant
            0 <= i <= m@.len(),
            forall|j: int| 0 <= j < i ==> m@[j].0 != k,
        decreases m@.len() - i,
    {
        if m[i].0 == k {
            return Some(i);
        }
        i = i + 1;
    }
    None
}

} // verus!
