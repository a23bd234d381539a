//! Association sequences: the specification of every keyed collection of
//! the engine (memcache runs, databases, time-series families).

use vstd::prelude::*;

verus! {

/// The value at the first entry with the key, if any.
pub open spec fn assoc_get<K, V>(s: Seq<(K, V)>, k: K) -> Option<V>
    decreases s.len(),
{
    if s.len() == 0 {
        None
    } else if s[0].0 == k {
        Some(s[0].1)
    } else {
        assoc_get(s.drop_first(), k)
    }
}

/// Whether some entry has the key.
pub open spec fn has_key<K, V>(s: Seq<(K, V)>, k: K) -> bool {
    exists|i: int| 0 <= i < s.len() && s[i].0 == k
}

/// Whether no two entries share a key.
pub open spec fn unique_keys<K, V>(s: Seq<(K, V)>) -> bool {
    forall|i: int, j: int| 0 <= i < j < s.len() ==> s[i].0 != s[j].0
}

/// Every element of a filtered sequence stands in the sequence.
pub proof fn lemma_filter_members<A>(s: Seq<A>, pred: spec_fn(A) -> bool)
    ensures
        forall|i: int|
            0 <= i < s.filter(pred).len() ==> s.contains(#[trigger] s.filter(pred)[i]),
    decreases s.len(),
{
    reveal(Seq::filter);
    if s.len() > 0 {
        let dl = s.drop_last();
        let f = s.filter(pred);
        lemma_filter_members(dl, pred);
        assert forall|i: int| 0 <= i < f.len() implies s.contains(#[trigger] f[i]) by {
            if pred(s.last()) && i == f.len() - 1 {
                assert(f[i] == s[s.len() - 1]);
            } else {
                assert(f[i] == dl.filter(pred)[i]);
                assert(dl.contains(f[i]));
                let k = choose|k: int| 0 <= k < dl.len() && dl[k] == f[i];
                assert(s[k] == f[i]);
            }
        }
    }
}

/// With unique keys, the entry at any index with the key decides the
/// lookup.
pub proof fn lemma_assoc_get_present<K, V>(s: Seq<(K, V)>, k: K, i: int)
    requires
        unique_keys(s),
        0 <= i < s.len(),
        s[i].0 == k,
    ensures
        assoc_get(s, k) == Some(s[i].1),
    decreases s.len(),
{
    if i == 0 {
    } else {
        assert(s[0].0 != k);
        assert(s.drop_first()[i - 1] == s[i]);
        lemma_assoc_get_present(s.drop_first(), k, i - 1);
    }
}

/// Without an entry for the key, the lookup misses.
pub proof fn lemma_assoc_get_absent<K, V>(s: Seq<(K, V)>, k: K)
    requires
        !has_key(s, k),
    ensures
        assoc_get(s, k) == None::<V>,
    decreases s.len(),
{
    if s.len() > 0 {
        assert(s[0].0 != k);
        assert(forall|i: int| 0 <= i < s.drop_first().len() ==> s.drop_first()[i] == s[i + 1]);
        lemma_assoc_get_absent(s.drop_first(), k);
    }
}

/// The lookup hits exactly when some entry has the key.
pub proof fn lemma_assoc_get_has_key<K, V>(s: Seq<(K, V)>, k: K)
    ensures
        assoc_get(s, k) is Some <==> has_key(s, k),
    decreases s.len(),
{
    if s.len() > 0 {
        if s[0].0 == k {
        } else {
            lemma_assoc_get_has_key(s.drop_first(), k);
            assert(forall|i: int|
                0 <= i < s.drop_first().len() ==> s.drop_first()[i] == s[i + 1]);
            if has_key(s, k) {
                let i = choose|i: int| 0 <= i < s.len() && s[i].0 == k;
                assert(s.drop_first()[i - 1] == s[i]);
                assert(has_key(s.drop_first(), k));
            }
        }
    }
}

/// Replacing the value at one index (the entry moves to the end) keeps the
/// keys unique, updates that key's lookup, and leaves every other lookup as
/// it was.
pub proof fn lemma_assoc_update<K, V>(s: Seq<(K, V)>, idx: int, nv: V)
    requires
        unique_keys(s),
        0 <= idx < s.len(),
    ensures
        unique_keys(s.remove(idx).push((s[idx].0, nv))),
        assoc_get(s.remove(idx).push((s[idx].0, nv)), s[idx].0) == Some(nv),
        forall|k: K|
            k != s[idx].0 ==> assoc_get(s.remove(idx).push((s[idx].0, nv)), k) == assoc_get(s, k),
{
    let k0 = s[idx].0;
    let t = s.remove(idx).push((k0, nv));
    let n = s.len();
    assert(t.len() == n);
    assert(forall|j: int| 0 <= j < idx ==> t[j] == s[j]);
    assert(forall|j: int| idx <= j < n - 1 ==> t[j] == s[j + 1]);
    assert(t[n - 1] == (k0, nv));
    assert(unique_keys(t)) by {
        assert forall|i: int, j: int| 0 <= i < j < n implies t[i].0 != t[j].0 by {
            if j < n - 1 {
                let si: int = if i < idx { i } else { i + 1 };
                let sj: int = if j < idx { j } else { j + 1 };
                assert(t[i] == s[si] && t[j] == s[sj]);
            } else {
                let si: int = if i < idx { i } else { i + 1 };
                assert(t[i] == s[si]);
                assert(si != idx);
                assert(s[si].0 != s[idx].0);
            }
        }
    }
    lemma_assoc_get_present(t, k0, n - 1);
    assert forall|k: K| k != k0 implies assoc_get(t, k) == assoc_get(s, k) by {
        if has_key(s, k) {
            let i = choose|i: int| 0 <= i < n && s[i].0 == k;
            assert(i != idx);
            let ti: int = if i < idx { i } else { i - 1 };
            assert(t[ti] == s[i]);
            lemma_assoc_get_present(s, k, i);
            lemma_assoc_get_present(t, k, ti);
        } else {
            lemma_assoc_get_absent(s, k);
            assert(!has_key(t, k)) by {
                if has_key(t, k) {
                    let j = choose|j: int| 0 <= j < n && t[j].0 == k;
                    assert(j != n - 1);
                    let sj: int = if j < idx { j } else { j + 1 };
                    assert(t[j] == s[sj]);
                    assert(has_key(s, k));
                }
            }
            lemma_assoc_get_absent(t, k);
        }
    }
}

/// Appending an entry with a fresh key keeps the keys unique, makes that
/// key's lookup hit the new value, and leaves every other lookup as it was.
pub proof fn lemma_assoc_insert<K, V>(s: Seq<(K, V)>, k0: K, nv: V)
    requires
        unique_keys(s),
        !has_key(s, k0),
    ensures
        unique_keys(s.push((k0, nv))),
        assoc_get(s.push((k0, nv)), k0) == Some(nv),
        forall|k: K| k != k0 ==> assoc_get(s.push((k0, nv)), k) == assoc_get(s, k),
{
    let t = s.push((k0, nv));
    let n = s.len();
    assert(forall|j: int| 0 <= j < n ==> t[j] == s[j]);
    assert(t[n as int] == (k0, nv));
    assert(unique_keys(t)) by {
        assert forall|i: int, j: int| 0 <= i < j < t.len() implies t[i].0 != t[j].0 by {
            if j < n {
            } else {
                assert(t[i] == s[i]);
                if s[i].0 == k0 {
                    assert(has_key(s, k0));
                }
            }
        }
    }
    lemma_assoc_get_present(t, k0, n as int);
    assert forall|k: K| k != k0 implies assoc_get(t, k) == assoc_get(s, k) by {
        if has_key(s, k) {
            let i = choose|i: int| 0 <= i < n && s[i].0 == k;
            lemma_assoc_get_present(s, k, i);
            lemma_assoc_get_present(t, k, i);
        } else {
            lemma_assoc_get_absent(s, k);
            assert(!has_key(t, k)) by {
                if has_key(t, k) {
                    let j = choose|j: int| 0 <= j < t.len() && t[j].0 == k;
                    assert(j != n);
                    assert(has_key(s, k));
                }
            }
            lemma_assoc_get_absent(t, k);
        }
    }
}

/// Removing the entry at one index keeps the keys unique, makes that key's
/// lookup miss, and leaves every other lookup as it was.
pub proof fn lemma_assoc_remove<K, V>(s: Seq<(K, V)>, idx: int)
    requires
        unique_keys(s),
        0 <= idx < s.len(),
    ensures
        unique_keys(s.remove(idx)),
        assoc_get(s.remove(idx), s[idx].0) == None::<V>,
        forall|k: K| k != s[idx].0 ==> assoc_get(s.remove(idx), k) == assoc_get(s, k),
{
    let k0 = s[idx].0;
    let t = s.remove(idx);
    let n = s.len();
    assert(forall|j: int| 0 <= j < idx ==> t[j] == s[j]);
    assert(forall|j: int| idx <= j < n - 1 ==> t[j] == s[j + 1]);
    assert(unique_keys(t)) by {
        assert forall|i: int, j: int| 0 <= i < j < t.len() implies t[i].0 != t[j].0 by {
            let si: int = if i < idx { i } else { i + 1 };
            let sj: int = if j < idx { j } else { j + 1 };
            assert(t[i] == s[si] && t[j] == s[sj]);
        }
    }
    assert(!has_key(t, k0)) by {
        if has_key(t, k0) {
            let j = choose|j: int| 0 <= j < t.len() && t[j].0 == k0;
            let sj: int = if j < idx { j } else { j + 1 };
            assert(t[j] == s[sj]);
            assert(sj != idx);
            assert(s[sj].0 != s[idx].0);
        }
    }
    lemma_assoc_get_absent(t, k0);
    assert forall|k: K| k != k0 implies assoc_get(t, k) == assoc_get(s, k) by {
        if has_key(s, k) {
            let i = choose|i: int| 0 <= i < n && s[i].0 == k;
            assert(i != idx);
            let ti: int = if i < idx { i } else { i - 1 };
            assert(t[ti] == s[i]);
            lemma_assoc_get_present(s, k, i);
            lemma_assoc_get_present(t, k, ti);
        } else {
            lemma_assoc_get_absent(s, k);
            assert(!has_key(t, k)) by {
                if has_key(t, k) {
                    let j = choose|j: int| 0 <= j < t.len() && t[j].0 == k;
                    let sj: int = if j < idx { j } else { j + 1 };
                    assert(t[j] == s[sj]);
                    assert(has_key(s, k));
                }
            }
            lemma_assoc_get_absent(t, k);
        }
    }
}

} // verus!
