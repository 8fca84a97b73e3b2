//! Association lists: every mapping in this crate is a vector of key-value
//! pairs looked up by linear scan, so that contracts can speak of the exact
//! sequence of entries.

use vstd::prelude::*;

verus! {

/// First index holding key `k`, if any.
pub open spec fn assoc_find<K, V>(s: Seq<(K, V)>, k: K) -> Option<int>
    decreases s.len(),
{
    if s.len() == 0 {
        None
    } else if s[0].0 == k {
        Some(0)
    } else {
        match assoc_find(s.drop_first(), k) {
            Some(i) => Some(i + 1),
            None => None,
        }
    }
}

/// The value stored under the first occurrence of key `k`, if any.
pub open spec fn assoc_get<K, V>(s: Seq<(K, V)>, k: K) -> Option<V> {
    match assoc_find(s, k) {
        Some(i) => Some(s[i].1),
        None => None,
    }
}

/// The index-bucket stored under key `k`, empty when absent.
pub open spec fn bucket_of<K>(s: Seq<(K, Vec<usize>)>, k: K) -> Seq<usize> {
    match assoc_get(s, k) {
        Some(v) => v@,
        None => Seq::empty(),
    }
}

/// No key occurs twice.
pub open spec fn unique_keys<K, V>(s: Seq<(K, V)>) -> bool {
    forall|i: int, j: int| 0 <= i < j < s.len() ==> (#[trigger] s[i]).0 != (#[trigger] s[j]).0
}

/// `assoc_find` returns exactly the first index with the key.
pub proof fn lemma_assoc_find<K, V>(s: Seq<(K, V)>, k: K)
    ensures
        match assoc_find(s, k) {
            Some(i) => 0 <= i < s.len() && s[i].0 == k && forall|j: int|
                0 <= j < i ==> (#[trigger] s[j]).0 != k,
            None => forall|j: int| 0 <= j < s.len() ==> (#[trigger] s[j]).0 != k,
        },
    decreases s.len(),
{
    if s.len() > 0 && s[0].0 != k {
        lemma_assoc_find(s.drop_first(), k);
        match assoc_find(s.drop_first(), k) {
            Some(i) => {
                assert(s[i + 1] == s.drop_first()[i]);
                assert forall|j: int| 0 <= j < i + 1 implies (#[trigger] s[j]).0 != k by {
                    if j > 0 {
                        assert(s[j] == s.drop_first()[j - 1]);
                    }
                }
            },
            None => {
                assert forall|j: int| 0 <= j < s.len() implies (#[trigger] s[j]).0 != k by {
                    if j > 0 {
                        assert(s[j] == s.drop_first()[j - 1]);
                    }
                }
            },
        }
    }
}

/// Conversely, the first index with the key determines `assoc_find`.
pub proof fn lemma_assoc_find_at<K, V>(s: Seq<(K, V)>, k: K, i: int)
    requires
        0 <= i < s.len(),
        s[i].0 == k,
        forall|j: int| 0 <= j < i ==> (#[trigger] s[j]).0 != k,
    ensures
        assoc_find(s, k) == Some(i),
    decreases i,
{
    if i > 0 {
        lemma_assoc_find_at(s.drop_first(), k, i - 1);
    }
}

/// With no index holding the key, `assoc_find` is `None`.
pub proof fn lemma_assoc_find_none<K, V>(s: Seq<(K, V)>, k: K)
    requires
        forall|j: int| 0 <= j < s.len() ==> (#[trigger] s[j]).0 != k,
    ensures
        assoc_find(s, k) == None::<int>,
{
    lemma_assoc_find(s, k);
    if assoc_find(s, k) is Some {
        assert(false);
    }
}

/// Sequences with pointwise-equal keys agree on `assoc_find`.
pub proof fn lemma_assoc_find_keys_eq<K, V1, V2>(s1: Seq<(K, V1)>, s2: Seq<(K, V2)>, k: K)
    requires
        s1.len() == s2.len(),
        forall|j: int| 0 <= j < s1.len() ==> (#[trigger] s1[j]).0 == (#[trigger] s2[j]).0,
    ensures
        assoc_find(s1, k) == assoc_find(s2, k),
    decreases s1.len(),
{
    if s1.len() > 0 {
        assert(s1[0].0 == s2[0].0);
        lemma_assoc_find_keys_eq(s1.drop_first(), s2.drop_first(), k);
        assert(forall|j: int|
            0 <= j < s1.drop_first().len() ==> #[trigger] s1.drop_first()[j] == s1[j + 1]);
        assert(forall|j: int|
            0 <= j < s2.drop_first().len() ==> #[trigger] s2.drop_first()[j] == s2[j + 1]);
    }
}

/// Replacing the value at the entry `assoc_find` points to changes only that
/// key's binding.
pub proof fn lemma_assoc_update_value<K, V>(s: Seq<(K, V)>, i: int, v: V, k: K)
    requires
        0 <= i < s.len(),
        assoc_find(s, s[i].0) == Some(i),
    ensures
        assoc_get(s.update(i, (s[i].0, v)), k) == if k == s[i].0 {
            Some(v)
        } else {
            assoc_get(s, k)
        },
{
    let s2 = s.update(i, (s[i].0, v));
    lemma_assoc_find_keys_eq(s, s2, k);
    lemma_assoc_find(s, k);
    lemma_assoc_find(s2, k);
}

/// Pushing an entry whose key is absent changes only that key's binding.
pub proof fn lemma_assoc_push<K, V>(s: Seq<(K, V)>, p: (K, V), k: K)
    requires
        assoc_find(s, p.0) == None::<int>,
    ensures
        assoc_get(s.push(p), k) == if k == p.0 {
            Some(p.1)
        } else {
            assoc_get(s, k)
        },
{
    lemma_assoc_find(s, k);
    lemma_assoc_find(s, p.0);
    if k == p.0 {
        lemma_assoc_find_at(s.push(p), k, s.len() as int);
    } else {
        match assoc_find(s, k) {
            Some(i) => {
                lemma_assoc_find_at(s.push(p), k, i);
            },
            None => {
                lemma_assoc_find_none(s.push(p), k);
            },
        }
    }
}

/// Binds `k` to `v`: overwrites the first entry holding `k`, or appends one.
pub open spec fn assoc_set<K, V>(s: Seq<(K, V)>, k: K, v: V) -> Seq<(K, V)> {
    match assoc_find(s, k) {
        Some(i) => s.update(i, (k, v)),
        None => s.push((k, v)),
    }
}

/// `assoc_set` changes only the written key's binding.
pub proof fn lemma_assoc_set_get<K, V>(s: Seq<(K, V)>, k: K, v: V, k2: K)
    ensures
        assoc_get(assoc_set(s, k, v), k2) == if k2 == k {
            Some(v)
        } else {
            assoc_get(s, k2)
        },
{
    match assoc_find(s, k) {
        Some(i) => {
            lemma_assoc_find(s, k);
            lemma_assoc_update_value(s, i, v, k2);
        },
        None => {
            lemma_assoc_push(s, (k, v), k2);
        },
    }
}

/// Stores `v` under `k`, overwriting the first entry with that key if one
/// exists.
pub fn set_u64<V>(m: &mut Vec<(u64, V)>, k: u64, v: V)
    ensures
        final(m)@ == assoc_set(old(m)@, k, v),
{
    let ghost m0 = m@;
    match find_idx_u64(m, k) {
        Some(i) => {
            proof {
                lemma_assoc_find(m0, k);
            }
            let _ = m.remove(i);
            m.insert(i, (k, v));
            proof {
                assert(m@ =~= m0.update(i as int, (k, v)));
            }
        },
        None => {
            m.push((k, v));
        },
    }
}

/// Index of the first entry with key `k`, by linear scan.
pub fn find_idx_u64<V>(v: &Vec<(u64, V)>, k: u64) -> (r: Option<usize>)
    ensures
        match r {
            Some(i) => assoc_find(v@, k) == Some(i as int),
            None => assoc_find(v@, k) == None::<int>,
        },
{
    let mut i: usize = 0;
    while i < v.len()
        invariant
            i <= v.len(),
            forall|j: int| 0 <= j < i ==> (#[trigger] v@[j]).0 != k,
        decreases v.len() - i,
    {
        if v[i].0 == k {
            proof {
                lemma_assoc_find_at(v@, k, i as int);
            }
            return Some(i);
        }
        i += 1;
    }
    proof {
        lemma_assoc_find_none(v@, k);
    }
    None
}

/// Index of the first entry with key `k`, by linear scan.
pub fn find_idx_i32<V>(v: &Vec<(i32, V)>, k: i32) -> (r: Option<usize>)
    ensures
        match r {
            Some(i) => assoc_find(v@, k) == Some(i as int),
            None => assoc_find(v@, k) == None::<int>,
        },
{
    let mut i: usize = 0;
    while i < v.len()
        invariant
            i <= v.len(),
            forall|j: int| 0 <= j < i ==> (#[trigger] v@[j]).0 != k,
        decreases v.len() - i,
    {
        if v[i].0 == k {
            proof {
                lemma_assoc_find_at(v@, k, i as int);
            }
            return Some(i);
        }
        i += 1;
    }
    proof {
        lemma_assoc_find_none(v@, k);
    }
    None
}

} // verus!
