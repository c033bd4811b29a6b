//! Ghost view of a sequence of key/value pairs with pairwise-distinct keys
//! as a finite map. The cache and the cell index both store their entries in
//! a vector and state their contracts over the map this module derives from
//! it.

use vstd::prelude::*;

verus! {

/// No key occurs in two different pairs.
pub open spec fn distinct_keys<K, V>(s: Seq<(K, V)>) -> bool {
    forall|i: int, j: int| 0 <= i < j < s.len() ==> (#[trigger] s[i]).0 != (#[trigger] s[j]).0
}

/// Some pair carries key `k`.
pub open spec fn has_key<K, V>(s: Seq<(K, V)>, k: K) -> bool {
    exists|i: int| 0 <= i < s.len() && (#[trigger] s[i]).0 == k
}

/// The position of the pair carrying key `k` (meaningful when `has_key`).
pub open spec fn index_of_key<K, V>(s: Seq<(K, V)>, k: K) -> int {
    choose|i: int| 0 <= i < s.len() && (#[trigger] s[i]).0 == k
}

/// The map the pair sequence stands for (meaningful when keys are distinct).
pub open spec fn as_map<K, V>(s: Seq<(K, V)>) -> Map<K, V> {
    Map::new(|k: K| has_key(s, k), |k: K| s[index_of_key(s, k)].1)
}

/// Each pair of the sequence is in the map, with its own value.
pub proof fn lemma_as_map_index<K, V>(s: Seq<(K, V)>, i: int)
    requires
        distinct_keys(s),
        0 <= i < s.len(),
    ensures
        as_map(s).dom().contains(s[i].0),
        as_map(s)[s[i].0] == s[i].1,
{
    let k = s[i].0;
    assert(has_key(s, k));
    let j = index_of_key(s, k);
    assert(0 <= j < s.len() && s[j].0 == k);
    assert(j == i);
}

/// Pushing a pair with a fresh key inserts it into the map.
pub proof fn lemma_as_map_push<K, V>(s: Seq<(K, V)>, k: K, v: V)
    requires
        distinct_keys(s),
        !has_key(s, k),
    ensures
        distinct_keys(s.push((k, v))),
        as_map(s.push((k, v))) =~= as_map(s).insert(k, v),
{
    let t = s.push((k, v));
    assert forall|i: int, j: int| 0 <= i < j < t.len() implies (#[trigger] t[i]).0 != (
    #[trigger] t[j]).0 by {
        if j < s.len() {
            assert(t[i] == s[i] && t[j] == s[j]);
        } else {
            assert(t[i] == s[i]);
            assert(s[i].0 == t[i].0);
        }
    }
    assert forall|k2: K| #[trigger] has_key(t, k2) implies has_key(s, k2) || k2 == k by {
        let i = index_of_key(t, k2);
        if i < s.len() {
            assert(s[i].0 == k2);
        }
    }
    assert forall|k2: K| has_key(s, k2) implies #[trigger] has_key(t, k2) by {
        let i = index_of_key(s, k2);
        assert(t[i].0 == k2);
    }
    assert(t[s.len() as int].0 == k);
    assert(has_key(t, k));
    assert forall|k2: K| #[trigger] has_key(t, k2) implies as_map(t)[k2] == as_map(s).insert(
        k,
        v,
    )[k2] by {
        let i = index_of_key(t, k2);
        assert(0 <= i < t.len() && t[i].0 == k2);
        if k2 == k {
            if i < s.len() {
                assert(s[i].0 == k2);
                assert(has_key(s, k));
            }
            assert(t[i].1 == v);
            lemma_as_map_index(t, i);
        } else {
            assert(i < s.len());
            assert(s[i].0 == k2);
            lemma_as_map_index(t, i);
            lemma_as_map_index(s, i);
        }
    }
}

/// Taking the pair at `i` out of the sequence removes its key from the map.
pub proof fn lemma_as_map_remove<K, V>(s: Seq<(K, V)>, i: int)
    requires
        distinct_keys(s),
        0 <= i < s.len(),
    ensures
        distinct_keys(s.remove(i)),
        as_map(s.remove(i)) =~= as_map(s).remove(s[i].0),
{
    let t = s.remove(i);
    s.remove_ensures(i);
    assert forall|a: int, b: int| 0 <= a < b < t.len() implies (#[trigger] t[a]).0 != (
    #[trigger] t[b]).0 by {
        let a2 = if a < i {
            a
        } else {
            a + 1
        };
        let b2 = if b < i {
            b
        } else {
            b + 1
        };
        assert(t[a] == s[a2] && t[b] == s[b2]);
    }
    assert forall|k2: K| #[trigger] has_key(t, k2) implies has_key(s, k2) && k2 != s[i].0 by {
        let a = index_of_key(t, k2);
        let a2 = if a < i {
            a
        } else {
            a + 1
        };
        assert(t[a] == s[a2]);
        assert(s[a2].0 == k2);
        assert(a2 != i);
        if a2 < i {
            assert(s[a2].0 != s[i].0);
        } else {
            assert(s[i].0 != s[a2].0);
        }
    }
    assert forall|k2: K| has_key(s, k2) && k2 != s[i].0 implies #[trigger] has_key(t, k2) by {
        let a2 = index_of_key(s, k2);
        assert(a2 != i);
        let a = if a2 < i {
            a2
        } else {
            a2 - 1
        };
        assert(t[a] == s[a2]);
        assert(t[a].0 == k2);
    }
    assert forall|k2: K| #[trigger] has_key(t, k2) implies as_map(t)[k2] == as_map(s).remove(
        s[i].0,
    )[k2] by {
        let a = index_of_key(t, k2);
        assert(0 <= a < t.len() && t[a].0 == k2);
        lemma_as_map_index(t, a);
        let a2 = if a < i {
            a
        } else {
            a + 1
        };
        assert(t[a] == s[a2]);
        lemma_as_map_index(s, a2);
    }
}

} // verus!
