//! Association sequences as mathematical maps and sets.
//!
//! The stores keep their entries in vectors; these spec functions and lemmas
//! relate such a sequence of key/value pairs to the `Map` it denotes, and a
//! key sequence to the `Set` it denotes.

use vstd::prelude::*;

verus! {

/// The map an association sequence denotes; a later entry overrides an
/// earlier one with the same key.
pub open spec fn kv_map<K, V>(s: Seq<(K, V)>) -> Map<K, V>
    decreases s.len(),
{
    if s.len() == 0 {
        Map::empty()
    } else {
        kv_map(s.drop_last()).insert(s.last().0, s.last().1)
    }
}

/// Whether the keys of an association sequence are pairwise distinct.
pub open spec fn distinct_keys<K, V>(s: Seq<(K, V)>) -> bool {
    forall|i: int, j: int| 0 <= i < j < s.len() ==> s[i].0 != s[j].0
}

/// A key is in the denoted map exactly when some entry carries it.
pub proof fn lemma_kv_dom<K, V>(s: Seq<(K, V)>, k: K)
    ensures
        kv_map(s).dom().contains(k) <==> exists|i: int| 0 <= i < s.len() && s[i].0 == k,
    decreases s.len(),
{
    if s.len() > 0 {
        lemma_kv_dom(s.drop_last(), k);
        if s.last().0 == k {
            assert(s[s.len() - 1].0 == k);
        } else if kv_map(s.drop_last()).dom().contains(k) {
            let i = choose|i: int| 0 <= i < s.len() - 1 && s.drop_last()[i].0 == k;
            assert(s[i].0 == k);
        } else if exists|i: int| 0 <= i < s.len() && s[i].0 == k {
            let i = choose|i: int| 0 <= i < s.len() && s[i].0 == k;
            assert(s.drop_last()[i].0 == k);
        }
    }
}

/// With distinct keys, entry `i` gives the denoted map's value at its key.
pub proof fn lemma_kv_get<K, V>(s: Seq<(K, V)>, i: int)
    requires
        distinct_keys(s),
        0 <= i < s.len(),
    ensures
        kv_map(s).dom().contains(s[i].0),
        kv_map(s)[s[i].0] == s[i].1,
    decreases s.len(),
{
    if i < s.len() - 1 {
        assert(distinct_keys(s.drop_last())) by {
            assert(forall|x: int, y: int|
                0 <= x < y < s.len() - 1 ==> s.drop_last()[x].0 == s[x].0 && s.drop_last()[y].0
                    == s[y].0);
        }
        lemma_kv_get(s.drop_last(), i);
        assert(s.drop_last()[i] == s[i]);
        assert(s[i].0 != s.last().0);
    }
}

/// A key no entry carries is not in the denoted map.
pub proof fn lemma_kv_absent<K, V>(s: Seq<(K, V)>, k: K)
    requires
        forall|i: int| 0 <= i < s.len() ==> s[i].0 != k,
    ensures
        !kv_map(s).dom().contains(k),
{
    lemma_kv_dom(s, k);
}

/// Appending an entry with a fresh key inserts it into the denoted map and
/// keeps the keys distinct.
pub proof fn lemma_kv_push<K, V>(s: Seq<(K, V)>, k: K, v: V)
    requires
        forall|i: int| 0 <= i < s.len() ==> s[i].0 != k,
    ensures
        kv_map(s.push((k, v))) =~= kv_map(s).insert(k, v),
        distinct_keys(s) ==> distinct_keys(s.push((k, v))),
{
    assert(s.push((k, v)).drop_last() =~= s);
    assert(s.push((k, v)).last() == (k, v));
}

/// With distinct keys, dropping entry `i` removes exactly its key from the
/// denoted map and keeps the keys distinct.
pub proof fn lemma_kv_remove<K, V>(s: Seq<(K, V)>, i: int)
    requires
        distinct_keys(s),
        0 <= i < s.len(),
    ensures
        kv_map(s.remove(i)) =~= kv_map(s).remove(s[i].0),
        distinct_keys(s.remove(i)),
    decreases s.len(),
{
    let t = s.remove(i);
    assert(distinct_keys(t)) by {
        assert(forall|x: int|
            0 <= x < t.len() ==> t[x] == (if x < i {
                s[x]
            } else {
                s[x + 1]
            }));
    }
    assert(distinct_keys(s.drop_last())) by {
        assert(forall|x: int| 0 <= x < s.len() - 1 ==> s.drop_last()[x] == s[x]);
    }
    if i == s.len() - 1 {
        assert(t =~= s.drop_last());
        lemma_kv_absent(s.drop_last(), s[i].0);
        assert(kv_map(s.drop_last()).remove(s[i].0) =~= kv_map(s.drop_last()));
        assert(kv_map(s).remove(s[i].0) =~= kv_map(s.drop_last()));
    } else {
        lemma_kv_remove(s.drop_last(), i);
        assert(t.drop_last() =~= s.drop_last().remove(i));
        assert(t.last() == s.last());
        assert(s.drop_last()[i] == s[i]);
        assert(s[i].0 != s.last().0);
        assert(kv_map(t) =~= kv_map(s).remove(s[i].0));
    }
}

/// With distinct keys, removing entry `i` and appending its key with a new
/// value updates the denoted map at that key and keeps the keys distinct.
pub proof fn lemma_kv_remove_push<K, V>(s: Seq<(K, V)>, i: int, v: V)
    requires
        distinct_keys(s),
        0 <= i < s.len(),
    ensures
        kv_map(s.remove(i).push((s[i].0, v))) =~= kv_map(s).insert(s[i].0, v),
        distinct_keys(s.remove(i).push((s[i].0, v))),
{
    let k = s[i].0;
    assert(forall|x: int| 0 <= x < s.remove(i).len() ==> #[trigger] s.remove(i)[x].0 != k) by {
        assert(forall|x: int|
            0 <= x < s.remove(i).len() ==> s.remove(i)[x] == (if x < i {
                s[x]
            } else {
                s[x + 1]
            }));
    }
    lemma_kv_remove(s, i);
    lemma_kv_push(s.remove(i), k, v);
    assert(kv_map(s).remove(k).insert(k, v) =~= kv_map(s).insert(k, v));
}

/// A value is in the key sequence's denoted set exactly when some position
/// holds it.
pub proof fn lemma_to_set_index<A>(s: Seq<A>, x: A)
    ensures
        s.to_set().contains(x) <==> exists|i: int| 0 <= i < s.len() && s[i] == x,
{
    if s.contains(x) {
        assert(s.to_set().contains(x));
    }
}

/// Appending a value inserts it into the denoted set.
pub proof fn lemma_to_set_push<A>(s: Seq<A>, x: A)
    ensures
        s.push(x).to_set() =~= s.to_set().insert(x),
{
    let t = s.push(x);
    assert forall|a: A| t.to_set().contains(a) implies s.to_set().contains(a) || a == x by {
        let i = choose|i: int| 0 <= i < t.len() && t[i] == a;
        if i < s.len() {
            assert(s[i] == a);
        }
    }
    assert forall|a: A| s.to_set().contains(a) implies t.to_set().contains(a) by {
        let i = choose|i: int| 0 <= i < s.len() && s[i] == a;
        assert(t[i] == a);
    }
    assert(t[s.len() as int] == x);
    assert(t.to_set().contains(x));
}

/// With pairwise-distinct values, removing position `i` removes exactly that
/// value from the denoted set.
pub proof fn lemma_to_set_remove<A>(s: Seq<A>, i: int)
    requires
        forall|x: int, y: int| 0 <= x < y < s.len() ==> s[x] != s[y],
        0 <= i < s.len(),
    ensures
        s.remove(i).to_set() =~= s.to_set().remove(s[i]),
        forall|x: int, y: int|
            0 <= x < y < s.remove(i).len() ==> s.remove(i)[x] != s.remove(i)[y],
{
    let t = s.remove(i);
    assert forall|a: A| t.to_set().contains(a) implies s.to_set().contains(a) && a != s[i] by {
        let j = choose|j: int| 0 <= j < t.len() && t[j] == a;
        if j < i {
            assert(s[j] == a);
        } else {
            assert(s[j + 1] == a);
        }
    }
    assert forall|a: A| s.to_set().contains(a) && a != s[i] implies t.to_set().contains(a) by {
        let j = choose|j: int| 0 <= j < s.len() && s[j] == a;
        if j < i {
            assert(t[j] == a);
        } else {
            assert(t[j - 1] == a);
        }
    }
}

} // verus!
