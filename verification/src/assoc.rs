//! Lists of pairs with distinct keys, read as mappings.

use vstd::prelude::*;

verus! {

/// Whether `k` is the key of one of `pairs`.
pub open spec fn has_key<K, V>(pairs: Seq<(K, V)>, k: K) -> bool {
    exists|i: int| 0 <= i < pairs.len() && (#[trigger] pairs[i]).0 == k
}

/// A place at which `k` stands in `pairs`, where there is one.
pub open spec fn key_index<K, V>(pairs: Seq<(K, V)>, k: K) -> int {
    choose|i: int| 0 <= i < pairs.len() && (#[trigger] pairs[i]).0 == k
}

/// No key occurs twice in `pairs`.
pub open spec fn distinct_keys<K, V>(pairs: Seq<(K, V)>) -> bool {
    forall|i: int, j: int|
        0 <= i < j < pairs.len() ==> (#[trigger] pairs[i]).0 != (#[trigger] pairs[j]).0
}

/// The mapping that a list of pairs stands for.
pub open spec fn map_of<K, V>(pairs: Seq<(K, V)>) -> Map<K, V> {
    Map::new(|k: K| has_key(pairs, k), |k: K| pairs[key_index(pairs, k)].1)
}

/// Each pair of a list with distinct keys is an entry of its mapping.
pub proof fn lemma_map_of_index<K, V>(pairs: Seq<(K, V)>, i: int)
    requires
        distinct_keys(pairs),
        0 <= i < pairs.len(),
    ensures
        map_of(pairs).contains_key(pairs[i].0),
        map_of(pairs)[pairs[i].0] == pairs[i].1,
        key_index(pairs, pairs[i].0) == i,
{
    let k = pairs[i].0;
    assert(has_key(pairs, k));
    let j = key_index(pairs, k);
    assert(0 <= j < pairs.len() && pairs[j].0 == k);
    if j != i {
        if j < i {
            assert(pairs[j].0 != pairs[i].0);
        } else {
            assert(pairs[i].0 != pairs[j].0);
        }
    }
}

/// A new key at the end of the list is an insertion into the mapping.
pub proof fn lemma_map_of_push<K, V>(pairs: Seq<(K, V)>, k: K, v: V)
    requires
        distinct_keys(pairs),
        !has_key(pairs, k),
    ensures
        distinct_keys(pairs.push((k, v))),
        map_of(pairs.push((k, v))) == map_of(pairs).insert(k, v),
{
    let next = pairs.push((k, v));
    assert forall|i: int, j: int| 0 <= i < j < next.len() implies (#[trigger] next[i]).0 != (
    #[trigger] next[j]).0 by {
        if j == pairs.len() {
            assert(next[i] == pairs[i]);
            if next[i].0 == k {
                assert(has_key(pairs, k));
            }
        } else {
            assert(next[i] == pairs[i]);
            assert(next[j] == pairs[j]);
        }
    }
    assert forall|q: K| has_key(next, q) <==> (q == k || has_key(pairs, q)) by {
        if has_key(next, q) {
            let i = key_index(next, q);
            if i < pairs.len() {
                assert(pairs[i] == next[i]);
            }
        }
        if q == k {
            assert(next[pairs.len() as int].0 == k);
        }
        if has_key(pairs, q) {
            let i = key_index(pairs, q);
            assert(next[i] == pairs[i]);
        }
    }
    assert forall|q: K| has_key(next, q) implies #[trigger] map_of(next)[q] == map_of(
        pairs,
    ).insert(k, v)[q] by {
        let i = key_index(next, q);
        lemma_map_of_index(next, i);
        if i < pairs.len() {
            assert(next[i] == pairs[i]);
            lemma_map_of_index(pairs, i);
        }
    }
    assert(map_of(next) =~= map_of(pairs).insert(k, v));
}

/// A new value at a place of the list is an insertion into the mapping.
pub proof fn lemma_map_of_update<K, V>(pairs: Seq<(K, V)>, i: int, v: V)
    requires
        distinct_keys(pairs),
        0 <= i < pairs.len(),
    ensures
        distinct_keys(pairs.update(i, (pairs[i].0, v))),
        map_of(pairs.update(i, (pairs[i].0, v))) == map_of(pairs).insert(pairs[i].0, v),
{
    let k = pairs[i].0;
    let next = pairs.update(i, (k, v));
    assert forall|a: int, b: int| 0 <= a < b < next.len() implies (#[trigger] next[a]).0 != (
    #[trigger] next[b]).0 by {
        assert(next[a].0 == pairs[a].0);
        assert(next[b].0 == pairs[b].0);
    }
    assert forall|q: K| has_key(next, q) <==> has_key(pairs, q) by {
        if has_key(next, q) {
            let j = key_index(next, q);
            assert(pairs[j].0 == next[j].0);
        }
        if has_key(pairs, q) {
            let j = key_index(pairs, q);
            assert(next[j].0 == pairs[j].0);
        }
    }
    lemma_map_of_index(pairs, i);
    assert forall|q: K| has_key(next, q) implies #[trigger] map_of(next)[q] == map_of(
        pairs,
    ).insert(k, v)[q] by {
        let j = key_index(next, q);
        lemma_map_of_index(next, j);
        if j != i {
            assert(next[j] == pairs[j]);
            lemma_map_of_index(pairs, j);
        }
    }
    assert(map_of(next) =~= map_of(pairs).insert(k, v));
}

/// Taking a pair out of the list removes its key from the mapping.
pub proof fn lemma_map_of_remove<K, V>(pairs: Seq<(K, V)>, i: int)
    requires
        distinct_keys(pairs),
        0 <= i < pairs.len(),
    ensures
        distinct_keys(pairs.remove(i)),
        map_of(pairs.remove(i)) == map_of(pairs).remove(pairs[i].0),
{
    let k = pairs[i].0;
    let next = pairs.remove(i);
    assert forall|a: int| 0 <= a < next.len() implies #[trigger] next[a] == pairs[if a < i {
        a
    } else {
        a + 1
    }] by {}
    assert forall|a: int, b: int| 0 <= a < b < next.len() implies (#[trigger] next[a]).0 != (
    #[trigger] next[b]).0 by {
        let a2 = if a < i { a } else { a + 1 };
        let b2 = if b < i { b } else { b + 1 };
        assert(next[a] == pairs[a2]);
        assert(next[b] == pairs[b2]);
        assert(pairs[a2].0 != pairs[b2].0);
    }
    assert forall|q: K| has_key(next, q) <==> (q != k && has_key(pairs, q)) by {
        if has_key(next, q) {
            let j = key_index(next, q);
            let j2 = if j < i { j } else { j + 1 };
            assert(next[j] == pairs[j2]);
            assert(has_key(pairs, q));
            if q == k {
                if j2 < i {
                    assert(pairs[j2].0 != pairs[i].0);
                } else {
                    assert(pairs[i].0 != pairs[j2].0);
                }
            }
        }
        if q != k && has_key(pairs, q) {
            let j = key_index(pairs, q);
            let j2 = if j < i { j } else { j - 1 };
            assert(next[j2] == pairs[j]);
        }
    }
    assert forall|q: K| has_key(next, q) implies #[trigger] map_of(next)[q] == map_of(
        pairs,
    ).remove(k)[q] by {
        let j = key_index(next, q);
        lemma_map_of_index(next, j);
        let j2 = if j < i { j } else { j + 1 };
        assert(next[j] == pairs[j2]);
        lemma_map_of_index(pairs, j2);
    }
    assert(map_of(next) =~= map_of(pairs).remove(k));
}

/// A list with one more element holds what it held, and that element.
pub proof fn lemma_push_contains<A>(s: Seq<A>, x: A, y: A)
    ensures
        s.push(x).contains(y) <==> s.contains(y) || x == y,
{
    let t = s.push(x);
    if t.contains(y) {
        let i = choose|i: int| 0 <= i < t.len() && t[i] == y;
        if i < s.len() {
            assert(s[i] == y);
        }
    }
    if s.contains(y) {
        let i = choose|i: int| 0 <= i < s.len() && s[i] == y;
        assert(t[i] == y);
    }
    if x == y {
        assert(t[s.len() as int] == y);
    }
}

/// A key is among the pairs where it is among all but the last, or is the
/// key of the last.
pub proof fn lemma_has_key_last<K, V>(pairs: Seq<(K, V)>, k: K)
    requires
        pairs.len() > 0,
    ensures
        has_key(pairs, k) <==> has_key(pairs.drop_last(), k) || pairs.last().0 == k,
{
    let front = pairs.drop_last();
    if has_key(pairs, k) {
        let i = key_index(pairs, k);
        if i < front.len() {
            assert(front[i] == pairs[i]);
        }
    }
    if has_key(front, k) {
        let i = key_index(front, k);
        assert(pairs[i] == front[i]);
    }
    if pairs.last().0 == k {
        assert(pairs[pairs.len() - 1].0 == k);
    }
}

/// All but the last of a list with distinct keys has distinct keys.
pub proof fn lemma_distinct_front<K, V>(pairs: Seq<(K, V)>)
    requires
        pairs.len() > 0,
        distinct_keys(pairs),
    ensures
        distinct_keys(pairs.drop_last()),
        !has_key(pairs.drop_last(), pairs.last().0),
        map_of(pairs) == map_of(pairs.drop_last()).insert(pairs.last().0, pairs.last().1),
{
    let front = pairs.drop_last();
    assert forall|i: int, j: int| 0 <= i < j < front.len() implies (#[trigger] front[i]).0 != (
    #[trigger] front[j]).0 by {
        assert(front[i] == pairs[i]);
        assert(front[j] == pairs[j]);
    }
    if has_key(front, pairs.last().0) {
        let i = key_index(front, pairs.last().0);
        assert(pairs[i] == front[i]);
        assert(pairs[i].0 != pairs[pairs.len() - 1].0);
    }
    lemma_map_of_push(front, pairs.last().0, pairs.last().1);
    assert(front.push(pairs.last()) =~= pairs);
}

} // verus!
