//! Association sequences: sequences of `(key, value)` pairs with string keys,
//! viewed as finite maps. Every container of the store (rows, memtables,
//! segments, the catalog itself) keeps its data in such a sequence and states
//! its contract over the corresponding map.

use vstd::map::*;
use vstd::prelude::*;

use crate::strutil::{char_seq_lt, lemma_lt_transitive, lemma_lt_trichotomy};

verus! {

/// No two pairs share a key.
pub open spec fn keys_distinct<V>(s: Seq<(Seq<char>, V)>) -> bool {
    forall|i: int, j: int| 0 <= i < j < s.len() ==> s[i].0 != s[j].0
}

/// Keys appear in strictly increasing lexicographic order.
pub open spec fn keys_sorted<V>(s: Seq<(Seq<char>, V)>) -> bool {
    forall|i: int, j: int| 0 <= i < j < s.len() ==> char_seq_lt(s[i].0, s[j].0)
}

/// The map described by an association sequence; a repeated key keeps its
/// last value.
pub open spec fn map_of<V>(s: Seq<(Seq<char>, V)>) -> Map<Seq<char>, V>
    decreases s.len(),
{
    if s.len() == 0 {
        Map::empty()
    } else {
        map_of(s.drop_last()).insert(s.last().0, s.last().1)
    }
}

/// Strictly sorted keys are distinct.
pub proof fn lemma_sorted_distinct<V>(s: Seq<(Seq<char>, V)>)
    requires
        keys_sorted(s),
    ensures
        keys_distinct(s),
{
    assert forall|i: int, j: int| 0 <= i < j < s.len() implies s[i].0 != s[j].0 by {
        lemma_lt_trichotomy(s[i].0, s[j].0);
    }
}

/// A key is in the map exactly when some pair carries it.
pub proof fn lemma_map_of_contains<V>(s: Seq<(Seq<char>, V)>, k: Seq<char>)
    ensures
        map_of(s).contains_key(k) <==> exists|i: int| 0 <= i < s.len() && s[i].0 == k,
    decreases s.len(),
{
    if s.len() > 0 {
        lemma_map_of_contains(s.drop_last(), k);
        if map_of(s).contains_key(k) {
            if s.last().0 == k {
                assert(s[s.len() - 1].0 == k);
            } else {
                let i = choose|i: int| 0 <= i < s.drop_last().len() && s.drop_last()[i].0 == k;
                assert(s[i].0 == k);
            }
        }
        if exists|i: int| 0 <= i < s.len() && s[i].0 == k {
            let i = choose|i: int| 0 <= i < s.len() && s[i].0 == k;
            if i < s.len() - 1 {
                assert(s.drop_last()[i].0 == k);
            }
        }
    }
}

/// With distinct keys, the pair carrying a key gives its value in the map.
pub proof fn lemma_map_of_get<V>(s: Seq<(Seq<char>, V)>, i: int)
    requires
        keys_distinct(s),
        0 <= i < s.len(),
    ensures
        map_of(s).contains_key(s[i].0),
        map_of(s)[s[i].0] == s[i].1,
    decreases s.len(),
{
    lemma_map_of_contains(s, s[i].0);
    if i == s.len() - 1 {
    } else {
        assert(keys_distinct(s.drop_last()));
        assert(s.drop_last()[i] == s[i]);
        lemma_map_of_get(s.drop_last(), i);
        assert(s.last().0 != s[i].0);
    }
}

/// Two sorted association sequences describing the same map are the same
/// sequence: a map has exactly one sorted listing.
pub proof fn lemma_sorted_assoc_unique<V>(s1: Seq<(Seq<char>, V)>, s2: Seq<(Seq<char>, V)>)
    requires
        keys_sorted(s1),
        keys_sorted(s2),
        map_of(s1) == map_of(s2),
    ensures
        s1 == s2,
    decreases s1.len(),
{
    lemma_sorted_distinct(s1);
    lemma_sorted_distinct(s2);
    lemma_map_of_len(s1);
    lemma_map_of_len(s2);
    if s1.len() == 0 {
        assert(s1 =~= s2);
    } else {
        let a = s1.last().0;
        let b = s2.last().0;
        lemma_map_of_get(s1, s1.len() - 1);
        lemma_map_of_contains(s2, a);
        let j = choose|j: int| 0 <= j < s2.len() && s2[j].0 == a;
        lemma_map_of_get(s2, s2.len() - 1);
        lemma_map_of_contains(s1, b);
        let j2 = choose|j2: int| 0 <= j2 < s1.len() && s1[j2].0 == b;
        if a != b {
            assert(j < s2.len() - 1);
            assert(char_seq_lt(a, b));
            assert(j2 < s1.len() - 1);
            assert(char_seq_lt(b, a));
            lemma_lt_trichotomy(a, b);
            assert(false);
        }
        lemma_map_of_get(s2, j);
        assert(s1.last().1 == s2.last().1) by {
            assert(map_of(s1)[a] == s1.last().1);
            assert(map_of(s2)[b] == s2.last().1);
        }
        assert(!map_of(s1.drop_last()).contains_key(a)) by {
            lemma_map_of_contains(s1.drop_last(), a);
            if exists|i: int| 0 <= i < s1.drop_last().len() && s1.drop_last()[i].0 == a {
                let i = choose|i: int|
                    0 <= i < s1.drop_last().len() && s1.drop_last()[i].0 == a;
                assert(s1[i].0 == s1[s1.len() - 1].0);
            }
        }
        assert(!map_of(s2.drop_last()).contains_key(a)) by {
            lemma_map_of_contains(s2.drop_last(), a);
            if exists|i: int| 0 <= i < s2.drop_last().len() && s2.drop_last()[i].0 == a {
                let i = choose|i: int|
                    0 <= i < s2.drop_last().len() && s2.drop_last()[i].0 == a;
                assert(s2[i].0 == s2[s2.len() - 1].0);
            }
        }
        assert(map_of(s1.drop_last()) =~= map_of(s1).remove(a));
        assert(map_of(s2.drop_last()) =~= map_of(s2).remove(a));
        assert(keys_sorted(s1.drop_last())) by {
            assert(forall|i: int|
                0 <= i < s1.drop_last().len() ==> #[trigger] s1.drop_last()[i] == s1[i]);
        }
        assert(keys_sorted(s2.drop_last())) by {
            assert(forall|i: int|
                0 <= i < s2.drop_last().len() ==> #[trigger] s2.drop_last()[i] == s2[i]);
        }
        lemma_sorted_assoc_unique(s1.drop_last(), s2.drop_last());
        assert(s1.last() == s2.last());
        assert(s1 =~= s2) by {
            assert(s1 == s1.drop_last().push(s1.last()));
            assert(s2 == s2.drop_last().push(s2.last()));
        }
    }
}

/// Inserting a fresh key at any position inserts it into the map.
pub proof fn lemma_map_of_insert_at<V>(s: Seq<(Seq<char>, V)>, i: int, k: Seq<char>, v: V)
    requires
        keys_distinct(s),
        0 <= i <= s.len(),
        forall|j: int| 0 <= j < s.len() ==> (#[trigger] s[j]).0 != k,
    ensures
        keys_distinct(s.take(i) + seq![(k, v)] + s.skip(i)),
        map_of(s.take(i) + seq![(k, v)] + s.skip(i)) == map_of(s).insert(k, v),
{
    let r = s.take(i) + seq![(k, v)] + s.skip(i);
    assert(r.len() == s.len() + 1);
    assert(forall|j: int| 0 <= j < i ==> r[j] == s[j]);
    assert(r[i] == (k, v));
    assert(forall|j: int| i < j < r.len() ==> r[j] == s[j - 1]);
    assert forall|a: int, b: int| 0 <= a < b < r.len() implies r[a].0 != r[b].0 by {
        let a0 = if a < i { a } else { a - 1 };
        let b0 = if b < i { b } else { b - 1 };
        if a != i && b != i {
            assert(r[a].0 == s[a0].0);
            assert(r[b].0 == s[b0].0);
        }
    }
    assert_maps_equal!(map_of(r), map_of(s).insert(k, v), x => {
        lemma_map_of_contains(r, x);
        lemma_map_of_contains(s, x);
        if x == k {
            assert(r[i].0 == k);
            lemma_map_of_get(r, i);
        } else {
            if map_of(r).contains_key(x) {
                let j = choose|j: int| 0 <= j < r.len() && r[j].0 == x;
                lemma_map_of_get(r, j);
                let j0 = if j < i { j } else { j - 1 };
                assert(s[j0] == r[j]);
                lemma_map_of_get(s, j0);
            }
            if map_of(s).contains_key(x) {
                let j = choose|j: int| 0 <= j < s.len() && s[j].0 == x;
                lemma_map_of_get(s, j);
                let j1 = if j < i { j } else { j + 1 };
                assert(r[j1] == s[j]);
                lemma_map_of_get(r, j1);
            }
        }
    });
}

/// Replacing the value at a position updates the map at that key.
pub proof fn lemma_map_of_update_at<V>(s: Seq<(Seq<char>, V)>, i: int, v: V)
    requires
        keys_distinct(s),
        0 <= i < s.len(),
    ensures
        keys_distinct(s.update(i, (s[i].0, v))),
        map_of(s.update(i, (s[i].0, v))) == map_of(s).insert(s[i].0, v),
{
    let r = s.update(i, (s[i].0, v));
    assert(forall|j: int| 0 <= j < s.len() && j != i ==> r[j] == s[j]);
    assert(r[i].0 == s[i].0);
    assert forall|a: int, b: int| 0 <= a < b < r.len() implies r[a].0 != r[b].0 by {
        assert(r[a].0 == s[a].0);
        assert(r[b].0 == s[b].0);
    }
    assert_maps_equal!(map_of(r), map_of(s).insert(s[i].0, v), x => {
        lemma_map_of_contains(r, x);
        lemma_map_of_contains(s, x);
        if x == s[i].0 {
            lemma_map_of_get(r, i);
            lemma_map_of_get(s, i);
        } else {
            if map_of(r).contains_key(x) {
                let j = choose|j: int| 0 <= j < r.len() && r[j].0 == x;
                lemma_map_of_get(r, j);
                lemma_map_of_get(s, j);
            }
            if map_of(s).contains_key(x) {
                let j = choose|j: int| 0 <= j < s.len() && s[j].0 == x;
                lemma_map_of_get(s, j);
                lemma_map_of_get(r, j);
            }
        }
    });
}

/// Removing the pair at a position removes its key from the map.
pub proof fn lemma_map_of_remove_at<V>(s: Seq<(Seq<char>, V)>, i: int)
    requires
        keys_distinct(s),
        0 <= i < s.len(),
    ensures
        keys_distinct(s.remove(i)),
        map_of(s.remove(i)) == map_of(s).remove(s[i].0),
{
    let r = s.remove(i);
    assert(r.len() == s.len() - 1);
    assert(forall|j: int| 0 <= j < i ==> r[j] == s[j]);
    assert(forall|j: int| i <= j < r.len() ==> r[j] == s[j + 1]);
    assert forall|a: int, b: int| 0 <= a < b < r.len() implies r[a].0 != r[b].0 by {
        let a0 = if a < i { a } else { a + 1 };
        let b0 = if b < i { b } else { b + 1 };
        assert(r[a].0 == s[a0].0);
        assert(r[b].0 == s[b0].0);
    }
    assert_maps_equal!(map_of(r), map_of(s).remove(s[i].0), x => {
        lemma_map_of_contains(r, x);
        lemma_map_of_contains(s, x);
        if map_of(r).contains_key(x) {
            let j = choose|j: int| 0 <= j < r.len() && r[j].0 == x;
            lemma_map_of_get(r, j);
            let j0 = if j < i { j } else { j + 1 };
            assert(s[j0] == r[j]);
            lemma_map_of_get(s, j0);
        }
        if map_of(s).contains_key(x) && x != s[i].0 {
            let j = choose|j: int| 0 <= j < s.len() && s[j].0 == x;
            lemma_map_of_get(s, j);
            let j1 = if j < i { j } else { j - 1 };
            assert(r[j1] == s[j]);
            lemma_map_of_get(r, j1);
        }
    });
}

/// Inserting between smaller and larger keys keeps the order.
pub proof fn lemma_sorted_insert_at<V>(s: Seq<(Seq<char>, V)>, i: int, k: Seq<char>, v: V)
    requires
        keys_sorted(s),
        0 <= i <= s.len(),
        forall|j: int| 0 <= j < i ==> char_seq_lt((#[trigger] s[j]).0, k),
        i < s.len() ==> char_seq_lt(k, s[i].0),
    ensures
        keys_sorted(s.take(i) + seq![(k, v)] + s.skip(i)),
        forall|j: int| 0 <= j < s.len() ==> (#[trigger] s[j]).0 != k,
    decreases s.len(),
{
    let r = s.take(i) + seq![(k, v)] + s.skip(i);
    assert(forall|j: int| 0 <= j < i ==> r[j] == s[j]);
    assert(r[i] == (k, v));
    assert(forall|j: int| i < j < r.len() ==> r[j] == s[j - 1]);
    assert forall|j: int| i <= j < s.len() implies char_seq_lt(k, (#[trigger] s[j]).0) by {
        if j > i {
            lemma_lt_transitive(k, s[i].0, s[j].0);
        }
    }
    assert forall|a: int, b: int| 0 <= a < b < r.len() implies char_seq_lt(r[a].0, r[b].0) by {
        if a == i {
            assert(r[b].0 == s[b - 1].0);
        } else if b == i {
            assert(r[a].0 == s[a].0);
        } else {
            let a0 = if a < i { a } else { a - 1 };
            let b0 = if b < i { b } else { b - 1 };
            assert(r[a].0 == s[a0].0);
            assert(r[b].0 == s[b0].0);
        }
    }
    assert forall|j: int| 0 <= j < s.len() implies (#[trigger] s[j]).0 != k by {
        lemma_lt_trichotomy(s[j].0, k);
    }
}

/// Removing a pair keeps the order of the rest.
pub proof fn lemma_sorted_remove_at<V>(s: Seq<(Seq<char>, V)>, i: int)
    requires
        keys_sorted(s),
        0 <= i < s.len(),
    ensures
        keys_sorted(s.remove(i)),
{
    let r = s.remove(i);
    assert forall|a: int, b: int| 0 <= a < b < r.len() implies char_seq_lt(r[a].0, r[b].0) by {
        let a0 = if a < i { a } else { a + 1 };
        let b0 = if b < i { b } else { b + 1 };
        assert(r[a].0 == s[a0].0);
        assert(r[b].0 == s[b0].0);
    }
}

/// With distinct keys the map is exactly as large as the sequence.
pub proof fn lemma_map_of_len<V>(s: Seq<(Seq<char>, V)>)
    requires
        keys_distinct(s),
    ensures
        map_of(s).dom().finite(),
        map_of(s).dom().len() == s.len(),
    decreases s.len(),
{
    if s.len() > 0 {
        assert(keys_distinct(s.drop_last()));
        lemma_map_of_len(s.drop_last());
        lemma_map_of_contains(s.drop_last(), s.last().0);
        assert(!map_of(s.drop_last()).contains_key(s.last().0)) by {
            if exists|i: int| 0 <= i < s.drop_last().len() && s.drop_last()[i].0 == s.last().0 {
                let i = choose|i: int|
                    0 <= i < s.drop_last().len() && s.drop_last()[i].0 == s.last().0;
                assert(s[i].0 == s[s.len() - 1].0);
            }
        }
    }
}

} // verus!
