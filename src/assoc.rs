//! Association lists: sequences of key/value pairs with unique keys, read as
//! maps.

use vstd::prelude::*;

verus! {

pub open spec fn has_key_at<K, V>(s: Seq<(K, V)>, j: int, k: K) -> bool {
    0 <= j < s.len() && s[j].0 == k
}

/// The map that an association list stands for.
pub open spec fn as_map<K, V>(s: Seq<(K, V)>) -> Map<K, V> {
    Map::new(|k: K| exists|j: int| has_key_at(s, j, k), |k: K| s[choose|j: int| has_key_at(s, j, k)].1)
}

pub open spec fn keys_unique<K, V>(s: Seq<(K, V)>) -> bool {
    forall|i: int, j: int| 0 <= i < s.len() && 0 <= j < s.len() && i != j ==> #[trigger] s[i].0 != #[trigger] s[j].0
}

pub proof fn lemma_at<K, V>(s: Seq<(K, V)>, j: int)
    requires
        keys_unique(s),
        0 <= j < s.len(),
    ensures
        as_map(s).contains_key(s[j].0),
        as_map(s)[s[j].0] == s[j].1,
{
    assert(has_key_at(s, j, s[j].0));
    let c = choose|c: int| has_key_at(s, c, s[j].0);
    assert(c == j);
}

pub proof fn lemma_update<K, V>(s: Seq<(K, V)>, j: int, v: V)
    requires
        keys_unique(s),
        0 <= j < s.len(),
    ensures
        keys_unique(s.update(j, (s[j].0, v))),
        as_map(s.update(j, (s[j].0, v))) == as_map(s).insert(s[j].0, v),
{
    let key = s[j].0;
    let t = s.update(j, (key, v));
    assert forall|a: int, b: int| 0 <= a < t.len() && 0 <= b < t.len() && a != b implies #[trigger] t[a].0
        != #[trigger] t[b].0 by {
        assert(t[a].0 == s[a].0 && t[b].0 == s[b].0);
    }
    assert forall|k: K| #[trigger] as_map(t).contains_key(k) <==> as_map(s).insert(key, v).contains_key(k) by {
        if exists|c: int| has_key_at(t, c, k) {
            let c = choose|c: int| has_key_at(t, c, k);
            assert(has_key_at(s, c, k));
        }
        if exists|c: int| has_key_at(s, c, k) {
            let c = choose|c: int| has_key_at(s, c, k);
            assert(has_key_at(t, c, k));
        }
        if k == key {
            assert(has_key_at(t, j, k));
        }
    }
    assert forall|k: K| #[trigger] as_map(t).contains_key(k) implies as_map(t)[k] == as_map(s).insert(key, v)[k] by {
        let c = choose|c: int| has_key_at(t, c, k);
        lemma_at(t, c);
        if c != j {
            lemma_at(s, c);
        }
    }
    assert(as_map(t) =~= as_map(s).insert(key, v));
}

pub proof fn lemma_push<K, V>(s: Seq<(K, V)>, k0: K, v: V)
    requires
        keys_unique(s),
        !as_map(s).contains_key(k0),
    ensures
        keys_unique(s.push((k0, v))),
        as_map(s.push((k0, v))) == as_map(s).insert(k0, v),
{
    let t = s.push((k0, v));
    assert forall|i: int| 0 <= i < s.len() implies !has_key_at(s, i, k0) by {}
    assert forall|a: int, b: int| 0 <= a < t.len() && 0 <= b < t.len() && a != b implies #[trigger] t[a].0
        != #[trigger] t[b].0 by {
        if a == s.len() {
            assert(!has_key_at(s, b, k0));
        } else if b == s.len() {
            assert(!has_key_at(s, a, k0));
        } else {
            assert(t[a] == s[a] && t[b] == s[b]);
        }
    }
    assert forall|k: K| #[trigger] as_map(t).contains_key(k) <==> as_map(s).insert(k0, v).contains_key(k) by {
        if exists|c: int| has_key_at(t, c, k) {
            let c = choose|c: int| has_key_at(t, c, k);
            if c < s.len() {
                assert(has_key_at(s, c, k));
            }
        }
        if exists|c: int| has_key_at(s, c, k) {
            let c = choose|c: int| has_key_at(s, c, k);
            assert(has_key_at(t, c, k));
        }
        if k == k0 {
            assert(has_key_at(t, s.len() as int, k));
        }
    }
    assert forall|k: K| #[trigger] as_map(t).contains_key(k) implies as_map(t)[k] == as_map(s).insert(k0, v)[k] by {
        let c = choose|c: int| has_key_at(t, c, k);
        lemma_at(t, c);
        if c < s.len() {
            lemma_at(s, c);
        }
    }
    assert(as_map(t) =~= as_map(s).insert(k0, v));
}

pub proof fn lemma_remove<K, V>(s: Seq<(K, V)>, j: int)
    requires
        keys_unique(s),
        0 <= j < s.len(),
    ensures
        keys_unique(s.remove(j)),
        as_map(s.remove(j)) == as_map(s).remove(s[j].0),
{
    let t = s.remove(j);
    let key = s[j].0;
    assert forall|a: int, b: int| 0 <= a < t.len() && 0 <= b < t.len() && a != b implies #[trigger] t[a].0
        != #[trigger] t[b].0 by {
        let sa = if a < j { a } else { a + 1 };
        let sb = if b < j { b } else { b + 1 };
        assert(t[a] == s[sa] && t[b] == s[sb]);
    }
    assert forall|k: K| #[trigger] as_map(t).contains_key(k) <==> as_map(s).remove(key).contains_key(k) by {
        if exists|c: int| has_key_at(t, c, k) {
            let c = choose|c: int| has_key_at(t, c, k);
            let sc = if c < j { c } else { c + 1 };
            assert(has_key_at(s, sc, k));
            assert(sc != j);
        }
        if exists|c: int| has_key_at(s, c, k) {
            let c = choose|c: int| has_key_at(s, c, k);
            if k != key {
                assert(c != j);
                let tc = if c < j { c } else { c - 1 };
                assert(has_key_at(t, tc, k));
            }
        }
    }
    assert forall|k: K| #[trigger] as_map(t).contains_key(k) implies as_map(t)[k] == as_map(s).remove(key)[k] by {
        let c = choose|c: int| has_key_at(t, c, k);
        lemma_at(t, c);
        let sc = if c < j { c } else { c + 1 };
        assert(t[c] == s[sc]);
        lemma_at(s, sc);
    }
    assert(as_map(t) =~= as_map(s).remove(key));
}

} // verus!
