//! Association lists keyed by endpoint: the maps and sets of the protocol
//! state, held as vectors of entries. A key stands for the value of its
//! first entry.

use vstd::prelude::*;
use crate::keys::{EndpointId, bytes32_eq};

verus! {

/// No two entries share a key.
pub open spec fn keys_unique<K, V>(s: Seq<(K, V)>) -> bool {
    forall|i: int, j: int| 0 <= i < s.len() && 0 <= j < s.len() && i != j ==> s[i].0 != s[j].0
}

/// The value of the first entry with key `k`.
pub open spec fn lookup<K, V>(s: Seq<(K, V)>, k: K) -> Option<V>
    decreases s.len(),
{
    if s.len() == 0 {
        None
    } else if s[0].0 == k {
        Some(s[0].1)
    } else {
        lookup(s.drop_first(), k)
    }
}

/// The map an association list stands for.
pub open spec fn as_map<K, V>(s: Seq<(K, V)>) -> Map<K, V> {
    Map::new(|k: K| lookup(s, k) is Some, |k: K| lookup(s, k)->Some_0)
}

pub proof fn lemma_lookup_first<K, V>(s: Seq<(K, V)>, i: int)
    requires
        0 <= i < s.len(),
        forall|j: int| 0 <= j < i ==> #[trigger] s[j].0 != s[i].0,
    ensures
        lookup(s, s[i].0) == Some(s[i].1),
    decreases i,
{
    if i > 0 {
        assert(s.drop_first()[i - 1] == s[i]);
        assert forall|j: int| 0 <= j < i - 1 implies #[trigger] s.drop_first()[j].0 != s.drop_first()[i - 1].0 by {
            assert(s.drop_first()[j] == s[j + 1]);
        }
        lemma_lookup_first(s.drop_first(), i - 1);
    }
}

pub proof fn lemma_lookup_index<K, V>(s: Seq<(K, V)>, i: int)
    requires
        keys_unique(s),
        0 <= i < s.len(),
    ensures
        lookup(s, s[i].0) == Some(s[i].1),
{
    lemma_lookup_first(s, i);
}

pub proof fn lemma_lookup_none<K, V>(s: Seq<(K, V)>, k: K)
    ensures
        lookup(s, k) is None <==> forall|i: int| 0 <= i < s.len() ==> #[trigger] s[i].0 != k,
    decreases s.len(),
{
    if s.len() > 0 {
        lemma_lookup_none(s.drop_first(), k);
        if lookup(s, k) is None {
            assert forall|i: int| 0 <= i < s.len() implies #[trigger] s[i].0 != k by {
                if i > 0 {
                    assert(s.drop_first()[i - 1] == s[i]);
                }
            }
        } else {
            if s[0].0 != k {
                let i = choose|i: int| 0 <= i < s.len() - 1 && #[trigger] s.drop_first()[i].0 == k;
                assert(s[i + 1].0 == k);
            }
        }
    }
}

pub proof fn lemma_lookup_some<K, V>(s: Seq<(K, V)>, k: K)
    requires
        lookup(s, k) is Some,
    ensures
        exists|i: int| 0 <= i < s.len() && #[trigger] s[i].0 == k && s[i].1 == lookup(s, k)->Some_0,
    decreases s.len(),
{
    if s[0].0 != k {
        lemma_lookup_some(s.drop_first(), k);
        let i = choose|i: int| 0 <= i < s.len() - 1 && #[trigger] s.drop_first()[i].0 == k && s.drop_first()[i].1 == lookup(s, k)->Some_0;
        assert(s[i + 1] == s.drop_first()[i]);
    } else {
        assert(s[0].0 == k);
    }
}

pub proof fn lemma_lookup_push<K, V>(s: Seq<(K, V)>, k: K, v: V, q: K)
    ensures
        lookup(s.push((k, v)), q) == (if lookup(s, q) is Some {
            lookup(s, q)
        } else if q == k {
            Some(v)
        } else {
            None::<V>
        }),
    decreases s.len(),
{
    if s.len() == 0 {
        assert(s.push((k, v))[0] == (k, v));
        assert(s.push((k, v)).drop_first() =~= Seq::<(K, V)>::empty());
    } else {
        assert(s.push((k, v)).drop_first() =~= s.drop_first().push((k, v)));
        assert(s.push((k, v))[0] == s[0]);
        lemma_lookup_push(s.drop_first(), k, v, q);
    }
}

pub proof fn lemma_lookup_update<K, V>(s: Seq<(K, V)>, i: int, v: V, q: K)
    requires
        keys_unique(s),
        0 <= i < s.len(),
    ensures
        keys_unique(s.update(i, (s[i].0, v))),
        lookup(s.update(i, (s[i].0, v)), q) == (if q == s[i].0 {
            Some(v)
        } else {
            lookup(s, q)
        }),
    decreases s.len(),
{
    let t = s.update(i, (s[i].0, v));
    if i == 0 {
        assert(t.drop_first() =~= s.drop_first());
    } else {
        assert(t.drop_first() =~= s.drop_first().update(i - 1, (s[i].0, v)));
        assert(s.drop_first()[i - 1] == s[i]);
        lemma_lookup_update(s.drop_first(), i - 1, v, q);
    }
}

pub proof fn lemma_lookup_remove<K, V>(s: Seq<(K, V)>, i: int, q: K)
    requires
        keys_unique(s),
        0 <= i < s.len(),
    ensures
        keys_unique(s.remove(i)),
        lookup(s.remove(i), q) == (if q == s[i].0 {
            None::<V>
        } else {
            lookup(s, q)
        }),
    decreases s.len(),
{
    let t = s.remove(i);
    if i == 0 {
        assert(t =~= s.drop_first());
        if q == s[0].0 {
            assert forall|j: int| 0 <= j < t.len() implies #[trigger] t[j].0 != q by {
                assert(t[j] == s[j + 1]);
            }
            lemma_lookup_none(t, q);
        }
    } else {
        assert(t.drop_first() =~= s.drop_first().remove(i - 1));
        assert(t[0] == s[0]);
        assert(s.drop_first()[i - 1] == s[i]);
        lemma_lookup_remove(s.drop_first(), i - 1, q);
    }
}

pub proof fn lemma_lookup_remove_other<K, V>(s: Seq<(K, V)>, i: int, q: K)
    requires
        0 <= i < s.len(),
        s[i].0 != q,
    ensures
        lookup(s.remove(i), q) == lookup(s, q),
    decreases s.len(),
{
    let t = s.remove(i);
    if i == 0 {
        assert(t =~= s.drop_first());
    } else {
        assert(t.drop_first() =~= s.drop_first().remove(i - 1));
        assert(t[0] == s[0]);
        assert(s.drop_first()[i - 1] == s[i]);
        lemma_lookup_remove_other(s.drop_first(), i - 1, q);
    }
}

pub proof fn lemma_lookup_update_first<K, V>(s: Seq<(K, V)>, i: int, v: V, q: K)
    requires
        0 <= i < s.len(),
        forall|j: int| 0 <= j < i ==> #[trigger] s[j].0 != s[i].0,
    ensures
        lookup(s.update(i, (s[i].0, v)), q) == (if q == s[i].0 {
            Some(v)
        } else {
            lookup(s, q)
        }),
    decreases s.len(),
{
    let t = s.update(i, (s[i].0, v));
    if i == 0 {
        assert(t.drop_first() =~= s.drop_first());
    } else {
        assert(t.drop_first() =~= s.drop_first().update(i - 1, (s[i].0, v)));
        assert(s.drop_first()[i - 1] == s[i]);
        assert forall|j: int| 0 <= j < i - 1 implies #[trigger] s.drop_first()[j].0 != s.drop_first()[i - 1].0 by {
            assert(s.drop_first()[j] == s[j + 1]);
        }
        lemma_lookup_update_first(s.drop_first(), i - 1, v, q);
    }
}

/// Removes every entry with key `key`.
pub fn remove_key<V>(s: &mut Vec<(EndpointId, V)>, key: &EndpointId)
    ensures
        forall|q: EndpointId| #[trigger] lookup(final(s)@, q) == if q == *key { None } else { lookup(old(s)@, q) },
        keys_unique(old(s)@) ==> keys_unique(final(s)@),
        forall|i: int| 0 <= i < final(s)@.len() ==> #[trigger] final(s)@[i].0 != *key,
{
    let mut i: usize = 0;
    while i < s.len()
        invariant
            0 <= i <= s@.len(),
            forall|q: EndpointId| q != *key ==> #[trigger] lookup(s@, q) == lookup(old(s)@, q),
            keys_unique(old(s)@) ==> keys_unique(s@),
            forall|j: int| 0 <= j < i ==> #[trigger] s@[j].0 != *key,
        decreases s.len() - i,
    {
        if crate::keys::bytes32_eq(&s[i].0.0, &key.0) {
            assert(s@[i as int].0.0 =~= key.0);
            let ghost before = s@;
            s.remove(i);
            proof {
                assert forall|q: EndpointId| q != *key implies #[trigger] lookup(s@, q) == lookup(old(s)@, q) by {
                    lemma_lookup_remove_other(before, i as int, q);
                }
                assert forall|j: int| 0 <= j < i implies #[trigger] s@[j].0 != *key by {
                    assert(s@[j] == before[j]);
                }
                if keys_unique(old(s)@) {
                    assert forall|a: int, b: int| 0 <= a < s@.len() && 0 <= b < s@.len() && a != b implies s@[a].0 != s@[b].0 by {
                        let a2 = if a < i { a } else { a + 1 };
                        let b2 = if b < i { b } else { b + 1 };
                        assert(s@[a] == before[a2]);
                        assert(s@[b] == before[b2]);
                    }
                }
            }
        } else {
            proof {
                if s@[i as int].0 == *key {
                    assert(s@[i as int].0.0@ == key.0@);
                }
            }
            i += 1;
        }
    }
    proof {
        assert forall|q: EndpointId| #[trigger] lookup(s@, q) == if q == *key { None } else { lookup(old(s)@, q) } by {
            if q == *key {
                lemma_lookup_none(s@, q);
            }
        }
    }
}

/// Removes every occurrence of `key`.
pub fn remove_elem(s: &mut Vec<EndpointId>, key: &EndpointId)
    ensures
        forall|x: EndpointId| #[trigger] final(s)@.contains(x) <==> (old(s)@.contains(x) && x != *key),
{
    let mut out: Vec<EndpointId> = Vec::new();
    let mut i: usize = 0;
    while i < s.len()
        invariant
            0 <= i <= s@.len(),
            s@ == old(s)@,
            forall|x: EndpointId| #[trigger] out@.contains(x) <==> (s@.take(i as int).contains(x) && x != *key),
        decreases s.len() - i,
    {
        let e = s[i];
        let keep = !bytes32_eq(&e.0, &key.0);
        proof {
            if !keep {
                assert(e.0 =~= key.0);
            } else if e == *key {
                assert(e.0@ == key.0@);
            }
        }
        let ghost prev = out@;
        if keep {
            out.push(e);
        }
        proof {
            let t0 = s@.take(i as int);
            let t1 = s@.take(i + 1);
            assert(t1 =~= t0.push(e));
            assert forall|x: EndpointId| #[trigger] out@.contains(x) <==> (t1.contains(x) && x != *key) by {
                if out@.contains(x) {
                    let j = choose|j: int| 0 <= j < out@.len() && out@[j] == x;
                    if j < prev.len() {
                        assert(prev[j] == x);
                        assert(prev.contains(x));
                        let k = choose|k: int| 0 <= k < t0.len() && t0[k] == x;
                        assert(t1[k] == x);
                    } else {
                        assert(t1[i as int] == x);
                    }
                }
                if t1.contains(x) && x != *key {
                    let k = choose|k: int| 0 <= k < t1.len() && t1[k] == x;
                    if k < i {
                        assert(t0[k] == x);
                        assert(prev.contains(x));
                        let j = choose|j: int| 0 <= j < prev.len() && prev[j] == x;
                        assert(out@[j] == x);
                    } else {
                        assert(out@[prev.len() as int] == x);
                    }
                }
            }
        }
        i += 1;
    }
    proof {
        assert(s@.take(i as int) =~= old(s)@);
    }
    *s = out;
}

/// Adds `key` unless it is already present.
pub fn insert_elem(s: &mut Vec<EndpointId>, key: EndpointId)
    ensures
        forall|x: EndpointId| #[trigger] final(s)@.contains(x) <==> (old(s)@.contains(x) || x == key),
{
    if find_elem(s, &key).is_none() {
        s.push(key);
        proof {
            assert forall|x: EndpointId| #[trigger] s@.contains(x) <==> (old(s)@.contains(x) || x == key) by {
                if s@.contains(x) {
                    let j = choose|j: int| 0 <= j < s@.len() && s@[j] == x;
                    if j < old(s)@.len() {
                        assert(old(s)@[j] == x);
                    }
                }
                if old(s)@.contains(x) {
                    let j = choose|j: int| 0 <= j < old(s)@.len() && old(s)@[j] == x;
                    assert(s@[j] == x);
                }
                if x == key {
                    assert(s@[old(s)@.len() as int] == x);
                }
            }
        }
    } else {
        proof {
            assert forall|x: EndpointId| #[trigger] s@.contains(x) <==> (old(s)@.contains(x) || x == key) by {}
        }
    }
}

/// The position of the first entry with key `key`, if any.
pub fn find_key<V>(s: &Vec<(EndpointId, V)>, key: &EndpointId) -> (r: Option<usize>)
    ensures
        r matches Some(i) ==> i < s@.len() && s@[i as int].0 == *key && lookup(s@, *key) == Some(s@[i as int].1),
        r matches Some(i) ==> forall|j: int| 0 <= j < i ==> #[trigger] s@[j].0 != *key,
        r is None ==> lookup(s@, *key) is None,
        r is None ==> forall|i: int| 0 <= i < s@.len() ==> #[trigger] s@[i].0 != *key,
{
    let mut i: usize = 0;
    while i < s.len()
        invariant
            0 <= i <= s@.len(),
            forall|j: int| 0 <= j < i ==> #[trigger] s@[j].0 != *key,
        decreases s.len() - i,
    {
        if bytes32_eq(&s[i].0.0, &key.0) {
            assert(s@[i as int].0.0 =~= key.0);
            proof {
                lemma_lookup_first(s@, i as int);
            }
            return Some(i);
        }
        proof {
            if s@[i as int].0 == *key {
                assert(s@[i as int].0.0@ == key.0@);
            }
        }
        i += 1;
    }
    proof {
        lemma_lookup_none(s@, *key);
    }
    None
}

/// The position of `key` among the elements, if present.
pub fn find_elem(s: &Vec<EndpointId>, key: &EndpointId) -> (r: Option<usize>)
    ensures
        r matches Some(i) ==> i < s@.len() && s@[i as int] == *key,
        r is None ==> !s@.contains(*key),
{
    let mut i: usize = 0;
    while i < s.len()
        invariant
            0 <= i <= s@.len(),
            forall|j: int| 0 <= j < i ==> #[trigger] s@[j] != *key,
        decreases s.len() - i,
    {
        if bytes32_eq(&s[i].0, &key.0) {
            assert(s@[i as int].0 =~= key.0);
            return Some(i);
        }
        proof {
            if s@[i as int] == *key {
                assert(s@[i as int].0@ == key.0@);
            }
        }
        i += 1;
    }
    None
}

} // verus!
