//! The canonical order of a validated batch: parents before children, and
//! among the events ready at each step the smallest hash first. Any two
//! lists of the same events in this order are the same list.

use vstd::prelude::*;
use crate::history::{greedy_order, hashes_distinct, incoming_hashes, ready_in, same_event, TrustedEvent};
use crate::keys::{bytes_lt, hashes_sorted, lemma_bytes_lt_irreflexive, lemma_bytes_lt_transitive};

verus! {

/// Some event of the list has hash `h`.
pub open spec fn listed(es: Seq<TrustedEvent>, h: [u8; 32]) -> bool {
    exists|i: int| 0 <= i < es.len() && #[trigger] es[i].hash == h
}

/// Every parent of `t` that is listed comes among the first `k` events.
pub open spec fn ready_after(es: Seq<TrustedEvent>, k: int, t: TrustedEvent) -> bool {
    forall|p: [u8; 32]| #[trigger] t.event.event.parents@.contains(p) && listed(es, p)
        ==> exists|i: int| 0 <= i < k && #[trigger] es[i].hash == p
}

/// Distinct hashes, each event ready where it stands, and at each place
/// the smallest hash of the events then ready.
pub open spec fn canonical_order(es: Seq<TrustedEvent>) -> bool {
    &&& hashes_distinct(es)
    &&& forall|k: int| 0 <= k < es.len() ==> #[trigger] ready_after(es, k, es[k])
    &&& forall|k: int, m: int| 0 <= k < m < es.len() && #[trigger] ready_after(es, k, es[m])
        ==> bytes_lt(es[k].hash@, es[m].hash@)
}

/// A list of distinct indices below its length holds every index below it.
pub proof fn lemma_order_covers(order: Seq<usize>, i: int)
    requires
        forall|a: int, b: int| 0 <= a < b < order.len() ==> order[a] != order[b],
        forall|k: int| 0 <= k < order.len() ==> #[trigger] order[k] < order.len(),
        0 <= i < order.len(),
    ensures
        exists|k: int| 0 <= k < order.len() && order[k] == i,
{
    let ints = order.map_values(|x: usize| x as int);
    assert(ints.no_duplicates()) by {
        assert forall|a: int, b: int| 0 <= a < ints.len() && 0 <= b < ints.len() && a != b implies ints[a] != ints[b] by {
            if a < b {
                assert(order[a] != order[b]);
            } else {
                assert(order[b] != order[a]);
            }
        }
    }
    ints.unique_seq_to_set();
    let n = order.len() as int;
    vstd::set_lib::lemma_int_range(0, n);
    let s = ints.to_set();
    let r = vstd::set_lib::set_int_range(0, n);
    assert(s.subset_of(r)) by {
        assert forall|x: int| s.contains(x) implies r.contains(x) by {
            let k = choose|k: int| 0 <= k < ints.len() && ints[k] == x;
            assert(order[k] < order.len());
        }
    }
    vstd::set_lib::lemma_subset_equality(s, r);
    assert(r.contains(i));
    assert(s.contains(i));
    let k = choose|k: int| 0 <= k < ints.len() && ints[k] == i;
    assert(order[k] == i);
}

/// The events taken from a hash-sorted list in its greedy order stand in
/// the canonical order.
pub proof fn lemma_greedy_is_canonical(incoming: Seq<TrustedEvent>, order: Seq<usize>, events: Seq<TrustedEvent>)
    requires
        hashes_sorted(incoming_hashes(incoming)),
        greedy_order(incoming, order),
        events.len() == order.len(),
        forall|q: int| 0 <= q < events.len() ==> #[trigger] events[q].hash == incoming[order[q] as int].hash
            && same_event(events[q].event, incoming[order[q] as int].event),
    ensures
        canonical_order(events),
        forall|h: [u8; 32]| listed(events, h) <==> listed(incoming, h),
{
    crate::history::lemma_sorted_distinct(incoming);
    let hs = incoming_hashes(incoming);
    assert forall|h: [u8; 32]| listed(events, h) <==> listed(incoming, h) by {
        if listed(events, h) {
            let q = choose|q: int| 0 <= q < events.len() && #[trigger] events[q].hash == h;
            assert(incoming[order[q] as int].hash == h);
        }
        if listed(incoming, h) {
            let j = choose|j: int| 0 <= j < incoming.len() && #[trigger] incoming[j].hash == h;
            lemma_order_covers(order, j);
            let q = choose|q: int| 0 <= q < order.len() && order[q] == j;
            assert(events[q].hash == h);
        }
    }
    assert(hashes_distinct(events)) by {
        assert forall|a: int, b: int| 0 <= a < events.len() && 0 <= b < events.len() && a != b implies events[a].hash != events[b].hash by {
            if a < b {
                assert(order[a] != order[b]);
            } else {
                assert(order[b] != order[a]);
            }
            assert(events[a].hash == incoming[order[a] as int].hash);
            assert(events[b].hash == incoming[order[b] as int].hash);
        }
    }
    assert forall|k: int| 0 <= k < events.len() implies #[trigger] ready_after(events, k, events[k]) by {
        let ik = order[k] as int;
        assert(ready_in(incoming, order.take(k), ik));
        assert forall|p: [u8; 32]| #[trigger] events[k].event.event.parents@.contains(p) && listed(events, p)
            implies exists|i: int| 0 <= i < k && #[trigger] events[i].hash == p by {
            let j = choose|j: int| 0 <= j < incoming.len() && #[trigger] incoming[j].hash == p;
            assert(incoming[ik].event.event.parents@.contains(incoming[j].hash));
            assert(order.take(k).contains(j as usize));
            let i = choose|i: int| 0 <= i < order.take(k).len() && order.take(k)[i] == j as usize;
            assert(order[i] == j);
            assert(events[i].hash == p);
        }
    }
    assert forall|k: int, m: int| 0 <= k < m < events.len() && #[trigger] ready_after(events, k, events[m])
        implies bytes_lt(events[k].hash@, events[m].hash@) by {
        let ik = order[k] as int;
        let im = order[m] as int;
        assert(!order.take(k).contains(im as usize)) by {
            if order.take(k).contains(im as usize) {
                let i = choose|i: int| 0 <= i < order.take(k).len() && order.take(k)[i] == im as usize;
                assert(order[i] == order[m]);
            }
        }
        assert(ready_in(incoming, order.take(k), im)) by {
            assert forall|j: int| 0 <= j < incoming.len() && incoming[im].event.event.parents@.contains(#[trigger] incoming[j].hash)
                implies order.take(k).contains(j as usize) by {
                let p = incoming[j].hash;
                assert(events[m].event.event.parents@.contains(p));
                assert(listed(events, p)) by {
                    lemma_order_covers(order, j);
                    let q = choose|q: int| 0 <= q < order.len() && order[q] == j;
                    assert(events[q].hash == p);
                }
                let i = choose|i: int| 0 <= i < k && #[trigger] events[i].hash == p;
                assert(incoming[order[i] as int].hash == incoming[j].hash);
                assert(order[i] == j);
                assert(order.take(k)[i] == j as usize);
            }
        }
        assert(im != ik);
        if im < ik {
            assert(!ready_in(incoming, order.take(k), im));
        }
        assert(bytes_lt(hs[ik]@, hs[im]@));
    }
}

/// Some event of the list has the hash and the parents of `t`.
pub open spec fn listed_with(es: Seq<TrustedEvent>, t: TrustedEvent) -> bool {
    exists|j: int| 0 <= j < es.len() && #[trigger] es[j].hash == t.hash
        && es[j].event.event.parents@ == t.event.event.parents@
}

/// The two lists hold the same events, by hash and parents.
pub open spec fn same_entries(a: Seq<TrustedEvent>, b: Seq<TrustedEvent>) -> bool {
    &&& forall|i: int| 0 <= i < a.len() ==> #[trigger] listed_with(b, a[i])
    &&& forall|j: int| 0 <= j < b.len() ==> #[trigger] listed_with(a, b[j])
}

proof fn lemma_same_length(a: Seq<TrustedEvent>, b: Seq<TrustedEvent>)
    requires
        hashes_distinct(a),
        hashes_distinct(b),
        same_entries(a, b),
    ensures
        a.len() == b.len(),
{
    let ha = incoming_hashes(a);
    let hb = incoming_hashes(b);
    assert(ha.no_duplicates()) by {
        assert forall|x: int, y: int| 0 <= x < ha.len() && 0 <= y < ha.len() && x != y implies ha[x] != ha[y] by {
            assert(a[x].hash != a[y].hash);
        }
    }
    assert(hb.no_duplicates()) by {
        assert forall|x: int, y: int| 0 <= x < hb.len() && 0 <= y < hb.len() && x != y implies hb[x] != hb[y] by {
            assert(b[x].hash != b[y].hash);
        }
    }
    assert(ha.to_set() =~= hb.to_set()) by {
        assert forall|h: [u8; 32]| ha.to_set().contains(h) <==> hb.to_set().contains(h) by {
            if ha.to_set().contains(h) {
                let i = choose|i: int| 0 <= i < ha.len() && ha[i] == h;
                assert(listed_with(b, a[i]));
                let j = choose|j: int| 0 <= j < b.len() && #[trigger] b[j].hash == a[i].hash
                    && b[j].event.event.parents@ == a[i].event.event.parents@;
                assert(hb[j] == h);
            }
            if hb.to_set().contains(h) {
                let j = choose|j: int| 0 <= j < hb.len() && hb[j] == h;
                assert(listed_with(a, b[j]));
                let i = choose|i: int| 0 <= i < a.len() && #[trigger] a[i].hash == b[j].hash
                    && a[i].event.event.parents@ == b[j].event.event.parents@;
                assert(ha[i] == h);
            }
        }
    }
    ha.unique_seq_to_set();
    hb.unique_seq_to_set();
}

proof fn lemma_same_prefix(a: Seq<TrustedEvent>, b: Seq<TrustedEvent>, k: int)
    requires
        canonical_order(a),
        canonical_order(b),
        same_entries(a, b),
        a.len() == b.len(),
        0 <= k <= a.len(),
    ensures
        forall|i: int| 0 <= i < k ==> #[trigger] a[i].hash == b[i].hash,
    decreases k,
{
    if k > 0 {
        let c = k - 1;
        lemma_same_prefix(a, b, c);
        let x = a[c];
        let y = b[c];
        assert(listed_with(a, y));
        let m = choose|m: int| 0 <= m < a.len() && #[trigger] a[m].hash == y.hash
            && a[m].event.event.parents@ == y.event.event.parents@;
        assert(listed_with(b, x));
        let n = choose|n: int| 0 <= n < b.len() && #[trigger] b[n].hash == x.hash
            && b[n].event.event.parents@ == x.event.event.parents@;
        if m < c {
            assert(a[m].hash == b[m].hash);
            assert(false);
        }
        if n < c {
            assert(b[n].hash == a[n].hash);
            assert(false);
        }
        if m != c && n != c {
            assert(ready_after(a, c, a[m])) by {
                assert(ready_after(b, c, y));
                assert forall|p: [u8; 32]| #[trigger] a[m].event.event.parents@.contains(p) && listed(a, p)
                    implies exists|i: int| 0 <= i < c && #[trigger] a[i].hash == p by {
                    let ia = choose|ia: int| 0 <= ia < a.len() && #[trigger] a[ia].hash == p;
                    assert(listed_with(b, a[ia]));
                    let jb = choose|jb: int| 0 <= jb < b.len() && #[trigger] b[jb].hash == a[ia].hash
                        && b[jb].event.event.parents@ == a[ia].event.event.parents@;
                    assert(listed(b, p));
                    assert(y.event.event.parents@.contains(p));
                    let i = choose|i: int| 0 <= i < c && #[trigger] b[i].hash == p;
                    assert(a[i].hash == b[i].hash);
                }
            }
            assert(ready_after(b, c, b[n])) by {
                assert(ready_after(a, c, x));
                assert forall|p: [u8; 32]| #[trigger] b[n].event.event.parents@.contains(p) && listed(b, p)
                    implies exists|i: int| 0 <= i < c && #[trigger] b[i].hash == p by {
                    let jb = choose|jb: int| 0 <= jb < b.len() && #[trigger] b[jb].hash == p;
                    assert(listed_with(a, b[jb]));
                    let ia = choose|ia: int| 0 <= ia < a.len() && #[trigger] a[ia].hash == b[jb].hash
                        && a[ia].event.event.parents@ == b[jb].event.event.parents@;
                    assert(listed(a, p));
                    assert(x.event.event.parents@.contains(p));
                    let i = choose|i: int| 0 <= i < c && #[trigger] a[i].hash == p;
                    assert(b[i].hash == a[i].hash);
                }
            }
            assert(bytes_lt(x.hash@, y.hash@));
            assert(bytes_lt(y.hash@, x.hash@));
            lemma_bytes_lt_transitive(x.hash@, y.hash@, x.hash@);
            lemma_bytes_lt_irreflexive(x.hash@);
        }
    }
}

/// Two lists of the same events, both in the canonical order, list the
/// same hashes in the same places.
pub proof fn lemma_canonical_order_unique(a: Seq<TrustedEvent>, b: Seq<TrustedEvent>)
    requires
        canonical_order(a),
        canonical_order(b),
        same_entries(a, b),
    ensures
        a.len() == b.len(),
        forall|i: int| 0 <= i < a.len() ==> #[trigger] a[i].hash == b[i].hash,
{
    lemma_same_length(a, b);
    lemma_same_prefix(a, b, a.len() as int);
}

} // verus!
