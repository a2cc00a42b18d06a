//! What SpaceSaving summaries guarantee, whatever was added and merged.

use vstd::prelude::*;

use crate::algos::count_min::{nonnegative, total_of, weight_of};
use crate::algos::heap::{lemma_lower_irreflexive, lemma_lower_total, lemma_lower_transitive, lower};
use crate::algos::summary::{
    lemma_leaders, lemma_least_unique, lemma_ranking_order, ranking_order, Summary, Tally,
};
use crate::hash::HashSpec;
use crate::order::{lemma_listing_exists, lemma_listing_len, listing, strict_total};
use crate::sums::{
    lemma_sum_add, lemma_sum_at_least, lemma_sum_constant, lemma_sum_insert, lemma_sum_remove,
    lemma_sum_same, lemma_sum_split, sum_over,
};

verus! {

/// The counts of a map, as a function of the key.
pub open spec fn counts(m: Map<Seq<u8>, Tally>) -> spec_fn(Seq<u8>) -> int {
    |k: Seq<u8>| m[k].count
}

/// The sum of all counts.
pub open spec fn count_sum(m: Map<Seq<u8>, Tally>) -> int {
    sum_over(m.dom(), counts(m))
}

/// What a summary promises about the true weights of all keys:
/// a tracked count bounds the true weight from above, exceeds it by at most
/// the recorded error, and that error is at most `total / capacity`; an
/// untracked key weighs no more than the least count of a full summary, and
/// nothing if there is still room.
pub open spec fn sound(s: Summary, truth: spec_fn(Seq<u8>) -> int) -> bool {
    &&& s.bounded()
    &&& forall|k: Seq<u8>| #[trigger]
        s.entries.contains_key(k) ==> {
            &&& 0 <= s.entries[k].error <= s.entries[k].count
            &&& s.entries[k].count - s.entries[k].error <= truth(k) <= s.entries[k].count
            &&& s.capacity * s.entries[k].error <= s.total
        }
    &&& forall|k: Seq<u8>|
        !s.entries.contains_key(k) ==> 0 <= #[trigger] truth(k) <= s.absent_charge()
    &&& count_sum(s.entries) <= s.total
}

/// The true weights after `weight` more of `key`.
pub open spec fn plus(
    truth: spec_fn(Seq<u8>) -> int,
    key: Seq<u8>,
    weight: int,
) -> spec_fn(Seq<u8>) -> int {
    |k: Seq<u8>| truth(k) + if k == key { weight } else { 0 }
}

/// The true weights in two streams together.
pub open spec fn both(
    a: spec_fn(Seq<u8>) -> int,
    b: spec_fn(Seq<u8>) -> int,
) -> spec_fn(Seq<u8>) -> int {
    |k: Seq<u8>| a(k) + b(k)
}

spec fn eviction_order(s: Summary) -> spec_fn(Seq<u8>, Seq<u8>) -> bool {
    |a: Seq<u8>, b: Seq<u8>| lower(s.rank(a), s.rank(b))
}

/// A summary that tracks something has a least key, and no count is below
/// its count.
pub proof fn lemma_least(s: Summary)
    requires
        s.entries.dom().finite(),
        s.entries.dom().len() > 0,
    ensures
        s.is_least(s.least()),
        s.entries.contains_key(s.least()),
        forall|k: Seq<u8>| #[trigger]
            s.entries.contains_key(k) ==> s.entries[s.least()].count <= s.entries[k].count,
{
    let lt = eviction_order(s);
    assert(strict_total(lt)) by {
        assert forall|a: Seq<u8>| !#[trigger] lt(a, a) by {
            lemma_lower_irreflexive(s.rank(a));
        }
        assert forall|a: Seq<u8>, b: Seq<u8>| a != b implies #[trigger] lt(a, b) || lt(b, a) by {
            lemma_lower_total(s.rank(a), s.rank(b));
            assert(s.rank(a).key != s.rank(b).key);
        }
        assert forall|a: Seq<u8>, b: Seq<u8>, c: Seq<u8>| #[trigger] lt(a, b) && #[trigger] lt(
            b,
            c,
        ) implies lt(a, c) by {
            lemma_lower_transitive(s.rank(a), s.rank(b), s.rank(c));
        }
    }
    let dom = s.entries.dom();
    lemma_listing_exists(dom, lt);
    let order = listing(dom, lt);
    let first = order[0];
    assert(order.contains(first));
    assert(dom.contains(first));
    assert forall|j: Seq<u8>| #[trigger] s.entries.contains_key(j) implies !lower(
        s.rank(j),
        s.rank(first),
    ) by {
        assert(dom.contains(j));
        let p = choose|p: int| 0 <= p < order.len() && order[p] == j;
        if p > 0 {
            assert(lt(order[0], order[p]));
            lemma_lower_total(s.rank(first), s.rank(j));
        } else {
            lemma_lower_irreflexive(s.rank(first));
        }
    }
    assert(s.is_least(first));
    lemma_least_unique(s, first);
}

/// The least count bounds what an absent key can weigh, and a full summary
/// spreads its total over `capacity` counts of at least that size.
proof fn lemma_absent(s: Summary, truth: spec_fn(Seq<u8>) -> int)
    requires
        sound(s, truth),
    ensures
        0 <= s.absent_charge(),
        s.capacity * s.absent_charge() <= s.total,
        0 <= count_sum(s.entries),
        forall|k: Seq<u8>| #[trigger]
            s.entries.contains_key(k) ==> s.absent_charge() <= s.entries[k].count,
{
    let dom = s.entries.dom();
    assert forall|k: Seq<u8>| #[trigger] dom.contains(k) implies 0 <= counts(s.entries)(k) by {
        assert(s.entries.contains_key(k));
    }
    lemma_sum_at_least(dom, counts(s.entries), 0);
    if s.is_full() {
        lemma_least(s);
        let m = s.minimum_count();
        assert forall|k: Seq<u8>| #[trigger] dom.contains(k) implies m <= counts(s.entries)(k) by {
            assert(s.entries.contains_key(k));
        }
        lemma_sum_at_least(dom, counts(s.entries), m);
        assert(s.capacity * m == m * dom.len()) by (nonlinear_arith)
            requires
                s.capacity == dom.len(),
        ;
    } else {
        assert(s.capacity * 0 == 0) by (nonlinear_arith);
    }
}

/// A summary without content is sound for a stream without content.
pub proof fn law_empty_is_sound(capacity: int, hash: HashSpec)
    requires
        capacity > 0,
    ensures
        sound(Summary::empty(capacity, hash), |k: Seq<u8>| 0),
{
    let s = Summary::empty(capacity, hash);
    assert(s.entries.dom() =~= Set::empty());
}

/// Adding keeps a summary sound.
pub proof fn law_add_keeps_sound(
    s: Summary,
    truth: spec_fn(Seq<u8>) -> int,
    key: Seq<u8>,
    weight: int,
)
    requires
        sound(s, truth),
        weight >= 0,
    ensures
        sound(s.added(key, weight), plus(truth, key, weight)),
{
    let t = s.added(key, weight);
    let now = plus(truth, key, weight);
    let dom = s.entries.dom();
    let c = s.capacity;
    lemma_absent(s, truth);
    assert forall|e: int| c * e <= s.total implies #[trigger] (c * e) <= t.total by {}
    if s.entries.contains_key(key) {
        assert(t.entries.dom() =~= dom);
        lemma_sum_remove(dom, counts(s.entries), key);
        lemma_sum_remove(dom, counts(t.entries), key);
        lemma_sum_same(dom.remove(key), counts(s.entries), counts(t.entries));
    } else if !s.is_full() {
        assert(t.entries.dom() =~= dom.insert(key));
        lemma_sum_insert(dom, counts(t.entries), key);
        lemma_sum_same(dom, counts(s.entries), counts(t.entries));
        assert(c * 0 == 0) by (nonlinear_arith);
    } else {
        lemma_least(s);
        let m = s.least();
        let rest = dom.remove(m);
        assert(t.entries.dom() =~= rest.insert(key));
        lemma_sum_remove(dom, counts(s.entries), m);
        lemma_sum_insert(rest, counts(t.entries), key);
        lemma_sum_same(rest, counts(s.entries), counts(t.entries));
        assert(rest.insert(key).len() == dom.len());
    }
    assert forall|k: Seq<u8>| #[trigger] t.entries.contains_key(k) implies {
        &&& 0 <= t.entries[k].error <= t.entries[k].count
        &&& t.entries[k].count - t.entries[k].error <= now(k) <= t.entries[k].count
        &&& t.capacity * t.entries[k].error <= t.total
    } by {
        if k != key {
            assert(s.entries.contains_key(k));
        } else if !s.entries.contains_key(key) {
            assert(0 <= truth(key) <= s.absent_charge());
        }
    }
    assert(t.absent_charge() >= s.absent_charge()) by {
        if t.is_full() {
            assert(t.entries.dom().len() > 0);
            lemma_least(t);
            let l = t.least();
            if l != key {
                assert(s.entries.contains_key(l));
            } else if s.entries.contains_key(key) {
                assert(s.absent_charge() <= s.entries[key].count);
            }
        }
    }
    assert forall|k: Seq<u8>| !t.entries.contains_key(k) implies 0 <= #[trigger] now(k)
        <= t.absent_charge() by {
        assert(k != key);
        assert(now(k) == truth(k));
        if s.entries.contains_key(k) {
            assert(k == s.least());
        }
    }
}

/// What a summary charges a set of keys no larger than its capacity is at
/// most the sum of its counts.
proof fn lemma_charges(s: Summary, truth: spec_fn(Seq<u8>) -> int, keys: Set<Seq<u8>>)
    requires
        sound(s, truth),
        keys.finite(),
        keys.len() <= s.capacity,
    ensures
        sum_over(keys, |k: Seq<u8>| s.charge(k).count) <= count_sum(s.entries),
{
    let dom = s.entries.dom();
    let f = counts(s.entries);
    let g = |k: Seq<u8>| s.charge(k).count;
    let a = s.absent_charge();
    lemma_absent(s, truth);
    lemma_sum_split(keys, dom, g);
    lemma_sum_split(dom, keys, f);
    let shared = keys.intersect(dom);
    assert(dom.intersect(keys) =~= shared);
    lemma_sum_same(shared, f, g);
    let new = keys.difference(dom);
    let left = dom.difference(keys);
    lemma_sum_same(new, g, |k: Seq<u8>| a);
    lemma_sum_constant(new, a);
    assert forall|k: Seq<u8>| #[trigger] left.contains(k) implies a <= f(k) by {
        assert(s.entries.contains_key(k));
    }
    lemma_sum_at_least(left, f, a);
    if s.is_full() {
        assert(a * new.len() <= a * left.len()) by (nonlinear_arith)
            requires
                0 <= a,
                new.len() <= left.len(),
        ;
    } else {
        assert(a * new.len() == 0) by (nonlinear_arith)
            requires
                a == 0,
        ;
        assert(a * left.len() == 0) by (nonlinear_arith)
            requires
                a == 0,
        ;
    }
}

/// Merging two sound summaries of equal capacity gives a sound summary of
/// both streams together.
pub proof fn law_merge_keeps_sound(
    s: Summary,
    t: Summary,
    first: spec_fn(Seq<u8>) -> int,
    second: spec_fn(Seq<u8>) -> int,
)
    requires
        sound(s, first),
        sound(t, second),
        s.capacity == t.capacity,
    ensures
        sound(s.merged(t), both(first, second)),
{
    let u = s.combined(t);
    let m = s.merged(t);
    let now = both(first, second);
    let c = s.capacity;
    lemma_absent(s, first);
    lemma_absent(t, second);
    assert(u.dom() =~= s.entries.dom().union(t.entries.dom()));
    let lt = ranking_order(u);
    lemma_ranking_order(u);
    lemma_listing_exists(u.dom(), lt);
    let order = listing(u.dom(), lt);
    lemma_listing_len(order, u.dom(), lt);
    lemma_leaders(u, order, c);
    let cut = if c < order.len() { c } else { order.len() as int };
    let kept = order.take(cut);
    assert(kept.no_duplicates()) by {
        assert forall|i: int, j: int|
            0 <= i < kept.len() && 0 <= j < kept.len() && i != j implies kept[i] != kept[j] by {
            assert(order[i] != order[j]);
        }
    }
    kept.unique_seq_to_set();
    let keys = kept.to_set();
    assert forall|k: Seq<u8>| keys.contains(k) implies u.contains_key(k) by {
        let p = choose|p: int| 0 <= p < kept.len() && kept[p] == k;
        assert(order[p] == k);
        assert(order.contains(k));
        assert(u.dom().contains(k));
    }
    assert(m.entries.dom() =~= keys);
    assert forall|k: Seq<u8>| #[trigger] m.entries.contains_key(k) implies {
        &&& 0 <= m.entries[k].error <= m.entries[k].count
        &&& m.entries[k].count - m.entries[k].error <= now(k) <= m.entries[k].count
        &&& m.capacity * m.entries[k].error <= m.total
    } by {
        assert(u.contains_key(k));
        lemma_charge(s, first, k);
        lemma_charge(t, second, k);
        let a = s.charge(k).error;
        let b = t.charge(k).error;
        assert(c * (a + b) == c * a + c * b) by (nonlinear_arith);
    }
    // The counts that are kept add up to no more than what was counted.
    let f = |k: Seq<u8>| s.charge(k).count;
    let g = |k: Seq<u8>| t.charge(k).count;
    lemma_charges(s, first, keys);
    lemma_charges(t, second, keys);
    lemma_sum_add(keys, f, g);
    lemma_sum_same(keys, counts(m.entries), |k: Seq<u8>| f(k) + g(k));
    assert(count_sum(m.entries) <= m.total);
    // What is not kept weighs no more than the least that is.
    assert forall|k: Seq<u8>| !m.entries.contains_key(k) implies 0 <= #[trigger] now(k)
        <= m.absent_charge() by {
        lemma_charge(s, first, k);
        lemma_charge(t, second, k);
        let bound = s.charge(k).count + t.charge(k).count;
        assert(now(k) <= bound);
        if m.is_full() {
            assert(m.entries.dom().len() > 0);
            lemma_least(m);
            let l = m.least();
            assert(m.entries.contains_key(l));
            assert(u.contains_key(l));
            let p = choose|p: int| 0 <= p < kept.len() && kept[p] == l;
            assert(order[p] == l);
            if u.contains_key(k) {
                assert(u.dom().contains(k));
                let q = choose|q: int| 0 <= q < order.len() && order[q] == k;
                if q < cut {
                    assert(kept[q] == k);
                    assert(keys.contains(k));
                }
                assert(lt(order[p], order[q]));
                assert(u[l].count >= u[k].count);
            } else {
                lemma_charge(s, first, l);
                lemma_charge(t, second, l);
            }
        } else {
            // Nothing was dropped, and neither summary was full.
            assert(order.len() < c);
            assert(kept =~= order);
            if u.contains_key(k) {
                assert(u.dom().contains(k));
                assert(order.contains(k));
                assert(keys.contains(k));
            }
            assert(s.entries.dom().subset_of(u.dom()));
            vstd::set_lib::lemma_len_subset(s.entries.dom(), u.dom());
            vstd::set_lib::lemma_len_subset(t.entries.dom(), u.dom());
        }
    }
}

/// What a sound summary charges a key: at least its true weight, at least
/// what an absent key is charged, and off by at most the charged error.
proof fn lemma_charge(s: Summary, truth: spec_fn(Seq<u8>) -> int, k: Seq<u8>)
    requires
        sound(s, truth),
    ensures
        ({
            let e = s.charge(k);
            &&& 0 <= e.error <= e.count
            &&& e.count - e.error <= truth(k) <= e.count
            &&& 0 <= truth(k)
            &&& s.capacity * e.error <= s.total
            &&& s.absent_charge() <= e.count
        }),
{
    lemma_absent(s, truth);
    if s.entries.contains_key(k) {
    } else {
        assert(0 <= truth(k) <= s.absent_charge());
    }
}

/// A key that weighs more than `total / capacity` is tracked.
pub proof fn law_heavy_keys_are_tracked(
    s: Summary,
    truth: spec_fn(Seq<u8>) -> int,
    key: Seq<u8>,
)
    requires
        sound(s, truth),
        s.capacity * truth(key) > s.total,
    ensures
        s.entries.contains_key(key),
{
    lemma_absent(s, truth);
    if !s.entries.contains_key(key) {
        let x = truth(key);
        assert(s.capacity * x <= s.capacity * s.absent_charge()) by (nonlinear_arith)
            requires
                s.capacity > 0,
                x <= s.absent_charge(),
        ;
    }
}

/// A stream of additions leaves a sound summary: every tracked count is an
/// upper bound of the key's true weight, off by at most the recorded error.
pub proof fn law_stream_is_sound(capacity: int, hash: HashSpec, stream: Seq<(Seq<u8>, int)>)
    requires
        capacity > 0,
        nonnegative(stream),
    ensures
        sound(
            Summary::empty(capacity, hash).fed(stream),
            |k: Seq<u8>| weight_of(stream, k),
        ),
    decreases stream.len(),
{
    let truth = |k: Seq<u8>| weight_of(stream, k);
    if stream.len() == 0 {
        law_empty_is_sound(capacity, hash);
        lemma_same_truth(Summary::empty(capacity, hash), |k: Seq<u8>| 0, truth);
    } else {
        let front = stream.drop_last();
        assert(stream.last() == stream[stream.len() - 1]);
        assert(nonnegative(front));
        law_stream_is_sound(capacity, hash, front);
        let before = |k: Seq<u8>| weight_of(front, k);
        let s = Summary::empty(capacity, hash).fed(front);
        law_add_keeps_sound(s, before, stream.last().0, stream.last().1);
        lemma_same_truth(
            s.added(stream.last().0, stream.last().1),
            plus(before, stream.last().0, stream.last().1),
            truth,
        );
    }
}

proof fn lemma_same_truth(
    s: Summary,
    a: spec_fn(Seq<u8>) -> int,
    b: spec_fn(Seq<u8>) -> int,
)
    requires
        sound(s, a),
        forall|k: Seq<u8>| a(k) == #[trigger] b(k),
    ensures
        sound(s, b),
{
    assert forall|k: Seq<u8>| #[trigger] s.entries.contains_key(k) implies s.entries[k].count
        - s.entries[k].error <= b(k) <= s.entries[k].count by {
        assert(a(k) == b(k));
    }
    assert forall|k: Seq<u8>| !s.entries.contains_key(k) implies 0 <= #[trigger] b(k)
        <= s.absent_charge() by {
        assert(a(k) == b(k));
    }
}

/// With room for every key, nothing is estimated: the summary holds exactly
/// the true weights, without error.
pub proof fn law_exact_while_there_is_room(
    s: Summary,
    truth: spec_fn(Seq<u8>) -> int,
    key: Seq<u8>,
    weight: int,
)
    requires
        sound(s, truth),
        weight >= 0,
        !s.is_full() || s.entries.contains_key(key),
        forall|k: Seq<u8>| #[trigger] s.entries.contains_key(k) ==> s.entries[k].error == 0,
    ensures
        ({
            let t = s.added(key, weight);
            forall|k: Seq<u8>| #[trigger]
                t.entries.contains_key(k) ==> t.entries[k].error == 0 && t.entries[k].count == plus(
                    truth,
                    key,
                    weight,
                )(k)
        }),
{
    law_add_keeps_sound(s, truth, key, weight);
    let t = s.added(key, weight);
    assert forall|k: Seq<u8>| #[trigger] t.entries.contains_key(k) implies t.entries[k].error == 0
        && t.entries[k].count == plus(truth, key, weight)(k) by {
        if k != key {
            assert(s.entries.contains_key(k));
        }
    }
}

proof fn lemma_added_sum(s: Summary, key: Seq<u8>, weight: int)
    requires
        s.bounded(),
    ensures
        s.added(key, weight).bounded(),
        count_sum(s.added(key, weight).entries) == count_sum(s.entries) + weight,
{
    let t = s.added(key, weight);
    let dom = s.entries.dom();
    if s.entries.contains_key(key) {
        assert(t.entries.dom() =~= dom);
        lemma_sum_remove(dom, counts(s.entries), key);
        lemma_sum_remove(dom, counts(t.entries), key);
        lemma_sum_same(dom.remove(key), counts(s.entries), counts(t.entries));
    } else if !s.is_full() {
        assert(t.entries.dom() =~= dom.insert(key));
        lemma_sum_insert(dom, counts(t.entries), key);
        lemma_sum_same(dom, counts(s.entries), counts(t.entries));
    } else {
        lemma_least(s);
        let m = s.least();
        let rest = dom.remove(m);
        assert(t.entries.dom() =~= rest.insert(key));
        lemma_sum_remove(dom, counts(s.entries), m);
        lemma_sum_insert(rest, counts(t.entries), key);
        lemma_sum_same(rest, counts(s.entries), counts(t.entries));
    }
}

/// After a stream of additions the counts sum to the total weight: what an
/// evicted key had counted passes to the key that replaces it.
pub proof fn law_counts_sum_to_the_total(
    capacity: int,
    hash: HashSpec,
    stream: Seq<(Seq<u8>, int)>,
)
    requires
        capacity > 0,
    ensures
        ({
            let s = Summary::empty(capacity, hash).fed(stream);
            &&& s.bounded()
            &&& s.capacity == capacity
            &&& s.hash == hash
            &&& s.updates == stream.len()
            &&& s.total == total_of(stream)
            &&& count_sum(s.entries) == s.total
        }),
    decreases stream.len(),
{
    if stream.len() == 0 {
        assert(Summary::empty(capacity, hash).entries.dom() =~= Set::empty());
    } else {
        law_counts_sum_to_the_total(capacity, hash, stream.drop_last());
        lemma_added_sum(
            Summary::empty(capacity, hash).fed(stream.drop_last()),
            stream.last().0,
            stream.last().1,
        );
    }
}

/// The keys of a stream.
pub open spec fn keys_of(stream: Seq<(Seq<u8>, int)>) -> Set<Seq<u8>> {
    stream.map_values(|e: (Seq<u8>, int)| e.0).to_set()
}

proof fn lemma_keys_of(stream: Seq<(Seq<u8>, int)>)
    requires
        stream.len() > 0,
    ensures
        keys_of(stream) == keys_of(stream.drop_last()).insert(stream.last().0),
{
    let all = stream.map_values(|e: (Seq<u8>, int)| e.0);
    let front = stream.drop_last().map_values(|e: (Seq<u8>, int)| e.0);
    assert(all =~= front.push(stream.last().0));
    assert forall|k: Seq<u8>| keys_of(stream).contains(k) implies keys_of(
        stream.drop_last(),
    ).insert(stream.last().0).contains(k) by {
        let i = choose|i: int| 0 <= i < all.len() && all[i] == k;
        if i < front.len() {
            assert(front[i] == k);
        }
    }
    assert forall|k: Seq<u8>| keys_of(stream.drop_last()).insert(stream.last().0).contains(
        k,
    ) implies keys_of(stream).contains(k) by {
        if k == stream.last().0 {
            assert(all[all.len() - 1] == k);
        } else {
            let i = choose|i: int| 0 <= i < front.len() && front[i] == k;
            assert(all[i] == k);
        }
    }
    assert(keys_of(stream) =~= keys_of(stream.drop_last()).insert(stream.last().0));
}

proof fn lemma_no_weight(stream: Seq<(Seq<u8>, int)>, key: Seq<u8>)
    requires
        !keys_of(stream).contains(key),
    ensures
        weight_of(stream, key) == 0,
    decreases stream.len(),
{
    if stream.len() > 0 {
        lemma_keys_of(stream);
        lemma_no_weight(stream.drop_last(), key);
    }
}

/// A summary with room for every key of a stream holds exactly these keys,
/// each with its true weight and without error.
pub proof fn law_exact_for_few_keys(capacity: int, hash: HashSpec, stream: Seq<(Seq<u8>, int)>)
    requires
        capacity > 0,
        keys_of(stream).len() <= capacity,
    ensures
        Summary::empty(capacity, hash).fed(stream).entries == Map::new(
            |k: Seq<u8>| keys_of(stream).contains(k),
            |k: Seq<u8>| Tally { count: weight_of(stream, k), error: 0 },
        ),
    decreases stream.len(),
{
    let s = Summary::empty(capacity, hash).fed(stream);
    let goal = Map::new(
        |k: Seq<u8>| keys_of(stream).contains(k),
        |k: Seq<u8>| Tally { count: weight_of(stream, k), error: 0 },
    );
    if stream.len() == 0 {
        assert(s.entries =~= goal);
    } else {
        let front = stream.drop_last();
        let key = stream.last().0;
        lemma_keys_of(stream);
        assert(keys_of(front).subset_of(keys_of(stream)));
        vstd::set_lib::lemma_len_subset(keys_of(front), keys_of(stream));
        law_exact_for_few_keys(capacity, hash, front);
        law_counts_sum_to_the_total(capacity, hash, front);
        let before = Summary::empty(capacity, hash).fed(front);
        assert(before.entries.dom() =~= keys_of(front));
        if !keys_of(front).contains(key) {
            lemma_no_weight(front, key);
        }
        assert(s.entries =~= goal);
    }
}

proof fn lemma_without(stream: Seq<(Seq<u8>, int)>, j: int, key: Seq<u8>)
    requires
        0 <= j < stream.len(),
    ensures
        weight_of(stream, key) == weight_of(stream.remove(j), key) + (if stream[j].0 == key {
            stream[j].1
        } else {
            0
        }),
        total_of(stream) == total_of(stream.remove(j)) + stream[j].1,
    decreases stream.len(),
{
    if j == stream.len() - 1 {
        assert(stream.remove(j) =~= stream.drop_last());
    } else {
        assert(stream.remove(j).drop_last() =~= stream.drop_last().remove(j));
        assert(stream.remove(j).last() == stream.last());
        lemma_without(stream.drop_last(), j, key);
    }
}

proof fn lemma_permuted_weights(
    stream: Seq<(Seq<u8>, int)>,
    permuted: Seq<(Seq<u8>, int)>,
    key: Seq<u8>,
)
    requires
        stream.to_multiset() == permuted.to_multiset(),
    ensures
        stream.len() == permuted.len(),
        weight_of(stream, key) == weight_of(permuted, key),
        total_of(stream) == total_of(permuted),
    decreases stream.len(),
{
    broadcast use vstd::seq_lib::group_to_multiset_ensures;

    assert(stream.len() == stream.to_multiset().len());
    assert(permuted.len() == permuted.to_multiset().len());
    if stream.len() > 0 {
        let n = stream.len() - 1;
        let x = stream[n];
        assert(stream.contains(x));
        assert(permuted.to_multiset().count(x) > 0);
        assert(permuted.contains(x));
        let j = choose|j: int| 0 <= j < permuted.len() && permuted[j] == x;
        lemma_without(stream, n, key);
        lemma_without(permuted, j, key);
        assert(stream.remove(n).to_multiset() =~= permuted.remove(j).to_multiset());
        lemma_permuted_weights(stream.remove(n), permuted.remove(j), key);
    }
}

proof fn lemma_permuted_keys(
    stream: Seq<(Seq<u8>, int)>,
    permuted: Seq<(Seq<u8>, int)>,
    key: Seq<u8>,
)
    requires
        stream.to_multiset() == permuted.to_multiset(),
        keys_of(stream).contains(key),
    ensures
        keys_of(permuted).contains(key),
{
    broadcast use vstd::seq_lib::group_to_multiset_ensures;

    let all = stream.map_values(|e: (Seq<u8>, int)| e.0);
    let i = choose|i: int| 0 <= i < all.len() && all[i] == key;
    let x = stream[i];
    assert(stream.contains(x));
    assert(permuted.to_multiset().count(x) > 0);
    assert(permuted.contains(x));
    let j = choose|j: int| 0 <= j < permuted.len() && permuted[j] == x;
    assert(permuted.map_values(|e: (Seq<u8>, int)| e.0)[j] == key);
}

/// With room for every key the order of additions does not matter: permuted
/// streams give one summary, and so one snapshot.
pub proof fn law_addition_order_does_not_matter(
    capacity: int,
    hash: HashSpec,
    stream: Seq<(Seq<u8>, int)>,
    permuted: Seq<(Seq<u8>, int)>,
)
    requires
        capacity > 0,
        keys_of(stream).len() <= capacity,
        stream.to_multiset() == permuted.to_multiset(),
    ensures
        Summary::empty(capacity, hash).fed(stream) == Summary::empty(capacity, hash).fed(permuted),
{
    assert forall|k: Seq<u8>| keys_of(stream).contains(k) == keys_of(permuted).contains(k) by {
        if keys_of(stream).contains(k) {
            lemma_permuted_keys(stream, permuted, k);
        }
        if keys_of(permuted).contains(k) {
            lemma_permuted_keys(permuted, stream, k);
        }
    }
    assert(keys_of(stream) =~= keys_of(permuted));
    law_exact_for_few_keys(capacity, hash, stream);
    law_exact_for_few_keys(capacity, hash, permuted);
    law_counts_sum_to_the_total(capacity, hash, stream);
    law_counts_sum_to_the_total(capacity, hash, permuted);
    lemma_permuted_weights(stream, permuted, Seq::empty());
    let s = Summary::empty(capacity, hash).fed(stream);
    let t = Summary::empty(capacity, hash).fed(permuted);
    assert forall|k: Seq<u8>| s.entries.contains_key(k) implies s.entries[k] == t.entries[k] by {
        lemma_permuted_weights(stream, permuted, k);
    }
    assert(s.entries =~= t.entries);
}

} // verus!
