//! What a KLL sketch answers for: the weight up to a value is that of the
//! values it has taken, give or take what compactions may shift, and exactly
//! that as long as nothing is compacted.

use vstd::arithmetic::power2::{lemma_pow2_pos, lemma_pow2_strictly_increases, lemma_pow2_unfold, pow2};
use vstd::prelude::*;

use crate::algos::kll::{
    capacity_at, compacted, compressed, count_upto, every_other, full_weight, holds_value,
    is_value_at, items_from, law_compaction_keeps_ranks, lemma_capacity_bound,
    lemma_compaction_shrinks, overflows, parity, stacked, weight_upto, weighted, Kll,
    MIN_LEVEL_CAPACITY,
};
use crate::hash::{mix, HashSpec};
use crate::sorting::{lemma_sorted_words, sorted_words};

verus! {

/// How many items of a level are up to `v`; none of a level that is not there.
pub open spec fn level_count(levels: Seq<Seq<u64>>, l: int, v: u64) -> nat {
    if 0 <= l < levels.len() {
        count_upto(levels[l], v)
    } else {
        0
    }
}

/// The weight up to `v` of the first `n` levels: an item of level `l` stands
/// for `2^l` values.
pub open spec fn weight_within(levels: Seq<Seq<u64>>, n: nat, v: u64) -> nat
    decreases n,
{
    if n == 0 {
        0
    } else {
        weight_within(levels, (n - 1) as nat, v) + pow2((n - 1) as nat) * level_count(
            levels,
            n - 1,
            v,
        )
    }
}

/// The weight up to `v`.
pub open spec fn level_weight(levels: Seq<Seq<u64>>, v: u64) -> nat {
    weight_within(levels, levels.len(), v)
}

/// What compactions below the top of `n` levels may shift.
pub open spec fn slack(n: nat) -> int {
    if n == 0 {
        0
    } else {
        pow2((n - 1) as nat) - 1
    }
}

proof fn lemma_within_beyond(levels: Seq<Seq<u64>>, n: nat, v: u64)
    requires
        n >= levels.len(),
    ensures
        weight_within(levels, n, v) == level_weight(levels, v),
    decreases n,
{
    if n > levels.len() {
        lemma_within_beyond(levels, (n - 1) as nat, v);
        assert(pow2((n - 1) as nat) * 0 == 0) by (nonlinear_arith);
    }
}

proof fn lemma_within_same(a: Seq<Seq<u64>>, b: Seq<Seq<u64>>, n: nat, v: u64)
    requires
        forall|l: int| 0 <= l < n ==> #[trigger] level_count(a, l, v) == level_count(b, l, v),
    ensures
        weight_within(a, n, v) == weight_within(b, n, v),
    decreases n,
{
    if n > 0 {
        lemma_within_same(a, b, (n - 1) as nat, v);
        assert(level_count(a, n - 1, v) == level_count(b, n - 1, v));
    }
}

/// One level changes by `by` items up to `v`.
proof fn lemma_within_changed(
    a: Seq<Seq<u64>>,
    b: Seq<Seq<u64>>,
    n: nat,
    v: u64,
    l: nat,
    by: int,
)
    requires
        l < n,
        level_count(b, l as int, v) == level_count(a, l as int, v) + by,
        forall|j: int|
            0 <= j < n && j != l ==> #[trigger] level_count(a, j, v) == level_count(b, j, v),
    ensures
        weight_within(b, n, v) == weight_within(a, n, v) + pow2(l) * by,
    decreases n,
{
    if l == n - 1 {
        lemma_within_same(a, b, (n - 1) as nat, v);
        let p = pow2(l) as int;
        let c = level_count(a, l as int, v) as int;
        assert(p * (c + by) == p * c + p * by) by (nonlinear_arith);
    } else {
        lemma_within_changed(a, b, (n - 1) as nat, v, l, by);
        assert(level_count(a, n - 1, v) == level_count(b, n - 1, v));
    }
}

proof fn lemma_count_join(a: Seq<u64>, b: Seq<u64>, v: u64)
    ensures
        count_upto(a + b, v) == count_upto(a, v) + count_upto(b, v),
    decreases b.len(),
{
    if b.len() == 0 {
        assert(a + b =~= a);
    } else {
        assert((a + b).drop_last() =~= a + b.drop_last());
        lemma_count_join(a, b.drop_last(), v);
    }
}

/// The count of items up to a value does not depend on their order.
proof fn lemma_count_multiset(a: Seq<u64>, b: Seq<u64>, v: u64)
    requires
        a.to_multiset() == b.to_multiset(),
    ensures
        count_upto(a, v) == count_upto(b, v),
    decreases a.len(),
{
    broadcast use vstd::seq_lib::group_to_multiset_ensures;

    assert(a.len() == a.to_multiset().len());
    assert(b.len() == b.to_multiset().len());
    if a.len() > 0 {
        let x = a.last();
        assert(a.contains(x)) by {
            assert(a[a.len() - 1] == x);
        }
        assert(a.to_multiset().count(x) > 0);
        assert(b.to_multiset().count(x) > 0);
        assert(b.contains(x));
        let i = b.index_of(x);
        assert(b[i] == x);
        let head = b.take(i);
        let tail = b.skip(i + 1);
        assert(b =~= head + seq![x] + tail);
        assert(b.remove(i) =~= head + tail);
        assert(a =~= a.drop_last().push(x));
        assert(a.remove(a.len() - 1) =~= a.drop_last());
        assert(a.drop_last().to_multiset() =~= a.to_multiset().remove(x));
        assert(b.remove(i).to_multiset() =~= b.to_multiset().remove(x));
        lemma_count_multiset(a.drop_last(), head + tail, v);
        lemma_count_join(head, tail, v);
        lemma_count_join(head + seq![x], tail, v);
        lemma_count_join(head, seq![x], v);
        assert(seq![x].drop_last() =~= Seq::<u64>::empty());
        reveal_with_fuel(count_upto, 2);
    }
}

proof fn lemma_times_bound(p: int, by: int)
    requires
        p >= 0,
        -1 <= by <= 1,
    ensures
        -p <= p * by <= p,
{
    assert(-p <= p * by <= p) by (nonlinear_arith)
        requires
            p >= 0,
            -1 <= by <= 1,
    ;
}

proof fn lemma_compacted_weight(levels: Seq<Seq<u64>>, level: int, offset: int, v: u64)
    requires
        0 <= level < levels.len(),
        levels[level].len() > 1,
        0 <= offset <= 1,
    ensures
        -(pow2(level as nat) as int) <= level_weight(compacted(levels, level, offset), v)
            - level_weight(levels, v) <= pow2(level as nat),
{
    let t = compacted(levels, level, offset);
    let n = t.len();
    let buf = levels[level];
    let up = every_other(sorted_words(buf), offset);
    lemma_sorted_words(buf);
    law_compaction_keeps_ranks(buf, offset, v);
    lemma_count_multiset(buf, sorted_words(buf), v);
    let grown = if level + 1 == levels.len() {
        levels.push(Seq::empty())
    } else {
        levels
    };
    let mid = grown.update(level, Seq::empty());
    let c = count_upto(buf, v) as int;
    let u = count_upto(up, v) as int;
    lemma_within_beyond(levels, n, v);
    assert forall|l: int| 0 <= l < n implies #[trigger] level_count(levels, l, v) == level_count(
        grown,
        l,
        v,
    ) by {}
    lemma_within_same(levels, grown, n, v);
    assert(mid[level] =~= Seq::<u64>::empty());
    lemma_within_changed(grown, mid, n, v, level as nat, -c);
    lemma_count_join(grown[level + 1], up, v);
    assert(t == mid.update(level + 1, grown[level + 1] + up));
    lemma_within_changed(mid, t, n, v, (level + 1) as nat, u);
    lemma_pow2_unfold((level + 1) as nat);
    let p = pow2(level as nat) as int;
    assert(pow2((level + 1) as nat) == 2 * p);
    assert(p * (-c) + (2 * p) * u == p * (2 * u - c)) by (nonlinear_arith);
    lemma_times_bound(p, 2 * u - c);
}

/// A pass of compactions from `level` upwards shifts no more than the weights
/// of the levels that it may empty.
proof fn lemma_compressed_weight(levels: Seq<Seq<u64>>, rng: u64, k: int, level: int, v: u64)
    requires
        k >= MIN_LEVEL_CAPACITY,
        0 <= level <= levels.len(),
        levels.len() > 0,
    ensures
        ({
            let t = compressed(levels, rng, k, level).0;
            let d = level_weight(t, v) - level_weight(levels, v);
            let top = (t.len() - 1) as nat;
            &&& t.len() >= levels.len()
            &&& level == levels.len() ==> d == 0
            &&& level < levels.len() ==> -(pow2(top) - pow2(level as nat)) <= d <= pow2(top)
                - pow2(level as nat)
        }),
    decreases items_from(levels, level), levels.len() - level,
{
    if level < levels.len() {
        lemma_capacity_bound(k, (levels.len() - 1 - level) as nat);
        let t = compressed(levels, rng, k, level).0;
        lemma_pow2_unfold((level + 1) as nat);
        lemma_pow2_pos(level as nat);
        if !overflows(levels, k, level) {
            lemma_compressed_weight(levels, rng, k, level + 1, v);
            if t.len() - 1 > level {
                lemma_pow2_strictly_increases(level as nat, (t.len() - 1) as nat);
            }
        } else {
            let o = parity(mix(rng));
            let next = compacted(levels, level, o);
            lemma_compaction_shrinks(levels, level, o);
            lemma_compacted_weight(levels, level, o, v);
            lemma_compressed_weight(next, mix(rng), k, level + 1, v);
        }
    }
}

proof fn lemma_stacked_weight(a: Seq<Seq<u64>>, b: Seq<Seq<u64>>, n: nat, v: u64)
    requires
        n <= a.len() || n <= b.len(),
    ensures
        weight_within(stacked(a, b), n, v) == weight_within(a, n, v) + weight_within(b, n, v),
    decreases n,
{
    if n > 0 {
        lemma_stacked_weight(a, b, (n - 1) as nat, v);
        let l = n - 1;
        let x = if l < a.len() { a[l] } else { Seq::empty() };
        let y = if l < b.len() { b[l] } else { Seq::empty() };
        lemma_count_join(x, y, v);
        assert(stacked(a, b)[l] == x + y);
        let p = pow2(l as nat) as int;
        let c = level_count(a, l, v) as int;
        let d = level_count(b, l, v) as int;
        assert(p * (c + d) == p * c + p * d) by (nonlinear_arith);
    }
}

/// The weight up to a value that a sketch reports is the number of items up
/// to it, each counted for the `2^l` values that its level stands for.
pub proof fn law_rank_counts_items_by_level(levels: Seq<Seq<u64>>, v: u64)
    ensures
        weight_upto(weighted(levels), v) == level_weight(levels, v),
        full_weight(weighted(levels)) == level_weight(levels, u64::MAX),
    decreases levels.len(),
{
    lemma_rank_counts(levels, v);
    lemma_rank_counts(levels, u64::MAX);
}

proof fn lemma_rank_counts(levels: Seq<Seq<u64>>, v: u64)
    ensures
        weight_upto(weighted(levels), v) == level_weight(levels, v),
    decreases levels.len(),
{
    if levels.len() > 0 {
        let head = levels.drop_last();
        let p = pow2((levels.len() - 1) as nat);
        lemma_rank_counts(head, v);
        lemma_weighted_level(weighted(head), levels.last(), p, v);
        assert forall|l: int| 0 <= l < head.len() implies #[trigger] level_count(head, l, v)
            == level_count(levels, l, v) by {}
        lemma_within_same(head, levels, head.len(), v);
    }
}

proof fn lemma_weighted_level(before: Seq<(u64, nat)>, level: Seq<u64>, p: nat, v: u64)
    ensures
        weight_upto(before + level.map_values(|x: u64| (x, p)), v) == weight_upto(before, v) + p
            * count_upto(level, v),
    decreases level.len(),
{
    let items = level.map_values(|x: u64| (x, p));
    if level.len() == 0 {
        assert(before + items =~= before);
        assert(p * 0 == 0) by (nonlinear_arith);
    } else {
        let head = level.drop_last();
        lemma_weighted_level(before, head, p, v);
        assert((before + items).drop_last() =~= before + head.map_values(|x: u64| (x, p)));
        assert((before + items).last() == (level.last(), p));
        let c = count_upto(head, v) as int;
        assert(p as int * (c + 1) == p as int * c + p as int) by (nonlinear_arith);
    }
}

/// A merged sketch answers for both streams: the weight up to any value is the
/// sum of the weights in the two sketches, give or take what the compactions
/// may shift. The values that were counted add up.
pub proof fn law_merge_keeps_the_weight_of_both(a: Kll, b: Kll, v: u64)
    requires
        a.shaped(),
        b.shaped(),
    ensures
        ({
            let m = a.merged(b);
            let sum = weight_upto(a.items(), v) + weight_upto(b.items(), v);
            &&& m.k == a.k
            &&& m.hash == a.hash
            &&& m.n == a.n + b.n
            &&& m.updates == a.updates + b.updates
            &&& sum - slack(m.levels.len()) <= weight_upto(m.items(), v) <= sum + slack(
                m.levels.len(),
            )
        }),
{
    let s = stacked(a.levels, b.levels);
    lemma_stacked_weight(a.levels, b.levels, s.len(), v);
    lemma_within_beyond(a.levels, s.len(), v);
    lemma_within_beyond(b.levels, s.len(), v);
    lemma_compressed_weight(s, mix(a.rng ^ b.rng), a.k, 0, v);
    lemma_rank_counts(a.levels, v);
    lemma_rank_counts(b.levels, v);
    lemma_rank_counts(a.merged(b).levels, v);
    lemma_pow2_one();
}

proof fn lemma_pow2_one()
    ensures
        pow2(0) == 1,
{
    vstd::arithmetic::power2::lemma2_to64();
}

/// No level overflows.
pub open spec fn is_settled(levels: Seq<Seq<u64>>, k: int) -> bool {
    forall|l: int|
        0 <= l < levels.len() ==> (#[trigger] levels[l]).len() <= capacity_at(
            k,
            (levels.len() - 1 - l) as nat,
        )
}

proof fn lemma_settled_stays(levels: Seq<Seq<u64>>, rng: u64, k: int, level: int)
    requires
        is_settled(levels, k),
        0 <= level,
    ensures
        compressed(levels, rng, k, level) == (levels, rng),
    decreases levels.len() - level,
{
    if level < levels.len() {
        assert(levels[level].len() <= capacity_at(k, (levels.len() - 1 - level) as nat));
        lemma_settled_stays(levels, rng, k, level + 1);
    }
}

/// Where no level overflows, a merge loses nothing and makes nothing up: on
/// every level the items are those of both sketches.
pub proof fn law_merge_without_compaction_keeps_every_item(a: Kll, b: Kll)
    requires
        a.shaped(),
        b.shaped(),
        forall|l: int|
            0 <= l < a.levels.len() || 0 <= l < b.levels.len() ==> #[trigger] level_len(a, l)
                + level_len(b, l) <= capacity_at(
                a.k,
                (if a.levels.len() < b.levels.len() {
                    b.levels.len() - 1 - l
                } else {
                    a.levels.len() - 1 - l
                }) as nat,
            ),
    ensures
        ({
            let m = a.merged(b);
            &&& m.levels.len() == if a.levels.len() < b.levels.len() {
                b.levels.len()
            } else {
                a.levels.len()
            }
            &&& forall|l: int|
                0 <= l < m.levels.len() ==> (#[trigger] m.levels[l]).to_multiset() == items_at(
                    a,
                    l,
                ).add(items_at(b, l))
            &&& forall|v: u64| #[trigger]
                weight_upto(m.items(), v) == weight_upto(a.items(), v) + weight_upto(b.items(), v)
        }),
{
    broadcast use vstd::seq_lib::group_to_multiset_ensures;

    let s = stacked(a.levels, b.levels);
    assert forall|l: int| 0 <= l < s.len() implies (#[trigger] s[l]).len() <= capacity_at(
        a.k,
        (s.len() - 1 - l) as nat,
    ) by {
        assert(level_len(a, l) + level_len(b, l) == s[l].len());
    }
    lemma_settled_stays(s, mix(a.rng ^ b.rng), a.k, 0);
    let m = a.merged(b);
    assert(m.levels == s);
    assert forall|l: int| 0 <= l < m.levels.len() implies (#[trigger] m.levels[l]).to_multiset()
        == items_at(a, l).add(items_at(b, l)) by {
        let x = if l < a.levels.len() { a.levels[l] } else { Seq::empty() };
        let y = if l < b.levels.len() { b.levels[l] } else { Seq::empty() };
        vstd::seq_lib::lemma_multiset_commutative(x, y);
    }
    assert forall|v: u64| #[trigger]
        weight_upto(m.items(), v) == weight_upto(a.items(), v) + weight_upto(b.items(), v) by {
        lemma_stacked_weight(a.levels, b.levels, s.len(), v);
        lemma_within_beyond(a.levels, s.len(), v);
        lemma_within_beyond(b.levels, s.len(), v);
        lemma_rank_counts(a.levels, v);
        lemma_rank_counts(b.levels, v);
        lemma_rank_counts(s, v);
    }
}

/// How many items a level holds; none if it is not there.
pub open spec fn level_len(s: Kll, l: int) -> nat {
    if 0 <= l < s.levels.len() {
        s.levels[l].len()
    } else {
        0
    }
}

/// The items of a level; none if it is not there.
pub open spec fn items_at(s: Kll, l: int) -> vstd::multiset::Multiset<u64> {
    if 0 <= l < s.levels.len() {
        s.levels[l].to_multiset()
    } else {
        vstd::multiset::Multiset::empty()
    }
}

/// Inserting a value adds a weight of one from that value on, give or take
/// what the compactions may shift.
pub proof fn law_insert_adds_its_value(s: Kll, x: u64, v: u64)
    requires
        s.shaped(),
    ensures
        ({
            let t = s.inserted(x);
            let sum = weight_upto(s.items(), v) + if x <= v {
                1nat
            } else {
                0
            };
            &&& t.k == s.k
            &&& t.hash == s.hash
            &&& t.n == s.n + 1
            &&& t.updates == s.updates + 1
            &&& sum - slack(t.levels.len()) <= weight_upto(t.items(), v) <= sum + slack(
                t.levels.len(),
            )
        }),
{
    let grown = s.levels.update(0, s.levels[0].push(x));
    let by: int = if x <= v { 1 } else { 0 };
    assert(s.levels[0].push(x).drop_last() =~= s.levels[0]);
    lemma_within_changed(s.levels, grown, s.levels.len(), v, 0, by);
    lemma_pow2_one();
    lemma_compressed_weight(grown, s.rng, s.k, 0, v);
    lemma_rank_counts(s.levels, v);
    lemma_rank_counts(s.inserted(x).levels, v);
}

/// As long as there are no more values than `k`, the sketch holds them all,
/// each once and at weight one.
pub proof fn law_few_values_are_kept(k: int, hash: HashSpec, values: Seq<u64>)
    requires
        k >= MIN_LEVEL_CAPACITY,
        values.len() <= k,
    ensures
        Kll::empty(k, hash).fed(values).levels == seq![values],
        Kll::empty(k, hash).fed(values).n == values.len(),
        Kll::empty(k, hash).fed(values).k == k,
    decreases values.len(),
{
    if values.len() == 0 {
        assert(seq![values] =~= Kll::empty(k, hash).levels) by {
            assert(values =~= Seq::<u64>::empty());
        }
    } else {
        let head = values.drop_last();
        law_few_values_are_kept(k, hash, head);
        let s = Kll::empty(k, hash).fed(head);
        let grown = s.levels.update(0, s.levels[0].push(values.last()));
        assert(head.push(values.last()) =~= values);
        assert(grown =~= seq![values]);
        assert(is_settled(grown, k)) by {
            assert(capacity_at(k, 0) >= k);
        }
        lemma_settled_stays(grown, s.rng, k, 0);
    }
}

proof fn lemma_weight_of_one_level(values: Seq<u64>, v: u64)
    ensures
        weight_upto(weighted(seq![values]), v) == count_upto(values, v),
{
    lemma_rank_counts(seq![values], v);
    lemma_pow2_one();
    reveal_with_fuel(weight_within, 2);
    assert(level_count(seq![values], 0, v) == count_upto(values, v));
}

proof fn lemma_holds_of_one_level(values: Seq<u64>, x: u64)
    ensures
        holds_value(weighted(seq![values]), x) <==> values.contains(x),
{
    let items = weighted(seq![values]);
    let p = pow2(0);
    assert(seq![values].drop_last() =~= Seq::<Seq<u64>>::empty());
    reveal_with_fuel(weighted, 2);
    assert(items =~= values.map_values(|v: u64| (v, p)));
    if values.contains(x) {
        let i = choose|i: int| 0 <= i < values.len() && values[i] == x;
        assert(items[i].0 == x);
    }
    if holds_value(items, x) {
        let i = choose|i: int| 0 <= i < items.len() && (#[trigger] items[i]).0 == x;
        assert(values[i] == x);
    }
}

/// How many values lie below `v`.
pub open spec fn count_below(s: Seq<u64>, v: u64) -> nat {
    if v == 0 {
        0
    } else {
        count_upto(s, (v - 1) as u64)
    }
}

/// The largest value below `v`, if there is one.
proof fn lemma_largest_below(s: Seq<u64>, v: u64) -> (best: Option<u64>)
    ensures
        best is None ==> forall|i: int| 0 <= i < s.len() ==> #[trigger] s[i] >= v,
        best matches Some(b) ==> s.contains(b) && b < v && forall|i: int|
            0 <= i < s.len() && #[trigger] s[i] < v ==> s[i] <= b,
    decreases s.len(),
{
    if s.len() == 0 {
        None
    } else {
        let before = lemma_largest_below(s.drop_last(), v);
        let x = s[s.len() - 1];
        let best = if x < v && (before is None || before->0 < x) {
            Some(x)
        } else {
            before
        };
        assert forall|i: int| 0 <= i < s.len() && best is None implies #[trigger] s[i] >= v by {
            if i < s.len() - 1 {
                assert(s.drop_last()[i] == s[i]);
            }
        }
        assert forall|i: int| 0 <= i < s.len() && #[trigger] s[i] < v && best is Some implies s[i]
            <= best->0 by {
            if i < s.len() - 1 {
                assert(s.drop_last()[i] == s[i]);
            }
        }
        if before is Some && best == before {
            let j = choose|j: int| 0 <= j < s.drop_last().len() && s.drop_last()[j] == before->0;
            assert(s[j] == before->0);
        }
        best
    }
}

proof fn lemma_count_gap(s: Seq<u64>, a: u64, b: u64)
    requires
        forall|i: int| 0 <= i < s.len() ==> (#[trigger] s[i] <= a <==> s[i] <= b),
    ensures
        count_upto(s, a) == count_upto(s, b),
    decreases s.len(),
{
    if s.len() > 0 {
        assert(s[s.len() - 1] <= a <==> s[s.len() - 1] <= b);
        assert forall|i: int| 0 <= i < s.drop_last().len() implies (#[trigger] s.drop_last()[i] <= a
            <==> s.drop_last()[i] <= b) by {
            assert(s.drop_last()[i] == s[i]);
        }
        lemma_count_gap(s.drop_last(), a, b);
    }
}

/// The value at weight `target` of a sketch that holds every value is the
/// order statistic: one of the values, with fewer than `target` below it and
/// at least `target` up to it.
pub proof fn law_quantiles_of_few_values_are_exact(
    k: int,
    hash: HashSpec,
    values: Seq<u64>,
    target: int,
    v: u64,
)
    requires
        k >= MIN_LEVEL_CAPACITY,
        0 < target <= values.len() <= k,
        is_value_at(Kll::empty(k, hash).fed(values).items(), target, v),
    ensures
        values.contains(v),
        count_below(values, v) < target <= count_upto(values, v),
{
    law_few_values_are_kept(k, hash, values);
    let items = Kll::empty(k, hash).fed(values).items();
    lemma_holds_of_one_level(values, v);
    lemma_weight_of_one_level(values, v);
    lemma_weight_of_one_level(values, u64::MAX);
    lemma_count_all(values);
    if v > 0 {
        let best = lemma_largest_below(values, v);
        match best {
            Some(b) => {
                lemma_holds_of_one_level(values, b);
                lemma_weight_of_one_level(values, b);
                assert(holds_value(items, b));
                assert forall|i: int| 0 <= i < values.len() implies (#[trigger] values[i] <= b
                    <==> values[i] <= (v - 1) as u64) by {}
                lemma_count_gap(values, b, (v - 1) as u64);
            },
            None => {
                lemma_count_none(values, (v - 1) as u64);
            },
        }
    }
}

proof fn lemma_count_all(s: Seq<u64>)
    ensures
        count_upto(s, u64::MAX) == s.len(),
    decreases s.len(),
{
    if s.len() > 0 {
        lemma_count_all(s.drop_last());
    }
}

proof fn lemma_count_none(s: Seq<u64>, v: u64)
    requires
        forall|i: int| 0 <= i < s.len() ==> #[trigger] s[i] > v,
    ensures
        count_upto(s, v) == 0,
    decreases s.len(),
{
    if s.len() > 0 {
        assert(s[s.len() - 1] > v);
        assert forall|i: int| 0 <= i < s.drop_last().len() implies #[trigger] s.drop_last()[i] > v by {
            assert(s.drop_last()[i] == s[i]);
        }
        lemma_count_none(s.drop_last(), v);
    }
}

/// Merging the sketches of two short streams answers exactly as the values of
/// both streams together do.
pub proof fn law_merge_of_few_values_is_exact(
    k: int,
    hash: HashSpec,
    first: Seq<u64>,
    second: Seq<u64>,
    v: u64,
)
    requires
        k >= MIN_LEVEL_CAPACITY,
        first.len() + second.len() <= k,
    ensures
        ({
            let e = Kll::empty(k, hash);
            let m = e.fed(first).merged(e.fed(second));
            &&& m.n == first.len() + second.len()
            &&& m.levels.len() == 1
            &&& m.levels[0].to_multiset() == (first + second).to_multiset()
            &&& weight_upto(m.items(), v) == count_upto(first + second, v)
            &&& full_weight(m.items()) == first.len() + second.len()
            &&& holds_value(m.items(), v) <==> first.contains(v) || second.contains(v)
        }),
{
    let e = Kll::empty(k, hash);
    let a = e.fed(first);
    let b = e.fed(second);
    law_few_values_are_kept(k, hash, first);
    law_few_values_are_kept(k, hash, second);
    let s = stacked(a.levels, b.levels);
    assert(s =~= seq![first + second]);
    assert(is_settled(s, k)) by {
        assert(capacity_at(k, 0) >= k);
    }
    lemma_settled_stays(s, mix(a.rng ^ b.rng), k, 0);
    assert(a.merged(b).levels == seq![first + second]);
    lemma_weight_of_one_level(first + second, v);
    lemma_weight_of_one_level(first + second, u64::MAX);
    lemma_count_all(first + second);
    lemma_holds_of_one_level(first + second, v);
    if first.contains(v) {
        let i = choose|i: int| 0 <= i < first.len() && first[i] == v;
        assert((first + second)[i] == v);
    }
    if second.contains(v) {
        let i = choose|i: int| 0 <= i < second.len() && second[i] == v;
        assert((first + second)[first.len() + i] == v);
    }
    if (first + second).contains(v) {
        let i = choose|i: int| 0 <= i < (first + second).len() && (first + second)[i] == v;
        if i < first.len() {
            assert(first[i] == v);
        } else {
            assert(second[i - first.len()] == v);
        }
    }
}

} // verus!
