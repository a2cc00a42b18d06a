//! What the estimates of the sketches satisfy, said of the cells, rows, keys
//! and counts that they come from.

use vstd::prelude::*;
use vstd::std_specs::bits::{axiom_u64_leading_zeros, u64_leading_zeros};

use crate::algos::count_min::{
    colliding_weight, law_conservative_at_most_plain, law_never_underestimates,
    law_plain_cell_is_colliding_weight, lemma_fed_config, nonnegative, total_of, weight_of,
    CountMin,
};
use crate::algos::count_sketch::{ascending, lemma_ascending, median};
use crate::algos::counts::{count_or_zero, count_order, is_front, lemma_count_order};
use crate::algos::exact::{items_of, Exact};
use crate::algos::hll::{ranks_equal, register_index, register_rank};
use crate::algos::space_saving::{is_top, Entry};
use crate::algos::summary::{lemma_leaders, lemma_ranking_order, ranking_order, Summary, Tally};
use crate::algos::summary_laws::lemma_least;
use crate::algos::table::{cell, lemma_cell};
use crate::hash::HashSpec;
use crate::order::{lemma_listing_exists, lemma_listing_len, listing};

verus! {

// ---------------------------------------------------------------------------
// Count-Min
// ---------------------------------------------------------------------------

proof fn lemma_least_cell(s: CountMin, key: Seq<u8>, rows: int)
    requires
        0 <= rows <= s.depth,
        forall|r: int|
            0 <= r < rows ==> #[trigger] s.table[cell(s.hash.seed, key, r, s.width)] <= u64::MAX,
    ensures
        forall|r: int|
            0 <= r < rows ==> s.least(key, rows) <= #[trigger] s.table[cell(
                s.hash.seed,
                key,
                r,
                s.width,
            )],
        rows > 0 ==> exists|r: int|
            0 <= r < rows && s.least(key, rows) == #[trigger] s.table[cell(
                s.hash.seed,
                key,
                r,
                s.width,
            )],
    decreases rows,
{
    if rows > 0 {
        lemma_least_cell(s, key, rows - 1);
        let last = s.table[cell(s.hash.seed, key, rows - 1, s.width)];
        if rows == 1 {
            assert(s.least(key, rows) == last);
        } else if s.least(key, rows - 1) < last {
            let r = choose|r: int|
                0 <= r < rows - 1 && s.least(key, rows - 1) == #[trigger] s.table[cell(
                    s.hash.seed,
                    key,
                    r,
                    s.width,
                )];
            assert(s.least(key, rows) == s.table[cell(s.hash.seed, key, r, s.width)]);
        } else {
            assert(s.least(key, rows) == last);
        }
    }
}

/// An estimate is at most what each row holds for the key, and what one of
/// them holds.
pub proof fn law_estimate_is_the_least_cell(s: CountMin, key: Seq<u8>)
    requires
        s.shaped(),
        s.fits(),
        s.width > 0,
        s.depth > 0,
    ensures
        forall|r: int|
            0 <= r < s.depth ==> s.estimate(key) <= #[trigger] s.table[cell(
                s.hash.seed,
                key,
                r,
                s.width,
            )],
        exists|r: int|
            0 <= r < s.depth && s.estimate(key) == #[trigger] s.table[cell(
                s.hash.seed,
                key,
                r,
                s.width,
            )],
{
    assert forall|r: int| 0 <= r < s.depth implies #[trigger] s.table[cell(
        s.hash.seed,
        key,
        r,
        s.width,
    )] <= u64::MAX by {
        lemma_cell(s.hash.seed, key, r, s.width, s.depth);
    }
    lemma_least_cell(s, key, s.depth);
}

/// No other key of the stream has the cell of `key` in `row`.
pub open spec fn alone_in_row(
    stream: Seq<(Seq<u8>, int)>,
    seed: u64,
    width: int,
    key: Seq<u8>,
    row: int,
) -> bool {
    forall|i: int|
        0 <= i < stream.len() && (#[trigger] stream[i]).0 != key ==> cell(
            seed,
            stream[i].0,
            row,
            width,
        ) != cell(seed, key, row, width)
}

proof fn lemma_alone_weight(
    stream: Seq<(Seq<u8>, int)>,
    seed: u64,
    width: int,
    depth: int,
    key: Seq<u8>,
    row: int,
)
    requires
        width > 0,
        0 <= row < depth,
        alone_in_row(stream, seed, width, key, row),
    ensures
        colliding_weight(stream, seed, width, cell(seed, key, row, width)) == weight_of(
            stream,
            key,
        ),
    decreases stream.len(),
{
    lemma_cell(seed, key, row, width, depth);
    if stream.len() > 0 {
        let front = stream.drop_last();
        assert forall|i: int|
            0 <= i < front.len() && (#[trigger] front[i]).0 != key implies cell(
            seed,
            front[i].0,
            row,
            width,
        ) != cell(seed, key, row, width) by {
            assert(front[i] == stream[i]);
        }
        lemma_alone_weight(front, seed, width, depth, key, row);
        assert(stream.last() == stream[stream.len() - 1]);
    }
}

proof fn lemma_colliding_bound(stream: Seq<(Seq<u8>, int)>, seed: u64, width: int, i: int)
    requires
        nonnegative(stream),
    ensures
        colliding_weight(stream, seed, width, i) <= total_of(stream),
    decreases stream.len(),
{
    if stream.len() > 0 {
        let front = stream.drop_last();
        assert forall|j: int| 0 <= j < front.len() implies 0 <= (#[trigger] front[j]).1 by {
            assert(front[j] == stream[j]);
        }
        assert(0 <= stream[stream.len() - 1].1);
        lemma_colliding_bound(front, seed, width, i);
    }
}

/// Counting is exact for a key that shares its cell with no other key in some
/// row, plain or conservative.
pub proof fn law_exact_without_collision(
    width: int,
    depth: int,
    conservative: bool,
    hash: HashSpec,
    stream: Seq<(Seq<u8>, int)>,
    key: Seq<u8>,
    row: int,
)
    requires
        width > 0,
        0 <= row < depth,
        nonnegative(stream),
        total_of(stream) <= u64::MAX,
        alone_in_row(stream, hash.seed, width, key, row),
    ensures
        CountMin::empty(width, depth, conservative, hash).fed(stream).estimate(key) == weight_of(
            stream,
            key,
        ),
{
    let e = CountMin::empty(width, depth, false, hash);
    let p = e.fed(stream);
    lemma_fed_config(e, stream);
    law_never_underestimates(width, depth, conservative, hash, stream, key);
    law_conservative_at_most_plain(width, depth, hash, stream, key);
    lemma_alone_weight(stream, hash.seed, width, depth, key, row);
    assert forall|r: int| 0 <= r < depth implies #[trigger] p.table[cell(
        hash.seed,
        key,
        r,
        width,
    )] <= u64::MAX by {
        lemma_cell(hash.seed, key, r, width, depth);
        let i = cell(hash.seed, key, r, width);
        law_plain_cell_is_colliding_weight(width, depth, hash, stream, i);
        lemma_colliding_bound(stream, hash.seed, width, i);
    }
    lemma_least_cell(p, key, depth);
    lemma_cell(hash.seed, key, row, width, depth);
    law_plain_cell_is_colliding_weight(
        width,
        depth,
        hash,
        stream,
        cell(hash.seed, key, row, width),
    );
    assert(p.estimate(key) <= p.table[cell(hash.seed, key, row, width)]);
}

// ---------------------------------------------------------------------------
// Count-Sketch
// ---------------------------------------------------------------------------

/// The numbers below `x`.
pub open spec fn below(x: int) -> spec_fn(int) -> bool {
    |y: int| y < x
}

/// The numbers above `x`.
pub open spec fn above(x: int) -> spec_fn(int) -> bool {
    |y: int| y > x
}

proof fn lemma_filter_same(a: Seq<int>, b: Seq<int>, f: spec_fn(int) -> bool)
    requires
        a.to_multiset() == b.to_multiset(),
    ensures
        a.filter(f).len() == b.filter(f).len(),
    decreases a.len(),
{
    broadcast use vstd::seq_lib::group_to_multiset_ensures;

    reveal(Seq::filter);
    assert(a.len() == a.to_multiset().len());
    assert(b.len() == b.to_multiset().len());
    if a.len() > 0 {
        let x = a.last();
        assert(a.contains(x));
        assert(a.to_multiset().count(x) > 0);
        assert(b.to_multiset().count(x) > 0);
        assert(b.contains(x));
        let j = choose|j: int| 0 <= j < b.len() && b[j] == x;
        let c = b.remove(j);
        assert(a.drop_last() =~= a.remove(a.len() - 1));
        assert(c.to_multiset() == b.to_multiset().remove(x));
        lemma_filter_same(a.drop_last(), c, f);
        let one = seq![x];
        assert(b =~= b.take(j) + one + b.skip(j + 1));
        assert(c =~= b.take(j) + b.skip(j + 1));
        Seq::filter_distributes_over_add(b.take(j) + one, b.skip(j + 1), f);
        Seq::filter_distributes_over_add(b.take(j), one, f);
        Seq::filter_distributes_over_add(b.take(j), b.skip(j + 1), f);
        assert(one.drop_last() =~= Seq::<int>::empty());
        assert(one.drop_last().filter(f).len() == 0);
        assert(one.filter(f).len() == if f(x) { 1nat } else { 0nat });
    }
}

proof fn lemma_filter_none(s: Seq<int>, f: spec_fn(int) -> bool)
    requires
        forall|i: int| 0 <= i < s.len() ==> !f(#[trigger] s[i]),
    ensures
        s.filter(f).len() == 0,
    decreases s.len(),
{
    reveal(Seq::filter);
    if s.len() > 0 {
        assert(s.last() == s[s.len() - 1]);
        assert forall|i: int| 0 <= i < s.drop_last().len() implies !f(#[trigger] s.drop_last()[i]) by {
            assert(s.drop_last()[i] == s[i]);
        }
        lemma_filter_none(s.drop_last(), f);
    }
}

proof fn lemma_filter_at_most(s: Seq<int>, f: spec_fn(int) -> bool)
    ensures
        s.filter(f).len() <= s.len(),
    decreases s.len(),
{
    reveal(Seq::filter);
    if s.len() > 0 {
        lemma_filter_at_most(s.drop_last(), f);
    }
}

/// In ascending order, at most `i` numbers are below the one at place `i`, and
/// at most those behind it are above it.
proof fn lemma_sides(t: Seq<int>, i: int)
    requires
        0 <= i < t.len(),
        forall|a: int, b: int| 0 <= a < b < t.len() ==> t[a] <= t[b],
    ensures
        t.filter(below(t[i])).len() <= i,
        t.filter(above(t[i])).len() <= t.len() - 1 - i,
{
    let lo = t.take(i);
    let hi = t.skip(i);
    assert(t =~= lo + hi);
    Seq::filter_distributes_over_add(lo, hi, below(t[i]));
    lemma_filter_at_most(lo, below(t[i]));
    assert forall|j: int| 0 <= j < hi.len() implies !below(t[i])(#[trigger] hi[j]) by {
        assert(hi[j] == t[i + j]);
    }
    lemma_filter_none(hi, below(t[i]));
    let lo2 = t.take(i + 1);
    let hi2 = t.skip(i + 1);
    assert(t =~= lo2 + hi2);
    Seq::filter_distributes_over_add(lo2, hi2, above(t[i]));
    lemma_filter_at_most(hi2, above(t[i]));
    assert forall|j: int| 0 <= j < lo2.len() implies !above(t[i])(#[trigger] lo2[j]) by {
        assert(lo2[j] == t[j]);
    }
    lemma_filter_none(lo2, above(t[i]));
}

/// `a` and `b` are the middle of `s`: of the numbers, fewer than half are below
/// `a`, fewer than half are above `b`, and at most half on either side of what
/// lies between them.
pub open spec fn is_middle(s: Seq<int>, a: int, b: int) -> bool {
    &&& s.contains(a)
    &&& s.contains(b)
    &&& a <= b
    &&& 2 * s.filter(below(a)).len() < s.len()
    &&& 2 * s.filter(above(b)).len() < s.len()
    &&& 2 * s.filter(below(b)).len() <= s.len()
    &&& 2 * s.filter(above(a)).len() <= s.len()
}

/// A median has at most half of the numbers on each side: it is the middle
/// one, or between the two middle ones, rounded toward zero.
pub proof fn law_median_is_in_the_middle(s: Seq<int>)
    requires
        s.len() > 0,
    ensures
        s.len() % 2 == 1 ==> is_middle(s, median(s), median(s)),
        s.len() % 2 == 0 ==> exists|a: int, b: int| #[trigger]
            is_middle(s, a, b) && (2 * median(s) == a + b || (2 * median(s) == a + b - 1 && a + b
                > 0) || (2 * median(s) == a + b + 1 && a + b < 0)),
{
    broadcast use vstd::seq_lib::group_to_multiset_ensures;

    let t = s.sort_by(ascending());
    let mid = s.len() as int / 2;
    lemma_ascending();
    s.lemma_sort_by_ensures(ascending());
    assert(t.len() == t.to_multiset().len());
    assert(s.len() == s.to_multiset().len());
    assert forall|a: int, b: int| 0 <= a < b < t.len() implies t[a] <= t[b] by {
        assert(ascending()(t[a], t[b]));
    }
    assert(t.contains(t[mid]));
    assert(s.contains(t[mid]));
    lemma_sides(t, mid);
    lemma_filter_same(s, t, below(t[mid]));
    lemma_filter_same(s, t, above(t[mid]));
    if s.len() % 2 == 0 {
        assert(t.contains(t[mid - 1]));
        assert(s.contains(t[mid - 1]));
        lemma_sides(t, mid - 1);
        lemma_filter_same(s, t, below(t[mid - 1]));
        lemma_filter_same(s, t, above(t[mid - 1]));
        assert(is_middle(s, t[mid - 1], t[mid]));
    } else {
        assert(is_middle(s, t[mid], t[mid]));
    }
}

// ---------------------------------------------------------------------------
// Rankings and merges of summaries
// ---------------------------------------------------------------------------

/// A ranking names tracked keys with what is recorded of them, each once, the
/// largest counts first; it is as long as asked for or names them all; and
/// what it leaves out counts no more than what it names.
pub proof fn law_top_keys_are_the_largest(
    r: Seq<(Vec<u8>, Entry)>,
    m: Map<Seq<u8>, Tally>,
    limit: int,
)
    requires
        is_top(r, m, limit),
        m.dom().finite(),
        0 <= limit,
    ensures
        r.len() == limit || (r.len() < limit && r.len() == m.dom().len()),
        forall|j: int|
            0 <= j < r.len() ==> m.contains_key((#[trigger] r[j]).0@) && r[j].1.count as int
                == m[r[j].0@].count && r[j].1.error as int == m[r[j].0@].error,
        forall|i: int, j: int|
            0 <= i < j < r.len() ==> (#[trigger] r[i]).0@ != (#[trigger] r[j]).0@ && r[i].1.count
                >= r[j].1.count,
        forall|k: Seq<u8>, j: int|
            #![trigger m.contains_key(k), r[j]]
            m.contains_key(k) && 0 <= j < r.len() && (forall|i: int|
                0 <= i < r.len() ==> (#[trigger] r[i]).0@ != k) ==> m[k].count <= r[j].1.count,
{
    let lt = ranking_order(m);
    let s = listing(m.dom(), lt);
    lemma_ranking_order(m);
    lemma_listing_exists(m.dom(), lt);
    lemma_listing_len(s, m.dom(), lt);
    assert forall|j: int| 0 <= j < s.len() implies m.contains_key(#[trigger] s[j]) by {
        assert(s.contains(s[j]));
        assert(m.dom().contains(s[j]));
    }
    assert forall|j: int| 0 <= j < r.len() implies m.contains_key((#[trigger] r[j]).0@)
        && r[j].1.count as int == m[r[j].0@].count && r[j].1.error as int == m[r[j].0@].error by {
        assert(m.contains_key(s[j]));
        assert(r[j].1@ == m[s[j]]);
    }
    assert forall|i: int, j: int| 0 <= i < j < r.len() implies (#[trigger] r[i]).0@ != (
    #[trigger] r[j]).0@ && r[i].1.count >= r[j].1.count by {
        assert(lt(s[i], s[j]));
        assert(s[i] != s[j]);
    }
    assert forall|k: Seq<u8>, j: int|
        #![trigger m.contains_key(k), r[j]]
        m.contains_key(k) && 0 <= j < r.len() && (forall|i: int|
            0 <= i < r.len() ==> (#[trigger] r[i]).0@ != k) implies m[k].count <= r[j].1.count by {
        assert(m.dom().contains(k));
        let p = choose|p: int| 0 <= p < s.len() && s[p] == k;
        if p < r.len() {
            assert(r[p].0@ == k);
        }
        assert(lt(s[j], s[p]));
    }
}

/// The same of plain counts.
pub proof fn law_front_keys_are_the_largest(
    r: Seq<(Vec<u8>, u64)>,
    m: Map<Seq<u8>, int>,
    limit: int,
)
    requires
        is_front(r, m, limit),
        m.dom().finite(),
        0 <= limit,
    ensures
        r.len() == limit || (r.len() < limit && r.len() == m.dom().len()),
        forall|j: int|
            0 <= j < r.len() ==> m.contains_key((#[trigger] r[j]).0@) && r[j].1 as int
                == m[r[j].0@],
        forall|i: int, j: int|
            0 <= i < j < r.len() ==> (#[trigger] r[i]).0@ != (#[trigger] r[j]).0@ && r[i].1
                >= r[j].1,
        forall|k: Seq<u8>, j: int|
            #![trigger m.contains_key(k), r[j]]
            m.contains_key(k) && 0 <= j < r.len() && (forall|i: int|
                0 <= i < r.len() ==> (#[trigger] r[i]).0@ != k) ==> m[k] <= r[j].1,
{
    let lt = count_order(m);
    let s = listing(m.dom(), lt);
    lemma_count_order(m);
    lemma_listing_len(s, m.dom(), lt);
    assert forall|j: int| 0 <= j < s.len() implies m.contains_key(#[trigger] s[j]) by {
        assert(s.contains(s[j]));
        assert(m.dom().contains(s[j]));
    }
    assert forall|i: int, j: int| 0 <= i < j < r.len() implies (#[trigger] r[i]).0@ != (
    #[trigger] r[j]).0@ && r[i].1 >= r[j].1 by {
        assert(lt(s[i], s[j]));
        assert(s[i] != s[j]);
    }
    assert forall|k: Seq<u8>, j: int|
        #![trigger m.contains_key(k), r[j]]
        m.contains_key(k) && 0 <= j < r.len() && (forall|i: int|
            0 <= i < r.len() ==> (#[trigger] r[i]).0@ != k) implies m[k] <= r[j].1 by {
        assert(m.dom().contains(k));
        let p = choose|p: int| 0 <= p < s.len() && s[p] == k;
        if p < r.len() {
            assert(r[p].0@ == k);
        }
        assert(lt(s[j], s[p]));
    }
}

/// `least` is what a key may have had in a summary that does not track it:
/// nothing where there is room, else no more than the least tracked count.
pub open spec fn is_hidden(s: Summary, least: int) -> bool {
    if s.entries.dom().len() < s.capacity {
        least == 0
    } else {
        &&& exists|k: Seq<u8>| #[trigger] s.entries.contains_key(k) && s.entries[k].count == least
        &&& forall|k: Seq<u8>| #[trigger]
            s.entries.contains_key(k) ==> least <= s.entries[k].count
    }
}

/// A merge adds counts and errors key by key. A key that only one side tracks
/// is charged what the other may have hidden, as count and as error.
pub proof fn law_merged_counts_add_up(a: Summary, b: Summary, k: Seq<u8>)
    requires
        a.bounded(),
        b.bounded(),
        a.merged(b).entries.contains_key(k),
    ensures
        ({
            let m = a.merged(b).entries[k];
            let p = a.entries[k];
            let q = b.entries[k];
            &&& a.entries.contains_key(k) || b.entries.contains_key(k)
            &&& a.entries.contains_key(k) && b.entries.contains_key(k) ==> m.count == p.count
                + q.count && m.error == p.error + q.error
            &&& a.entries.contains_key(k) && !b.entries.contains_key(k) ==> exists|h: int| #[trigger]
                is_hidden(b, h) && m.count == p.count + h && m.error == p.error + h
            &&& !a.entries.contains_key(k) && b.entries.contains_key(k) ==> exists|h: int| #[trigger]
                is_hidden(a, h) && m.count == q.count + h && m.error == q.error + h
        }),
        a.merged(b).total == a.total + b.total,
        a.merged(b).updates == a.updates + b.updates,
        a.merged(b).capacity == a.capacity,
{
    if a.entries.dom().len() > 0 {
        lemma_least(a);
    }
    if b.entries.dom().len() > 0 {
        lemma_least(b);
    }
    assert(is_hidden(a, a.absent_charge()));
    assert(is_hidden(b, b.absent_charge()));
}

/// A merge keeps every key that either side tracks if they fit, and else as
/// many as fit, of which none counts less than a key that was dropped.
pub proof fn law_merge_keeps_the_largest(a: Summary, b: Summary)
    requires
        a.bounded(),
        b.bounded(),
    ensures
        ({
            let keys = a.entries.dom().union(b.entries.dom());
            let kept = a.merged(b).entries;
            &&& kept.dom().subset_of(keys)
            &&& keys.len() <= a.capacity ==> kept.dom() == keys
            &&& keys.len() > a.capacity ==> kept.dom().len() == a.capacity
            &&& forall|k: Seq<u8>, d: Seq<u8>| #[trigger]
                kept.contains_key(k) && #[trigger] keys.contains(d) && !kept.contains_key(d)
                    ==> a.combined(b)[d].count <= kept[k].count
        }),
{
    let keys = a.entries.dom().union(b.entries.dom());
    let m = a.combined(b);
    let kept = a.merged(b).entries;
    let lt = ranking_order(m);
    assert(m.dom() =~= keys);
    lemma_ranking_order(m);
    lemma_listing_exists(keys, lt);
    let s = listing(keys, lt);
    lemma_listing_len(s, keys, lt);
    let n = a.capacity;
    lemma_leaders(m, s, n);
    let cut = if n < s.len() { n } else { s.len() as int };
    let front = s.take(cut);
    assert forall|i: int, j: int|
        0 <= i < front.len() && 0 <= j < front.len() && i != j implies front[i] != front[j] by {
        assert(s[i] != s[j]);
    }
    front.unique_seq_to_set();
    assert forall|k: Seq<u8>| front.contains(k) implies keys.contains(k) by {
        let i = choose|i: int| 0 <= i < front.len() && front[i] == k;
        assert(s[i] == k);
        assert(s.contains(k));
    }
    assert(kept.dom() =~= front.to_set());
    if keys.len() <= n {
        assert(front =~= s);
        assert forall|k: Seq<u8>| keys.contains(k) implies kept.contains_key(k) by {
            assert(s.contains(k));
        }
        assert(kept.dom() =~= keys);
    }
    assert forall|k: Seq<u8>, d: Seq<u8>| #[trigger]
        kept.contains_key(k) && #[trigger] keys.contains(d) && !kept.contains_key(
            d,
        ) implies m[d].count <= kept[k].count by {
        assert(front.contains(k));
        let i = choose|i: int| 0 <= i < front.len() && front[i] == k;
        assert(s.contains(d));
        let j = choose|j: int| 0 <= j < s.len() && s[j] == d;
        if j < cut {
            assert(front[j] == d);
            assert(front.contains(d));
        }
        assert(lt(s[i], s[j]));
    }
}

// ---------------------------------------------------------------------------
// Exact counting
// ---------------------------------------------------------------------------

/// An addition raises the count of its key and the total by its weight, and
/// changes no other count and no set of items.
pub proof fn law_exact_addition(s: Exact, key: Seq<u8>, weight: int, j: Seq<u8>)
    ensures
        count_or_zero(s.added(key, weight).counts, j) == count_or_zero(s.counts, j) + if j == key {
            weight
        } else {
            0
        },
        s.added(key, weight).counts.dom() == s.counts.dom().insert(key),
        s.added(key, weight).total == s.total + weight,
        s.added(key, weight).updates == s.updates + 1,
        items_of(s.added(key, weight).distinct, j) == items_of(s.distinct, j),
{
    assert(s.added(key, weight).counts.dom() =~= s.counts.dom().insert(key));
}

/// A sighting puts the item among those of its key, where it is counted once,
/// and changes no count, no total and no other key's items.
pub proof fn law_exact_sighting(s: Exact, key: Seq<u8>, item: Seq<u8>, j: Seq<u8>, x: Seq<u8>)
    ensures
        items_of(s.seen(key, item).distinct, j).contains(x) <==> items_of(s.distinct, j).contains(x)
            || (j == key && x == item),
        s.seen(key, item).distinct.dom() == s.distinct.dom().insert(key),
        s.seen(key, item).counts == s.counts,
        s.seen(key, item).total == s.total,
        s.seen(key, item).updates == s.updates + 1,
{
    assert(s.seen(key, item).distinct.dom() =~= s.distinct.dom().insert(key));
}

/// A merge adds the counts and totals, and holds an item of a key if either
/// side does.
pub proof fn law_exact_merge(a: Exact, b: Exact, j: Seq<u8>, x: Seq<u8>)
    ensures
        count_or_zero(a.merged(b).counts, j) == count_or_zero(a.counts, j) + count_or_zero(
            b.counts,
            j,
        ),
        a.merged(b).counts.dom() == a.counts.dom().union(b.counts.dom()),
        items_of(a.merged(b).distinct, j).contains(x) <==> items_of(a.distinct, j).contains(x)
            || items_of(b.distinct, j).contains(x),
        a.merged(b).distinct.dom() == a.distinct.dom().union(b.distinct.dom()),
        a.merged(b).total == a.total + b.total,
        a.merged(b).updates == a.updates + b.updates,
{
    assert(a.merged(b).counts.dom() =~= a.counts.dom().union(b.counts.dom()));
    assert(a.merged(b).distinct.dom() =~= a.distinct.dom().union(b.distinct.dom()));
}

// ---------------------------------------------------------------------------
// HyperLogLog registers
// ---------------------------------------------------------------------------

/// The first `p` bits of a hash choose the register, and the rank is the place
/// of the first set bit behind them, one beyond the last place if none is set.
pub proof fn law_register_and_rank_of_a_hash(p: u8, h: u64)
    requires
        4 <= p <= 18,
    ensures
        register_index(p, h) == h >> (64 - p) as u64,
        1 <= register_rank(p, h) <= 65 - p,
        register_rank(p, h) <= 64 - p ==> (h >> (64 - p - register_rank(p, h)) as u64) & 1 == 1,
        forall|j: u64|
            64 - p - register_rank(p, h) < j < 64 - p ==> #[trigger] (h >> j) & 1 == 0,
{
    let q = p as u64;
    let x = h << q;
    let zeros = u64_leading_zeros(x);
    axiom_u64_leading_zeros(x);
    assert forall|j: u64| j < 64 - q implies #[trigger] (h >> j) & 1 == (x >> (j + q) as u64) & 1 by {
        assert((h >> j) & 1 == ((h << q) >> ((j + q) as u64)) & 1) by (bit_vector)
            requires
                j < 64 - q,
                q <= 18,
        ;
    }
    assert forall|j: u64| 64 - p - register_rank(p, h) < j < 64 - p implies #[trigger] (h >> j) & 1
        == 0 by {
        assert(64 - zeros <= j + q && j + q < 64);
        assert((x >> ((j + q) as u64)) & 1 == 0);
    }
    if register_rank(p, h) <= 64 - p {
        let j = (64 - p - register_rank(p, h)) as u64;
        if zeros < 64 {
            assert((j + q) as u64 == 63 - zeros);
            let y = x >> ((63 - zeros) as u64);
            assert(y & 1 == 0 || y & 1 == 1) by (bit_vector);
        }
    }
}

/// The ranks of a register table are counted one by one.
pub proof fn law_ranks_are_counted(r: Seq<u8>, v: u8)
    ensures
        ranks_equal(r, v) == r.filter(|x: u8| x == v).len(),
    decreases r.len(),
{
    reveal(Seq::filter);
    if r.len() > 0 {
        law_ranks_are_counted(r.drop_last(), v);
    }
}

} // verus!
