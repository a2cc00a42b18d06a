//! Strict orders, and sorting by them.

use vstd::prelude::*;

use crate::bytes::bytes_before;

verus! {

/// A strict total order on the positions `0..size`.
pub trait Ranking {
    spec fn size(&self) -> nat;

    /// Position `i` comes before position `j`.
    spec fn ahead(&self, i: int, j: int) -> bool;

    spec fn ranking_wf(&self) -> bool;

    proof fn strict(&self)
        requires
            self.ranking_wf(),
        ensures
            forall|i: int| 0 <= i < self.size() ==> !#[trigger] self.ahead(i, i),
            forall|i: int, j: int|
                0 <= i < self.size() && 0 <= j < self.size() && i != j ==> #[trigger] self.ahead(
                    i,
                    j,
                ) || self.ahead(j, i),
            forall|i: int, j: int, k: int|
                0 <= i < self.size() && 0 <= j < self.size() && 0 <= k < self.size()
                    && #[trigger] self.ahead(i, j) && #[trigger] self.ahead(j, k) ==> self.ahead(
                    i,
                    k,
                ),
    ;

    fn is_ahead(&self, i: usize, j: usize) -> (r: bool)
        requires
            self.ranking_wf(),
            i < self.size(),
            j < self.size(),
        ensures
            r == self.ahead(i as int, j as int),
    ;
}

/// `s` lists positions in rank order.
pub open spec fn in_rank_order<O: Ranking>(o: &O, s: Seq<usize>) -> bool {
    forall|a: int, b: int| 0 <= a < b < s.len() ==> o.ahead(#[trigger] s[a] as int, #[trigger] s[b] as int)
}

/// `s` lists exactly the positions from `lo` up to `hi`.
pub open spec fn lists_range(s: Seq<usize>, lo: int, hi: int) -> bool {
    &&& s.len() == hi - lo
    &&& forall|a: int| 0 <= a < s.len() ==> lo <= #[trigger] s[a] < hi
    &&& forall|x: usize| lo <= x < hi ==> #[trigger] s.contains(x)
}

/// All positions `0..n`, in rank order.
pub fn ranked<O: Ranking>(o: &O, n: usize) -> (r: Vec<usize>)
    requires
        o.ranking_wf(),
        n == o.size(),
    ensures
        lists_range(r@, 0, n as int),
        in_rank_order(o, r@),
{
    ranked_range(o, 0, n)
}

fn ranked_range<O: Ranking>(o: &O, lo: usize, hi: usize) -> (r: Vec<usize>)
    requires
        o.ranking_wf(),
        lo <= hi <= o.size(),
    ensures
        lists_range(r@, lo as int, hi as int),
        in_rank_order(o, r@),
    decreases hi - lo,
{
    if hi - lo == 0 {
        return Vec::new();
    }
    if hi - lo == 1 {
        let mut one: Vec<usize> = Vec::new();
        one.push(lo);
        assert(one@[0] == lo);
        assert(one@.contains(lo));
        return one;
    }
    let mid: usize = lo + (hi - lo) / 2;
    let left = ranked_range(o, lo, mid);
    let right = ranked_range(o, mid, hi);
    merge_ranked(o, &left, &right, Ghost((lo as int, mid as int, hi as int)))
}

fn merge_ranked<O: Ranking>(
    o: &O,
    left: &Vec<usize>,
    right: &Vec<usize>,
    bounds: Ghost<(int, int, int)>,
) -> (r: Vec<usize>)
    requires
        o.ranking_wf(),
        0 <= bounds@.0 <= bounds@.1 <= bounds@.2 <= o.size(),
        lists_range(left@, bounds@.0, bounds@.1),
        lists_range(right@, bounds@.1, bounds@.2),
        in_rank_order(o, left@),
        in_rank_order(o, right@),
        left.len() + right.len() <= usize::MAX,
    ensures
        lists_range(r@, bounds@.0, bounds@.2),
        in_rank_order(o, r@),
{
    let ghost (lo, mid, hi) = bounds@;
    let mut out: Vec<usize> = Vec::new();
    let mut i: usize = 0;
    let mut j: usize = 0;
    while i < left.len() || j < right.len()
        invariant
            o.ranking_wf(),
            (lo, mid, hi) == bounds@,
            0 <= lo <= mid <= hi <= o.size(),
            lists_range(left@, lo, mid),
            lists_range(right@, mid, hi),
            in_rank_order(o, left@),
            in_rank_order(o, right@),
            left.len() + right.len() <= usize::MAX,
            i <= left.len(),
            j <= right.len(),
            out.len() == i + j,
            in_rank_order(o, out@),
            forall|a: int| 0 <= a < out.len() ==> lo <= #[trigger] out@[a] < hi,
            forall|a: int, b: int|
                0 <= a < out.len() && i <= b < left.len() ==> o.ahead(
                    #[trigger] out@[a] as int,
                    #[trigger] left@[b] as int,
                ),
            forall|a: int, b: int|
                0 <= a < out.len() && j <= b < right.len() ==> o.ahead(
                    #[trigger] out@[a] as int,
                    #[trigger] right@[b] as int,
                ),
            forall|a: int| 0 <= a < i ==> out@.contains(#[trigger] left@[a]),
            forall|a: int| 0 <= a < j ==> out@.contains(#[trigger] right@[a]),
        decreases left.len() - i + right.len() - j,
    {
        proof {
            o.strict();
        }
        let ghost before = out@;
        let take_left: bool = if j == right.len() {
            true
        } else if i == left.len() {
            false
        } else {
            o.is_ahead(left[i], right[j])
        };
        if take_left {
            proof {
                assert forall|b: int| j <= b < right.len() implies o.ahead(
                    left@[i as int] as int,
                    #[trigger] right@[b] as int,
                ) by {
                    if b > j {
                        assert(o.ahead(right@[j as int] as int, right@[b] as int));
                    }
                }
            }
            out.push(left[i]);
            i += 1;
        } else {
            proof {
                assert forall|b: int| i <= b < left.len() implies o.ahead(
                    right@[j as int] as int,
                    #[trigger] left@[b] as int,
                ) by {
                    assert(o.ahead(right@[j as int] as int, left@[i as int] as int));
                    if b > i {
                        assert(o.ahead(left@[i as int] as int, left@[b] as int));
                    }
                }
            }
            out.push(right[j]);
            j += 1;
        }
        proof {
            let last = out@.len() - 1;
            assert(out@[last] == out@.last());
            assert forall|x: usize| before.contains(x) implies #[trigger] out@.contains(x) by {
                let p = choose|p: int| 0 <= p < before.len() && before[p] == x;
                assert(out@[p] == x);
            }
            assert(out@.contains(out@[last]));
        }
    }
    proof {
        assert forall|x: usize| lo <= x < hi implies #[trigger] out@.contains(x) by {
            if x < mid {
                assert(left@.contains(x));
                let p = choose|p: int| 0 <= p < left@.len() && left@[p] == x;
                assert(out@.contains(left@[p]));
            } else {
                assert(right@.contains(x));
                let p = choose|p: int| 0 <= p < right@.len() && right@[p] == x;
                assert(out@.contains(right@[p]));
            }
        }
    }
    out
}

/// A listing of distinct positions: every position occurs once.
pub proof fn lemma_ranked_distinct<O: Ranking>(o: &O, s: Seq<usize>)
    requires
        o.ranking_wf(),
        lists_range(s, 0, o.size() as int),
        in_rank_order(o, s),
    ensures
        s.no_duplicates(),
{
    o.strict();
    assert forall|a: int, b: int| 0 <= a < s.len() && 0 <= b < s.len() && a != b implies s[a]
        != s[b] by {
        if a < b {
            assert(o.ahead(s[a] as int, s[b] as int));
        } else {
            assert(o.ahead(s[b] as int, s[a] as int));
        }
    }
}

// ---------------------------------------------------------------------------
// Listings of sets
// ---------------------------------------------------------------------------

/// A strict total order.
pub open spec fn strict_total<A>(lt: spec_fn(A, A) -> bool) -> bool {
    &&& forall|a: A| !#[trigger] lt(a, a)
    &&& forall|a: A, b: A| a != b ==> #[trigger] lt(a, b) || lt(b, a)
    &&& forall|a: A, b: A, c: A| #[trigger] lt(a, b) && #[trigger] lt(b, c) ==> lt(a, c)
}

/// Strictly ascending under `lt`.
pub open spec fn ascends<A>(s: Seq<A>, lt: spec_fn(A, A) -> bool) -> bool {
    forall|i: int, j: int| 0 <= i < j < s.len() ==> lt(#[trigger] s[i], #[trigger] s[j])
}

/// `s` lists the elements of `set`, each once, in ascending order.
pub open spec fn is_listing<A>(s: Seq<A>, set: Set<A>, lt: spec_fn(A, A) -> bool) -> bool {
    &&& ascends(s, lt)
    &&& forall|a: A| #[trigger] set.contains(a) <==> s.contains(a)
}

/// The elements of a finite set in ascending order.
pub open spec fn listing<A>(set: Set<A>, lt: spec_fn(A, A) -> bool) -> Seq<A> {
    choose|s: Seq<A>| is_listing(s, set, lt)
}

/// A set has only one listing.
pub proof fn lemma_listing_unique<A>(
    s: Seq<A>,
    t: Seq<A>,
    set: Set<A>,
    lt: spec_fn(A, A) -> bool,
)
    requires
        strict_total(lt),
        is_listing(s, set, lt),
        is_listing(t, set, lt),
    ensures
        s == t,
    decreases s.len(),
{
    if s.len() == 0 {
        if t.len() > 0 {
            assert(t.contains(t[0]));
            assert(set.contains(t[0]));
        }
        assert(s =~= t);
    } else {
        assert(s.contains(s[0]));
        assert(set.contains(s[0]));
        assert(t.contains(s[0]));
        let x = s.last();
        let y = t.last();
        assert(x == s[s.len() - 1] && y == t[t.len() - 1]);
        assert(s.contains(x) && t.contains(y));
        assert(set.contains(x) && set.contains(y));
        let p = choose|p: int| 0 <= p < t.len() && t[p] == x;
        let q = choose|q: int| 0 <= q < s.len() && s[q] == y;
        if p < t.len() - 1 {
            assert(lt(t[p], t[t.len() - 1]));
            if q < s.len() - 1 {
                assert(lt(s[q], s[s.len() - 1]));
            }
        }
        assert(x == y);
        let rest = set.remove(x);
        let a = s.drop_last();
        let b = t.drop_last();
        assert forall|z: A| #[trigger] rest.contains(z) <==> a.contains(z) by {
            lemma_drop_last_contains(s, z, lt);
            assert(set.contains(z) <==> s.contains(z));
        }
        assert forall|z: A| #[trigger] rest.contains(z) <==> b.contains(z) by {
            lemma_drop_last_contains(t, z, lt);
            assert(set.contains(z) <==> t.contains(z));
        }
        lemma_listing_unique(a, b, rest, lt);
        assert(s =~= a.push(x));
        assert(t =~= b.push(x));
    }
}

proof fn lemma_drop_last_contains<A>(s: Seq<A>, z: A, lt: spec_fn(A, A) -> bool)
    requires
        s.len() > 0,
        strict_total(lt),
        ascends(s, lt),
    ensures
        s.drop_last().contains(z) <==> s.contains(z) && z != s.last(),
{
    if s.contains(z) && z != s.last() {
        let i = choose|i: int| 0 <= i < s.len() && s[i] == z;
        assert(s.drop_last()[i] == z);
    }
    if s.drop_last().contains(z) {
        let i = choose|i: int| 0 <= i < s.drop_last().len() && s.drop_last()[i] == z;
        assert(s[i] == z);
        assert(lt(s[i], s[s.len() - 1]));
    }
}

/// A listing of a set is the listing of the set.
pub proof fn lemma_listing<A>(s: Seq<A>, set: Set<A>, lt: spec_fn(A, A) -> bool)
    requires
        strict_total(lt),
        is_listing(s, set, lt),
    ensures
        listing(set, lt) == s,
        is_listing(listing(set, lt), set, lt),
{
    let t = listing(set, lt);
    assert(is_listing(t, set, lt));
    lemma_listing_unique(s, t, set, lt);
}

/// An ascending sequence has no duplicates, and lists a set of its length.
pub proof fn lemma_listing_len<A>(s: Seq<A>, set: Set<A>, lt: spec_fn(A, A) -> bool)
    requires
        strict_total(lt),
        is_listing(s, set, lt),
    ensures
        s.no_duplicates(),
        set.finite(),
        set.len() == s.len(),
{
    assert(set =~= s.to_set());
    s.unique_seq_to_set();
}

/// A finite set that is not empty has a last element.
proof fn lemma_last_exists<A>(set: Set<A>, lt: spec_fn(A, A) -> bool) -> (g: A)
    requires
        strict_total(lt),
        set.finite(),
        set.len() > 0,
    ensures
        set.contains(g),
        forall|a: A| #[trigger] set.contains(a) && a != g ==> lt(a, g),
    decreases set.len(),
{
    let k = set.choose();
    assert(set.contains(k));
    let rest = set.remove(k);
    if rest.len() == 0 {
        rest.lemma_len0_is_empty();
        assert forall|a: A| #[trigger] set.contains(a) && a != k implies lt(a, k) by {
            assert(rest.contains(a));
        }
        k
    } else {
        let g = lemma_last_exists(rest, lt);
        if lt(g, k) {
            assert forall|a: A| #[trigger] set.contains(a) && a != k implies lt(a, k) by {
                assert(rest.contains(a));
                if a != g {
                    assert(lt(a, g));
                }
            }
            k
        } else {
            assert(lt(k, g));
            assert forall|a: A| #[trigger] set.contains(a) && a != g implies lt(a, g) by {
                if a != k {
                    assert(rest.contains(a));
                }
            }
            g
        }
    }
}

/// Every finite set has a listing.
pub proof fn lemma_listing_exists<A>(set: Set<A>, lt: spec_fn(A, A) -> bool)
    requires
        strict_total(lt),
        set.finite(),
    ensures
        is_listing(listing(set, lt), set, lt),
        listing(set, lt).len() == set.len(),
    decreases set.len(),
{
    let s: Seq<A> = if set.len() == 0 {
        set.lemma_len0_is_empty();
        assert(is_listing(Seq::<A>::empty(), set, lt));
        Seq::empty()
    } else {
        let g = lemma_last_exists(set, lt);
        let rest = set.remove(g);
        lemma_listing_exists(rest, lt);
        let front = listing(rest, lt);
        let s = front.push(g);
        assert forall|a: A| #[trigger] set.contains(a) <==> s.contains(a) by {
            if set.contains(a) {
                if a == g {
                    assert(s[front.len() as int] == a);
                } else {
                    assert(rest.contains(a));
                    let i = choose|i: int| 0 <= i < front.len() && front[i] == a;
                    assert(s[i] == a);
                }
            }
            if s.contains(a) {
                let i = choose|i: int| 0 <= i < s.len() && s[i] == a;
                if i < front.len() {
                    assert(front.contains(front[i]));
                    assert(rest.contains(a));
                }
            }
        }
        assert forall|i: int, j: int| 0 <= i < j < s.len() implies lt(
            #[trigger] s[i],
            #[trigger] s[j],
        ) by {
            if j < front.len() {
                assert(lt(front[i], front[j]));
            } else {
                assert(front.contains(front[i]));
                assert(rest.contains(s[i]));
                assert(set.contains(s[i]));
            }
        }
        s
    };
    assert(is_listing(s, set, lt));
    lemma_listing(s, set, lt);
    lemma_listing_len(s, set, lt);
}

/// Lexicographic order on byte strings.
pub open spec fn key_order() -> spec_fn(Seq<u8>, Seq<u8>) -> bool {
    |a: Seq<u8>, b: Seq<u8>| bytes_before(a, b)
}

pub proof fn lemma_key_order()
    ensures
        strict_total(key_order()),
{
    let lt = key_order();
    assert forall|a: Seq<u8>| !#[trigger] lt(a, a) by {
        lemma_bytes_irreflexive(a);
    }
    assert forall|a: Seq<u8>, b: Seq<u8>| a != b implies #[trigger] lt(a, b) || lt(b, a) by {
        lemma_bytes_total(a, b);
    }
    assert forall|a: Seq<u8>, b: Seq<u8>, c: Seq<u8>| #[trigger] lt(a, b) && #[trigger] lt(
        b,
        c,
    ) implies lt(a, c) by {
        lemma_bytes_transitive(a, b, c);
    }
}

// ---------------------------------------------------------------------------
// Byte strings
// ---------------------------------------------------------------------------

pub proof fn lemma_bytes_irreflexive(a: Seq<u8>)
    ensures
        !bytes_before(a, a),
    decreases a.len(),
{
    if a.len() > 0 {
        lemma_bytes_irreflexive(a.drop_first());
    }
}

pub proof fn lemma_bytes_total(a: Seq<u8>, b: Seq<u8>)
    ensures
        a == b || bytes_before(a, b) || bytes_before(b, a),
        !(bytes_before(a, b) && bytes_before(b, a)),
        a == b ==> !bytes_before(a, b),
    decreases a.len(),
{
    if a.len() == 0 {
        if b.len() == 0 {
            assert(a =~= b);
        }
    } else if b.len() > 0 {
        if a[0] == b[0] {
            lemma_bytes_total(a.drop_first(), b.drop_first());
            if a.drop_first() == b.drop_first() {
                assert(a =~= seq![a[0]] + a.drop_first());
                assert(b =~= seq![b[0]] + b.drop_first());
            }
        }
    }
}

pub proof fn lemma_bytes_transitive(a: Seq<u8>, b: Seq<u8>, c: Seq<u8>)
    requires
        bytes_before(a, b),
        bytes_before(b, c),
    ensures
        bytes_before(a, c),
    decreases a.len(),
{
    if a.len() > 0 && b.len() > 0 && c.len() > 0 {
        if a[0] == b[0] && b[0] == c[0] {
            lemma_bytes_transitive(a.drop_first(), b.drop_first(), c.drop_first());
        }
    }
}

/// Whether `a` comes strictly before `b` in lexicographic order.
pub fn bytes_less(a: &[u8], b: &[u8]) -> (r: bool)
    ensures
        r == bytes_before(a@, b@),
{
    let mut i: usize = 0;
    assert(a@.skip(0) =~= a@);
    assert(b@.skip(0) =~= b@);
    while i < a.len() && i < b.len()
        invariant
            i <= a.len(),
            i <= b.len(),
            bytes_before(a@, b@) == bytes_before(a@.skip(i as int), b@.skip(i as int)),
        decreases a.len() - i,
    {
        assert(a@.skip(i as int).drop_first() =~= a@.skip(i + 1));
        assert(b@.skip(i as int).drop_first() =~= b@.skip(i + 1));
        if a[i] != b[i] {
            return a[i] < b[i];
        }
        i += 1;
    }
    a.len() < b.len()
}

} // verus!
