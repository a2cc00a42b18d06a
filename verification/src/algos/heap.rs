//! Binary min-heaps of ranks, as sequences.

use vstd::prelude::*;

use crate::bytes::bytes_before;
use crate::order::{lemma_bytes_irreflexive, lemma_bytes_total, lemma_bytes_transitive};

verus! {

/// What the heap orders by: the count, and then the digest and the bytes of
/// the key to break ties.
pub ghost struct Rank {
    pub count: int,
    pub digest: u64,
    pub key: Seq<u8>,
}

/// Strictly smaller rank.
pub open spec fn lower(a: Rank, b: Rank) -> bool {
    if a.count != b.count {
        a.count < b.count
    } else if a.digest != b.digest {
        a.digest < b.digest
    } else {
        bytes_before(a.key, b.key)
    }
}

pub proof fn lemma_lower_irreflexive(a: Rank)
    ensures
        !lower(a, a),
{
    lemma_bytes_irreflexive(a.key);
}

pub proof fn lemma_lower_total(a: Rank, b: Rank)
    ensures
        a == b || lower(a, b) || lower(b, a),
        !(lower(a, b) && lower(b, a)),
{
    lemma_bytes_total(a.key, b.key);
}

pub proof fn lemma_lower_transitive(a: Rank, b: Rank, c: Rank)
    requires
        lower(a, b),
        lower(b, c),
    ensures
        lower(a, c),
{
    if a.count == b.count && b.count == c.count && a.digest == b.digest && b.digest == c.digest {
        lemma_bytes_transitive(a.key, b.key, c.key);
    }
}

/// `a` not below `b` and `b` not below `c` give `a` not below `c`.
pub proof fn lemma_not_lower_transitive(a: Rank, b: Rank, c: Rank)
    requires
        !lower(a, b),
        !lower(b, c),
    ensures
        !lower(a, c),
{
    lemma_lower_total(a, b);
    lemma_lower_total(b, c);
    if lower(a, c) {
        if a != b {
            lemma_lower_transitive(b, a, c);
        }
    }
}

pub open spec fn parent(i: int) -> int {
    (i - 1) / 2
}

/// The node at `i` is not below its parent.
pub open spec fn settled(r: Seq<Rank>, i: int) -> bool {
    !lower(r[i], r[parent(i)])
}

/// Every node is settled: the sequence is a heap.
pub open spec fn heap_ordered(r: Seq<Rank>) -> bool {
    forall|i: int| 0 < i < r.len() ==> #[trigger] settled(r, i)
}

/// The nodes under `hole` are not below the parent of `hole`.
pub open spec fn bridged(r: Seq<Rank>, hole: int) -> bool {
    forall|i: int|
        0 < i < r.len() && hole > 0 && parent(i) == hole ==> !lower(
            #[trigger] r[i],
            r[parent(hole)],
        )
}

/// A heap but for the children of `hole`.
pub open spec fn open_below(r: Seq<Rank>, hole: int) -> bool {
    &&& forall|i: int| 0 < i < r.len() && parent(i) != hole ==> #[trigger] settled(r, i)
    &&& bridged(r, hole)
}

/// A heap but for `hole` itself.
pub open spec fn open_above(r: Seq<Rank>, hole: int) -> bool {
    &&& forall|i: int| 0 < i < r.len() && i != hole ==> #[trigger] settled(r, i)
    &&& bridged(r, hole)
}

pub open spec fn swapped<A>(r: Seq<A>, i: int, j: int) -> Seq<A> {
    r.update(i, r[j]).update(j, r[i])
}

/// The root of a heap is least.
pub proof fn lemma_root_least(r: Seq<Rank>, i: int)
    requires
        heap_ordered(r),
        0 <= i < r.len(),
    ensures
        !lower(r[i], r[0]),
    decreases i,
{
    if i == 0 {
        lemma_lower_irreflexive(r[0]);
    } else {
        assert(settled(r, i));
        lemma_root_least(r, parent(i));
        lemma_not_lower_transitive(r[i], r[parent(i)], r[0]);
    }
}

pub proof fn lemma_down_step(r: Seq<Rank>, i: int, m: int)
    requires
        open_below(r, i),
        0 <= i < r.len(),
        0 < m < r.len(),
        parent(m) == i,
        lower(r[m], r[i]),
        forall|c: int| 0 < c < r.len() && parent(c) == i ==> !lower(#[trigger] r[c], r[m]),
    ensures
        open_below(swapped(r, i, m), m),
{
    let t = swapped(r, i, m);
    lemma_lower_total(r[m], r[i]);
    assert forall|c: int| 0 < c < t.len() && parent(c) != m implies #[trigger] settled(t, c) by {
        if parent(c) == i {
            if c == m {
                assert(t[c] == r[i] && t[i] == r[m]);
            } else {
                assert(t[c] == r[c] && t[i] == r[m]);
            }
        } else if c == i {
            assert(t[c] == r[m]);
            assert(!lower(r[m], r[parent(i)]));
        } else {
            assert(settled(r, c));
        }
    }
    assert forall|c: int| 0 < c < t.len() && parent(c) == m implies !lower(
        #[trigger] t[c],
        t[parent(m)],
    ) by {
        assert(settled(r, c));
        assert(t[c] == r[c]);
    }
}

pub proof fn lemma_down_done(r: Seq<Rank>, i: int)
    requires
        open_below(r, i),
        forall|c: int| 0 < c < r.len() && parent(c) == i ==> !lower(#[trigger] r[c], r[i]),
    ensures
        heap_ordered(r),
{
    assert forall|c: int| 0 < c < r.len() implies #[trigger] settled(r, c) by {
        if parent(c) == i {
            assert(!lower(r[c], r[i]));
        }
    }
}

pub proof fn lemma_up_step(r: Seq<Rank>, i: int)
    requires
        open_above(r, i),
        0 < i < r.len(),
        lower(r[i], r[parent(i)]),
    ensures
        open_above(swapped(r, i, parent(i)), parent(i)),
{
    let p = parent(i);
    let t = swapped(r, i, p);
    lemma_lower_total(r[i], r[p]);
    assert forall|c: int| 0 < c < t.len() && c != p implies #[trigger] settled(t, c) by {
        if c == i {
            assert(t[c] == r[p] && t[p] == r[i]);
        } else if parent(c) == i {
            assert(t[c] == r[c] && t[i] == r[p]);
            assert(!lower(r[c], r[p]));
        } else if parent(c) == p {
            assert(settled(r, c));
            assert(t[c] == r[c] && t[p] == r[i]);
            if lower(r[c], r[i]) {
                lemma_lower_transitive(r[c], r[i], r[p]);
            }
        } else {
            assert(settled(r, c));
        }
    }
    assert forall|c: int| 0 < c < t.len() && p > 0 && parent(c) == p implies !lower(
        #[trigger] t[c],
        t[parent(p)],
    ) by {
        assert(settled(r, p));
        if c == i {
            assert(t[c] == r[p]);
        } else {
            assert(settled(r, c));
            lemma_not_lower_transitive(r[c], r[p], r[parent(p)]);
        }
    }
}

pub proof fn lemma_up_done(r: Seq<Rank>, i: int)
    requires
        open_above(r, i),
        i == 0 || settled(r, i),
    ensures
        heap_ordered(r),
{
}

} // verus!
