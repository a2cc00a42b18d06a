//! Sorting numbers.

use vstd::prelude::*;
use vstd::relations::{sorted_by, total_ordering};

verus! {

pub open spec fn up() -> spec_fn(u64, u64) -> bool {
    |a: u64, b: u64| a <= b
}

/// The numbers in ascending order.
pub open spec fn sorted_words(s: Seq<u64>) -> Seq<u64> {
    s.sort_by(up())
}

pub proof fn lemma_up()
    ensures
        total_ordering(up()),
{
}

/// What sorting gives is ascending and has the same numbers.
pub proof fn lemma_sorted_words(s: Seq<u64>)
    ensures
        sorted_words(s).len() == s.len(),
        sorted_words(s).to_multiset() == s.to_multiset(),
        forall|i: int, j: int|
            0 <= i <= j < s.len() ==> #[trigger] sorted_words(s)[i] <= #[trigger] sorted_words(s)[j],
        forall|x: u64| #[trigger] sorted_words(s).contains(x) <==> s.contains(x),
{
    broadcast use vstd::seq_lib::group_to_multiset_ensures;

    lemma_up();
    s.lemma_sort_by_ensures(up());
    let t = sorted_words(s);
    assert(t.len() == t.to_multiset().len());
    assert(s.len() == s.to_multiset().len());
    assert forall|i: int, j: int| 0 <= i <= j < s.len() implies #[trigger] t[i] <= #[trigger] t[j] by {
        if i < j {
            assert(up()(t[i], t[j]));
        }
    }
    assert forall|x: u64| #[trigger] t.contains(x) <==> s.contains(x) by {
        assert(t.to_multiset().count(x) == s.to_multiset().count(x));
    }
}

/// An ascending arrangement of the same numbers is what sorting gives.
pub proof fn lemma_is_sorted_words(s: Seq<u64>, t: Seq<u64>)
    requires
        sorted_by(t, up()),
        t.to_multiset() == s.to_multiset(),
    ensures
        t == sorted_words(s),
{
    lemma_up();
    s.lemma_sort_by_ensures(up());
    vstd::seq_lib::lemma_sorted_unique(t, sorted_words(s), up());
}

/// The numbers in ascending order.
pub fn sort_words(v: &Vec<u64>) -> (r: Vec<u64>)
    ensures
        r@ == sorted_words(v@),
{
    let r = sort_range(v, 0, v.len());
    proof {
        assert(v@.subrange(0, v@.len() as int) =~= v@);
        lemma_is_sorted_words(v@, r@);
    }
    r
}

fn sort_range(v: &Vec<u64>, lo: usize, hi: usize) -> (r: Vec<u64>)
    requires
        lo <= hi <= v@.len(),
    ensures
        r@.len() == hi - lo,
        sorted_by(r@, up()),
        r@.to_multiset() == v@.subrange(lo as int, hi as int).to_multiset(),
    decreases hi - lo,
{
    if hi - lo <= 1 {
        let mut one: Vec<u64> = Vec::new();
        if lo < hi {
            one.push(v[lo]);
        }
        assert(one@ =~= v@.subrange(lo as int, hi as int));
        return one;
    }
    let mid: usize = lo + (hi - lo) / 2;
    let a = sort_range(v, lo, mid);
    let b = sort_range(v, mid, hi);
    let r = merge_words(&a, &b);
    proof {
        let x = v@.subrange(lo as int, mid as int);
        let y = v@.subrange(mid as int, hi as int);
        assert(v@.subrange(lo as int, hi as int) =~= x + y);
        vstd::seq_lib::lemma_multiset_commutative(x, y);
    }
    r
}

fn merge_words(a: &Vec<u64>, b: &Vec<u64>) -> (r: Vec<u64>)
    requires
        sorted_by(a@, up()),
        sorted_by(b@, up()),
        a@.len() + b@.len() <= usize::MAX,
    ensures
        r@.len() == a@.len() + b@.len(),
        sorted_by(r@, up()),
        r@.to_multiset() == a@.to_multiset().add(b@.to_multiset()),
{
    let mut out: Vec<u64> = Vec::new();
    let mut i: usize = 0;
    let mut j: usize = 0;
    proof {
        broadcast use vstd::seq_lib::group_to_multiset_ensures;

        assert(a@.take(0) =~= Seq::<u64>::empty());
        assert(b@.take(0) =~= Seq::<u64>::empty());
        assert(out@ =~= Seq::<u64>::empty());
        assert(out@.to_multiset() =~= a@.take(0).to_multiset().add(b@.take(0).to_multiset()));
    }
    while i < a.len() || j < b.len()
        invariant
            sorted_by(a@, up()),
            sorted_by(b@, up()),
            a@.len() + b@.len() <= usize::MAX,
            i <= a@.len(),
            j <= b@.len(),
            out@.len() == i + j,
            sorted_by(out@, up()),
            forall|p: int, q: int|
                0 <= p < out@.len() && i <= q < a@.len() ==> #[trigger] out@[p] <= #[trigger] a@[q],
            forall|p: int, q: int|
                0 <= p < out@.len() && j <= q < b@.len() ==> #[trigger] out@[p] <= #[trigger] b@[q],
            out@.to_multiset() == a@.take(i as int).to_multiset().add(
                b@.take(j as int).to_multiset(),
            ),
        decreases a@.len() - i + b@.len() - j,
    {
        broadcast use vstd::seq_lib::group_to_multiset_ensures;

        let take_a: bool = if j == b.len() {
            true
        } else if i == a.len() {
            false
        } else {
            a[i] <= b[j]
        };
        let ghost before = out@;
        if take_a {
            proof {
                assert(a@.take(i + 1) =~= a@.take(i as int).push(a@[i as int]));
                assert forall|q: int| j <= q < b@.len() implies a@[i as int] <= #[trigger] b@[q] by {
                    if q > j {
                        assert(up()(b@[j as int], b@[q]));
                    }
                }
                assert forall|q: int| i < q < a@.len() implies a@[i as int] <= #[trigger] a@[q] by {
                    assert(up()(a@[i as int], a@[q]));
                }
            }
            out.push(a[i]);
            i += 1;
        } else {
            proof {
                assert(b@.take(j + 1) =~= b@.take(j as int).push(b@[j as int]));
                assert forall|q: int| i <= q < a@.len() implies b@[j as int] <= #[trigger] a@[q] by {
                    if q > i {
                        assert(up()(a@[i as int], a@[q]));
                    }
                }
                assert forall|q: int| j < q < b@.len() implies b@[j as int] <= #[trigger] b@[q] by {
                    assert(up()(b@[j as int], b@[q]));
                }
            }
            out.push(b[j]);
            j += 1;
        }
        proof {
            let last = before.len() as int;
            assert forall|p: int, q: int| 0 <= p < q < out@.len() implies #[trigger] up()(
                out@[p],
                out@[q],
            ) by {
                if q < last {
                    assert(up()(before[p], before[q]));
                }
            }
            assert(out@.to_multiset() =~= a@.take(i as int).to_multiset().add(
                b@.take(j as int).to_multiset(),
            ));
        }
    }
    proof {
        assert(a@.take(i as int) =~= a@);
        assert(b@.take(j as int) =~= b@);
    }
    out
}

/// A list from its end to its start.
pub fn reversed<T>(v: Vec<T>) -> (r: Vec<T>)
    ensures
        r@ == v@.reverse(),
{
    let ghost all = v@;
    let mut v = v;
    let mut out: Vec<T> = Vec::new();
    assert(v@ =~= all.take(all.len() as int));
    while v.len() > 0
        invariant
            v@.len() <= all.len(),
            v@ == all.take(v@.len() as int),
            out@ == all.skip(v@.len() as int).reverse(),
        decreases v@.len(),
    {
        let ghost n = v@.len();
        if let Some(x) = v.pop() {
            out.push(x);
            assert(v@ =~= all.take(n - 1));
            assert(out@ =~= all.skip(n - 1).reverse());
        }
    }
    assert(all.skip(0) =~= all);
    out
}

} // verus!
