//! The newest window of every query.

use vstd::prelude::*;
use vstd::string::*;

use crate::estimate::SketchEstimate;
use crate::names::{lemma_text_irreflexive, lemma_text_total, lemma_text_transitive, text_less};
use crate::sorting::reversed;
use crate::text::{same_text, text_before};

verus! {

/// Whether `e` is of the query named, in a window that ends before `end`.
pub open spec fn is_older(e: SketchEstimate, query: Seq<char>, end: u64) -> bool {
    e.query_name@ == query && e.window_end_nanos < end
}

/// The estimates without those of older windows of a query.
pub open spec fn without_older(es: Seq<SketchEstimate>, query: Seq<char>, end: u64) -> Seq<
    SketchEstimate,
>
    decreases es.len(),
{
    if es.len() == 0 {
        Seq::empty()
    } else {
        let before = without_older(es.drop_last(), query, end);
        if is_older(es.last(), query, end) {
            before
        } else {
            before.push(es.last())
        }
    }
}

/// Whether a newer window of the query is there.
pub open spec fn has_newer(es: Seq<SketchEstimate>, query: Seq<char>, end: u64) -> bool {
    exists|i: int|
        0 <= i < es.len() && (#[trigger] es[i]).query_name@ == query && es[i].window_end_nanos > end
}

/// An estimate placed behind those of its query and of all queries before it.
pub open spec fn placed(es: Seq<SketchEstimate>, e: SketchEstimate) -> Seq<SketchEstimate>
    decreases es.len(),
{
    if es.len() > 0 && text_before(e.query_name@, es.last().query_name@) {
        placed(es.drop_last(), e).push(es.last())
    } else {
        es.push(e)
    }
}

/// The newest windows after one more estimate: of an older window than the one
/// kept it is left out, of a newer one it takes the place of all others.
pub open spec fn with_estimate(es: Seq<SketchEstimate>, e: SketchEstimate) -> Seq<SketchEstimate> {
    if has_newer(es, e.query_name@, e.window_end_nanos) {
        es
    } else {
        placed(without_older(es, e.query_name@, e.window_end_nanos), e)
    }
}

/// The newest windows after more estimates.
pub open spec fn with_estimates(es: Seq<SketchEstimate>, more: Seq<SketchEstimate>) -> Seq<
    SketchEstimate,
>
    decreases more.len(),
{
    if more.len() == 0 {
        es
    } else {
        with_estimate(with_estimates(es, more.drop_last()), more.last())
    }
}

/// Queries in the order of their names, and one window of each.
pub open spec fn one_window_each(es: Seq<SketchEstimate>) -> bool {
    forall|i: int, j: int|
        0 <= i < j < es.len() ==> {
            let a = #[trigger] es[i];
            let b = #[trigger] es[j];
            ||| text_before(a.query_name@, b.query_name@)
            ||| a.query_name@ == b.query_name@ && a.window_end_nanos == b.window_end_nanos
        }
}

fn drop_older(es: &mut Vec<SketchEstimate>, query: &str, end: u64)
    ensures
        final(es)@ == without_older(old(es)@, query@, end),
{
    let ghost all = es@;
    let ghost mut k: int = 0;
    let mut i: usize = 0;
    assert(all.take(0) =~= Seq::<SketchEstimate>::empty());
    assert(all.skip(0) =~= all);
    while i < es.len()
        invariant
            0 <= i <= es@.len(),
            0 <= k <= all.len(),
            es@.len() - i == all.len() - k,
            es@.take(i as int) == without_older(all.take(k), query@, end),
            es@.skip(i as int) == all.skip(k),
        decreases es@.len() - i,
    {
        assert(all.take(k + 1).drop_last() =~= all.take(k));
        assert(es@[i as int] == es@.skip(i as int)[0]);
        assert(es@[i as int] == all[k]);
        let ghost before = es@;
        if es[i].window_end_nanos < end && same_text(es[i].query_name.as_str(), query) {
            es.remove(i);
            assert(es@.take(i as int) =~= before.take(i as int));
            assert(es@.skip(i as int) =~= all.skip(k).drop_first());
        } else {
            assert(es@.take(i + 1) =~= before.take(i as int).push(all[k]));
            assert(es@.skip(i + 1) =~= all.skip(k).drop_first());
            i += 1;
        }
        proof {
            assert(all.skip(k).drop_first() =~= all.skip(k + 1));
            k = k + 1;
        }
    }
    assert(all.take(k) =~= all);
    assert(es@.take(i as int) =~= es@);
}

fn newer_is_there(es: &Vec<SketchEstimate>, query: &str, end: u64) -> (r: bool)
    ensures
        r == has_newer(es@, query@, end),
{
    let mut i: usize = 0;
    while i < es.len()
        invariant
            i <= es@.len(),
            forall|k: int|
                0 <= k < i ==> (#[trigger] es@[k]).query_name@ != query@ || es@[k].window_end_nanos
                    <= end,
        decreases es@.len() - i,
    {
        if es[i].window_end_nanos > end && same_text(es[i].query_name.as_str(), query) {
            return true;
        }
        i += 1;
    }
    false
}

fn place(es: &mut Vec<SketchEstimate>, e: SketchEstimate)
    ensures
        final(es)@ == placed(old(es)@, e),
{
    let ghost all = es@;
    let mut at: usize = es.len();
    assert(all.take(at as int) =~= all);
    assert(placed(all, e) =~= placed(all.take(at as int), e) + all.skip(at as int));
    while at > 0 && text_less(e.query_name.as_str(), es[at - 1].query_name.as_str())
        invariant
            at <= es@.len(),
            es@ == all,
            placed(all, e) == placed(all.take(at as int), e) + all.skip(at as int),
        decreases at,
    {
        proof {
            let t = all.take(at as int);
            assert(t.last() == all[at - 1]);
            assert(t.drop_last() =~= all.take(at - 1));
            assert(placed(t, e) + all.skip(at as int) =~= placed(all.take(at - 1), e) + all.skip(
                at - 1,
            ));
        }
        at -= 1;
    }
    proof {
        let t = all.take(at as int);
        if at > 0 {
            assert(t.last() == all[at - 1]);
        }
        assert(placed(t, e) == t.push(e));
        assert(all.insert(at as int, e) =~= t.push(e) + all.skip(at as int));
    }
    es.insert(at, e);
}

/// Take more estimates into the newest windows.
pub fn keep_newest(es: &mut Vec<SketchEstimate>, more: Vec<SketchEstimate>)
    ensures
        final(es)@ == with_estimates(old(es)@, more@),
{
    let ghost start = es@;
    let ghost all = more@;
    let mut rest = reversed(more);
    let ghost mut k: int = 0;
    assert(all.take(0) =~= Seq::<SketchEstimate>::empty());
    assert(all.skip(0) =~= all);
    while rest.len() > 0
        invariant
            0 <= k <= all.len(),
            rest@ == all.skip(k).reverse(),
            es@ == with_estimates(start, all.take(k)),
        decreases rest@.len(),
    {
        assert(all.take(k + 1).drop_last() =~= all.take(k));
        assert(rest@.last() == all[k]);
        if let Some(e) = rest.pop() {
            if !newer_is_there(es, e.query_name.as_str(), e.window_end_nanos) {
                drop_older(es, e.query_name.as_str(), e.window_end_nanos);
                place(es, e);
            }
        }
        proof {
            assert(rest@ =~= all.skip(k + 1).reverse());
            k = k + 1;
        }
    }
    assert(all.take(k) =~= all);
}

// ---------------------------------------------------------------------------
// Laws
// ---------------------------------------------------------------------------

proof fn lemma_without_older(es: Seq<SketchEstimate>, query: Seq<char>, end: u64)
    requires
        one_window_each(es),
        !has_newer(es, query, end),
    ensures
        one_window_each(without_older(es, query, end)),
        forall|x: SketchEstimate| #[trigger]
            without_older(es, query, end).contains(x) <==> es.contains(x) && !is_older(
                x,
                query,
                end,
            ),
        forall|x: SketchEstimate| #[trigger]
            without_older(es, query, end).contains(x) && x.query_name@ == query
                ==> x.window_end_nanos == end,
    decreases es.len(),
{
    let r = without_older(es, query, end);
    if es.len() > 0 {
        let front = es.drop_last();
        let before = without_older(front, query, end);
        assert forall|i: int| 0 <= i < front.len() && (#[trigger] front[i]).query_name@
            == query implies front[i].window_end_nanos <= end by {
            assert(front[i] == es[i]);
        }
        lemma_without_older(front, query, end);
        assert forall|x: SketchEstimate| #[trigger] r.contains(x) <==> es.contains(x) && !is_older(
            x,
            query,
            end,
        ) by {
            if r.contains(x) {
                let i = choose|i: int| 0 <= i < r.len() && r[i] == x;
                if i < before.len() {
                    assert(before[i] == x);
                    assert(before.contains(x));
                    let k = choose|k: int| 0 <= k < front.len() && front[k] == x;
                    assert(es[k] == x);
                } else {
                    assert(es[es.len() - 1] == x);
                }
            }
            if es.contains(x) && !is_older(x, query, end) {
                let i = choose|i: int| 0 <= i < es.len() && es[i] == x;
                if i < front.len() {
                    assert(front[i] == x);
                    assert(front.contains(x));
                    assert(before.contains(x));
                    let k = choose|k: int| 0 <= k < before.len() && before[k] == x;
                    assert(r[k] == x);
                } else {
                    assert(r[r.len() - 1] == x);
                }
            }
        }
        assert forall|i: int, j: int| 0 <= i < j < r.len() implies {
            let a = #[trigger] r[i];
            let b = #[trigger] r[j];
            ||| text_before(a.query_name@, b.query_name@)
            ||| a.query_name@ == b.query_name@ && a.window_end_nanos == b.window_end_nanos
        } by {
            if j < before.len() {
                assert(r[i] == before[i] && r[j] == before[j]);
            } else {
                assert(before.contains(before[i]));
                assert(front.contains(before[i]));
                let k = choose|k: int| 0 <= k < front.len() && front[k] == before[i];
                assert(es[k] == r[i] && es[es.len() - 1] == r[j]);
            }
        }
        assert forall|x: SketchEstimate| #[trigger] r.contains(x) && x.query_name@
            == query implies x.window_end_nanos == end by {
            let i = choose|i: int| 0 <= i < es.len() && es[i] == x;
            assert(es[i].window_end_nanos <= end);
        }
    }
}

proof fn lemma_placed(es: Seq<SketchEstimate>, e: SketchEstimate)
    requires
        one_window_each(es),
        forall|i: int|
            0 <= i < es.len() && (#[trigger] es[i]).query_name@ == e.query_name@
                ==> es[i].window_end_nanos == e.window_end_nanos,
    ensures
        one_window_each(placed(es, e)),
        forall|x: SketchEstimate| #[trigger]
            placed(es, e).contains(x) <==> es.contains(x) || x == e,
    decreases es.len(),
{
    let r = placed(es, e);
    let q = e.query_name@;
    if es.len() > 0 && text_before(q, es.last().query_name@) {
        let front = es.drop_last();
        let before = placed(front, e);
        assert forall|i: int|
            0 <= i < front.len() && (#[trigger] front[i]).query_name@
                == q implies front[i].window_end_nanos == e.window_end_nanos by {
            assert(front[i] == es[i]);
        }
        lemma_placed(front, e);
        assert forall|x: SketchEstimate| #[trigger] r.contains(x) <==> es.contains(x) || x == e by {
            if r.contains(x) {
                let i = choose|i: int| 0 <= i < r.len() && r[i] == x;
                if i < before.len() {
                    assert(before[i] == x);
                    assert(before.contains(x));
                    if front.contains(x) {
                        let k = choose|k: int| 0 <= k < front.len() && front[k] == x;
                        assert(es[k] == x);
                    }
                } else {
                    assert(es[es.len() - 1] == x);
                }
            }
            if es.contains(x) || x == e {
                if x == es.last() {
                    assert(r[r.len() - 1] == x);
                } else {
                    if es.contains(x) {
                        let i = choose|i: int| 0 <= i < es.len() && es[i] == x;
                        assert(front[i] == x);
                        assert(front.contains(x));
                    }
                    assert(before.contains(x));
                    let k = choose|k: int| 0 <= k < before.len() && before[k] == x;
                    assert(r[k] == x);
                }
            }
        }
        assert forall|i: int, j: int| 0 <= i < j < r.len() implies {
            let a = #[trigger] r[i];
            let b = #[trigger] r[j];
            ||| text_before(a.query_name@, b.query_name@)
            ||| a.query_name@ == b.query_name@ && a.window_end_nanos == b.window_end_nanos
        } by {
            if j < before.len() {
                assert(r[i] == before[i] && r[j] == before[j]);
            } else {
                assert(before.contains(before[i]));
                if before[i] != e {
                    assert(front.contains(before[i]));
                    let k = choose|k: int| 0 <= k < front.len() && front[k] == before[i];
                    assert(es[k] == r[i] && es[es.len() - 1] == r[j]);
                }
            }
        }
    } else {
        assert forall|x: SketchEstimate| #[trigger] r.contains(x) <==> es.contains(x) || x == e by {
            if r.contains(x) {
                let i = choose|i: int| 0 <= i < r.len() && r[i] == x;
                if i < es.len() {
                    assert(es[i] == x);
                }
            }
            if es.contains(x) {
                let i = choose|i: int| 0 <= i < es.len() && es[i] == x;
                assert(r[i] == x);
            }
            assert(r[es.len() as int] == e);
        }
        assert forall|i: int, j: int| 0 <= i < j < r.len() implies {
            let a = #[trigger] r[i];
            let b = #[trigger] r[j];
            ||| text_before(a.query_name@, b.query_name@)
            ||| a.query_name@ == b.query_name@ && a.window_end_nanos == b.window_end_nanos
        } by {
            if j < es.len() {
                assert(r[i] == es[i] && r[j] == es[j]);
            } else {
                let last = es[es.len() - 1];
                lemma_text_total(last.query_name@, q);
                if i < es.len() - 1 {
                    assert(es[i].query_name@ == last.query_name@ || text_before(
                        es[i].query_name@,
                        last.query_name@,
                    ));
                    if text_before(es[i].query_name@, last.query_name@) && text_before(
                        last.query_name@,
                        q,
                    ) {
                        lemma_text_transitive(es[i].query_name@, last.query_name@, q);
                    }
                }
            }
        }
    }
}

/// Of every query exactly one window is kept, whatever is published.
pub proof fn law_one_window_is_kept(es: Seq<SketchEstimate>, e: SketchEstimate)
    requires
        one_window_each(es),
    ensures
        one_window_each(with_estimate(es, e)),
{
    let q = e.query_name@;
    let end = e.window_end_nanos;
    if !has_newer(es, q, end) {
        lemma_without_older(es, q, end);
        let kept = without_older(es, q, end);
        assert forall|i: int|
            0 <= i < kept.len() && (#[trigger] kept[i]).query_name@
                == q implies kept[i].window_end_nanos == end by {
            assert(kept.contains(kept[i]));
        }
        lemma_placed(kept, e);
    }
}

/// The window of a query never goes back, and other queries are left alone.
pub proof fn law_published_windows_never_go_back(
    es: Seq<SketchEstimate>,
    e: SketchEstimate,
    x: SketchEstimate,
)
    requires
        one_window_each(es),
        with_estimate(es, e).contains(x),
    ensures
        x == e || es.contains(x),
        forall|y: SketchEstimate| #[trigger]
            es.contains(y) && y.query_name@ == x.query_name@ ==> y.window_end_nanos
                <= x.window_end_nanos,
{
    let q = e.query_name@;
    let end = e.window_end_nanos;
    if !has_newer(es, q, end) {
        lemma_without_older(es, q, end);
        let kept = without_older(es, q, end);
        assert forall|i: int|
            0 <= i < kept.len() && (#[trigger] kept[i]).query_name@
                == q implies kept[i].window_end_nanos == end by {
            assert(kept.contains(kept[i]));
        }
        lemma_placed(kept, e);
    }
    assert forall|y: SketchEstimate| #[trigger] es.contains(y) && y.query_name@
        == x.query_name@ implies y.window_end_nanos <= x.window_end_nanos by {
        let i = choose|i: int| 0 <= i < es.len() && es[i] == y;
        if es.contains(x) {
            let j = choose|j: int| 0 <= j < es.len() && es[j] == x;
            lemma_text_irreflexive(x.query_name@);
            assert(es[i].window_end_nanos == es[j].window_end_nanos);
        }
    }
}

} // verus!
