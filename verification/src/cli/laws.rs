//! What the commands say of what they were given.

use vstd::prelude::*;

use crate::cli::bench::TraceTally;
use crate::cli::merge::{first_misfit, merge_fault, SnapshotInfo};
use crate::cli::replay::{last_end, window_places};
use crate::cli::synthetic::{Subject, SubjectView};
use crate::estimate::SketchEstimate;
use crate::event::FlowEvent;
use crate::prometheus::{all_numbers, lemma_ranked, ranked};
use crate::sketch::Sketch;

verus! {

/// The bytes of events together.
pub open spec fn byte_sum(es: Seq<FlowEvent>) -> nat {
    es.fold_left(0nat, |n: nat, e: FlowEvent| n + e.bytes as nat)
}

/// The tally of a trace counts its events and their bytes, and remembers the
/// times of the first and the last of them.
pub proof fn law_traces_are_tallied(es: Seq<FlowEvent>)
    requires
        es.len() <= u64::MAX,
        byte_sum(es) <= u64::MAX,
    ensures
        ({
            let t = TraceTally::of(es);
            &&& t.events == es.len()
            &&& t.total_l3_bytes == byte_sum(es)
            &&& es.len() == 0 ==> t.first_timestamp is None && t.last_timestamp is None
            &&& es.len() > 0 ==> t.first_timestamp == Some(es[0].ts_nanos) && t.last_timestamp
                == Some(es[es.len() - 1].ts_nanos)
        }),
    decreases es.len(),
{
    reveal_with_fuel(Seq::fold_left, 2);
    if es.len() > 0 {
        law_traces_are_tallied(es.drop_last());
    }
}

proof fn lemma_window_places(es: Seq<SketchEstimate>, query: Seq<char>, end: u64, n: nat)
    requires
        n <= es.len(),
    ensures
        ({
            let places = window_places(es, query, end, n);
            &&& forall|i: int| #[trigger]
                places.contains(i) <==> 0 <= i < n && es[i].query_name@ == query
                    && es[i].window_end_nanos == end
            &&& places.no_duplicates()
        }),
    decreases n,
{
    if n > 0 {
        let before = window_places(es, query, end, (n - 1) as nat);
        let all = window_places(es, query, end, n);
        lemma_window_places(es, query, end, (n - 1) as nat);
        if es[n - 1].query_name@ == query && es[n - 1].window_end_nanos == end {
            assert(all[all.len() - 1] == n - 1);
            assert forall|i: int| #[trigger] all.contains(i) <==> 0 <= i < n && es[i].query_name@
                == query && es[i].window_end_nanos == end by {
                if all.contains(i) {
                    let k = choose|k: int| 0 <= k < all.len() && all[k] == i;
                    if k < before.len() {
                        assert(before[k] == i);
                        assert(before.contains(i));
                    }
                }
                if before.contains(i) {
                    let k = choose|k: int| 0 <= k < before.len() && before[k] == i;
                    assert(all[k] == i);
                }
            }
            assert forall|a: int, b: int|
                0 <= a < all.len() && 0 <= b < all.len() && a != b implies all[a] != all[b] by {
                if a < before.len() {
                    assert(before.contains(before[a]));
                }
                if b < before.len() {
                    assert(before.contains(before[b]));
                }
            }
        }
    }
}

/// A replay shows of every query exactly the estimates of its last window, each
/// once, and no smaller one before a larger one. A query without estimates has
/// nothing to show.
pub proof fn law_replays_show_the_last_window(es: Seq<SketchEstimate>, query: Seq<char>)
    requires
        all_numbers(es),
    ensures
        last_end(es, query) is None <==> forall|i: int|
            0 <= i < es.len() ==> (#[trigger] es[i]).query_name@ != query,
        last_end(es, query) matches Some(end) ==> {
            let rows = ranked(es, window_places(es, query, end, es.len()));
            &&& exists|i: int|
                0 <= i < es.len() && (#[trigger] es[i]).query_name@ == query
                    && es[i].window_end_nanos == end
            &&& forall|i: int|
                0 <= i < es.len() && (#[trigger] es[i]).query_name@ == query
                    ==> es[i].window_end_nanos <= end
            &&& forall|i: int| #[trigger]
                rows.contains(i) <==> 0 <= i < es.len() && es[i].query_name@ == query
                    && es[i].window_end_nanos == end
            &&& forall|a: int, b: int|
                0 <= a < b < rows.len() ==> !es[#[trigger] rows[a]].estimate.below(
                    es[#[trigger] rows[b]].estimate,
                )
            &&& rows.len() == window_places(es, query, end, es.len()).len()
        },
{
    broadcast use vstd::seq_lib::group_to_multiset_ensures;

    lemma_last_end(es, query);
    if let Some(end) = last_end(es, query) {
        let places = window_places(es, query, end, es.len());
        let rows = ranked(es, places);
        lemma_window_places(es, query, end, es.len());
        assert forall|k: int| 0 <= k < places.len() implies 0 <= #[trigger] places[k] < es.len() by {
            assert(places.contains(places[k]));
        }
        lemma_ranked(es, places);
        assert forall|i: int| #[trigger] rows.contains(i) <==> places.contains(i) by {
            assert(rows.contains(i) <==> rows.to_multiset().count(i) > 0);
            assert(places.contains(i) <==> places.to_multiset().count(i) > 0);
        }
    }
}

proof fn lemma_last_end(es: Seq<SketchEstimate>, query: Seq<char>)
    ensures
        last_end(es, query) is None <==> forall|i: int|
            0 <= i < es.len() ==> (#[trigger] es[i]).query_name@ != query,
        last_end(es, query) matches Some(end) ==> {
            &&& exists|i: int|
                0 <= i < es.len() && (#[trigger] es[i]).query_name@ == query
                    && es[i].window_end_nanos == end
            &&& forall|i: int|
                0 <= i < es.len() && (#[trigger] es[i]).query_name@ == query
                    ==> es[i].window_end_nanos <= end
        },
    decreases es.len(),
{
    if es.len() > 0 {
        let front = es.drop_last();
        let last = es[es.len() - 1];
        lemma_last_end(front, query);
        assert(es.last() == last);
        assert forall|i: int| 0 <= i < front.len() implies #[trigger] es[i] == front[i] by {}
        if let Some(end) = last_end(front, query) {
            let i = choose|i: int|
                0 <= i < front.len() && (#[trigger] front[i]).query_name@ == query
                    && front[i].window_end_nanos == end;
            assert(es[i].query_name@ == query && es[i].window_end_nanos == end);
            assert forall|i: int|
                0 <= i < es.len() && (#[trigger] es[i]).query_name@
                    == query implies es[i].window_end_nanos <= last_end(es, query)->0 by {
                if i < front.len() {
                    assert(front[i].window_end_nanos <= end);
                }
            }
        } else {
            assert forall|i: int| 0 <= i < front.len() implies (#[trigger] es[i]).query_name@
                != query by {
                assert(front[i].query_name@ != query);
            }
        }
    }
}

/// Snapshots are merged exactly if there is one and any two of them are of the
/// same algorithm and cover the same time.
pub proof fn law_only_like_snapshots_merge(infos: Seq<SnapshotInfo>)
    ensures
        merge_fault(infos) is None <==> infos.len() > 0 && forall|i: int, j: int|
            0 <= i < infos.len() && 0 <= j < infos.len() ==> (#[trigger] infos[i]).algorithm == (
            #[trigger] infos[j]).algorithm && infos[i].window_start_nanos
                == infos[j].window_start_nanos && infos[i].window_end_nanos
                == infos[j].window_end_nanos,
{
    if infos.len() > 0 && forall|i: int, j: int|
        0 <= i < infos.len() && 0 <= j < infos.len() ==> (#[trigger] infos[i]).algorithm == (
        #[trigger] infos[j]).algorithm && infos[i].window_start_nanos
            == infos[j].window_start_nanos && infos[i].window_end_nanos
            == infos[j].window_end_nanos {
        assert forall|i: int| 0 <= i < infos.len() implies (#[trigger] infos[i]).algorithm
            == infos[0].algorithm && infos[i].window_start_nanos == infos[0].window_start_nanos
            && infos[i].window_end_nanos == infos[0].window_end_nanos by {
            assert(infos[i].algorithm == infos[0].algorithm);
        }
    }
}

/// The sketch that a merge is refused for is the first one that is not
/// described like the first of all; there is none exactly if all are.
pub proof fn law_the_first_misfit_is_named<S: Sketch>(first: S, rest: Seq<S>, from: nat)
    requires
        from <= rest.len(),
    ensures
        first_misfit(first, rest, from) is None <==> forall|i: int|
            from <= i < rest.len() ==> (#[trigger] rest[i]).compat() == first.compat(),
        first_misfit(first, rest, from) matches Some(k) ==> {
            &&& from <= k < rest.len()
            &&& rest[k as int].compat() != first.compat()
            &&& forall|i: int| from <= i < k ==> (#[trigger] rest[i]).compat() == first.compat()
        },
    decreases rest.len() - from,
{
    if from < rest.len() && rest[from as int].compat() == first.compat() {
        law_the_first_misfit_is_named(first, rest, from + 1);
    }
}

/// The stream that keys named by their place make: each counts once.
pub open spec fn ones(keys: Seq<Vec<u8>>, ids: Seq<u64>) -> Seq<(Seq<u8>, int)> {
    ids.map_values(|id: u64| (keys[id as int]@, 1int))
}

/// A benchmark feeds its sketch every key that was drawn, in their order, with
/// the weight of one.
pub proof fn law_benchmarks_feed_every_key(s: SubjectView, keys: Seq<Vec<u8>>, ids: Seq<u64>)
    requires
        !(s is Hll),
    ensures
        s matches SubjectView::CountMin(m) ==> s.fed(keys, ids) == SubjectView::CountMin(
            m.fed(ones(keys, ids)),
        ),
        s matches SubjectView::CountSketch(m) ==> s.fed(keys, ids) == SubjectView::CountSketch(
            m.fed(ones(keys, ids)),
        ),
        s matches SubjectView::SpaceSaving(m) ==> s.fed(keys, ids) == SubjectView::SpaceSaving(
            m.fed(ones(keys, ids)),
        ),
        s matches SubjectView::MisraGries(m) ==> s.fed(keys, ids) == SubjectView::MisraGries(
            m.fed(ones(keys, ids)),
        ),
    decreases ids.len(),
{
    let stream = ones(keys, ids);
    if ids.len() > 0 {
        law_benchmarks_feed_every_key(s, keys, ids.drop_last());
        assert(stream.drop_last() =~= ones(keys, ids.drop_last()));
        assert(stream.last() == (keys[ids.last() as int]@, 1int));
    }
}

/// The hits of a summary are the keys of the truth that it counts.
pub proof fn law_hits_are_counted_keys(s: &Subject, truth: Seq<(Vec<u8>, u64)>)
    ensures
        s.hits_among(truth, truth.len()) == truth.filter(
            |t: (Vec<u8>, u64)| s.counts_key(t.0@),
        ).len(),
    decreases truth.len(),
{
    reveal(Seq::filter);
    if truth.len() > 0 {
        law_hits_are_counted_keys(s, truth.drop_last());
        lemma_hits(s, truth, (truth.len() - 1) as nat);
    }
}

proof fn lemma_hits(s: &Subject, truth: Seq<(Vec<u8>, u64)>, n: nat)
    requires
        n < truth.len(),
    ensures
        s.hits_among(truth, n) == s.hits_among(truth.drop_last(), n),
    decreases n,
{
    if n > 0 {
        lemma_hits(s, truth, (n - 1) as nat);
    }
}

} // verus!
