//! What a replay shows of each query.

use vstd::prelude::*;
use vstd::string::*;

use crate::estimate::SketchEstimate;
use crate::prometheus::{as_ints, insert_place, ranked};
use crate::text::same_text;

verus! {

/// Most rows of a table.
pub const MAX_ROWS: usize = 50;

/// The end of the last window of a query.
pub open spec fn last_end(es: Seq<SketchEstimate>, query: Seq<char>) -> Option<u64>
    decreases es.len(),
{
    if es.len() == 0 {
        None
    } else {
        let before = last_end(es.drop_last(), query);
        if es.last().query_name@ != query {
            before
        } else if before is Some && before->0 > es.last().window_end_nanos {
            before
        } else {
            Some(es.last().window_end_nanos)
        }
    }
}

/// Places of the first `n` estimates that belong to a window of a query.
pub open spec fn window_places(es: Seq<SketchEstimate>, query: Seq<char>, end: u64, n: nat) -> Seq<
    int,
>
    decreases n,
{
    if n == 0 {
        Seq::empty()
    } else {
        let before = window_places(es, query, end, (n - 1) as nat);
        if es[n - 1].query_name@ == query && es[n - 1].window_end_nanos == end {
            before.push(n - 1)
        } else {
            before
        }
    }
}

/// The estimates of the last window of a query, largest first, as places; none
/// if the query has no results.
pub fn final_rows(es: &[SketchEstimate], query: &str) -> (r: Option<Vec<usize>>)
    ensures
        match last_end(es@, query@) {
            None => r is None,
            Some(end) => r is Some && as_ints(r->0@) == ranked(
                es@,
                window_places(es@, query@, end, es@.len()),
            ),
        },
{
    let mut end: Option<u64> = None;
    let mut i: usize = 0;
    assert(es@.take(0) =~= Seq::<SketchEstimate>::empty());
    while i < es.len()
        invariant
            i <= es@.len(),
            end == last_end(es@.take(i as int), query@),
        decreases es@.len() - i,
    {
        assert(es@.take(i + 1).drop_last() =~= es@.take(i as int));
        if same_text(es[i].query_name.as_str(), query) {
            end = match end {
                Some(e) => Some(
                    if e > es[i].window_end_nanos {
                        e
                    } else {
                        es[i].window_end_nanos
                    },
                ),
                None => Some(es[i].window_end_nanos),
            };
        }
        i += 1;
    }
    assert(es@.take(i as int) =~= es@);
    let end: u64 = match end {
        Some(e) => e,
        None => {
            return None;
        },
    };
    let mut rows: Vec<usize> = Vec::new();
    let mut n: usize = 0;
    assert(as_ints(rows@) =~= Seq::<int>::empty());
    while n < es.len()
        invariant
            n <= es@.len(),
            as_ints(rows@) == ranked(es@, window_places(es@, query@, end, n as nat)),
            forall|k: int| 0 <= k < rows@.len() ==> rows@[k] < n,
        decreases es@.len() - n,
    {
        if es[n].window_end_nanos == end && same_text(es[n].query_name.as_str(), query) {
            let ghost places = window_places(es@, query@, end, n as nat);
            insert_place(es, &mut rows, n);
            assert(places.push(n as int).drop_last() =~= places);
        }
        n += 1;
    }
    Some(rows)
}

/// How many rows a table shows, and how many it leaves out.
pub fn shown_rows(rows: usize) -> (r: (usize, usize))
    ensures
        r.0 + r.1 == rows,
        r.0 == (if rows < MAX_ROWS {
            rows
        } else {
            MAX_ROWS
        }),
{
    if rows < MAX_ROWS {
        (rows, 0)
    } else {
        (MAX_ROWS, rows - MAX_ROWS)
    }
}

/// Only the last window of a query is shown.
pub proof fn law_last_window_is_the_latest(es: Seq<SketchEstimate>, query: Seq<char>, i: int)
    requires
        0 <= i < es.len(),
        es[i].query_name@ == query,
    ensures
        last_end(es, query) is Some,
        es[i].window_end_nanos <= last_end(es, query)->0,
    decreases es.len(),
{
    if i < es.len() - 1 {
        law_last_window_is_the_latest(es.drop_last(), query, i);
    }
}

} // verus!
