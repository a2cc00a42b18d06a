//! What the exported metrics hold: every estimate as one point of the gauge of
//! its unit, with its own window, value and attributes.

use vstd::prelude::*;
use vstd::string::*;

use crate::estimate::SketchEstimate;
use crate::names::law_sorted_names;
use crate::net::retry::{wait_before, Step};
use crate::otel::client::{is_next, OtlpClientError};
use crate::otel::encode::{
    attribute_name, attributes_of, meta_of, metric_of, metrics_of, point_of, points_of, unit_of,
    units_of, BoundTexts, PointView, QueryMeta,
};
use crate::text::dec;

verus! {

/// A point has the bounds of its window as its times and its estimate as its
/// value. It names its query and its algorithm; the window and kind of error of
/// its query where they are known; every member of its group; and the bounds of
/// its value where it has both.
pub proof fn law_points_tell_their_estimate(
    e: SketchEstimate,
    bounds: BoundTexts,
    queries: Seq<(String, QueryMeta)>,
)
    ensures
        ({
            let p = point_of(e, bounds, queries);
            let a = p.attributes;
            let known = meta_of(queries, e.query_name@);
            let bounded = e.lower_bound is Some && e.upper_bound is Some;
            &&& p.time == dec(e.window_end_nanos as nat)
            &&& p.start == dec(e.window_start_nanos as nat)
            &&& p.value == e.estimate
            &&& a.contains(("flowsketch.query.name"@, e.query_name@))
            &&& a.contains(("flowsketch.algorithm"@, e.algorithm@))
            &&& known is Some ==> a.contains(("flowsketch.window"@, known->0.window@))
            &&& known is Some ==> a.contains(("flowsketch.error.kind"@, known->0.error_kind@))
            &&& forall|i: int|
                0 <= i < e.group@.len() ==> a.contains(
                    (attribute_name((#[trigger] e.group@[i]).0@), e.group@[i].1@),
                )
            &&& bounded ==> a.contains(("flowsketch.bound.lower"@, bounds.lower@))
            &&& bounded ==> a.contains(("flowsketch.bound.upper"@, bounds.upper@))
            &&& a.len() == 2 + e.group@.len() + (if known is Some {
                2int
            } else {
                0
            }) + (if bounded {
                2int
            } else {
                0
            })
        }),
{
    let a = attributes_of(e, bounds, queries);
    let known = meta_of(queries, e.query_name@);
    let bounded = e.lower_bound is Some && e.upper_bound is Some;
    let head: int = if known is Some {
        4
    } else {
        2
    };
    assert(a[0] == ("flowsketch.query.name"@, e.query_name@));
    assert(a[1] == ("flowsketch.algorithm"@, e.algorithm@));
    if known is Some {
        assert(a[2] == ("flowsketch.window"@, known->0.window@));
        assert(a[3] == ("flowsketch.error.kind"@, known->0.error_kind@));
    }
    assert forall|i: int| 0 <= i < e.group@.len() implies a.contains(
        (attribute_name((#[trigger] e.group@[i]).0@), e.group@[i].1@),
    ) by {
        assert(a[head + i] == (attribute_name(e.group@[i].0@), e.group@[i].1@));
    }
    if bounded {
        assert(a[a.len() - 2] == ("flowsketch.bound.lower"@, bounds.lower@));
        assert(a[a.len() - 1] == ("flowsketch.bound.upper"@, bounds.upper@));
    }
}

/// Addresses, ports and the protocol have the names that telemetry has for
/// them; any other field is a member of the group, with underscores for dots.
pub proof fn law_fields_have_common_names(field: Seq<char>)
    ensures
        attribute_name("src.ip"@) == "source.address"@,
        attribute_name("dst.ip"@) == "destination.address"@,
        attribute_name("src.port"@) == "source.port"@,
        attribute_name("dst.port"@) == "destination.port"@,
        attribute_name("protocol"@) == "network.protocol.name"@,
        ({
            let common = field == "src.ip"@ || field == "dst.ip"@ || field == "src.port"@ || field
                == "dst.port"@ || field == "protocol"@;
            let name = attribute_name(field);
            !common ==> name.len() == 17 + field.len() && name.take(17) == "flowsketch.group."@
                && forall|i: int|
                0 <= i < field.len() ==> name[17 + i] == if #[trigger] field[i] == '.' {
                    '_'
                } else {
                    field[i]
                }
        }),
{
    reveal_strlit("src.ip");
    reveal_strlit("dst.ip");
    reveal_strlit("src.port");
    reveal_strlit("dst.port");
    reveal_strlit("protocol");
    reveal_strlit("flowsketch.group.");
    assert("src.ip"@[0] == 's' && "dst.ip"@[0] == 'd' && "src.port"@[0] == 's' && "dst.port"@[0]
        == 'd' && "protocol"@[0] == 'p');
    assert("src.ip"@.len() == 6 && "dst.ip"@.len() == 6 && "src.port"@.len() == 8
        && "dst.port"@.len() == 8 && "protocol"@.len() == 8);
    assert("flowsketch.group."@.len() == 17);
    assert(attribute_name(field).take(17) =~= "flowsketch.group."@ || field == "src.ip"@ || field
        == "dst.ip"@ || field == "src.port"@ || field == "dst.port"@ || field == "protocol"@);
}

/// A query is described by its own description, the first of them if there
/// are several.
pub proof fn law_descriptions_are_those_of_the_query(
    queries: Seq<(String, QueryMeta)>,
    name: Seq<char>,
)
    ensures
        meta_of(queries, name) is None <==> forall|i: int|
            0 <= i < queries.len() ==> (#[trigger] queries[i]).0@ != name,
        meta_of(queries, name) is Some ==> exists|i: int|
            {
                &&& 0 <= i < queries.len()
                &&& (#[trigger] queries[i]).0@ == name
                &&& meta_of(queries, name) == Some(queries[i].1)
                &&& forall|j: int| 0 <= j < i ==> (#[trigger] queries[j]).0@ != name
            },
    decreases queries.len(),
{
    if queries.len() > 0 {
        let rest = queries.drop_first();
        if queries[0].0@ == name {
            assert(meta_of(queries, name) == Some(queries[0].1));
        } else {
            law_descriptions_are_those_of_the_query(rest, name);
            if meta_of(rest, name) is Some {
                let i = choose|i: int|
                    {
                        &&& 0 <= i < rest.len()
                        &&& (#[trigger] rest[i]).0@ == name
                        &&& meta_of(rest, name) == Some(rest[i].1)
                        &&& forall|j: int| 0 <= j < i ==> (#[trigger] rest[j]).0@ != name
                    };
                assert(queries[i + 1] == rest[i]);
                assert forall|j: int| 0 <= j < i + 1 implies (#[trigger] queries[j]).0@ != name by {
                    if j > 0 {
                        assert(rest[j - 1] == queries[j]);
                    }
                }
            } else {
                assert forall|i: int| 0 <= i < queries.len() implies (#[trigger] queries[i]).0@
                    != name by {
                    if i > 0 {
                        assert(rest[i - 1] == queries[i]);
                    }
                }
            }
        }
    }
}

/// The estimates that count a unit.
pub open spec fn counts_in(
    unit: Seq<char>,
    queries: Seq<(String, QueryMeta)>,
) -> spec_fn(SketchEstimate) -> bool {
    |e: SketchEstimate| unit_of(e, queries) == unit
}

/// `p` is the point of an estimate that counts a unit.
pub open spec fn is_point_of(
    p: PointView,
    es: Seq<SketchEstimate>,
    bounds: Seq<BoundTexts>,
    queries: Seq<(String, QueryMeta)>,
    unit: Seq<char>,
) -> bool {
    exists|i: int|
        0 <= i < es.len() && unit_of(#[trigger] es[i], queries) == unit && p == point_of(
            es[i],
            bounds[i],
            queries,
        )
}

/// A gauge has one point for each estimate of its unit and no others, every
/// unit of an estimate has one gauge, and a gauge is named after its unit.
pub proof fn law_gauges_hold_their_estimates(
    es: Seq<SketchEstimate>,
    bounds: Seq<BoundTexts>,
    queries: Seq<(String, QueryMeta)>,
    unit: Seq<char>,
)
    requires
        es.len() == bounds.len(),
    ensures
        points_of(es, bounds, queries, unit).len() == es.filter(counts_in(unit, queries)).len(),
        forall|k: int|
            0 <= k < points_of(es, bounds, queries, unit).len() ==> is_point_of(
                #[trigger] points_of(es, bounds, queries, unit)[k],
                es,
                bounds,
                queries,
                unit,
            ),
        metric_of(es, bounds, queries, unit).name == "network.flowsketch."@ + unit + ".estimated"@,
        metric_of(es, bounds, queries, unit).points == points_of(es, bounds, queries, unit),
        units_of(es, queries).contains(unit) <==> exists|i: int|
            0 <= i < es.len() && unit_of(#[trigger] es[i], queries) == unit,
        metrics_of(es, bounds, queries, units_of(es, queries)).len() == units_of(es, queries).len(),
        forall|g: int|
            0 <= g < units_of(es, queries).len() ==> #[trigger] metrics_of(
                es,
                bounds,
                queries,
                units_of(es, queries),
            )[g] == metric_of(es, bounds, queries, units_of(es, queries)[g]),
{
    lemma_points(es, bounds, queries, unit);
    let all = es.map_values(|e: SketchEstimate| unit_of(e, queries));
    law_sorted_names(all);
    if all.contains(unit) {
        let i = choose|i: int| 0 <= i < all.len() && all[i] == unit;
        assert(unit_of(es[i], queries) == unit);
    }
    if exists|i: int| 0 <= i < es.len() && unit_of(#[trigger] es[i], queries) == unit {
        let i = choose|i: int| 0 <= i < es.len() && unit_of(#[trigger] es[i], queries) == unit;
        assert(all[i] == unit);
    }
}

proof fn lemma_points(
    es: Seq<SketchEstimate>,
    bounds: Seq<BoundTexts>,
    queries: Seq<(String, QueryMeta)>,
    unit: Seq<char>,
)
    ensures
        points_of(es, bounds, queries, unit).len() == es.filter(counts_in(unit, queries)).len(),
        forall|k: int|
            0 <= k < points_of(es, bounds, queries, unit).len() ==> is_point_of(
                #[trigger] points_of(es, bounds, queries, unit)[k],
                es,
                bounds,
                queries,
                unit,
            ),
    decreases es.len(),
{
    reveal(Seq::filter);
    if es.len() > 0 {
        let front = es.drop_last();
        lemma_points(front, bounds, queries, unit);
        let all = points_of(es, bounds, queries, unit);
        let before = points_of(front, bounds, queries, unit);
        assert forall|k: int| 0 <= k < all.len() implies is_point_of(
            #[trigger] all[k],
            es,
            bounds,
            queries,
            unit,
        ) by {
            if k < before.len() {
                assert(all[k] == before[k]);
                assert(is_point_of(before[k], front, bounds, queries, unit));
                let i = choose|i: int|
                    0 <= i < front.len() && unit_of(#[trigger] front[i], queries) == unit
                        && before[k] == point_of(front[i], bounds[i], queries);
                assert(es[i] == front[i]);
            } else {
                let i = es.len() - 1;
                assert(unit_of(es[i], queries) == unit);
                assert(all[k] == point_of(es[i], bounds[i], queries));
            }
        }
    }
}

/// An export is done after success and given up after a refusal or a bad
/// address. After any other failure it is tried again, after 200 and then 800
/// milliseconds, and given up with the third attempt.
pub proof fn law_exports_are_tried_three_times(
    attempt: u32,
    outcome: Result<u16, OtlpClientError>,
    step: Step<OtlpClientError>,
)
    requires
        attempt < 3,
        is_next(attempt, outcome, step),
    ensures
        ({
            let done = outcome matches Ok(s) && 200 <= s < 300;
            let refused = outcome matches Ok(s) && 400 <= s < 500;
            let nowhere = outcome matches Err(e) && e is BadEndpoint;
            let lost = !done && !refused && !nowhere;
            &&& done <==> (step matches Step::Finished(Ok(_)))
            &&& step is Again <==> lost && attempt < 2
            &&& step matches Step::Again(ms) ==> ms == (if attempt == 0 {
                200int
            } else {
                800
            })
            &&& (step matches Step::Finished(Err(OtlpClientError::RetriesExhausted { attempts, .. }))
                && attempts == 3) <== lost && attempt == 2
            &&& outcome matches Ok(s) ==> (refused ==> (step matches Step::Finished(
                Err(OtlpClientError::Status(t)),
            ) && t == s))
        }),
{
    reveal_with_fuel(wait_before, 3);
}

} // verus!
