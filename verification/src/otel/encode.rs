//! Estimates as an OTLP metrics document.
//!
//! Metrics are gauges named after the unit that they count. The resource says
//! which service and host measured; the attributes of a point say which query
//! and algorithm, and name its group by the conventions of OpenTelemetry where
//! there is one.

use vstd::prelude::*;
use vstd::string::*;

use crate::estimate::SketchEstimate;
use crate::field::undotted;
use crate::float_bits::Float64;
use crate::names::{add_name, law_sorted_names, sorted_names};
use crate::text::{chars_of, dec, decimal, same_text, texts};

verus! {

/// What is known of a query beyond its estimates.
#[derive(Debug, Clone)]
pub struct QueryMeta {
    /// What the query counts: the metric that it feeds.
    pub unit: String,
    pub window: String,
    pub error_kind: String,
}

/// How estimates are encoded.
#[derive(Debug, Clone)]
pub struct EncodeOptions {
    /// The service that exports.
    pub service_name: String,
    /// The host that it runs on.
    pub host_name: String,
    /// What is known of queries, by name. The unit of any other query is
    /// `value`.
    pub queries: Vec<(String, QueryMeta)>,
}

/// The bounds of an estimate as text; shown where both are known.
#[derive(Debug, Clone)]
pub struct BoundTexts {
    pub lower: String,
    pub upper: String,
}

/// An attribute.
#[derive(Debug, Clone)]
pub struct KeyValue {
    pub key: String,
    pub value: String,
}

impl View for KeyValue {
    type V = (Seq<char>, Seq<char>);

    open spec fn view(&self) -> (Seq<char>, Seq<char>) {
        (self.key@, self.value@)
    }
}

/// One value of a gauge.
#[derive(Debug, Clone)]
pub struct DataPoint {
    /// End of the window, in decimal.
    pub time_unix_nano: String,
    /// Start of the window, in decimal.
    pub start_time_unix_nano: String,
    pub as_double: Float64,
    pub attributes: Vec<KeyValue>,
}

/// The content of a [`DataPoint`].
pub ghost struct PointView {
    pub time: Seq<char>,
    pub start: Seq<char>,
    pub value: Float64,
    pub attributes: Seq<(Seq<char>, Seq<char>)>,
}

pub open spec fn pairs(v: Seq<KeyValue>) -> Seq<(Seq<char>, Seq<char>)> {
    v.map_values(|p: KeyValue| p@)
}

impl View for DataPoint {
    type V = PointView;

    open spec fn view(&self) -> PointView {
        PointView {
            time: self.time_unix_nano@,
            start: self.start_time_unix_nano@,
            value: self.as_double,
            attributes: pairs(self.attributes@),
        }
    }
}

/// A gauge.
#[derive(Debug, Clone)]
pub struct Metric {
    pub name: String,
    pub description: String,
    pub data_points: Vec<DataPoint>,
}

/// The content of a [`Metric`].
pub ghost struct MetricView {
    pub name: Seq<char>,
    pub description: Seq<char>,
    pub points: Seq<PointView>,
}

pub open spec fn point_views(v: Seq<DataPoint>) -> Seq<PointView> {
    v.map_values(|p: DataPoint| p@)
}

impl View for Metric {
    type V = MetricView;

    open spec fn view(&self) -> MetricView {
        MetricView {
            name: self.name@,
            description: self.description@,
            points: point_views(self.data_points@),
        }
    }
}

pub open spec fn metric_views(v: Seq<Metric>) -> Seq<MetricView> {
    v.map_values(|m: Metric| m@)
}

/// Everything that is exported at once.
#[derive(Debug, Clone)]
pub struct MetricsDocument {
    /// Attributes of the resource.
    pub resource: Vec<KeyValue>,
    pub metrics: Vec<Metric>,
}

// ---------------------------------------------------------------------------
// Attributes
// ---------------------------------------------------------------------------

/// The attribute that a field of a group is shown as.
pub open spec fn attribute_name(field: Seq<char>) -> Seq<char> {
    if field == "src.ip"@ {
        "source.address"@
    } else if field == "dst.ip"@ {
        "destination.address"@
    } else if field == "src.port"@ {
        "source.port"@
    } else if field == "dst.port"@ {
        "destination.port"@
    } else if field == "protocol"@ {
        "network.protocol.name"@
    } else {
        "flowsketch.group."@ + undotted(field)
    }
}

/// The attribute that a field of a group is shown as.
pub fn otel_attribute_name(field: &str) -> (r: String)
    ensures
        r@ == attribute_name(field@),
{
    if same_text(field, "src.ip") {
        "source.address".to_owned()
    } else if same_text(field, "dst.ip") {
        "destination.address".to_owned()
    } else if same_text(field, "src.port") {
        "source.port".to_owned()
    } else if same_text(field, "dst.port") {
        "destination.port".to_owned()
    } else if same_text(field, "protocol") {
        "network.protocol.name".to_owned()
    } else {
        let mut out = "flowsketch.group.".to_owned();
        let chars = chars_of(field);
        let ghost t = undotted(field@);
        let mut i: usize = 0;
        assert("flowsketch.group."@ + t.take(0) =~= "flowsketch.group."@);
        while i < chars.len()
            invariant
                i <= chars@.len(),
                chars@ == field@,
                t == undotted(field@),
                out@ == "flowsketch.group."@ + t.take(i as int),
            decreases chars@.len() - i,
        {
            let c: char = if chars[i] == '.' {
                '_'
            } else {
                chars[i]
            };
            out.push(c);
            assert(out@ =~= "flowsketch.group."@ + t.take(i + 1));
            i += 1;
        }
        assert(t.take(i as int) =~= t);
        out
    }
}

/// What is known of the query `name`.
pub open spec fn meta_of(queries: Seq<(String, QueryMeta)>, name: Seq<char>) -> Option<QueryMeta>
    decreases queries.len(),
{
    if queries.len() == 0 {
        None
    } else if queries[0].0@ == name {
        Some(queries[0].1)
    } else {
        meta_of(queries.drop_first(), name)
    }
}

fn find_meta(queries: &Vec<(String, QueryMeta)>, name: &str) -> (r: Option<usize>)
    ensures
        match r {
            Some(i) => i < queries@.len() && meta_of(queries@, name@) == Some(queries@[i as int].1),
            None => meta_of(queries@, name@) is None,
        },
{
    let mut i: usize = 0;
    assert(queries@.skip(0) =~= queries@);
    while i < queries.len()
        invariant
            i <= queries@.len(),
            meta_of(queries@.skip(i as int), name@) == meta_of(queries@, name@),
        decreases queries@.len() - i,
    {
        if same_text(queries[i].0.as_str(), name) {
            return Some(i);
        }
        assert(queries@.skip(i as int).drop_first() =~= queries@.skip(i + 1));
        i += 1;
    }
    None
}

/// What the query of an estimate counts.
pub open spec fn unit_of(e: SketchEstimate, queries: Seq<(String, QueryMeta)>) -> Seq<char> {
    match meta_of(queries, e.query_name@) {
        Some(m) => m.unit@,
        None => "value"@,
    }
}

/// The attributes of a group.
pub open spec fn group_attributes(group: Seq<(String, String)>) -> Seq<(Seq<char>, Seq<char>)> {
    group.map_values(|p: (String, String)| (attribute_name(p.0@), p.1@))
}

/// The attributes of an estimate.
pub open spec fn attributes_of(
    e: SketchEstimate,
    bounds: BoundTexts,
    queries: Seq<(String, QueryMeta)>,
) -> Seq<(Seq<char>, Seq<char>)> {
    let head = seq![
        ("flowsketch.query.name"@, e.query_name@),
        ("flowsketch.algorithm"@, e.algorithm@),
    ];
    let known = match meta_of(queries, e.query_name@) {
        Some(m) => head.push(("flowsketch.window"@, m.window@)).push(
            ("flowsketch.error.kind"@, m.error_kind@),
        ),
        None => head,
    };
    let grouped = known + group_attributes(e.group@);
    if e.lower_bound is Some && e.upper_bound is Some {
        grouped.push(("flowsketch.bound.lower"@, bounds.lower@)).push(
            ("flowsketch.bound.upper"@, bounds.upper@),
        )
    } else {
        grouped
    }
}

/// The point of an estimate.
pub open spec fn point_of(
    e: SketchEstimate,
    bounds: BoundTexts,
    queries: Seq<(String, QueryMeta)>,
) -> PointView {
    PointView {
        time: dec(e.window_end_nanos as nat),
        start: dec(e.window_start_nanos as nat),
        value: e.estimate,
        attributes: attributes_of(e, bounds, queries),
    }
}

/// The points of the estimates that count a unit, in their order.
pub open spec fn points_of(
    es: Seq<SketchEstimate>,
    bounds: Seq<BoundTexts>,
    queries: Seq<(String, QueryMeta)>,
    unit: Seq<char>,
) -> Seq<PointView>
    decreases es.len(),
{
    if es.len() == 0 {
        Seq::empty()
    } else {
        let before = points_of(es.drop_last(), bounds, queries, unit);
        if unit_of(es.last(), queries) == unit {
            before.push(point_of(es.last(), bounds[es.len() - 1], queries))
        } else {
            before
        }
    }
}

/// The units of all estimates, in order.
pub open spec fn units_of(es: Seq<SketchEstimate>, queries: Seq<(String, QueryMeta)>) -> Seq<
    Seq<char>,
> {
    sorted_names(es.map_values(|e: SketchEstimate| unit_of(e, queries)))
}

/// The gauge of a unit.
pub open spec fn metric_of(
    es: Seq<SketchEstimate>,
    bounds: Seq<BoundTexts>,
    queries: Seq<(String, QueryMeta)>,
    unit: Seq<char>,
) -> MetricView {
    MetricView {
        name: "network.flowsketch."@ + unit + ".estimated"@,
        description: "Approximate telemetry estimate from a bounded-memory sketch."@,
        points: points_of(es, bounds, queries, unit),
    }
}

/// The gauges of all units.
pub open spec fn metrics_of(
    es: Seq<SketchEstimate>,
    bounds: Seq<BoundTexts>,
    queries: Seq<(String, QueryMeta)>,
    units: Seq<Seq<char>>,
) -> Seq<MetricView> {
    units.map_values(|unit: Seq<char>| metric_of(es, bounds, queries, unit))
}

fn push_attribute(out: &mut Vec<KeyValue>, key: &str, value: &str)
    ensures
        pairs(final(out)@) == pairs(old(out)@).push((key@, value@)),
{
    let ghost before = pairs(out@);
    let p = KeyValue { key: key.to_owned(), value: value.to_owned() };
    let ghost view = p@;
    out.push(p);
    assert(pairs(out@) =~= before.push(view));
}

fn attributes(e: &SketchEstimate, bounds: &BoundTexts, queries: &Vec<(String, QueryMeta)>) -> (r:
    Vec<KeyValue>)
    ensures
        pairs(r@) == attributes_of(*e, *bounds, queries@),
{
    let mut out: Vec<KeyValue> = Vec::new();
    assert(pairs(out@) =~= Seq::empty());
    push_attribute(&mut out, "flowsketch.query.name", e.query_name.as_str());
    push_attribute(&mut out, "flowsketch.algorithm", e.algorithm.as_str());
    assert(pairs(out@) =~= seq![
        ("flowsketch.query.name"@, e.query_name@),
        ("flowsketch.algorithm"@, e.algorithm@),
    ]);
    if let Some(k) = find_meta(queries, e.query_name.as_str()) {
        let m = &queries[k].1;
        push_attribute(&mut out, "flowsketch.window", m.window.as_str());
        push_attribute(&mut out, "flowsketch.error.kind", m.error_kind.as_str());
    }
    let ghost known = pairs(out@);
    let ghost group = group_attributes(e.group@);
    let mut i: usize = 0;
    assert(known + group.take(0) =~= known);
    while i < e.group.len()
        invariant
            i <= e.group@.len(),
            group == group_attributes(e.group@),
            pairs(out@) == known + group.take(i as int),
        decreases e.group@.len() - i,
    {
        let key = otel_attribute_name(e.group[i].0.as_str());
        push_attribute(&mut out, key.as_str(), e.group[i].1.as_str());
        assert(pairs(out@) =~= known + group.take(i + 1));
        i += 1;
    }
    assert(group.take(i as int) =~= group);
    if e.lower_bound.is_some() && e.upper_bound.is_some() {
        push_attribute(&mut out, "flowsketch.bound.lower", bounds.lower.as_str());
        push_attribute(&mut out, "flowsketch.bound.upper", bounds.upper.as_str());
    }
    out
}

fn counts_unit(e: &SketchEstimate, queries: &Vec<(String, QueryMeta)>, unit: &str) -> (r: bool)
    ensures
        r == (unit_of(*e, queries@) == unit@),
{
    match find_meta(queries, e.query_name.as_str()) {
        Some(k) => same_text(queries[k].1.unit.as_str(), unit),
        None => same_text("value", unit),
    }
}

fn points(
    estimates: &[SketchEstimate],
    bounds: &[BoundTexts],
    queries: &Vec<(String, QueryMeta)>,
    unit: &str,
) -> (r: Vec<DataPoint>)
    requires
        estimates@.len() == bounds@.len(),
    ensures
        point_views(r@) == points_of(estimates@, bounds@, queries@, unit@),
{
    let ghost es = estimates@;
    let mut out: Vec<DataPoint> = Vec::new();
    let mut i: usize = 0;
    assert(es.take(0) =~= Seq::<SketchEstimate>::empty());
    assert(point_views(out@) =~= Seq::empty());
    while i < estimates.len()
        invariant
            i <= estimates@.len(),
            es == estimates@,
            estimates@.len() == bounds@.len(),
            point_views(out@) == points_of(es.take(i as int), bounds@, queries@, unit@),
        decreases estimates@.len() - i,
    {
        let e = &estimates[i];
        assert(es.take(i + 1).drop_last() =~= es.take(i as int));
        if counts_unit(e, queries, unit) {
            let p = DataPoint {
                time_unix_nano: decimal(e.window_end_nanos),
                start_time_unix_nano: decimal(e.window_start_nanos),
                as_double: e.estimate,
                attributes: attributes(e, &bounds[i], queries),
            };
            let ghost before = point_views(out@);
            let ghost view = p@;
            out.push(p);
            assert(point_views(out@) =~= before.push(view));
        }
        i += 1;
    }
    assert(es.take(i as int) =~= es);
    out
}

/// Encode estimates as one document: one gauge for each unit, and in it one
/// point for each estimate, at the end of its window. `bounds` holds the
/// bounds of each estimate as text. Without estimates there is nothing to
/// export.
pub fn encode_estimates(
    estimates: &[SketchEstimate],
    bounds: &[BoundTexts],
    opts: &EncodeOptions,
) -> (r: Option<MetricsDocument>)
    requires
        estimates@.len() == bounds@.len(),
    ensures
        r is None <==> estimates@.len() == 0,
        r matches Some(doc) ==> {
            &&& pairs(doc.resource@) == seq![
                ("service.name"@, opts.service_name@),
                ("host.name"@, opts.host_name@),
            ]
            &&& metric_views(doc.metrics@) == metrics_of(
                estimates@,
                bounds@,
                opts.queries@,
                units_of(estimates@, opts.queries@),
            )
        },
{
    if estimates.len() == 0 {
        return None;
    }
    let ghost es = estimates@;
    let ghost queries = opts.queries@;
    let ghost all = es.map_values(|e: SketchEstimate| unit_of(e, queries));
    let mut units: Vec<String> = Vec::new();
    let mut n: usize = 0;
    assert(texts(units@) =~= sorted_names(all.take(0)));
    while n < estimates.len()
        invariant
            n <= estimates@.len(),
            es == estimates@,
            queries == opts.queries@,
            all == es.map_values(|e: SketchEstimate| unit_of(e, queries)),
            texts(units@) == sorted_names(all.take(n as int)),
        decreases estimates@.len() - n,
    {
        assert(all.take(n + 1).drop_last() =~= all.take(n as int));
        match find_meta(&opts.queries, estimates[n].query_name.as_str()) {
            Some(k) => {
                add_name(&mut units, opts.queries[k].1.unit.as_str());
            },
            None => {
                add_name(&mut units, "value");
            },
        }
        n += 1;
    }
    assert(all.take(n as int) =~= all);
    let ghost sorted = units_of(es, queries);
    let ghost wanted = metrics_of(es, bounds@, queries, sorted);
    let mut metrics: Vec<Metric> = Vec::new();
    let mut u: usize = 0;
    assert(metric_views(metrics@) =~= wanted.take(0));
    while u < units.len()
        invariant
            u <= units@.len(),
            texts(units@) == sorted,
            es == estimates@,
            estimates@.len() == bounds@.len(),
            queries == opts.queries@,
            wanted == metrics_of(es, bounds@, queries, sorted),
            metric_views(metrics@) == wanted.take(u as int),
        decreases units@.len() - u,
    {
        let mut name = "network.flowsketch.".to_owned();
        name.append(units[u].as_str());
        name.append(".estimated");
        let m = Metric {
            name,
            description:
                "Approximate telemetry estimate from a bounded-memory sketch.".to_owned(),
            data_points: points(estimates, bounds, &opts.queries, units[u].as_str()),
        };
        let ghost before = metric_views(metrics@);
        let ghost view = m@;
        assert(sorted[u as int] == units@[u as int]@);
        assert(view == wanted[u as int]);
        metrics.push(m);
        assert(metric_views(metrics@) =~= before.push(view));
        assert(metric_views(metrics@) =~= wanted.take(u + 1));
        u += 1;
    }
    assert(wanted.take(u as int) =~= wanted);
    let mut resource: Vec<KeyValue> = Vec::new();
    assert(pairs(resource@) =~= Seq::empty());
    push_attribute(&mut resource, "service.name", opts.service_name.as_str());
    push_attribute(&mut resource, "host.name", opts.host_name.as_str());
    assert(pairs(resource@) =~= seq![
        ("service.name"@, opts.service_name@),
        ("host.name"@, opts.host_name@),
    ]);
    Some(MetricsDocument { resource, metrics })
}

// ---------------------------------------------------------------------------
// Laws
// ---------------------------------------------------------------------------

/// Every estimate is exported: its point is in the gauge of its unit.
pub proof fn law_every_estimate_is_exported(
    es: Seq<SketchEstimate>,
    bounds: Seq<BoundTexts>,
    queries: Seq<(String, QueryMeta)>,
    i: int,
)
    requires
        es.len() == bounds.len(),
        0 <= i < es.len(),
    ensures
        units_of(es, queries).contains(unit_of(es[i], queries)),
        points_of(es, bounds, queries, unit_of(es[i], queries)).contains(
            point_of(es[i], bounds[i], queries),
        ),
{
    let all = es.map_values(|e: SketchEstimate| unit_of(e, queries));
    law_sorted_names(all);
    assert(all[i] == unit_of(es[i], queries));
    assert(all.contains(unit_of(es[i], queries)));
    lemma_point_is_there(es, bounds, queries, i);
}

proof fn lemma_point_is_there(
    es: Seq<SketchEstimate>,
    bounds: Seq<BoundTexts>,
    queries: Seq<(String, QueryMeta)>,
    i: int,
)
    requires
        0 <= i < es.len(),
    ensures
        points_of(es, bounds, queries, unit_of(es[i], queries)).contains(
            point_of(es[i], bounds[i], queries),
        ),
    decreases es.len(),
{
    let unit = unit_of(es[i], queries);
    let p = point_of(es[i], bounds[i], queries);
    let all = points_of(es, bounds, queries, unit);
    let before = points_of(es.drop_last(), bounds, queries, unit);
    if i == es.len() - 1 {
        assert(all[all.len() - 1] == p);
    } else {
        lemma_point_is_there(es.drop_last(), bounds, queries, i);
        let k = choose|k: int| 0 <= k < before.len() && before[k] == p;
        assert(all[k] == p);
    }
}

/// No gauge is empty: each counts the unit of some estimate.
pub proof fn law_no_gauge_is_empty(
    es: Seq<SketchEstimate>,
    bounds: Seq<BoundTexts>,
    queries: Seq<(String, QueryMeta)>,
    unit: Seq<char>,
)
    requires
        es.len() == bounds.len(),
        units_of(es, queries).contains(unit),
    ensures
        points_of(es, bounds, queries, unit).len() > 0,
{
    let all = es.map_values(|e: SketchEstimate| unit_of(e, queries));
    law_sorted_names(all);
    let i = choose|i: int| 0 <= i < all.len() && all[i] == unit;
    assert(unit_of(es[i], queries) == unit);
    lemma_point_is_there(es, bounds, queries, i);
}

} // verus!
