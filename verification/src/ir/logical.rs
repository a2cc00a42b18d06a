//! The logical query: what to measure, over which traffic, grouped by what,
//! in which window and how exactly.

use vstd::prelude::*;
use vstd::string::*;

use crate::event::FlowEvent;
use crate::field::Field;
use crate::float_bits::Float64;
use crate::text::{dec, decimal};

verus! {

/// Longest query name that travels between nodes, in bytes.
pub const MAX_QUERY_NAME_BYTES: usize = 128;

/// Time window. `slide == size` is a tumbling window; `slide < size` is a
/// sliding window made of `size / slide` tumbling buckets.
#[derive(Debug, Clone, Copy, PartialEq, Eq, Structural)]
pub struct WindowSpec {
    pub size_nanos: u64,
    pub slide_nanos: u64,
}

impl WindowSpec {
    /// How many tumbling buckets make up the window.
    pub open spec fn buckets(self) -> nat {
        let n = self.size_nanos as nat / self.slide_nanos as nat;
        if n < 1 {
            1
        } else {
            n
        }
    }

    pub fn tumbling(size_nanos: u64) -> (r: Self)
        ensures
            r == (WindowSpec { size_nanos, slide_nanos: size_nanos }),
    {
        WindowSpec { size_nanos, slide_nanos: size_nanos }
    }

    pub fn bucket_count(&self) -> (r: usize)
        requires
            self.slide_nanos > 0,
            self.buckets() <= usize::MAX,
        ensures
            r == self.buckets(),
    {
        let n: u64 = self.size_nanos / self.slide_nanos;
        if n < 1 {
            1
        } else {
            n as usize
        }
    }

    pub fn describe(&self) -> (r: String)
        ensures
            r@ == humanized(self.size_nanos as nat),
    {
        humanize_nanos(self.size_nanos)
    }
}

/// A duration as people write it. Seconds are preferred below two minutes, so
/// that a common window reads "60s".
pub open spec fn humanized(nanos: nat) -> Seq<char> {
    if nanos % 3_600_000_000_000 == 0 && nanos >= 3_600_000_000_000 {
        dec(nanos / 3_600_000_000_000) + "h"@
    } else if nanos % 60_000_000_000 == 0 && nanos >= 120_000_000_000 {
        dec(nanos / 60_000_000_000) + "m"@
    } else if nanos % 1_000_000_000 == 0 {
        dec(nanos / 1_000_000_000) + "s"@
    } else if nanos % 1_000_000 == 0 {
        dec(nanos / 1_000_000) + "ms"@
    } else {
        dec(nanos) + "ns"@
    }
}

/// A duration as people write it.
pub fn humanize_nanos(nanos: u64) -> (r: String)
    ensures
        r@ == humanized(nanos as nat),
{
    let (n, unit): (u64, &str) = if nanos % 3_600_000_000_000 == 0 && nanos >= 3_600_000_000_000 {
        (nanos / 3_600_000_000_000, "h")
    } else if nanos % 60_000_000_000 == 0 && nanos >= 120_000_000_000 {
        (nanos / 60_000_000_000, "m")
    } else if nanos % 1_000_000_000 == 0 {
        (nanos / 1_000_000_000, "s")
    } else if nanos % 1_000_000 == 0 {
        (nanos / 1_000_000, "ms")
    } else {
        (nanos, "ns")
    };
    let mut out = decimal(n);
    out.append(unit);
    out
}

/// Requested error. How it is read depends on the measure: additive
/// `epsilon * N` for counting, relative standard error for distinct counts,
/// normalized rank error for quantiles.
#[derive(Debug, Clone, Copy, PartialEq, Eq, Structural)]
pub struct ErrorSpec {
    pub epsilon: Float64,
    pub delta: Float64,
}

/// The bits of 0.001.
pub const DEFAULT_EPSILON_BITS: u64 = 0x3F50_624D_D2F1_A9FC;

/// The bits of 0.01.
pub const DEFAULT_DELTA_BITS: u64 = 0x3F84_7AE1_47AE_147B;

/// An error of 0.001, missed with a probability of at most 0.01.
pub open spec fn default_error() -> ErrorSpec {
    ErrorSpec {
        epsilon: Float64 { bits: DEFAULT_EPSILON_BITS },
        delta: Float64 { bits: DEFAULT_DELTA_BITS },
    }
}

impl Default for ErrorSpec {
    fn default() -> (r: Self)
        ensures
            r == default_error(),
    {
        ErrorSpec {
            epsilon: Float64 { bits: DEFAULT_EPSILON_BITS },
            delta: Float64 { bits: DEFAULT_DELTA_BITS },
        }
    }
}

/// What the query estimates.
#[derive(Debug, Clone, Copy, PartialEq, Eq, Structural)]
pub enum Measure {
    /// Number of events per group.
    Count,
    /// Sum of a numeric field per group.
    Sum { value: Field },
    /// The `limit` groups with the largest sum of a field.
    HeavyHitters { value: Field, limit: usize },
    /// Number of distinct values of a field per group.
    DistinctCount { field: Field },
    /// Empirical entropy of a field's distribution.
    Entropy { field: Field },
    /// Quantile of a numeric field.
    Quantile { field: Field, q: Float64 },
}

impl Measure {
    pub open spec fn text(self) -> Seq<char> {
        match self {
            Measure::Count => "count"@,
            Measure::Sum { .. } => "sum"@,
            Measure::HeavyHitters { .. } => "heavy_hitters"@,
            Measure::DistinctCount { .. } => "distinct_count"@,
            Measure::Entropy { .. } => "entropy"@,
            Measure::Quantile { .. } => "quantile"@,
        }
    }

    pub fn name(&self) -> (r: &'static str)
        ensures
            r@ == self.text(),
    {
        match self {
            Measure::Count => "count",
            Measure::Sum { .. } => "sum",
            Measure::HeavyHitters { .. } => "heavy_hitters",
            Measure::DistinctCount { .. } => "distinct_count",
            Measure::Entropy { .. } => "entropy",
            Measure::Quantile { .. } => "quantile",
        }
    }
}

/// Conjunctive filter over flow events.
#[derive(Debug, Clone, PartialEq, Eq)]
pub struct Predicate {
    /// IANA protocol number, if filtering by protocol.
    pub protocol: Option<u8>,
    /// Match any of these destination ports (empty: no constraint).
    pub dst_ports: Vec<u16>,
    /// Match any of these source ports (empty: no constraint).
    pub src_ports: Vec<u16>,
    /// Match any of these interface indexes (empty: no constraint).
    pub interfaces: Vec<u32>,
}

/// The content of a [`Predicate`].
#[verifier::ext_equal]
pub ghost struct PredicateView {
    pub protocol: Option<u8>,
    pub dst_ports: Seq<u16>,
    pub src_ports: Seq<u16>,
    pub interfaces: Seq<u32>,
}

impl View for Predicate {
    type V = PredicateView;

    open spec fn view(&self) -> PredicateView {
        PredicateView {
            protocol: self.protocol,
            dst_ports: self.dst_ports@,
            src_ports: self.src_ports@,
            interfaces: self.interfaces@,
        }
    }
}

/// The filter that every event passes.
pub open spec fn no_filter() -> PredicateView {
    PredicateView {
        protocol: None,
        dst_ports: Seq::empty(),
        src_ports: Seq::empty(),
        interfaces: Seq::empty(),
    }
}

impl PredicateView {
    pub open spec fn protocol_passes(self, e: FlowEvent) -> bool {
        self.protocol is Some ==> e.protocol == self.protocol->0
    }

    pub open spec fn dst_port_passes(self, e: FlowEvent) -> bool {
        self.dst_ports.len() == 0 || self.dst_ports.contains(e.dst_port)
    }

    pub open spec fn src_port_passes(self, e: FlowEvent) -> bool {
        self.src_ports.len() == 0 || self.src_ports.contains(e.src_port)
    }

    pub open spec fn interface_passes(self, e: FlowEvent) -> bool {
        self.interfaces.len() == 0 || self.interfaces.contains(e.interface_index)
    }

    /// Whether an event passes every constraint.
    pub open spec fn passes(self, e: FlowEvent) -> bool {
        &&& self.protocol_passes(e)
        &&& self.dst_port_passes(e)
        &&& self.src_port_passes(e)
        &&& self.interface_passes(e)
    }
}

fn lists_port(ports: &Vec<u16>, port: u16) -> (r: bool)
    ensures
        r == ports@.contains(port),
{
    let mut i: usize = 0;
    while i < ports.len()
        invariant
            i <= ports@.len(),
            forall|j: int| 0 <= j < i ==> ports@[j] != port,
        decreases ports@.len() - i,
    {
        if ports[i] == port {
            assert(ports@[i as int] == port);
            return true;
        }
        i += 1;
    }
    false
}

fn lists_interface(interfaces: &Vec<u32>, index: u32) -> (r: bool)
    ensures
        r == interfaces@.contains(index),
{
    let mut i: usize = 0;
    while i < interfaces.len()
        invariant
            i <= interfaces@.len(),
            forall|j: int| 0 <= j < i ==> interfaces@[j] != index,
        decreases interfaces@.len() - i,
    {
        if interfaces[i] == index {
            assert(interfaces@[i as int] == index);
            return true;
        }
        i += 1;
    }
    false
}

impl Predicate {
    pub fn matches(&self, e: &FlowEvent) -> (r: bool)
        ensures
            r == self@.passes(*e),
    {
        if let Some(p) = self.protocol {
            if e.protocol != p {
                return false;
            }
        }
        if self.dst_ports.len() > 0 && !lists_port(&self.dst_ports, e.dst_port) {
            return false;
        }
        if self.src_ports.len() > 0 && !lists_port(&self.src_ports, e.src_port) {
            return false;
        }
        if self.interfaces.len() > 0 && !lists_interface(&self.interfaces, e.interface_index) {
            return false;
        }
        true
    }

    pub fn is_empty(&self) -> (r: bool)
        ensures
            r == (self@ == no_filter()),
    {
        let r = self.protocol.is_none() && self.dst_ports.len() == 0 && self.src_ports.len() == 0
            && self.interfaces.len() == 0;
        assert(r ==> self@ =~= no_filter());
        r
    }
}

impl Default for Predicate {
    fn default() -> (r: Self)
        ensures
            r@ == no_filter(),
    {
        Predicate {
            protocol: None,
            dst_ports: Vec::new(),
            src_ports: Vec::new(),
            interfaces: Vec::new(),
        }
    }
}

/// A filter without constraints passes every event.
pub proof fn law_no_filter_passes_all(e: FlowEvent)
    ensures
        no_filter().passes(e),
{
}

/// Filters are conjunctive: an event passes a filter exactly when it passes
/// each of its constraints taken alone.
pub proof fn law_predicate_is_conjunctive(p: PredicateView, e: FlowEvent)
    ensures
        p.passes(e) <==> {
            &&& (PredicateView { protocol: p.protocol, ..no_filter() }).passes(e)
            &&& (PredicateView { dst_ports: p.dst_ports, ..no_filter() }).passes(e)
            &&& (PredicateView { src_ports: p.src_ports, ..no_filter() }).passes(e)
            &&& (PredicateView { interfaces: p.interfaces, ..no_filter() }).passes(e)
        },
{
}

/// Thresholds that turn estimates into alerts.
#[derive(Debug, Clone, Copy, PartialEq, Eq, Structural)]
pub struct AlertSpec {
    pub gt: Option<Float64>,
    pub lt: Option<Float64>,
}

impl AlertSpec {
    pub open spec fn triggers(self, value: Float64) -> bool {
        ||| self.gt is Some && self.gt->0.below(value)
        ||| self.lt is Some && value.below(self.lt->0)
    }

    /// Whether the value is above the upper or below the lower threshold.
    pub fn fires(&self, value: Float64) -> (r: bool)
        ensures
            r == self.triggers(value),
    {
        let above = match self.gt {
            Some(t) => t.lt(value),
            None => false,
        };
        let under = match self.lt {
            Some(t) => value.lt(t),
            None => false,
        };
        above || under
    }

    pub fn is_empty(&self) -> (r: bool)
        ensures
            r == (self.gt is None && self.lt is None),
    {
        self.gt.is_none() && self.lt.is_none()
    }
}

impl Default for AlertSpec {
    fn default() -> (r: Self)
        ensures
            r == (AlertSpec { gt: None, lt: None }),
    {
        AlertSpec { gt: None, lt: None }
    }
}

/// Export settings, with the cap that keeps a query over many keys from
/// creating as many metric series.
#[derive(Debug, Clone, Copy, PartialEq, Eq, Structural)]
pub struct ExportSpec {
    pub prometheus: bool,
    /// Most series exported per query and window.
    pub max_series: usize,
}

pub open spec fn default_export() -> ExportSpec {
    ExportSpec { prometheus: true, max_series: 1000 }
}

impl Default for ExportSpec {
    fn default() -> (r: Self)
        ensures
            r == default_export(),
    {
        ExportSpec { prometheus: true, max_series: 1000 }
    }
}

/// A validated query.
#[derive(Debug, Clone, PartialEq, Eq)]
pub struct LogicalQuery {
    pub name: String,
    pub filter: Predicate,
    pub group_by: Vec<Field>,
    pub measure: Measure,
    pub window: WindowSpec,
    pub error: ErrorSpec,
    pub alert: AlertSpec,
    pub export: ExportSpec,
    /// Memory budget for this query's sketches, in bytes.
    pub max_memory_bytes: u64,
}

/// The content of a [`LogicalQuery`].
#[verifier::ext_equal]
pub ghost struct LogicalQueryView {
    pub name: Seq<char>,
    pub filter: PredicateView,
    pub group_by: Seq<Field>,
    pub measure: Measure,
    pub window: WindowSpec,
    pub error: ErrorSpec,
    pub alert: AlertSpec,
    pub export: ExportSpec,
    pub max_memory_bytes: u64,
}

impl View for LogicalQuery {
    type V = LogicalQueryView;

    open spec fn view(&self) -> LogicalQueryView {
        LogicalQueryView {
            name: self.name@,
            filter: self.filter@,
            group_by: self.group_by@,
            measure: self.measure,
            window: self.window,
            error: self.error,
            alert: self.alert,
            export: self.export,
            max_memory_bytes: self.max_memory_bytes,
        }
    }
}

} // verus!
