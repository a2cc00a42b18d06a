//! The query planner: which sketch answers a query, with which parameters,
//! how much memory it holds over the window, what the error means, and
//! whether the query is refused.
//!
//! | Query                          | Plan                               |
//! |--------------------------------|------------------------------------|
//! | `count by G`, `sum(v) by G`    | CountMin and SpaceSaving tracker   |
//! | `heavy_hitters(v) by G`        | SpaceSaving                        |
//! | `distinct_count(f) by G`       | HLLMap                             |
//! | `distinct_count(f)`            | HyperLogLog                        |
//! | `entropy(f)`                   | SpaceSaving and HyperLogLog        |
//! | `quantile(f)`                  | KLL                                |
//!
//! Entropies and quantiles by group are refused.

use vstd::prelude::*;
use vstd::string::*;

use crate::event::protocol;
use crate::field::Field;
use crate::float_bits::Float64;
use crate::hash::HashSpec;
use crate::ir::logical::{
    humanize_nanos, humanized, no_filter, LogicalQuery, LogicalQueryView, Measure, PredicateView,
};
use crate::ir::physical::{
    capped, register_count, registers, stage_bytes, PhysicalSketch,
};
use crate::text::{debug_text, dec, decimal, join, joined_texts, push_decimal, quoted, texts};

pub use crate::human::format_bytes;
use crate::human::shown_bytes;

verus! {

/// Assumed average size of an encoded group key.
pub const AVG_KEY_BYTES: usize = 32;

/// Precision of the HLL sketch that sizes the tail of an entropy estimate: a
/// relative standard error of 0.0163.
pub const ENTROPY_PRECISION: u8 = 12;

/// The bits of 2^-64. A failure probability of no more than that is beyond
/// what a 64-bit hash can deliver.
pub const HASH_FAILURE_FLOOR_BITS: u64 = 0x3BF0_0000_0000_0000;

/// How a reported error bound is to be read.
#[derive(Debug, Clone, Copy, PartialEq, Eq, Structural)]
pub enum ErrorKind {
    /// The estimate exceeds the truth by at most epsilon * total weight.
    AdditiveOverestimate,
    /// The estimate is within a relative factor of the truth.
    Relative,
    /// Counts of tracked keys are upper bounds with an error term per key.
    CandidateUpperBound,
    /// The true rank of the value is within epsilon * n of the request.
    RankError,
    /// A composed estimator without a single formal bound.
    Heuristic,
}

impl ErrorKind {
    pub open spec fn text(self) -> Seq<char> {
        match self {
            ErrorKind::AdditiveOverestimate => "additive-overestimate"@,
            ErrorKind::Relative => "relative"@,
            ErrorKind::CandidateUpperBound => "candidate-upper-bound"@,
            ErrorKind::RankError => "rank-error"@,
            ErrorKind::Heuristic => "heuristic"@,
        }
    }

    pub fn name(self) -> (r: &'static str)
        ensures
            r@ == self.text(),
    {
        match self {
            ErrorKind::AdditiveOverestimate => "additive-overestimate",
            ErrorKind::Relative => "relative",
            ErrorKind::CandidateUpperBound => "candidate-upper-bound",
            ErrorKind::RankError => "rank-error",
            ErrorKind::Heuristic => "heuristic",
        }
    }
}

/// The dimensions that an error asks of the sketches. They come out of
/// floating-point formulas over `epsilon` and `delta`.
#[derive(Debug, Clone, Copy, PartialEq, Eq, Structural)]
pub struct Sizing {
    /// Columns of a Count-Min table: e / epsilon, rounded up.
    pub width: usize,
    /// Rows of a Count-Min table: ln(1 / (delta - 2^-64)), rounded up, at
    /// least one.
    pub depth: usize,
    /// 1 / epsilon, rounded up.
    pub inverse_epsilon: usize,
    /// Smallest supported HLL precision with a standard error of `epsilon`,
    /// or the largest supported.
    pub precision: u8,
    /// Whether the standard error at `precision` is above `epsilon`.
    pub precision_is_short: bool,
    /// Smallest supported KLL `k` with a rank error of `epsilon`, or the
    /// largest supported.
    pub k: usize,
    /// Whether the rank error at `k` is above `epsilon`.
    pub k_is_short: bool,
}

/// Numbers that only floating point can write down, as texts.
#[derive(Debug)]
pub struct ShownNumbers {
    pub epsilon: String,
    pub delta: String,
    /// 1 / capacity of a heavy-hitter sketch.
    pub tracked_share: String,
    /// Relative standard error in percent, with two digits.
    pub relative_percent: String,
    /// Relative standard error in percent, with three digits.
    pub relative_percent_fine: String,
    /// Rank error, with four digits.
    pub rank_error: String,
    /// Rank error, with five digits.
    pub rank_error_fine: String,
    pub q: String,
    pub alert_gt: String,
    pub alert_lt: String,
}

/// Why a query is refused.
#[derive(Debug, Clone, Copy, PartialEq, Eq, Structural)]
pub enum Rejection {
    /// A lower threshold on groups that are not all enumerated.
    LowAlertOnGroups,
    /// The error is not a pair of proportions.
    ErrorRange,
    /// The failure probability is beyond the hash.
    HashFailureFloor,
    /// The memory budget holds fewer groups than are to be exported.
    TooFewGroups { budgeted: u64, buckets: usize, minimum: usize },
    GroupedEntropy,
    GroupedQuantile,
    QuantileRange,
    OverBudget { needed: u64, buckets: usize, budget: u64 },
}

impl Rejection {
    pub open spec fn text(self, shown: ShownNumbers) -> Seq<char> {
        match self {
            Rejection::LowAlertOnGroups => "alertIf.lt is not sound for grouped queries: bounded top-k/key-retention plans cannot enumerate every low-valued or absent group; use alertIf.gt, remove groupBy, or alert on an explicitly enumerated downstream series"@,
            Rejection::ErrorRange => "epsilon and delta must be in (0, 1)"@,
            Rejection::HashFailureFloor => "delta must exceed the fsk1 hash confidence floor 0.00000000000000000005421010862427522"@,
            Rejection::TooFewGroups {
                budgeted,
                buckets,
                minimum,
            } => "resources.maxMemory can retain only "@ + dec(budgeted as nat)
                + " grouped HLL keys across "@ + dec(buckets as nat)
                + " window buckets and bounded output, below the configured export.maxSeries requirement of "@
                + dec(minimum as nat),
            Rejection::GroupedEntropy => "grouped entropy is not supported yet (it needs a bounded keyed distribution sketch); drop groupBy to measure the field's global entropy per window"@,
            Rejection::GroupedQuantile => "grouped quantile is not supported yet (it needs a bounded keyed KLL map); drop groupBy to measure the field's global distribution per window"@,
            Rejection::QuantileRange => "quantile q must be in [0, 1], got "@ + shown.q@,
            Rejection::OverBudget { needed, buckets, budget } => "plan needs ~"@
                + shown_bytes(needed as nat) + " across "@ + dec(buckets as nat)
                + " window buckets but resources.maxMemory is "@ + shown_bytes(budget as nat)
                + "; loosen error.epsilon, shrink the window, or raise the budget"@,
        }
    }

    /// The reason as shown to people.
    pub fn reason(&self, shown: &ShownNumbers) -> (r: String)
        ensures
            r@ == self.text(*shown),
    {
        match self {
            Rejection::LowAlertOnGroups => "alertIf.lt is not sound for grouped queries: bounded top-k/key-retention plans cannot enumerate every low-valued or absent group; use alertIf.gt, remove groupBy, or alert on an explicitly enumerated downstream series".to_owned(),
            Rejection::ErrorRange => "epsilon and delta must be in (0, 1)".to_owned(),
            Rejection::HashFailureFloor => "delta must exceed the fsk1 hash confidence floor 0.00000000000000000005421010862427522".to_owned(),
            Rejection::TooFewGroups { budgeted, buckets, minimum } => {
                let mut out = "resources.maxMemory can retain only ".to_owned();
                push_decimal(&mut out, *budgeted);
                out.append(" grouped HLL keys across ");
                push_decimal(&mut out, *buckets as u64);
                out.append(
                    " window buckets and bounded output, below the configured export.maxSeries requirement of ",
                );
                push_decimal(&mut out, *minimum as u64);
                out
            },
            Rejection::GroupedEntropy => "grouped entropy is not supported yet (it needs a bounded keyed distribution sketch); drop groupBy to measure the field's global entropy per window".to_owned(),
            Rejection::GroupedQuantile => "grouped quantile is not supported yet (it needs a bounded keyed KLL map); drop groupBy to measure the field's global distribution per window".to_owned(),
            Rejection::QuantileRange => {
                let mut out = "quantile q must be in [0, 1], got ".to_owned();
                out.append(shown.q.as_str());
                out
            },
            Rejection::OverBudget { needed, buckets, budget } => {
                let mut out = "plan needs ~".to_owned();
                out.append(format_bytes(*needed).as_str());
                out.append(" across ");
                push_decimal(&mut out, *buckets as u64);
                out.append(" window buckets but resources.maxMemory is ");
                out.append(format_bytes(*budget).as_str());
                out.append("; loosen error.epsilon, shrink the window, or raise the budget");
                out
            },
        }
    }
}

/// What the planner refuses.
#[derive(Debug)]
pub enum PlanError {
    Rejected { name: String, reason: Rejection },
}

impl PlanError {
    pub fn to_string(&self, shown: &ShownNumbers) -> (r: String)
        ensures
            r@ == "query "@ + debug_text(self->name@) + " rejected: "@ + self->reason.text(*shown),
    {
        match self {
            PlanError::Rejected { name, reason } => {
                let mut out = "query ".to_owned();
                out.append(quoted(name.as_str()).as_str());
                out.append(" rejected: ");
                out.append(reason.reason(shown).as_str());
                out
            },
        }
    }
}

/// What a plan promises of its estimates.
#[derive(Debug, Clone, Copy, PartialEq, Eq, Structural)]
pub enum ErrorContract {
    Counted { tracker_capacity: usize },
    Ranked { capacity: usize },
    Distinct { precision: u8 },
    DistinctByGroup { precision: u8, max_keys: usize },
    Entropy { capacity: usize, precision: u8 },
    Rank { k: usize },
}

impl ErrorContract {
    pub open spec fn text(self, shown: ShownNumbers) -> Seq<char> {
        match self {
            ErrorContract::Counted {
                tracker_capacity,
            } => "estimates never underestimate; overestimate exceeds "@ + shown.epsilon@
                + " * N with probability <= "@ + shown.delta@ + "; only the top "@ + dec(
                tracker_capacity as nat,
            ) + " groups by weight are enumerated"@,
            ErrorContract::Ranked {
                capacity,
            } => "tracked counts are upper bounds, overestimating by at most N/"@ + dec(
                capacity as nat,
            ) + "; every group with weight share > "@ + shown.tracked_share@
                + " of total is guaranteed present"@,
            ErrorContract::Distinct { precision } => "relative standard error ~ "@
                + shown.relative_percent@ + "% (precision "@ + dec(precision as nat) + ")"@,
            ErrorContract::DistinctByGroup {
                precision,
                max_keys,
            } => "per-group relative standard error ~ "@ + shown.relative_percent@
                + "% (precision "@ + dec(precision as nat) + "); key retention bounded at "@ + dec(
                max_keys as nat,
            )
                + " groups — low-cardinality groups may be evicted under pressure (evictions are exported as a health metric)"@,
            ErrorContract::Entropy {
                capacity,
                precision,
            } => "heuristic: exact head entropy over the top "@ + dec(capacity as nat)
                + " values plus a uniform-tail correction sized by an HLL distinct count (precision "@
                + dec(precision as nat)
                + "); no formal single-number bound — validate against `flowsketch bench` for your traffic shape"@,
            ErrorContract::Rank { k } => "returned value's true rank is within ~"@
                + shown.rank_error@
                + " * n of the requested quantile with high probability (KLL, k="@ + dec(k as nat)
                + ")"@,
        }
    }

    /// The promise as shown to people.
    pub fn describe(&self, shown: &ShownNumbers) -> (r: String)
        ensures
            r@ == self.text(*shown),
    {
        match self {
            ErrorContract::Counted { tracker_capacity } => {
                let mut out = "estimates never underestimate; overestimate exceeds ".to_owned();
                out.append(shown.epsilon.as_str());
                out.append(" * N with probability <= ");
                out.append(shown.delta.as_str());
                out.append("; only the top ");
                push_decimal(&mut out, *tracker_capacity as u64);
                out.append(" groups by weight are enumerated");
                out
            },
            ErrorContract::Ranked { capacity } => {
                let mut out =
                    "tracked counts are upper bounds, overestimating by at most N/".to_owned();
                push_decimal(&mut out, *capacity as u64);
                out.append("; every group with weight share > ");
                out.append(shown.tracked_share.as_str());
                out.append(" of total is guaranteed present");
                out
            },
            ErrorContract::Distinct { precision } => {
                let mut out = "relative standard error ~ ".to_owned();
                out.append(shown.relative_percent.as_str());
                out.append("% (precision ");
                push_decimal(&mut out, *precision as u64);
                out.append(")");
                out
            },
            ErrorContract::DistinctByGroup { precision, max_keys } => {
                let mut out = "per-group relative standard error ~ ".to_owned();
                out.append(shown.relative_percent.as_str());
                out.append("% (precision ");
                push_decimal(&mut out, *precision as u64);
                out.append("); key retention bounded at ");
                push_decimal(&mut out, *max_keys as u64);
                out.append(
                    " groups — low-cardinality groups may be evicted under pressure (evictions are exported as a health metric)",
                );
                out
            },
            ErrorContract::Entropy { capacity, precision } => {
                let mut out = "heuristic: exact head entropy over the top ".to_owned();
                push_decimal(&mut out, *capacity as u64);
                out.append(
                    " values plus a uniform-tail correction sized by an HLL distinct count (precision ",
                );
                push_decimal(&mut out, *precision as u64);
                out.append(
                    "); no formal single-number bound — validate against `flowsketch bench` for your traffic shape",
                );
                out
            },
            ErrorContract::Rank { k } => {
                let mut out = "returned value's true rank is within ~".to_owned();
                out.append(shown.rank_error.as_str());
                out.append(" * n of the requested quantile with high probability (KLL, k=");
                push_decimal(&mut out, *k as u64);
                out.append(")");
                out
            },
        }
    }
}

/// What an operator should know about a plan that is not refused.
#[derive(Debug, Clone, Copy, PartialEq, Eq, Structural)]
pub enum Warning {
    LimitOverExport { limit: usize, max_series: usize },
    PrecisionShort { precision: u8 },
    RetentionReduced { preferred: usize, max_keys: usize },
    RankShort { k: usize },
    RawIpLabels,
}

impl Warning {
    pub open spec fn text(self, shown: ShownNumbers) -> Seq<char> {
        match self {
            Warning::LimitOverExport { limit, max_series } => "heavy_hitters limit "@ + dec(
                limit as nat,
            ) + " exceeds export.maxSeries "@ + dec(max_series as nat) + "; export cap wins"@,
            Warning::PrecisionShort { precision } => "requested epsilon "@ + shown.epsilon@
                + " is tighter than the best supported HLL precision ("@ + dec(precision as nat)
                + ") can deliver; plan achieves ~"@ + shown.relative_percent_fine@
                + "% relative standard error"@,
            Warning::RetentionReduced {
                preferred,
                max_keys,
            } => "HLLMap key retention reduced from preferred "@ + dec(preferred as nat) + " to "@
                + dec(max_keys as nat)
                + " groups to stay within resources.maxMemory; raise the budget for more low-cardinality retention headroom"@,
            Warning::RankShort { k } => "requested rank error "@ + shown.epsilon@
                + " is tighter than the largest supported KLL (k="@ + dec(k as nat)
                + ") delivers; plan achieves ~"@ + shown.rank_error_fine@,
            Warning::RawIpLabels => "raw IP labels can create high series cardinality in Prometheus; export.maxSeries caps this query's output"@,
        }
    }

    /// The warning as shown to people.
    pub fn describe(&self, shown: &ShownNumbers) -> (r: String)
        ensures
            r@ == self.text(*shown),
    {
        match self {
            Warning::LimitOverExport { limit, max_series } => {
                let mut out = "heavy_hitters limit ".to_owned();
                push_decimal(&mut out, *limit as u64);
                out.append(" exceeds export.maxSeries ");
                push_decimal(&mut out, *max_series as u64);
                out.append("; export cap wins");
                out
            },
            Warning::PrecisionShort { precision } => {
                let mut out = "requested epsilon ".to_owned();
                out.append(shown.epsilon.as_str());
                out.append(" is tighter than the best supported HLL precision (");
                push_decimal(&mut out, *precision as u64);
                out.append(") can deliver; plan achieves ~");
                out.append(shown.relative_percent_fine.as_str());
                out.append("% relative standard error");
                out
            },
            Warning::RetentionReduced { preferred, max_keys } => {
                let mut out = "HLLMap key retention reduced from preferred ".to_owned();
                push_decimal(&mut out, *preferred as u64);
                out.append(" to ");
                push_decimal(&mut out, *max_keys as u64);
                out.append(
                    " groups to stay within resources.maxMemory; raise the budget for more low-cardinality retention headroom",
                );
                out
            },
            Warning::RankShort { k } => {
                let mut out = "requested rank error ".to_owned();
                out.append(shown.epsilon.as_str());
                out.append(" is tighter than the largest supported KLL (k=");
                push_decimal(&mut out, *k as u64);
                out.append(") delivers; plan achieves ~");
                out.append(shown.rank_error_fine.as_str());
                out
            },
            Warning::RawIpLabels => "raw IP labels can create high series cardinality in Prometheus; export.maxSeries caps this query's output".to_owned(),
        }
    }
}

// ---------------------------------------------------------------------------
// Planning
// ---------------------------------------------------------------------------

/// The planner's answer for one query.
#[derive(Debug)]
pub struct PhysicalPlan {
    pub sketch: PhysicalSketch,
    /// Tumbling buckets that make up the window.
    pub window_buckets: usize,
    /// Most completed windows kept until the consumer takes them.
    pub pending_window_capacity: usize,
    /// Estimated memory of open buckets, completed windows and one copy for
    /// merging.
    pub estimated_memory_bytes: u64,
    /// Most series exported at once.
    pub export_series_upper_bound: usize,
    pub error_kind: ErrorKind,
    pub error_contract: ErrorContract,
    pub warnings: Vec<Warning>,
}

/// A query with its plan.
#[derive(Debug)]
pub struct Plan {
    pub query: LogicalQuery,
    pub physical: PhysicalPlan,
}

/// `n`, moved into `low..=high`.
pub open spec fn clamped(n: int, low: int, high: int) -> int {
    if n < low {
        low
    } else if n > high {
        high
    } else {
        n
    }
}

pub open spec fn larger(a: int, b: int) -> int {
    if a >= b {
        a
    } else {
        b
    }
}

pub open spec fn smaller(a: int, b: int) -> int {
    if a <= b {
        a
    } else {
        b
    }
}

/// The sketch is the only stage, or the composite of the stages.
pub open spec fn made_of(sketch: PhysicalSketch, stages: Seq<PhysicalSketch>) -> bool {
    if stages.len() == 1 {
        sketch == stages[0]
    } else {
        sketch is Composite && sketch->stages@ == stages
    }
}

/// What the planner picks, before the memory budget is checked.
pub ghost struct Choice {
    pub stages: Seq<PhysicalSketch>,
    pub kind: ErrorKind,
    pub contract: ErrorContract,
    pub series: nat,
    pub warnings: Seq<Warning>,
}

/// Sketches alive at once: a large gap in event time can close one window per
/// open bucket, and merging needs a copy.
pub open spec fn resident(q: LogicalQueryView) -> nat {
    2 * q.window.buckets() + 1
}

/// Memory of one group of an HLL map.
pub open spec fn group_cost(precision: u8) -> nat {
    registers(precision) + 2 * AVG_KEY_BYTES as nat + 48 + 32
}

/// How many groups the memory budget holds.
pub open spec fn budgeted_groups(q: LogicalQueryView, precision: u8) -> nat {
    let share = q.max_memory_bytes as nat / resident(q);
    if share <= 64 {
        0
    } else {
        (share - 64) as nat / group_cost(precision)
    }
}

/// How many groups are kept where memory does not matter.
pub open spec fn preferred_groups(q: LogicalQueryView) -> int {
    clamped(q.export.max_series * 4, 1_024, 65_536)
}

pub open spec fn one_warning(holds: bool, w: Warning) -> Seq<Warning> {
    if holds {
        seq![w]
    } else {
        Seq::empty()
    }
}

pub open spec fn choice_for_counts(q: LogicalQueryView, s: Sizing) -> Result<Choice, Rejection> {
    if !q.error.epsilon.in_open_unit() || !q.error.delta.in_open_unit() {
        Err(Rejection::ErrorRange)
    } else if q.error.delta.at_most(Float64 { bits: HASH_FAILURE_FLOOR_BITS }) {
        Err(Rejection::HashFailureFloor)
    } else {
        let capacity = clamped(q.export.max_series * 4, 256, 65_536) as usize;
        Ok(
            Choice {
                stages: seq![
                    PhysicalSketch::SpaceSaving { capacity },
                    PhysicalSketch::CountMin {
                        width: s.width,
                        depth: s.depth,
                        conservative_update: true,
                    },
                ],
                kind: ErrorKind::AdditiveOverestimate,
                contract: ErrorContract::Counted { tracker_capacity: capacity },
                series: q.export.max_series as nat,
                warnings: Seq::empty(),
            },
        )
    }
}

/// Capacity from the accuracy target: every key with a share above epsilon is
/// tracked when the capacity is at least 1 / epsilon.
pub open spec fn heavy_capacity(s: Sizing, limit: usize) -> usize {
    clamped(larger(s.inverse_epsilon as int, limit * 4), 256, 1_048_576) as usize
}

pub open spec fn choice_for_heavy_hitters(q: LogicalQueryView, s: Sizing, limit: usize) -> Choice {
    let capacity = heavy_capacity(s, limit);
    Choice {
        stages: seq![PhysicalSketch::SpaceSaving { capacity }],
        kind: ErrorKind::CandidateUpperBound,
        contract: ErrorContract::Ranked { capacity },
        series: smaller(limit as int, q.export.max_series as int) as nat,
        warnings: one_warning(
            limit > q.export.max_series,
            Warning::LimitOverExport { limit, max_series: q.export.max_series },
        ),
    }
}

pub open spec fn choice_for_distinct(q: LogicalQueryView, s: Sizing) -> Result<Choice, Rejection> {
    let precision = s.precision;
    let short = one_warning(s.precision_is_short, Warning::PrecisionShort { precision });
    if q.group_by.len() == 0 {
        Ok(
            Choice {
                stages: seq![PhysicalSketch::HyperLogLog { precision }],
                kind: ErrorKind::Relative,
                contract: ErrorContract::Distinct { precision },
                series: 1,
                warnings: short,
            },
        )
    } else {
        let preferred = preferred_groups(q);
        let budgeted = budgeted_groups(q, precision);
        let minimum = smaller(q.export.max_series as int, preferred);
        if budgeted < minimum {
            Err(
                Rejection::TooFewGroups {
                    budgeted: budgeted as u64,
                    buckets: q.window.buckets() as usize,
                    minimum: minimum as usize,
                },
            )
        } else {
            let max_keys = smaller(preferred, budgeted as int) as usize;
            Ok(
                Choice {
                    stages: seq![PhysicalSketch::HllMap { max_keys, precision }],
                    kind: ErrorKind::Relative,
                    contract: ErrorContract::DistinctByGroup { precision, max_keys },
                    series: smaller(q.export.max_series as int, max_keys as int) as nat,
                    warnings: short + one_warning(
                        max_keys < preferred,
                        Warning::RetentionReduced { preferred: preferred as usize, max_keys },
                    ),
                },
            )
        }
    }
}

pub open spec fn choice_for_entropy(q: LogicalQueryView, s: Sizing) -> Result<Choice, Rejection> {
    if q.group_by.len() > 0 {
        Err(Rejection::GroupedEntropy)
    } else {
        let capacity = clamped(s.inverse_epsilon as int, 256, 65_536) as usize;
        Ok(
            Choice {
                stages: seq![
                    PhysicalSketch::SpaceSaving { capacity },
                    PhysicalSketch::HyperLogLog { precision: ENTROPY_PRECISION },
                ],
                kind: ErrorKind::Heuristic,
                contract: ErrorContract::Entropy { capacity, precision: ENTROPY_PRECISION },
                series: 1,
                warnings: Seq::empty(),
            },
        )
    }
}

pub open spec fn choice_for_quantile(q: LogicalQueryView, s: Sizing, at: Float64) -> Result<
    Choice,
    Rejection,
> {
    if q.group_by.len() > 0 {
        Err(Rejection::GroupedQuantile)
    } else if !at.in_closed_unit() {
        Err(Rejection::QuantileRange)
    } else {
        Ok(
            Choice {
                stages: seq![PhysicalSketch::Kll { k: s.k }],
                kind: ErrorKind::RankError,
                contract: ErrorContract::Rank { k: s.k },
                series: 1,
                warnings: one_warning(s.k_is_short, Warning::RankShort { k: s.k }),
            },
        )
    }
}

/// What the planner picks for a query, or why it refuses the query.
pub open spec fn chosen(q: LogicalQueryView, s: Sizing) -> Result<Choice, Rejection> {
    if q.group_by.len() > 0 && q.alert.lt is Some {
        Err(Rejection::LowAlertOnGroups)
    } else {
        match q.measure {
            Measure::Count => choice_for_counts(q, s),
            Measure::Sum { .. } => choice_for_counts(q, s),
            Measure::HeavyHitters { limit, .. } => Ok(choice_for_heavy_hitters(q, s, limit)),
            Measure::DistinctCount { .. } => choice_for_distinct(q, s),
            Measure::Entropy { .. } => choice_for_entropy(q, s),
            Measure::Quantile { q: at, .. } => choice_for_quantile(q, s, at),
        }
    }
}

pub open spec fn groups_by_ip(group_by: Seq<Field>) -> bool {
    group_by.contains(Field::SrcIp) || group_by.contains(Field::DstIp)
}

/// Memory of all sketches alive at once.
pub open spec fn memory_needed(q: LogicalQueryView, c: Choice) -> u64 {
    capped(stage_bytes(c.stages, AVG_KEY_BYTES as nat) * resident(q))
}

/// The answer to a query: the choice if it fits into the memory budget.
pub open spec fn answer(q: LogicalQueryView, s: Sizing) -> Result<Choice, Rejection> {
    match chosen(q, s) {
        Err(e) => Err(e),
        Ok(c) => if memory_needed(q, c) > q.max_memory_bytes {
            Err(
                Rejection::OverBudget {
                    needed: memory_needed(q, c),
                    buckets: q.window.buckets() as usize,
                    budget: q.max_memory_bytes,
                },
            )
        } else {
            Ok(
                Choice {
                    warnings: c.warnings + one_warning(
                        groups_by_ip(q.group_by),
                        Warning::RawIpLabels,
                    ),
                    ..c
                },
            )
        },
    }
}

impl PhysicalPlan {
    /// This is the plan of a choice.
    pub open spec fn realizes(self, q: LogicalQueryView, c: Choice) -> bool {
        &&& made_of(self.sketch, c.stages)
        &&& self.window_buckets == q.window.buckets()
        &&& self.pending_window_capacity == q.window.buckets()
        &&& self.estimated_memory_bytes == memory_needed(q, c)
        &&& self.export_series_upper_bound == c.series
        &&& self.error_kind == c.kind
        &&& self.error_contract == c.contract
        &&& self.warnings@ == c.warnings
    }
}

fn clamp(n: usize, low: usize, high: usize) -> (r: usize)
    requires
        low <= high,
    ensures
        r == clamped(n as int, low as int, high as int),
{
    if n < low {
        low
    } else if n > high {
        high
    } else {
        n
    }
}

/// `4 * n`, moved into `low..=high`.
fn clamp_fourfold(n: usize, low: usize, high: usize) -> (r: usize)
    requires
        low <= high,
    ensures
        r == clamped(n * 4, low as int, high as int),
{
    if n > high {
        high
    } else if n > usize::MAX / 4 {
        high
    } else {
        clamp(n * 4, low, high)
    }
}

/// The sketch with the parts of a plan that depend on the measure alone.
struct Draft {
    sketch: PhysicalSketch,
    kind: ErrorKind,
    contract: ErrorContract,
    series: usize,
    warnings: Vec<Warning>,
}

impl Draft {
    spec fn drafts(self, c: Choice) -> bool {
        &&& made_of(self.sketch, c.stages)
        &&& self.kind == c.kind
        &&& self.contract == c.contract
        &&& self.series == c.series
        &&& self.warnings@ == c.warnings
    }
}

spec fn drafted(r: Result<Draft, Rejection>, c: Result<Choice, Rejection>) -> bool {
    match c {
        Ok(c) => r is Ok && r->Ok_0.drafts(c),
        Err(e) => r is Err && r->Err_0 == e,
    }
}

fn draft_counts(query: &LogicalQuery, sizing: &Sizing) -> (r: Result<Draft, Rejection>)
    ensures
        drafted(r, choice_for_counts(query@, *sizing)),
{
    if !query.error.epsilon.within_open_unit() || !query.error.delta.within_open_unit() {
        return Err(Rejection::ErrorRange);
    }
    if query.error.delta.le(Float64 { bits: HASH_FAILURE_FLOOR_BITS }) {
        return Err(Rejection::HashFailureFloor);
    }
    let capacity: usize = clamp_fourfold(query.export.max_series, 256, 65_536);
    let stages = vec![
        PhysicalSketch::SpaceSaving { capacity },
        PhysicalSketch::CountMin {
            width: sizing.width,
            depth: sizing.depth,
            conservative_update: true,
        },
    ];
    let ghost c = choice_for_counts(query@, *sizing)->Ok_0;
    assert(stages@ =~= c.stages);
    let warnings: Vec<Warning> = Vec::new();
    assert(warnings@ =~= c.warnings);
    Ok(
        Draft {
            sketch: PhysicalSketch::Composite { stages },
            kind: ErrorKind::AdditiveOverestimate,
            contract: ErrorContract::Counted { tracker_capacity: capacity },
            series: query.export.max_series,
            warnings,
        },
    )
}

fn draft_heavy_hitters(query: &LogicalQuery, sizing: &Sizing, limit: usize) -> (r: Draft)
    ensures
        r.drafts(choice_for_heavy_hitters(query@, *sizing, limit)),
{
    let max_series: usize = query.export.max_series;
    let mut warnings: Vec<Warning> = Vec::new();
    if limit > max_series {
        warnings.push(Warning::LimitOverExport { limit, max_series });
    }
    let ghost c = choice_for_heavy_hitters(query@, *sizing, limit);
    assert(warnings@ =~= c.warnings);
    let by_limit: usize = clamp_fourfold(limit, 256, 1_048_576);
    let by_error: usize = clamp(sizing.inverse_epsilon, 256, 1_048_576);
    let capacity: usize = if by_limit > by_error {
        by_limit
    } else {
        by_error
    };
    Draft {
        sketch: PhysicalSketch::SpaceSaving { capacity },
        kind: ErrorKind::CandidateUpperBound,
        contract: ErrorContract::Ranked { capacity },
        series: if limit <= max_series {
            limit
        } else {
            max_series
        },
        warnings,
    }
}

/// How many groups the memory budget holds.
fn count_budgeted_groups(query: &LogicalQuery, precision: u8) -> (r: u64)
    requires
        query.window.slide_nanos > 0,
        query.window.buckets() <= usize::MAX,
        resident(query@) <= u64::MAX,
    ensures
        r == budgeted_groups(query@, precision),
{
    let buckets: u64 = query.window.bucket_count() as u64;
    let share: u64 = query.max_memory_bytes / (2 * buckets + 1);
    if share <= 64 {
        return 0;
    }
    let left: u64 = share - 64;
    let registers_held: u64 = register_count(precision);
    if registers_held > u64::MAX - 144 {
        proof {
            let cost = group_cost(precision);
            assert(cost > left);
            assert(left as nat / cost == 0) by (nonlinear_arith)
                requires
                    0 <= left < cost,
            ;
        }
        0
    } else {
        left / (registers_held + 144)
    }
}

fn draft_distinct(query: &LogicalQuery, sizing: &Sizing) -> (r: Result<Draft, Rejection>)
    requires
        query.window.slide_nanos > 0,
        query.window.buckets() <= usize::MAX,
        resident(query@) <= u64::MAX,
    ensures
        drafted(r, choice_for_distinct(query@, *sizing)),
{
    let precision: u8 = sizing.precision;
    let mut warnings: Vec<Warning> = Vec::new();
    if sizing.precision_is_short {
        warnings.push(Warning::PrecisionShort { precision });
    }
    let ghost short = one_warning(
        sizing.precision_is_short,
        Warning::PrecisionShort { precision },
    );
    assert(warnings@ =~= short);
    if query.group_by.len() == 0 {
        return Ok(
            Draft {
                sketch: PhysicalSketch::HyperLogLog { precision },
                kind: ErrorKind::Relative,
                contract: ErrorContract::Distinct { precision },
                series: 1,
                warnings,
            },
        );
    }
    let max_series: usize = query.export.max_series;
    let preferred: usize = clamp_fourfold(max_series, 1_024, 65_536);
    let budgeted: u64 = count_budgeted_groups(query, precision);
    let minimum: usize = if max_series <= preferred {
        max_series
    } else {
        preferred
    };
    if budgeted < minimum as u64 {
        return Err(
            Rejection::TooFewGroups { budgeted, buckets: query.window.bucket_count(), minimum },
        );
    }
    let max_keys: usize = if preferred as u64 <= budgeted {
        preferred
    } else {
        budgeted as usize
    };
    if max_keys < preferred {
        warnings.push(Warning::RetentionReduced { preferred, max_keys });
    }
    let ghost c = choice_for_distinct(query@, *sizing)->Ok_0;
    assert(warnings@ =~= c.warnings);
    Ok(
        Draft {
            sketch: PhysicalSketch::HllMap { max_keys, precision },
            kind: ErrorKind::Relative,
            contract: ErrorContract::DistinctByGroup { precision, max_keys },
            series: if max_series <= max_keys {
                max_series
            } else {
                max_keys
            },
            warnings,
        },
    )
}

fn draft_entropy(query: &LogicalQuery, sizing: &Sizing) -> (r: Result<Draft, Rejection>)
    ensures
        drafted(r, choice_for_entropy(query@, *sizing)),
{
    if query.group_by.len() > 0 {
        return Err(Rejection::GroupedEntropy);
    }
    let capacity: usize = clamp(sizing.inverse_epsilon, 256, 65_536);
    let stages = vec![
        PhysicalSketch::SpaceSaving { capacity },
        PhysicalSketch::HyperLogLog { precision: ENTROPY_PRECISION },
    ];
    let ghost c = choice_for_entropy(query@, *sizing)->Ok_0;
    assert(stages@ =~= c.stages);
    let warnings: Vec<Warning> = Vec::new();
    assert(warnings@ =~= c.warnings);
    Ok(
        Draft {
            sketch: PhysicalSketch::Composite { stages },
            kind: ErrorKind::Heuristic,
            contract: ErrorContract::Entropy { capacity, precision: ENTROPY_PRECISION },
            series: 1,
            warnings,
        },
    )
}

fn draft_quantile(query: &LogicalQuery, sizing: &Sizing, at: Float64) -> (r: Result<
    Draft,
    Rejection,
>)
    ensures
        drafted(r, choice_for_quantile(query@, *sizing, at)),
{
    if query.group_by.len() > 0 {
        return Err(Rejection::GroupedQuantile);
    }
    if !at.within_closed_unit() {
        return Err(Rejection::QuantileRange);
    }
    let k: usize = sizing.k;
    let mut warnings: Vec<Warning> = Vec::new();
    if sizing.k_is_short {
        warnings.push(Warning::RankShort { k });
    }
    let ghost c = choice_for_quantile(query@, *sizing, at)->Ok_0;
    assert(warnings@ =~= c.warnings);
    Ok(
        Draft {
            sketch: PhysicalSketch::Kll { k },
            kind: ErrorKind::RankError,
            contract: ErrorContract::Rank { k },
            series: 1,
            warnings,
        },
    )
}

fn draft(query: &LogicalQuery, sizing: &Sizing) -> (r: Result<Draft, Rejection>)
    requires
        query.window.slide_nanos > 0,
        query.window.buckets() <= usize::MAX,
        resident(query@) <= u64::MAX,
    ensures
        drafted(r, chosen(query@, *sizing)),
{
    if query.group_by.len() > 0 && query.alert.lt.is_some() {
        return Err(Rejection::LowAlertOnGroups);
    }
    match query.measure {
        Measure::Count => draft_counts(query, sizing),
        Measure::Sum { .. } => draft_counts(query, sizing),
        Measure::HeavyHitters { limit, .. } => Ok(draft_heavy_hitters(query, sizing, limit)),
        Measure::DistinctCount { .. } => draft_distinct(query, sizing),
        Measure::Entropy { .. } => draft_entropy(query, sizing),
        Measure::Quantile { q, .. } => draft_quantile(query, sizing, q),
    }
}

/// Memory of a sketch made of one or two stages.
proof fn lemma_made_of_bytes(sketch: PhysicalSketch, stages: Seq<PhysicalSketch>, key: nat)
    requires
        made_of(sketch, stages),
        stages.len() == 1 || stages.len() == 2,
    ensures
        sketch.bytes(key) == stage_bytes(stages, key),
{
    if stages.len() == 1 {
        reveal_with_fuel(stage_bytes, 2);
    }
}

fn lists_ip(group_by: &Vec<Field>) -> (r: bool)
    ensures
        r == groups_by_ip(group_by@),
{
    let mut i: usize = 0;
    while i < group_by.len()
        invariant
            i <= group_by@.len(),
            forall|j: int|
                0 <= j < i ==> group_by@[j] != Field::SrcIp && group_by@[j] != Field::DstIp,
        decreases group_by@.len() - i,
    {
        let f = group_by[i];
        if f == Field::SrcIp || f == Field::DstIp {
            assert(group_by@[i as int] == f);
            return true;
        }
        i += 1;
    }
    false
}

/// Plan a query, or refuse it. Seeds of the hash do not change a plan.
pub fn plan(query: LogicalQuery, hash: &HashSpec, sizing: &Sizing) -> (r: Result<Plan, PlanError>)
    requires
        query.window.slide_nanos > 0,
        query.window.buckets() <= usize::MAX,
        resident(query@) <= u64::MAX,
    ensures
        match answer(query@, *sizing) {
            Ok(c) => {
                &&& r is Ok
                &&& r->Ok_0.query == query
                &&& r->Ok_0.physical.realizes(query@, c)
            },
            Err(e) => {
                &&& r is Err
                &&& r->Err_0->name@ == query@.name
                &&& r->Err_0->reason == e
            },
        },
{
    let _ = hash;
    let buckets: usize = query.window.bucket_count();
    let d = match draft(&query, sizing) {
        Ok(d) => d,
        Err(reason) => {
            return Err(PlanError::Rejected { name: query.name, reason });
        },
    };
    let ghost c = chosen(query@, *sizing)->Ok_0;
    let per_bucket: u64 = d.sketch.estimated_memory_bytes(AVG_KEY_BYTES);
    let alive: u64 = 2 * buckets as u64 + 1;
    proof {
        lemma_made_of_bytes(d.sketch, c.stages, AVG_KEY_BYTES as nat);
        let exact = stage_bytes(c.stages, AVG_KEY_BYTES as nat);
        assert(per_bucket as nat * alive as nat <= u64::MAX as nat * u64::MAX as nat)
            by (nonlinear_arith)
            requires
                per_bucket <= u64::MAX,
                alive <= u64::MAX,
        ;
        if exact > u64::MAX {
            assert(exact * alive as nat >= exact) by (nonlinear_arith)
                requires
                    alive >= 1,
            ;
            assert(per_bucket as nat * alive as nat >= per_bucket) by (nonlinear_arith)
                requires
                    alive >= 1,
            ;
        }
    }
    let product: u128 = per_bucket as u128 * alive as u128;
    let needed: u64 = if product > u64::MAX as u128 {
        u64::MAX
    } else {
        product as u64
    };
    assert(needed == memory_needed(query@, c));
    if needed > query.max_memory_bytes {
        let budget: u64 = query.max_memory_bytes;
        return Err(
            PlanError::Rejected {
                name: query.name,
                reason: Rejection::OverBudget { needed, buckets, budget },
            },
        );
    }
    let mut warnings = d.warnings;
    if lists_ip(&query.group_by) {
        warnings.push(Warning::RawIpLabels);
    }
    assert(warnings@ =~= c.warnings + one_warning(
        groups_by_ip(query@.group_by),
        Warning::RawIpLabels,
    ));
    Ok(
        Plan {
            query,
            physical: PhysicalPlan {
                sketch: d.sketch,
                window_buckets: buckets,
                pending_window_capacity: buckets,
                estimated_memory_bytes: needed,
                export_series_upper_bound: d.series,
                error_kind: d.kind,
                error_contract: d.contract,
                warnings,
            },
        },
    )
}

// ---------------------------------------------------------------------------
// Explaining
// ---------------------------------------------------------------------------

/// Numbers in square brackets.
pub open spec fn listed(numbers: Seq<nat>) -> Seq<char> {
    "["@ + joined_texts(numbers.map_values(|n: nat| dec(n)), ", "@) + "]"@
}

pub open spec fn port_numbers(ports: Seq<u16>) -> Seq<nat> {
    ports.map_values(|p: u16| p as nat)
}

pub open spec fn interface_numbers(interfaces: Seq<u32>) -> Seq<nat> {
    interfaces.map_values(|p: u32| p as nat)
}

/// The constraints of a filter, as shown to people.
pub open spec fn filter_parts(f: PredicateView) -> Seq<Seq<char>> {
    let a = if f.protocol is Some {
        seq!["protocol="@ + protocol::shown(f.protocol->0)]
    } else {
        Seq::empty()
    };
    let b = if f.dst_ports.len() > 0 {
        a.push("dst.port in "@ + listed(port_numbers(f.dst_ports)))
    } else {
        a
    };
    let c = if f.src_ports.len() > 0 {
        b.push("src.port in "@ + listed(port_numbers(f.src_ports)))
    } else {
        b
    };
    if f.interfaces.len() > 0 {
        c.push("interface in "@ + listed(interface_numbers(f.interfaces)))
    } else {
        c
    }
}

/// What a measure is over, as shown to people.
pub open spec fn measure_detail(m: Measure) -> Seq<char> {
    match m {
        Measure::Count => Seq::empty(),
        Measure::Sum { value } => "("@ + value.text() + ")"@,
        Measure::HeavyHitters { value, limit } => "("@ + value.text() + ", limit="@ + dec(
            limit as nat,
        ) + ")"@,
        Measure::DistinctCount { field } => "("@ + field.text() + ")"@,
        Measure::Entropy { field } => "("@ + field.text() + ")"@,
        Measure::Quantile { field, .. } => "("@ + field.text() + ")"@,
    }
}

pub open spec fn field_names(fields: Seq<Field>) -> Seq<Seq<char>> {
    fields.map_values(|f: Field| f.text())
}

/// The thresholds of an alert, as shown to people.
pub open spec fn alert_text(q: LogicalQueryView, shown: ShownNumbers) -> Seq<char> {
    let gt = "estimate > "@ + shown.alert_gt@;
    let lt = "estimate < "@ + shown.alert_lt@;
    if q.alert.gt is Some && q.alert.lt is Some {
        gt + " or "@ + lt
    } else if q.alert.gt is Some {
        gt
    } else {
        lt
    }
}

/// The query, as shown to people.
pub open spec fn query_explained(q: LogicalQueryView, shown: ShownNumbers) -> Seq<char> {
    let a = "Logical query:\n"@ + "  name:     "@ + q.name + "\n"@;
    let b = if q.group_by.len() > 0 {
        a + "  group by: "@ + joined_texts(field_names(q.group_by), ", "@) + "\n"@
    } else {
        a
    };
    let c = b + "  measure:  "@ + q.measure.text() + measure_detail(q.measure) + "\n"@
        + "  window:   "@ + humanized(q.window.size_nanos as nat) + " slide "@ + humanized(
        q.window.slide_nanos as nat,
    ) + "\n"@;
    let d = if q.filter != no_filter() {
        c + "  filter:   "@ + joined_texts(filter_parts(q.filter), " and "@) + "\n"@
    } else {
        c
    };
    if q.alert.gt is Some || q.alert.lt is Some {
        d + "  alert if: "@ + alert_text(q, shown) + "\n"@
    } else {
        d
    }
}

/// The first warnings, as shown to people, after what was written before.
pub open spec fn warned(before: Seq<char>, warnings: Seq<Warning>, shown: ShownNumbers) -> Seq<char>
    decreases warnings.len(),
{
    if warnings.len() == 0 {
        before
    } else {
        warned(before, warnings.drop_last(), shown) + "  - "@ + warnings.last().text(shown) + "\n"@
    }
}

/// The plan, as shown to people.
pub open spec fn explained(q: LogicalQueryView, p: PhysicalPlan, shown: ShownNumbers) -> Seq<char> {
    let a = query_explained(q, shown) + "\nPhysical plan:\n"@ + "  "@ + p.sketch.description()
        + "\n"@ + "  "@ + dec(p.window_buckets as nat) + " window bucket(s) of "@ + humanized(
        q.window.slide_nanos as nat,
    ) + "\n"@ + "  estimated memory: "@ + shown_bytes(p.estimated_memory_bytes as nat) + " (budget "@
        + shown_bytes(q.max_memory_bytes as nat) + ")\n"@ + "  export series upper bound: "@ + dec(
        p.export_series_upper_bound as nat,
    ) + "\n"@ + "  error model: "@ + p.error_kind.text() + " — "@ + p.error_contract.text(shown)
        + "\n"@;
    if p.warnings@.len() > 0 {
        warned(a + "\nWarnings:\n"@, p.warnings@, shown)
    } else {
        a
    }
}

fn list_numbers(texts_listed: &Vec<String>) -> (r: String)
    ensures
        r@ == "["@ + joined_texts(texts(texts_listed@), ", "@) + "]"@,
{
    let mut out = "[".to_owned();
    out.append(join(texts_listed, ", ").as_str());
    out.append("]");
    out
}

fn list_ports(ports: &Vec<u16>) -> (r: String)
    ensures
        r@ == listed(port_numbers(ports@)),
{
    let mut shown: Vec<String> = Vec::new();
    let mut i: usize = 0;
    while i < ports.len()
        invariant
            i <= ports@.len(),
            shown@.len() == i,
            forall|j: int| 0 <= j < i ==> (#[trigger] shown@[j])@ == dec(ports@[j] as nat),
        decreases ports@.len() - i,
    {
        shown.push(decimal(ports[i] as u64));
        i += 1;
    }
    assert(texts(shown@) =~= port_numbers(ports@).map_values(|n: nat| dec(n)));
    list_numbers(&shown)
}

fn list_interfaces(interfaces: &Vec<u32>) -> (r: String)
    ensures
        r@ == listed(interface_numbers(interfaces@)),
{
    let mut shown: Vec<String> = Vec::new();
    let mut i: usize = 0;
    while i < interfaces.len()
        invariant
            i <= interfaces@.len(),
            shown@.len() == i,
            forall|j: int| 0 <= j < i ==> (#[trigger] shown@[j])@ == dec(interfaces@[j] as nat),
        decreases interfaces@.len() - i,
    {
        shown.push(decimal(interfaces[i] as u64));
        i += 1;
    }
    assert(texts(shown@) =~= interface_numbers(interfaces@).map_values(|n: nat| dec(n)));
    list_numbers(&shown)
}

fn explain_filter(query: &LogicalQuery) -> (r: String)
    ensures
        r@ == joined_texts(filter_parts(query.filter@), " and "@),
{
    let mut parts: Vec<String> = Vec::new();
    let ghost f = query.filter@;
    if let Some(p) = query.filter.protocol {
        let mut part = "protocol=".to_owned();
        part.append(protocol::name(p).as_str());
        parts.push(part);
    }
    let ghost a = if f.protocol is Some {
        seq!["protocol="@ + protocol::shown(f.protocol->0)]
    } else {
        Seq::empty()
    };
    assert(texts(parts@) =~= a);
    let ghost before_ports = parts@;
    if query.filter.dst_ports.len() > 0 {
        let mut part = "dst.port in ".to_owned();
        part.append(list_ports(&query.filter.dst_ports).as_str());
        parts.push(part);
        assert(texts(parts@) =~= texts(before_ports).push(part@));
    }
    let ghost before_src = parts@;
    if query.filter.src_ports.len() > 0 {
        let mut part = "src.port in ".to_owned();
        part.append(list_ports(&query.filter.src_ports).as_str());
        parts.push(part);
        assert(texts(parts@) =~= texts(before_src).push(part@));
    }
    let ghost before_interfaces = parts@;
    if query.filter.interfaces.len() > 0 {
        let mut part = "interface in ".to_owned();
        part.append(list_interfaces(&query.filter.interfaces).as_str());
        parts.push(part);
        assert(texts(parts@) =~= texts(before_interfaces).push(part@));
    }
    assert(texts(parts@) =~= filter_parts(f));
    join(&parts, " and ")
}

fn explain_measure(measure: &Measure) -> (r: String)
    ensures
        r@ == measure_detail(*measure),
{
    match measure {
        Measure::Count => String::new(),
        Measure::Sum { value } => {
            let mut out = "(".to_owned();
            out.append(value.name());
            out.append(")");
            out
        },
        Measure::HeavyHitters { value, limit } => {
            let mut out = "(".to_owned();
            out.append(value.name());
            out.append(", limit=");
            push_decimal(&mut out, *limit as u64);
            out.append(")");
            out
        },
        Measure::DistinctCount { field } => {
            let mut out = "(".to_owned();
            out.append(field.name());
            out.append(")");
            out
        },
        Measure::Entropy { field } => {
            let mut out = "(".to_owned();
            out.append(field.name());
            out.append(")");
            out
        },
        Measure::Quantile { field, .. } => {
            let mut out = "(".to_owned();
            out.append(field.name());
            out.append(")");
            out
        },
    }
}

fn explain_groups(group_by: &Vec<Field>) -> (r: String)
    ensures
        r@ == joined_texts(field_names(group_by@), ", "@),
{
    let mut names: Vec<String> = Vec::new();
    let mut i: usize = 0;
    while i < group_by.len()
        invariant
            i <= group_by@.len(),
            names@.len() == i,
            forall|j: int| 0 <= j < i ==> (#[trigger] names@[j])@ == group_by@[j].text(),
        decreases group_by@.len() - i,
    {
        names.push(group_by[i].name().to_owned());
        i += 1;
    }
    assert(texts(names@) =~= field_names(group_by@));
    join(&names, ", ")
}

fn explain_query(q: &LogicalQuery, shown: &ShownNumbers) -> (r: String)
    ensures
        r@ == query_explained(q@, *shown),
{
    let mut out = "Logical query:\n".to_owned();
    out.append("  name:     ");
    out.append(q.name.as_str());
    out.append("\n");
    if q.group_by.len() > 0 {
        out.append("  group by: ");
        out.append(explain_groups(&q.group_by).as_str());
        out.append("\n");
    }
    out.append("  measure:  ");
    out.append(q.measure.name());
    out.append(explain_measure(&q.measure).as_str());
    out.append("\n");
    out.append("  window:   ");
    out.append(humanize_nanos(q.window.size_nanos).as_str());
    out.append(" slide ");
    out.append(humanize_nanos(q.window.slide_nanos).as_str());
    out.append("\n");
    if !q.filter.is_empty() {
        out.append("  filter:   ");
        out.append(explain_filter(q).as_str());
        out.append("\n");
    }
    if !q.alert.is_empty() {
        let mut alert = String::new();
        if q.alert.gt.is_some() {
            alert = "estimate > ".to_owned();
            alert.append(shown.alert_gt.as_str());
        }
        if q.alert.lt.is_some() {
            let mut low = "estimate < ".to_owned();
            low.append(shown.alert_lt.as_str());
            if q.alert.gt.is_some() {
                alert.append(" or ");
                alert.append(low.as_str());
            } else {
                alert = low;
            }
        }
        out.append("  alert if: ");
        out.append(alert.as_str());
        out.append("\n");
    }
    out
}

/// The plan, for operators.
pub fn explain(plan: &Plan, shown: &ShownNumbers) -> (r: String)
    ensures
        r@ == explained(plan.query@, plan.physical, *shown),
{
    let q = &plan.query;
    let p = &plan.physical;
    let mut out = explain_query(q, shown);
    out.append("\nPhysical plan:\n");
    out.append("  ");
    out.append(p.sketch.describe().as_str());
    out.append("\n");
    out.append("  ");
    push_decimal(&mut out, p.window_buckets as u64);
    out.append(" window bucket(s) of ");
    out.append(humanize_nanos(q.window.slide_nanos).as_str());
    out.append("\n");
    out.append("  estimated memory: ");
    out.append(format_bytes(p.estimated_memory_bytes).as_str());
    out.append(" (budget ");
    out.append(format_bytes(q.max_memory_bytes).as_str());
    out.append(")\n");
    out.append("  export series upper bound: ");
    push_decimal(&mut out, p.export_series_upper_bound as u64);
    out.append("\n");
    out.append("  error model: ");
    out.append(p.error_kind.name());
    out.append(" — ");
    out.append(p.error_contract.describe(shown).as_str());
    out.append("\n");
    if p.warnings.len() > 0 {
        out.append("\nWarnings:\n");
        let ghost before = out@;
        let mut i: usize = 0;
        assert(p.warnings@.take(0) =~= Seq::<Warning>::empty());
        while i < p.warnings.len()
            invariant
                i <= p.warnings@.len(),
                out@ == warned(before, p.warnings@.take(i as int), *shown),
            decreases p.warnings@.len() - i,
        {
            assert(p.warnings@.take(i + 1).drop_last() =~= p.warnings@.take(i as int));
            out.append("  - ");
            out.append(p.warnings[i].describe(shown).as_str());
            out.append("\n");
            i += 1;
        }
        assert(p.warnings@.take(i as int) =~= p.warnings@);
    }
    out
}

// ---------------------------------------------------------------------------
// Laws
// ---------------------------------------------------------------------------

/// A plan stays within the memory budget, and the budget covers every sketch
/// that can be alive at once: open buckets, completed windows and one copy.
pub proof fn law_plan_fits_the_budget(q: LogicalQueryView, s: Sizing)
    requires
        answer(q, s) is Ok,
        q.max_memory_bytes < u64::MAX,
    ensures
        stage_bytes(answer(q, s)->Ok_0.stages, AVG_KEY_BYTES as nat) * (2 * q.window.buckets() + 1)
            <= q.max_memory_bytes,
{
}

/// No plan exports more series than the query allows.
pub proof fn law_plan_respects_the_series_cap(q: LogicalQueryView, s: Sizing)
    requires
        answer(q, s) is Ok,
        q.export.max_series > 0,
    ensures
        answer(q, s)->Ok_0.series <= q.export.max_series,
{
}

/// A heavy-hitter plan keeps four times as many keys as it ranks and at least
/// 1 / epsilon of them, up to its largest capacity.
pub proof fn law_heavy_hitter_capacity(q: LogicalQueryView, s: Sizing, value: Field, limit: usize)
    requires
        answer(q, s) is Ok,
        q.measure == (Measure::HeavyHitters { value, limit }),
    ensures
        answer(q, s)->Ok_0.stages == seq![
            PhysicalSketch::SpaceSaving { capacity: heavy_capacity(s, limit) },
        ],
        heavy_capacity(s, limit) >= smaller(s.inverse_epsilon as int, 1_048_576),
        heavy_capacity(s, limit) >= smaller(limit * 4, 1_048_576),
        256 <= heavy_capacity(s, limit) <= 1_048_576,
{
}

/// A plan of distinct counts by group keeps at least as many groups as it may
/// export, up to its largest map.
pub proof fn law_retention_covers_exports(q: LogicalQueryView, s: Sizing, field: Field)
    requires
        answer(q, s) is Ok,
        q.measure == (Measure::DistinctCount { field }),
        q.group_by.len() > 0,
    ensures
        answer(q, s)->Ok_0.stages.len() == 1,
        answer(q, s)->Ok_0.stages[0] is HllMap,
        answer(q, s)->Ok_0.stages[0]->max_keys >= smaller(q.export.max_series as int, 65_536),
        answer(q, s)->Ok_0.stages[0]->HllMap_precision == s.precision,
{
}

/// A lower alert threshold is never planned on groups, and a measure that has
/// no sketch by group is never planned on groups.
pub proof fn law_unsound_groupings_are_refused(q: LogicalQueryView, s: Sizing)
    requires
        q.group_by.len() > 0,
    ensures
        q.alert.lt is Some ==> answer(q, s) == Err::<Choice, Rejection>(
            Rejection::LowAlertOnGroups,
        ),
        q.measure is Entropy ==> answer(q, s) is Err,
        q.measure is Quantile ==> answer(q, s) is Err,
{
}

} // verus!
