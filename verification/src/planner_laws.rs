//! What a plan is worth: for every measure the sketch has the size that the
//! query's error asks for, and what the plan says of itself is true of its
//! sketch.

use vstd::arithmetic::power2::pow2;
use vstd::prelude::*;
use vstd::string::*;

use crate::field::Field;
use crate::human::shown_bytes;
use crate::ir::logical::{humanized, LogicalQueryView};
use crate::ir::physical::{stage_bytes, PhysicalSketch, HASH_ENTRY_OVERHEAD};
use crate::mentions::{lemma_mentions, lemma_mentions_more, mentions};
use crate::planner::{
    answer, chosen, explained, query_explained, resident, warned, ErrorContract, ErrorKind,
    PhysicalPlan, Rejection, ShownNumbers, Sizing, Warning, HASH_FAILURE_FLOOR_BITS,
};
use crate::text::dec;

verus! {

/// This is the plan of a query.
pub open spec fn is_plan(q: LogicalQueryView, s: Sizing, p: PhysicalPlan) -> bool {
    answer(q, s) is Ok && p.realizes(q, answer(q, s)->Ok_0)
}

/// A plan for counts and sums promises epsilon and delta, and holds a Count-Min
/// table that delivers both: as many columns as epsilon asks for and as many
/// rows as delta asks for. The groups that it lists are tracked, four times as
/// many as are exported, within the limits of a tracker.
pub proof fn law_count_plans_deliver_their_error(q: LogicalQueryView, s: Sizing, p: PhysicalPlan)
    requires
        is_plan(q, s, p),
        q.measure is Count || q.measure is Sum,
    ensures
        p.sketch matches PhysicalSketch::Composite { stages } && {
            &&& stages@.len() == 2
            &&& stages@[0] matches PhysicalSketch::SpaceSaving { capacity } && {
                &&& 256 <= capacity <= 65_536
                &&& capacity >= 4 * q.export.max_series || capacity == 65_536
                &&& capacity <= 4 * q.export.max_series || capacity == 256
                &&& p.error_contract == (ErrorContract::Counted { tracker_capacity: capacity })
            }
            &&& stages@[1] matches PhysicalSketch::CountMin { width, depth, conservative_update }
                && {
                &&& width == s.width
                &&& depth == s.depth
                &&& conservative_update
            }
        },
        p.error_kind == ErrorKind::AdditiveOverestimate,
        p.export_series_upper_bound == q.export.max_series,
        0 < q.error.epsilon.bits < 0x3FF0_0000_0000_0000,
        0 < q.error.delta.bits < 0x3FF0_0000_0000_0000,
        q.error.delta.bits > HASH_FAILURE_FLOOR_BITS,
{
}

/// A heavy-hitter plan tracks at least 1 / epsilon keys and four times as many
/// as it ranks, up to the largest tracker, and exports no more than it ranks.
pub proof fn law_heavy_hitter_plans_deliver_their_error(
    q: LogicalQueryView,
    s: Sizing,
    p: PhysicalPlan,
)
    requires
        is_plan(q, s, p),
        q.measure is HeavyHitters,
    ensures
        p.sketch matches PhysicalSketch::SpaceSaving { capacity } && {
            &&& 256 <= capacity <= 1_048_576
            &&& capacity >= s.inverse_epsilon || capacity == 1_048_576
            &&& capacity >= 4 * q.measure->limit || capacity == 1_048_576
            &&& capacity <= s.inverse_epsilon || capacity <= 4 * q.measure->limit || capacity == 256
            &&& p.error_contract == (ErrorContract::Ranked { capacity })
        },
        p.error_kind == ErrorKind::CandidateUpperBound,
        p.export_series_upper_bound <= q.export.max_series,
        p.export_series_upper_bound <= q.measure->limit,
        p.export_series_upper_bound == q.export.max_series || p.export_series_upper_bound
            == q.measure->limit,
        q.measure->limit > q.export.max_series ==> p.warnings@.contains(
            Warning::LimitOverExport {
                limit: q.measure->limit,
                max_series: q.export.max_series,
            },
        ),
{
    let limit = q.measure->limit;
    if limit > q.export.max_series {
        let w = Warning::LimitOverExport { limit, max_series: q.export.max_series };
        assert(p.warnings@[0] == w);
    }
}

/// A plan for distinct counts has the precision that epsilon asks for; where
/// that is out of reach, it says so. By group it keeps as many groups as it
/// exports, no more than the budget holds, and says where that is fewer than
/// it would like to keep.
pub proof fn law_distinct_plans_deliver_their_error(
    q: LogicalQueryView,
    s: Sizing,
    p: PhysicalPlan,
)
    requires
        is_plan(q, s, p),
        q.measure is DistinctCount,
    ensures
        p.error_kind == ErrorKind::Relative,
        s.precision_is_short ==> p.warnings@.contains(
            Warning::PrecisionShort { precision: s.precision },
        ),
        q.group_by.len() == 0 ==> {
            &&& p.sketch == (PhysicalSketch::HyperLogLog { precision: s.precision })
            &&& p.error_contract == (ErrorContract::Distinct { precision: s.precision })
            &&& p.export_series_upper_bound == 1
        },
        q.group_by.len() > 0 ==> (p.sketch matches PhysicalSketch::HllMap { max_keys, precision }
            && {
            &&& precision == s.precision
            &&& max_keys <= 65_536
            &&& max_keys >= q.export.max_series || max_keys >= 65_536
            &&& p.error_contract == (ErrorContract::DistinctByGroup { precision, max_keys })
            &&& p.export_series_upper_bound <= q.export.max_series
            &&& p.export_series_upper_bound <= max_keys
            &&& max_keys < 1_024 ==> exists|preferred: usize| #[trigger]
                p.warnings@.contains(Warning::RetentionReduced { preferred, max_keys })
        }),
{
    let short = Warning::PrecisionShort { precision: s.precision };
    if s.precision_is_short {
        assert(p.warnings@[0] == short);
    }
    if q.group_by.len() > 0 {
        let preferred = crate::planner::preferred_groups(q) as usize;
        let max_keys = p.sketch->max_keys;
        if max_keys < 1_024 {
            let at = if s.precision_is_short {
                1int
            } else {
                0int
            };
            assert(p.warnings@[at] == (Warning::RetentionReduced { preferred, max_keys }));
            assert(p.warnings@.contains(Warning::RetentionReduced { preferred, max_keys }));
        }
    }
}

/// A plan for entropies tracks at least 1 / epsilon values, within the limits
/// of a tracker, and counts distinct values beside it. Only one series comes
/// out, and no single bound is promised.
pub proof fn law_entropy_plans(q: LogicalQueryView, s: Sizing, p: PhysicalPlan)
    requires
        is_plan(q, s, p),
        q.measure is Entropy,
    ensures
        q.group_by.len() == 0,
        p.sketch matches PhysicalSketch::Composite { stages } && {
            &&& stages@.len() == 2
            &&& stages@[0] matches PhysicalSketch::SpaceSaving { capacity } && {
                &&& 256 <= capacity <= 65_536
                &&& capacity >= s.inverse_epsilon || capacity == 65_536
                &&& p.error_contract == (ErrorContract::Entropy { capacity, precision: 12 })
            }
            &&& stages@[1] == (PhysicalSketch::HyperLogLog { precision: 12 })
        },
        p.error_kind == ErrorKind::Heuristic,
        p.export_series_upper_bound == 1,
{
}

/// A plan for a quantile has the `k` that epsilon asks for; where that is out
/// of reach, it says so. The quantile lies within the unit interval.
pub proof fn law_quantile_plans_deliver_their_error(
    q: LogicalQueryView,
    s: Sizing,
    p: PhysicalPlan,
)
    requires
        is_plan(q, s, p),
        q.measure is Quantile,
    ensures
        q.group_by.len() == 0,
        p.sketch == (PhysicalSketch::Kll { k: s.k }),
        p.error_contract == (ErrorContract::Rank { k: s.k }),
        p.error_kind == ErrorKind::RankError,
        p.export_series_upper_bound == 1,
        q.measure->q.bits <= 0x3FF0_0000_0000_0000 || q.measure->q.bits == 0x8000_0000_0000_0000,
        s.k_is_short ==> p.warnings@.contains(Warning::RankShort { k: s.k }),
{
    if s.k_is_short {
        assert(p.warnings@[0] == (Warning::RankShort { k: s.k }));
    }
}

/// What a sketch holds, in bytes, with keys of 32 bytes.
pub open spec fn sketch_bytes(sketch: PhysicalSketch) -> nat {
    match sketch {
        PhysicalSketch::CountMin { width, depth, .. } => 8 * (width as nat * depth as nat) + 64,
        PhysicalSketch::SpaceSaving { capacity } => 96 * capacity as nat + 64,
        PhysicalSketch::HyperLogLog { precision } => pow2(precision as nat) + 64,
        PhysicalSketch::HllMap { max_keys, precision } => max_keys as nat * (pow2(precision as nat)
            + 80) + 64,
        PhysicalSketch::Kll { k } => 24 * k as nat + 64,
        _ => 0,
    }
}

proof fn lemma_stage(sketch: PhysicalSketch)
    requires
        sketch is CountMin || sketch is SpaceSaving || sketch is HyperLogLog || sketch is HllMap
            || sketch is Kll,
    ensures
        sketch.bytes(32) == sketch_bytes(sketch),
{
    match sketch {
        PhysicalSketch::CountMin { width, depth, .. } => {
            let cells = width as nat * depth as nat;
            assert(cells * 8 == 8 * cells);
        },
        PhysicalSketch::SpaceSaving { capacity } => {
            let each: nat = 32 + 16 + HASH_ENTRY_OVERHEAD as nat;
            assert(capacity as nat * each == 96 * capacity as nat) by (nonlinear_arith)
                requires
                    each == 96,
            ;
        },
        PhysicalSketch::HllMap { max_keys, precision } => {
            let a = pow2(precision as nat) + 32 + HASH_ENTRY_OVERHEAD as nat;
            assert(a == pow2(precision as nat) + 80);
        },
        PhysicalSketch::Kll { k } => {
            assert((k as nat * 3) * 8 == 24 * k as nat);
        },
        _ => {},
    }
}

proof fn lemma_stages(stages: Seq<PhysicalSketch>)
    requires
        1 <= stages.len() <= 2,
        forall|i: int|
            0 <= i < stages.len() ==> ((#[trigger] stages[i]) is CountMin || stages[i]
                is SpaceSaving || stages[i] is HyperLogLog || stages[i] is HllMap || stages[i]
                is Kll),
    ensures
        stages.len() == 1 ==> stage_bytes(stages, 32) == sketch_bytes(stages[0]),
        stages.len() == 2 ==> stage_bytes(stages, 32) == sketch_bytes(stages[0]) + sketch_bytes(
            stages[1],
        ),
{
    reveal_with_fuel(stage_bytes, 3);
    lemma_stage(stages[0]);
    if stages.len() == 2 {
        lemma_stage(stages[1]);
        assert(stages.drop_last() =~= seq![stages[0]]);
        assert(seq![stages[0]].drop_last() =~= Seq::<PhysicalSketch>::empty());
    } else {
        assert(stages.drop_last() =~= Seq::<PhysicalSketch>::empty());
    }
}

/// The memory of a plan is that of its sketch, for every open bucket, every
/// completed window that waits and one copy, and it stays within the budget.
pub proof fn law_plan_memory_is_that_of_its_sketches(
    q: LogicalQueryView,
    s: Sizing,
    p: PhysicalPlan,
)
    requires
        is_plan(q, s, p),
    ensures
        p.window_buckets == q.window.buckets(),
        p.pending_window_capacity == q.window.buckets(),
        p.estimated_memory_bytes <= q.max_memory_bytes,
        ({
            let alive = p.window_buckets + p.pending_window_capacity + 1;
            let each = match p.sketch {
                PhysicalSketch::Composite { stages } => sketch_bytes(stages@[0]) + sketch_bytes(
                    stages@[1],
                ),
                one => sketch_bytes(one),
            };
            &&& alive * each <= u64::MAX ==> p.estimated_memory_bytes == alive * each
            &&& alive * each > u64::MAX ==> p.estimated_memory_bytes == u64::MAX
        }),
{
    let c = answer(q, s)->Ok_0;
    lemma_stages(c.stages);
    let alive = (p.window_buckets + p.pending_window_capacity + 1) as nat;
    let each = stage_bytes(c.stages, 32);
    assert(alive == resident(q));
    assert(alive * each == each * alive) by (nonlinear_arith);
}

/// A query is refused only for a reason, and the reason is true of it.
pub proof fn law_refusals_have_their_reason(q: LogicalQueryView, s: Sizing)
    requires
        answer(q, s) is Err,
    ensures
        match answer(q, s)->Err_0 {
            Rejection::LowAlertOnGroups => q.group_by.len() > 0 && q.alert.lt is Some,
            Rejection::ErrorRange => {
                &&& q.measure is Count || q.measure is Sum
                &&& !(0 < q.error.epsilon.bits < 0x3FF0_0000_0000_0000) || !(0 < q.error.delta.bits
                    < 0x3FF0_0000_0000_0000)
            },
            Rejection::HashFailureFloor => {
                &&& q.measure is Count || q.measure is Sum
                &&& q.error.delta.bits <= HASH_FAILURE_FLOOR_BITS
            },
            Rejection::TooFewGroups { budgeted, buckets, minimum } => {
                &&& q.measure is DistinctCount
                &&& q.group_by.len() > 0
                &&& budgeted < minimum <= q.export.max_series
            },
            Rejection::GroupedEntropy => q.measure is Entropy && q.group_by.len() > 0,
            Rejection::GroupedQuantile => q.measure is Quantile && q.group_by.len() > 0,
            Rejection::QuantileRange => q.measure is Quantile && q.measure->q.bits
                > 0x3FF0_0000_0000_0000,
            Rejection::OverBudget { needed, buckets, budget } => {
                &&& needed > budget
                &&& budget == q.max_memory_bytes
            },
        },
{
    let budgeted = crate::planner::budgeted_groups(q, s.precision);
    let minimum = crate::planner::smaller(
        q.export.max_series as int,
        crate::planner::preferred_groups(q),
    );
    assert(minimum <= 65_536);
}

/// A query is refused wherever there is a reason, and taken otherwise if its
/// sketches fit into the budget.
pub proof fn law_sound_queries_are_planned(q: LogicalQueryView, s: Sizing)
    requires
        q.group_by.len() == 0 || q.alert.lt is None,
    ensures
        (q.measure is Count || q.measure is Sum) && 0 < q.error.epsilon.bits
            < 0x3FF0_0000_0000_0000 && HASH_FAILURE_FLOOR_BITS < q.error.delta.bits
            < 0x3FF0_0000_0000_0000 ==> answer(q, s) is Ok || answer(q, s)->Err_0 is OverBudget,
        q.measure is HeavyHitters ==> answer(q, s) is Ok || answer(q, s)->Err_0 is OverBudget,
        q.measure is DistinctCount && q.group_by.len() == 0 ==> answer(q, s) is Ok || answer(
            q,
            s,
        )->Err_0 is OverBudget,
        q.measure is Entropy && q.group_by.len() == 0 ==> answer(q, s) is Ok || answer(
            q,
            s,
        )->Err_0 is OverBudget,
        q.measure is Quantile && q.group_by.len() == 0 && q.measure->q.bits
            <= 0x3FF0_0000_0000_0000 ==> answer(q, s) is Ok || answer(q, s)->Err_0 is OverBudget,
{
}

/// A plan warns of raw addresses as labels exactly where it groups by one.
pub proof fn law_address_labels_are_warned_of(q: LogicalQueryView, s: Sizing, p: PhysicalPlan)
    requires
        is_plan(q, s, p),
    ensures
        p.warnings@.contains(Warning::RawIpLabels) <==> q.group_by.contains(Field::SrcIp)
            || q.group_by.contains(Field::DstIp),
{
    let c = chosen(q, s)->Ok_0;
    let by_ip = q.group_by.contains(Field::SrcIp) || q.group_by.contains(Field::DstIp);
    assert forall|i: int| 0 <= i < c.warnings.len() implies c.warnings[i]
        != Warning::RawIpLabels by {}
    if by_ip {
        assert(p.warnings@[c.warnings.len() as int] == Warning::RawIpLabels);
    } else {
        assert(p.warnings@ =~= c.warnings);
    }
}

// ---------------------------------------------------------------------------
// The explanation
// ---------------------------------------------------------------------------

proof fn lemma_warned(before: Seq<char>, warnings: Seq<Warning>, shown: ShownNumbers, part: Seq<
    char,
>)
    requires
        mentions(before, part),
    ensures
        mentions(warned(before, warnings, shown), part),
    decreases warnings.len(),
{
    if warnings.len() > 0 {
        lemma_warned(before, warnings.drop_last(), shown, part);
        let head = warned(before, warnings.drop_last(), shown);
        let w = warnings.last().text(shown);
        lemma_mentions_more(head, part, "  - "@);
        lemma_mentions_more(head + "  - "@, part, w);
        lemma_mentions_more(head + "  - "@ + w, part, "\n"@);
    }
}

proof fn lemma_warning_shown(before: Seq<char>, warnings: Seq<Warning>, shown: ShownNumbers, i: int)
    requires
        0 <= i < warnings.len(),
    ensures
        mentions(warned(before, warnings, shown), "  - "@ + warnings[i].text(shown)),
    decreases warnings.len(),
{
    let head = warned(before, warnings.drop_last(), shown);
    let w = warnings.last().text(shown);
    let last = "  - "@ + w;
    assert(warned(before, warnings, shown) == head + "  - "@ + w + "\n"@);
    if i == warnings.len() - 1 {
        assert(head + "  - "@ + w + "\n"@ =~= head + last + "\n"@);
        lemma_mentions(head, last, "\n"@);
    } else {
        lemma_warning_shown(before, warnings.drop_last(), shown, i);
        assert(warnings.drop_last()[i] == warnings[i]);
        let part = "  - "@ + warnings[i].text(shown);
        lemma_mentions_more(head, part, "  - "@);
        lemma_mentions_more(head + "  - "@, part, w);
        lemma_mentions_more(head + "  - "@ + w, part, "\n"@);
    }
}

/// The explanation of a plan says which sketch it holds, how much memory that
/// takes and how much there is, how many series come out, what is promised of
/// the error, and every warning.
pub proof fn law_explanations_tell_the_plan(
    q: LogicalQueryView,
    p: PhysicalPlan,
    shown: ShownNumbers,
)
    ensures
        mentions(explained(q, p, shown), "  "@ + p.sketch.description()),
        mentions(explained(q, p, shown), "  estimated memory: "@ + shown_bytes(p.estimated_memory_bytes as nat)),
        mentions(explained(q, p, shown), " (budget "@ + shown_bytes(q.max_memory_bytes as nat)),
        mentions(explained(q, p, shown), "  export series upper bound: "@ + dec(p.export_series_upper_bound as nat)),
        mentions(explained(q, p, shown), "  error model: "@ + p.error_kind.text()),
        mentions(explained(q, p, shown), " — "@ + p.error_contract.text(shown)),
        forall|i: int|
            0 <= i < p.warnings@.len() ==> mentions(
                explained(q, p, shown),
                "  - "@ + (#[trigger] p.warnings@[i]).text(shown),
            ),
{
    let t0 = query_explained(q, shown);
    let t1 = t0 + "\nPhysical plan:\n"@;
    let t2 = t1 + "  "@;
    let t3 = t2 + p.sketch.description();
    let t4 = t3 + "\n"@;
    let t5 = t4 + "  "@;
    let t6 = t5 + dec(p.window_buckets as nat);
    let t7 = t6 + " window bucket(s) of "@;
    let t8 = t7 + humanized(q.window.slide_nanos as nat);
    let t9 = t8 + "\n"@;
    let t10 = t9 + "  estimated memory: "@;
    let t11 = t10 + shown_bytes(p.estimated_memory_bytes as nat);
    let t12 = t11 + " (budget "@;
    let t13 = t12 + shown_bytes(q.max_memory_bytes as nat);
    let t14 = t13 + ")\n"@;
    let t15 = t14 + "  export series upper bound: "@;
    let t16 = t15 + dec(p.export_series_upper_bound as nat);
    let t17 = t16 + "\n"@;
    let t18 = t17 + "  error model: "@;
    let t19 = t18 + p.error_kind.text();
    let t20 = t19 + " — "@;
    let t21 = t20 + p.error_contract.text(shown);
    let t22 = t21 + "\n"@;
    assert(explained(q, p, shown) == if p.warnings@.len() > 0 {
        warned(t22 + "\nWarnings:\n"@, p.warnings@, shown)
    } else {
        t22
    });
    let x1 = "  "@ + p.sketch.description();
    assert(t3 =~= t1 + x1 + Seq::empty());
    lemma_mentions(t1, x1, Seq::empty());
    lemma_mentions_more(t3, x1, "\n"@);
    lemma_mentions_more(t4, x1, "  "@);
    lemma_mentions_more(t5, x1, dec(p.window_buckets as nat));
    lemma_mentions_more(t6, x1, " window bucket(s) of "@);
    lemma_mentions_more(t7, x1, humanized(q.window.slide_nanos as nat));
    lemma_mentions_more(t8, x1, "\n"@);
    lemma_mentions_more(t9, x1, "  estimated memory: "@);
    lemma_mentions_more(t10, x1, shown_bytes(p.estimated_memory_bytes as nat));
    lemma_mentions_more(t11, x1, " (budget "@);
    lemma_mentions_more(t12, x1, shown_bytes(q.max_memory_bytes as nat));
    lemma_mentions_more(t13, x1, ")\n"@);
    lemma_mentions_more(t14, x1, "  export series upper bound: "@);
    lemma_mentions_more(t15, x1, dec(p.export_series_upper_bound as nat));
    lemma_mentions_more(t16, x1, "\n"@);
    lemma_mentions_more(t17, x1, "  error model: "@);
    lemma_mentions_more(t18, x1, p.error_kind.text());
    lemma_mentions_more(t19, x1, " — "@);
    lemma_mentions_more(t20, x1, p.error_contract.text(shown));
    lemma_mentions_more(t21, x1, "\n"@);
    lemma_mentions_more(t22, x1, "\nWarnings:\n"@);
    lemma_warned(t22 + "\nWarnings:\n"@, p.warnings@, shown, x1);
    let x9 = "  estimated memory: "@ + shown_bytes(p.estimated_memory_bytes as nat);
    assert(t11 =~= t9 + x9 + Seq::empty());
    lemma_mentions(t9, x9, Seq::empty());
    lemma_mentions_more(t11, x9, " (budget "@);
    lemma_mentions_more(t12, x9, shown_bytes(q.max_memory_bytes as nat));
    lemma_mentions_more(t13, x9, ")\n"@);
    lemma_mentions_more(t14, x9, "  export series upper bound: "@);
    lemma_mentions_more(t15, x9, dec(p.export_series_upper_bound as nat));
    lemma_mentions_more(t16, x9, "\n"@);
    lemma_mentions_more(t17, x9, "  error model: "@);
    lemma_mentions_more(t18, x9, p.error_kind.text());
    lemma_mentions_more(t19, x9, " — "@);
    lemma_mentions_more(t20, x9, p.error_contract.text(shown));
    lemma_mentions_more(t21, x9, "\n"@);
    lemma_mentions_more(t22, x9, "\nWarnings:\n"@);
    lemma_warned(t22 + "\nWarnings:\n"@, p.warnings@, shown, x9);
    let x11 = " (budget "@ + shown_bytes(q.max_memory_bytes as nat);
    assert(t13 =~= t11 + x11 + Seq::empty());
    lemma_mentions(t11, x11, Seq::empty());
    lemma_mentions_more(t13, x11, ")\n"@);
    lemma_mentions_more(t14, x11, "  export series upper bound: "@);
    lemma_mentions_more(t15, x11, dec(p.export_series_upper_bound as nat));
    lemma_mentions_more(t16, x11, "\n"@);
    lemma_mentions_more(t17, x11, "  error model: "@);
    lemma_mentions_more(t18, x11, p.error_kind.text());
    lemma_mentions_more(t19, x11, " — "@);
    lemma_mentions_more(t20, x11, p.error_contract.text(shown));
    lemma_mentions_more(t21, x11, "\n"@);
    lemma_mentions_more(t22, x11, "\nWarnings:\n"@);
    lemma_warned(t22 + "\nWarnings:\n"@, p.warnings@, shown, x11);
    let x14 = "  export series upper bound: "@ + dec(p.export_series_upper_bound as nat);
    assert(t16 =~= t14 + x14 + Seq::empty());
    lemma_mentions(t14, x14, Seq::empty());
    lemma_mentions_more(t16, x14, "\n"@);
    lemma_mentions_more(t17, x14, "  error model: "@);
    lemma_mentions_more(t18, x14, p.error_kind.text());
    lemma_mentions_more(t19, x14, " — "@);
    lemma_mentions_more(t20, x14, p.error_contract.text(shown));
    lemma_mentions_more(t21, x14, "\n"@);
    lemma_mentions_more(t22, x14, "\nWarnings:\n"@);
    lemma_warned(t22 + "\nWarnings:\n"@, p.warnings@, shown, x14);
    let x17 = "  error model: "@ + p.error_kind.text();
    assert(t19 =~= t17 + x17 + Seq::empty());
    lemma_mentions(t17, x17, Seq::empty());
    lemma_mentions_more(t19, x17, " — "@);
    lemma_mentions_more(t20, x17, p.error_contract.text(shown));
    lemma_mentions_more(t21, x17, "\n"@);
    lemma_mentions_more(t22, x17, "\nWarnings:\n"@);
    lemma_warned(t22 + "\nWarnings:\n"@, p.warnings@, shown, x17);
    let x19 = " — "@ + p.error_contract.text(shown);
    assert(t21 =~= t19 + x19 + Seq::empty());
    lemma_mentions(t19, x19, Seq::empty());
    lemma_mentions_more(t21, x19, "\n"@);
    lemma_mentions_more(t22, x19, "\nWarnings:\n"@);
    lemma_warned(t22 + "\nWarnings:\n"@, p.warnings@, shown, x19);
    assert forall|i: int| 0 <= i < p.warnings@.len() implies mentions(
        explained(q, p, shown),
        "  - "@ + (#[trigger] p.warnings@[i]).text(shown),
    ) by {
        lemma_warning_shown(t22 + "\nWarnings:\n"@, p.warnings@, shown, i);
    }
}

} // verus!
