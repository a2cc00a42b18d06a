//! Merging snapshots that different processes have written.

use vstd::prelude::*;
use vstd::string::*;

use crate::algos::hll::HyperLogLog;
use crate::algos::hll_map::{is_total, joint_groups, largest, sized, HllGroups, HllMap};
use crate::error::SketchErrorView;
use crate::sketch::Sketch;
use crate::snapshot::algorithm_id;
use crate::text::{dec, push_decimal};

verus! {

/// What the header of a snapshot says.
#[derive(Debug)]
pub struct SnapshotInfo {
    /// The file that it was read from.
    pub file: String,
    pub algorithm: u16,
    pub window_start_nanos: u64,
    pub window_end_nanos: u64,
}

/// Algorithms as a list.
pub open spec fn listed_algorithms(infos: Seq<SnapshotInfo>) -> Seq<char>
    decreases infos.len(),
{
    if infos.len() == 0 {
        Seq::empty()
    } else if infos.len() == 1 {
        Seq::empty() + dec(infos[0].algorithm as nat)
    } else {
        listed_algorithms(infos.drop_last()) + ", "@ + dec(infos.last().algorithm as nat)
    }
}

/// The windows of snapshots, one line each.
pub open spec fn listed_windows(infos: Seq<SnapshotInfo>) -> Seq<char>
    decreases infos.len(),
{
    if infos.len() == 0 {
        Seq::empty()
    } else {
        let before = if infos.len() == 1 {
            Seq::empty()
        } else {
            listed_windows(infos.drop_last()) + "\n"@
        };
        before + "  "@ + infos.last().file@ + " covers ["@ + dec(
            infos.last().window_start_nanos as nat,
        ) + ", "@ + dec(infos.last().window_end_nanos as nat) + ")"@
    }
}

pub open spec fn same_algorithm(infos: Seq<SnapshotInfo>) -> bool {
    forall|i: int|
        0 <= i < infos.len() ==> (#[trigger] infos[i]).algorithm == infos[0].algorithm
}

pub open spec fn same_window(infos: Seq<SnapshotInfo>) -> bool {
    forall|i: int|
        0 <= i < infos.len() ==> (#[trigger] infos[i]).window_start_nanos
            == infos[0].window_start_nanos && infos[i].window_end_nanos
            == infos[0].window_end_nanos
}

/// Why snapshots cannot be merged. Sketches say nothing of time: merging
/// different windows would mix time ranges without a word.
pub open spec fn merge_fault(infos: Seq<SnapshotInfo>) -> Option<Seq<char>> {
    if infos.len() == 0 {
        Some("no snapshot files given"@)
    } else if !same_algorithm(infos) {
        Some(
            "snapshots use different algorithms (["@ + listed_algorithms(infos)
                + "]); only same-algorithm snapshots can merge"@,
        )
    } else if !same_window(infos) {
        Some(
            "snapshots cover different time windows; merging them would mix time ranges:\n"@
                + listed_windows(infos),
        )
    } else {
        None
    }
}

fn show_algorithms(infos: &[SnapshotInfo]) -> (r: String)
    ensures
        r@ == listed_algorithms(infos@),
{
    let mut out = String::new();
    let mut i: usize = 0;
    assert(infos@.take(0) =~= Seq::<SnapshotInfo>::empty());
    while i < infos.len()
        invariant
            i <= infos@.len(),
            out@ == listed_algorithms(infos@.take(i as int)),
        decreases infos@.len() - i,
    {
        assert(infos@.take(i + 1).drop_last() =~= infos@.take(i as int));
        if i > 0 {
            out.append(", ");
        }
        push_decimal(&mut out, infos[i].algorithm as u64);
        i += 1;
    }
    assert(infos@.take(i as int) =~= infos@);
    out
}

fn show_windows(infos: &[SnapshotInfo]) -> (r: String)
    ensures
        r@ == listed_windows(infos@),
{
    let mut out = String::new();
    let mut i: usize = 0;
    assert(infos@.take(0) =~= Seq::<SnapshotInfo>::empty());
    while i < infos.len()
        invariant
            i <= infos@.len(),
            out@ == listed_windows(infos@.take(i as int)),
        decreases infos@.len() - i,
    {
        assert(infos@.take(i + 1).drop_last() =~= infos@.take(i as int));
        if i > 0 {
            out.append("\n");
        }
        out.append("  ");
        out.append(infos[i].file.as_str());
        out.append(" covers [");
        push_decimal(&mut out, infos[i].window_start_nanos);
        out.append(", ");
        push_decimal(&mut out, infos[i].window_end_nanos);
        out.append(")");
        i += 1;
    }
    assert(infos@.take(i as int) =~= infos@);
    out
}

/// Check that snapshots can be merged: of one algorithm and one window.
pub fn check_mergeable(infos: &[SnapshotInfo]) -> (r: Result<(), String>)
    ensures
        match merge_fault(infos@) {
            Some(m) => r matches Err(s) && s@ == m,
            None => r is Ok,
        },
{
    if infos.len() == 0 {
        return Err("no snapshot files given".to_owned());
    }
    let mut i: usize = 0;
    while i < infos.len()
        invariant
            i <= infos@.len(),
            infos@.len() > 0,
            forall|k: int| 0 <= k < i ==> (#[trigger] infos@[k]).algorithm == infos@[0].algorithm,
        decreases infos@.len() - i,
    {
        if infos[i].algorithm != infos[0].algorithm {
            let mut m = "snapshots use different algorithms ([".to_owned();
            m.append(show_algorithms(infos).as_str());
            m.append("]); only same-algorithm snapshots can merge");
            return Err(m);
        }
        i += 1;
    }
    let mut i: usize = 0;
    while i < infos.len()
        invariant
            i <= infos@.len(),
            infos@.len() > 0,
            same_algorithm(infos@),
            forall|k: int|
                0 <= k < i ==> (#[trigger] infos@[k]).window_start_nanos
                    == infos@[0].window_start_nanos && infos@[k].window_end_nanos
                    == infos@[0].window_end_nanos,
        decreases infos@.len() - i,
    {
        if infos[i].window_start_nanos != infos[0].window_start_nanos || infos[i].window_end_nanos
            != infos[0].window_end_nanos {
            let mut m =
                "snapshots cover different time windows; merging them would mix time ranges:\n".to_owned();
            m.append(show_windows(infos).as_str());
            return Err(m);
        }
        i += 1;
    }
    Ok(())
}

/// What snapshots of an algorithm are merged as.
#[derive(Debug, Clone, Copy, PartialEq, Eq, Structural)]
pub enum MergeKind {
    HyperLogLog,
    SpaceSaving,
    HllMap,
    Kll,
    CountMin,
}

/// What snapshots of an algorithm are merged as, if they are.
pub fn merge_kind(algorithm: u16) -> (r: Result<MergeKind, String>)
    ensures
        algorithm == algorithm_id::HYPER_LOG_LOG ==> r == Ok::<MergeKind, String>(
            MergeKind::HyperLogLog,
        ),
        algorithm == algorithm_id::SPACE_SAVING ==> r == Ok::<MergeKind, String>(
            MergeKind::SpaceSaving,
        ),
        algorithm == algorithm_id::HLL_MAP ==> r == Ok::<MergeKind, String>(MergeKind::HllMap),
        algorithm == algorithm_id::KLL ==> r == Ok::<MergeKind, String>(MergeKind::Kll),
        algorithm == algorithm_id::COUNT_MIN ==> r == Ok::<MergeKind, String>(MergeKind::CountMin),
        algorithm != algorithm_id::HYPER_LOG_LOG && algorithm != algorithm_id::SPACE_SAVING
            && algorithm != algorithm_id::HLL_MAP && algorithm != algorithm_id::KLL && algorithm
            != algorithm_id::COUNT_MIN ==> (r matches Err(m) && m@
            == "snapshots with algorithm id "@ + dec(algorithm as nat)
            + " cannot be merged by this tool"@),
{
    if algorithm == algorithm_id::HYPER_LOG_LOG {
        Ok(MergeKind::HyperLogLog)
    } else if algorithm == algorithm_id::SPACE_SAVING {
        Ok(MergeKind::SpaceSaving)
    } else if algorithm == algorithm_id::HLL_MAP {
        Ok(MergeKind::HllMap)
    } else if algorithm == algorithm_id::KLL {
        Ok(MergeKind::Kll)
    } else if algorithm == algorithm_id::COUNT_MIN {
        Ok(MergeKind::CountMin)
    } else {
        let mut m = "snapshots with algorithm id ".to_owned();
        push_decimal(&mut m, algorithm as u64);
        m.append(" cannot be merged by this tool");
        Err(m)
    }
}

// ---------------------------------------------------------------------------
// All at once
// ---------------------------------------------------------------------------

/// Whether `s` is `first` with the first `n` of `rest` merged in, one after
/// the other.
pub open spec fn is_chain<S: Sketch>(first: S, rest: Seq<S>, n: nat, s: S) -> bool
    decreases n,
{
    if n == 0 {
        s == first
    } else {
        let next = rest[n - 1];
        exists|before: S|
            is_chain(first, rest, (n - 1) as nat, before) && #[trigger] before.is_merged(&next, &s)
    }
}

/// Whether no merge on the way overflows.
pub open spec fn chain_fits<S: Sketch>(first: S, rest: Seq<S>) -> bool {
    forall|s: S, n: nat|
        n < rest.len() && #[trigger] is_chain(first, rest, n, s) && s.compat()
            == rest[n as int].compat() ==> s.merge_fits(&rest[n as int])
}

/// The first sketch, from `i` on, that does not fit to the first of all.
pub open spec fn first_misfit<S: Sketch>(first: S, rest: Seq<S>, i: nat) -> Option<nat>
    decreases rest.len() - i,
{
    if i >= rest.len() {
        None
    } else if rest[i as int].compat() != first.compat() {
        Some(i)
    } else {
        first_misfit(first, rest, i + 1)
    }
}

/// Merge sketches one after the other; refuse unless all fit together.
pub fn merge_all<S: Sketch>(first: S, rest: Vec<S>) -> (r: Result<S, String>)
    requires
        first.wf(),
        forall|i: int| 0 <= i < rest@.len() ==> (#[trigger] rest@[i]).wf(),
        chain_fits(first, rest@),
    ensures
        match first_misfit(first, rest@, 0) {
            Some(i) => r matches Err(m) && m@ == "merge rejected: "@ + first.compat().refusal(
                rest@[i as int].compat(),
            ).message(),
            None => r is Ok && is_chain(first, rest@, rest@.len(), r->Ok_0) && r->Ok_0.wf(),
        },
{
    let ghost start = first;
    let ghost compat = first.compat();
    let mut merged = first;
    let mut i: usize = 0;
    while i < rest.len()
        invariant
            i <= rest@.len(),
            merged.wf(),
            merged.compat() == compat,
            compat == start.compat(),
            start == first,
            is_chain(start, rest@, i as nat, merged),
            chain_fits(start, rest@),
            forall|k: int| 0 <= k < rest@.len() ==> (#[trigger] rest@[k]).wf(),
            first_misfit(start, rest@, i as nat) == first_misfit(start, rest@, 0),
        decreases rest@.len() - i,
    {
        let ghost before = merged;
        match merged.merge_from(&rest[i]) {
            Ok(()) => {
                proof {
                    let n = (i + 1) as nat;
                    assert(is_chain(start, rest@, (n - 1) as nat, before));
                    assert(before.is_merged(&rest@[n - 1], &merged));
                    assert(is_chain(start, rest@, n, merged));
                }
            },
            Err(e) => {
                let mut m = "merge rejected: ".to_owned();
                m.append(e.to_string().as_str());
                return Err(m);
            },
        }
        i += 1;
    }
    Ok(merged)
}

// ---------------------------------------------------------------------------
// Maps of sketches
// ---------------------------------------------------------------------------

/// Whether merging `other` into `before` gives `after`, with keys kept by
/// size.
pub open spec fn merges_to<F: Fn(&HyperLogLog) -> u64>(
    size: F,
    before: HllGroups,
    other: HllGroups,
    after: HllGroups,
) -> bool {
    &&& before.compat() == other.compat()
    &&& before.mergeable(other)
    &&& before.merge_fits(other)
    &&& exists|sizes: Map<Seq<u8>, int>| #[trigger]
        sized(size, joint_groups(before.groups, other.groups), sizes) && after == before.merged(
            other,
            largest(sizes, before.max_keys),
        )
}

/// Whether `s` is `first` with the first `n` of `rest` merged in, one after
/// the other.
pub open spec fn is_map_chain<F: Fn(&HyperLogLog) -> u64>(
    size: F,
    first: HllGroups,
    rest: Seq<HllMap>,
    n: nat,
    s: HllGroups,
) -> bool
    decreases n,
{
    if n == 0 {
        s == first
    } else {
        exists|before: HllGroups|
            is_map_chain(size, first, rest, (n - 1) as nat, before) && #[trigger] merges_to(
                size,
                before,
                rest[n - 1]@,
                s,
            )
    }
}

/// What came of merging maps.
pub enum MapMerge {
    Merged(HllMap),
    /// Two of them do not fit together.
    Refused(String),
    /// A counter would overflow.
    Overflow,
}

/// The maps do not fit together: their descriptors differ, or those of the
/// sketches of a shared key.
pub open spec fn map_refusal(s: HllGroups, other: HllGroups, text: Seq<char>) -> bool {
    if s.compat() != other.compat() {
        text == "merge rejected: "@ + s.compat().refusal(other.compat()).message()
    } else {
        exists|e: SketchErrorView| #[trigger]
            s.refused_for_shared(other, e) && text == "merge rejected: "@ + e.message()
    }
}

/// Merge maps one after the other, up to the first that does not fit to what
/// has been merged before it.
pub fn merge_maps<F: Fn(&HyperLogLog) -> u64>(first: HllMap, rest: Vec<HllMap>, size: &F) -> (r:
    MapMerge)
    requires
        first.wf(),
        forall|i: int| 0 <= i < rest@.len() ==> (#[trigger] rest@[i]).wf(),
        is_total(*size),
    ensures
        match r {
            MapMerge::Merged(m) => m.wf() && is_map_chain(
                *size,
                first@,
                rest@,
                rest@.len(),
                m@,
            ),
            MapMerge::Refused(text) => exists|n: nat, s: HllGroups|
                n < rest@.len() && #[trigger] is_map_chain(*size, first@, rest@, n, s)
                    && map_refusal(s, rest@[n as int]@, text@),
            MapMerge::Overflow => exists|n: nat, s: HllGroups|
                n < rest@.len() && #[trigger] is_map_chain(*size, first@, rest@, n, s)
                    && s.compat() == rest@[n as int]@.compat() && s.mergeable(rest@[n as int]@)
                    && !s.merge_fits(rest@[n as int]@),
        },
{
    let ghost start = first@;
    let mut merged = first;
    let mut i: usize = 0;
    while i < rest.len()
        invariant
            i <= rest@.len(),
            merged.wf(),
            start == first@,
            is_total(*size),
            is_map_chain(*size, start, rest@, i as nat, merged@),
            forall|k: int| 0 <= k < rest@.len() ==> (#[trigger] rest@[k]).wf(),
        decreases rest@.len() - i,
    {
        let ghost before = merged@;
        let next = &rest[i];
        if let Err(e) = merged.check_merge(next) {
            let mut m = "merge rejected: ".to_owned();
            m.append(e.to_string().as_str());
            assert(map_refusal(before, rest@[i as int]@, m@));
            return MapMerge::Refused(m);
        }
        if !merged.can_merge(next) {
            return MapMerge::Overflow;
        }
        let outcome = merged.merge_from(next, size);
        proof {
            assert(outcome is Ok);
            let n = (i + 1) as nat;
            assert(is_map_chain(*size, start, rest@, (n - 1) as nat, before));
            assert(merges_to(*size, before, rest@[n - 1]@, merged@));
            assert(is_map_chain(*size, start, rest@, n, merged@));
        }
        i += 1;
    }
    MapMerge::Merged(merged)
}

} // verus!
