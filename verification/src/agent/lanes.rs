//! Capture lanes with a worker each: how the queue slots are shared out, and
//! what a checkpoint of all workers comes to.

use vstd::prelude::*;
use vstd::string::*;

use crate::agent::error::{is_verdict, AgentError};
use crate::error::SketchError;
use crate::names::text_less;
use crate::sorting::{lemma_sorted_words, reversed, sort_words, sorted_words};
use crate::text::{debug_text, dec, push_decimal, quoted, same_text, text_before, texts};

verus! {

// ---------------------------------------------------------------------------
// Options
// ---------------------------------------------------------------------------

/// How the workers are made.
#[derive(Debug, Clone, Copy, PartialEq, Eq, Structural)]
pub struct DirectRuntimeOptions {
    pub lane_count: usize,
    pub batch_size: usize,
    /// How many CPUs are listed for workers, if any are.
    pub worker_cpus: Option<usize>,
    pub total_channel_capacity: usize,
}

/// What is wrong with options.
pub open spec fn options_fault(o: DirectRuntimeOptions) -> Option<Seq<char>> {
    if o.lane_count == 0 || o.total_channel_capacity < o.lane_count {
        Some(
            "queue-local runtime needs at least one event slot per lane (lanes="@ + dec(
                o.lane_count as nat,
            ) + ", capacity="@ + dec(o.total_channel_capacity as nat) + ")"@,
        )
    } else if o.batch_size == 0 {
        Some("queue-local runtime batch size must be greater than zero"@)
    } else if o.worker_cpus is Some && o.worker_cpus->0 != o.lane_count {
        Some(
            "runtime CPU affinity lists "@ + dec(o.worker_cpus->0 as nat) + " CPU(s) for "@ + dec(
                o.lane_count as nat,
            ) + " shard worker(s)"@,
        )
    } else {
        None
    }
}

impl DirectRuntimeOptions {
    /// Check options before any worker is started.
    pub fn check(&self) -> (r: Result<(), AgentError>)
        ensures
            is_verdict(r, options_fault(*self)),
    {
        if self.lane_count == 0 || self.total_channel_capacity < self.lane_count {
            let mut m =
                "queue-local runtime needs at least one event slot per lane (lanes=".to_owned();
            push_decimal(&mut m, self.lane_count as u64);
            m.append(", capacity=");
            push_decimal(&mut m, self.total_channel_capacity as u64);
            m.append(")");
            return Err(AgentError::Config(m));
        }
        if self.batch_size == 0 {
            return Err(
                AgentError::Config(
                    "queue-local runtime batch size must be greater than zero".to_owned(),
                ),
            );
        }
        if let Some(cpus) = self.worker_cpus {
            if cpus != self.lane_count {
                let mut m = "runtime CPU affinity lists ".to_owned();
                push_decimal(&mut m, cpus as u64);
                m.append(" CPU(s) for ");
                push_decimal(&mut m, self.lane_count as u64);
                m.append(" shard worker(s)");
                return Err(AgentError::Config(m));
            }
        }
        Ok(())
    }
}

/// The slots of a lane: an equal share, and one of the rest for the first
/// lanes.
pub open spec fn lane_capacity(total: nat, lanes: nat, lane: nat) -> nat {
    total / lanes + (if lane < total % lanes {
        1nat
    } else {
        0nat
    })
}

/// Share queue slots out to lanes.
pub fn channel_capacities(total: usize, lanes: usize) -> (r: Vec<usize>)
    requires
        lanes > 0,
    ensures
        r@.len() == lanes,
        forall|i: int|
            0 <= i < lanes ==> #[trigger] r@[i] == lane_capacity(
                total as nat,
                lanes as nat,
                i as nat,
            ),
{
    let share: usize = total / lanes;
    let rest: usize = total % lanes;
    let mut out: Vec<usize> = Vec::new();
    let mut i: usize = 0;
    while i < lanes
        invariant
            i <= lanes,
            lanes > 0,
            share == total as nat / lanes as nat,
            rest == total as nat % lanes as nat,
            out@.len() == i,
            forall|k: int|
                0 <= k < i ==> #[trigger] out@[k] == lane_capacity(
                    total as nat,
                    lanes as nat,
                    k as nat,
                ),
        decreases lanes - i,
    {
        proof {
            lemma_share_fits(total as nat, lanes as nat);
        }
        out.push(
            if i < rest {
                share + 1
            } else {
                share
            },
        );
        i += 1;
    }
    out
}

proof fn lemma_share_fits(total: nat, lanes: nat)
    requires
        lanes > 0,
    ensures
        total / lanes <= total,
        total % lanes > 0 ==> total / lanes < total,
{
    vstd::arithmetic::div_mod::lemma_fundamental_div_mod(total as int, lanes as int);
    assert(total / lanes <= lanes * (total / lanes)) by (nonlinear_arith)
        requires
            lanes > 0,
            total / lanes >= 0,
    ;
}

/// The slots of the first `n` lanes.
pub open spec fn capacities_upto(total: nat, lanes: nat, n: nat) -> nat
    decreases n,
{
    if n == 0 {
        0
    } else {
        capacities_upto(total, lanes, (n - 1) as nat) + lane_capacity(
            total,
            lanes,
            (n - 1) as nat,
        )
    }
}

proof fn lemma_capacities_upto(total: nat, lanes: nat, n: nat)
    requires
        lanes > 0,
        n <= lanes,
    ensures
        capacities_upto(total, lanes, n) == n * (total / lanes) + (if n < total % lanes {
            n
        } else {
            total % lanes
        }),
    decreases n,
{
    if n > 0 {
        lemma_capacities_upto(total, lanes, (n - 1) as nat);
        let share = total / lanes;
        assert(n * share == (n - 1) * share + share) by (nonlinear_arith);
    } else {
        let share = total / lanes;
        assert(0 * share == 0) by (nonlinear_arith);
    }
}

/// All slots are shared out, every lane gets at least one where there are
/// enough, and no lane gets more than one above another.
pub proof fn law_slots_are_shared_fairly(total: nat, lanes: nat, a: nat, b: nat)
    requires
        0 < lanes <= total,
        a < lanes,
        b < lanes,
    ensures
        capacities_upto(total, lanes, lanes) == total,
        lane_capacity(total, lanes, a) >= 1,
        lane_capacity(total, lanes, a) <= lane_capacity(total, lanes, b) + 1,
{
    lemma_capacities_upto(total, lanes, lanes);
    vstd::arithmetic::div_mod::lemma_fundamental_div_mod(total as int, lanes as int);
    vstd::arithmetic::div_mod::lemma_mod_bound(total as int, lanes as int);
    assert(total / lanes >= 1) by (nonlinear_arith)
        requires
            0 < lanes <= total,
            total == lanes * (total / lanes) + total % lanes,
            0 <= total % lanes < lanes,
    ;
}

// ---------------------------------------------------------------------------
// Answers of all lanes
// ---------------------------------------------------------------------------

/// What all lanes are asked for.
#[derive(Debug, Clone, Copy, PartialEq, Eq, Structural)]
pub enum BarrierStage {
    FinalDrain,
    Publication,
    Checkpoint,
}

impl BarrierStage {
    pub open spec fn text(self) -> Seq<char> {
        match self {
            BarrierStage::FinalDrain => "final drain"@,
            BarrierStage::Publication => "publication"@,
            BarrierStage::Checkpoint => "checkpoint"@,
        }
    }

    pub fn name(self) -> (r: &'static str)
        ensures
            r@ == self.text(),
    {
        match self {
            BarrierStage::FinalDrain => "final drain",
            BarrierStage::Publication => "publication",
            BarrierStage::Checkpoint => "checkpoint",
        }
    }
}

/// The first place, from `i` on, where sorted lanes are not 0, 1, 2 and so on.
pub open spec fn first_gap(sorted: Seq<u64>, i: nat) -> Option<nat>
    decreases sorted.len() - i,
{
    if i >= sorted.len() {
        None
    } else if sorted[i as int] != i {
        Some(i)
    } else {
        first_gap(sorted, i + 1)
    }
}

/// What is wrong with the lanes that have answered.
pub open spec fn lanes_fault(lanes: Seq<u64>, stage: BarrierStage) -> Option<Seq<char>> {
    let sorted = sorted_words(lanes);
    match first_gap(sorted, 0) {
        Some(i) => Some(
            "queue-local "@ + stage.text() + " received duplicate or missing lane "@ + dec(
                sorted[i as int] as nat,
            ) + "; expected lane "@ + dec(i),
        ),
        None => None,
    }
}

/// Check that every lane has answered exactly once.
pub fn check_lanes(lanes: &Vec<u64>, stage: BarrierStage) -> (r: Result<(), AgentError>)
    ensures
        match lanes_fault(lanes@, stage) {
            Some(m) => r matches Err(AgentError::Source(s)) && s@ == m,
            None => r is Ok,
        },
{
    let sorted = sort_words(lanes);
    let mut i: usize = 0;
    while i < sorted.len()
        invariant
            i <= sorted@.len(),
            sorted@ == sorted_words(lanes@),
            first_gap(sorted@, i as nat) == first_gap(sorted@, 0),
        decreases sorted@.len() - i,
    {
        if sorted[i] != i as u64 {
            let mut m = "queue-local ".to_owned();
            m.append(stage.name());
            m.append(" received duplicate or missing lane ");
            push_decimal(&mut m, sorted[i]);
            m.append("; expected lane ");
            push_decimal(&mut m, i as u64);
            return Err(AgentError::Source(m));
        }
        i += 1;
    }
    Ok(())
}

proof fn lemma_no_gap(sorted: Seq<u64>, i: nat)
    requires
        first_gap(sorted, i) is None,
    ensures
        forall|k: int| i <= k < sorted.len() ==> sorted[k] == k,
    decreases sorted.len() - i,
{
    if i < sorted.len() {
        lemma_no_gap(sorted, i + 1);
    }
}

/// A barrier is passed only if each lane has answered, and none twice.
pub proof fn law_barrier_hears_every_lane(lanes: Seq<u64>, stage: BarrierStage)
    requires
        lanes_fault(lanes, stage) is None,
    ensures
        forall|k: u64| k < lanes.len() ==> #[trigger] lanes.contains(k),
        lanes.no_duplicates(),
{
    let sorted = sorted_words(lanes);
    lemma_sorted_words(lanes);
    lemma_no_gap(sorted, 0);
    assert forall|k: u64| k < lanes.len() implies #[trigger] lanes.contains(k) by {
        assert(sorted[k as int] == k);
        assert(sorted.contains(k));
    }
    assert(sorted.no_duplicates());
    sorted.lemma_multiset_has_no_duplicates();
    lanes.lemma_multiset_has_no_duplicates_conv();
}

// ---------------------------------------------------------------------------
// Time
// ---------------------------------------------------------------------------

/// The latest of the times that are known.
pub open spec fn latest_of(times: Seq<Option<u64>>) -> Option<u64>
    decreases times.len(),
{
    if times.len() == 0 {
        None
    } else {
        match (latest_of(times.drop_last()), times.last()) {
            (None, t) => t,
            (t, None) => t,
            (Some(a), Some(b)) => Some(
                if a < b {
                    b
                } else {
                    a
                },
            ),
        }
    }
}

/// The time up to which all lanes are taken: the latest that any has seen.
pub fn watermark(times: &[Option<u64>]) -> (r: Option<u64>)
    ensures
        r == latest_of(times@),
{
    let mut latest: Option<u64> = None;
    let mut i: usize = 0;
    assert(times@.take(0) =~= Seq::<Option<u64>>::empty());
    while i < times.len()
        invariant
            i <= times@.len(),
            latest == latest_of(times@.take(i as int)),
        decreases times@.len() - i,
    {
        assert(times@.take(i + 1).drop_last() =~= times@.take(i as int));
        if let Some(t) = times[i] {
            latest = match latest {
                None => Some(t),
                Some(a) => Some(
                    if a < t {
                        t
                    } else {
                        a
                    },
                ),
            };
        }
        i += 1;
    }
    assert(times@.take(i as int) =~= times@);
    latest
}

/// No lane has seen a later time than the watermark, and one has seen it.
pub proof fn law_watermark_is_the_latest(times: Seq<Option<u64>>)
    ensures
        forall|i: int|
            0 <= i < times.len() && #[trigger] times[i] is Some ==> latest_of(times) is Some
                && times[i]->0 <= latest_of(times)->0,
        latest_of(times) is Some ==> times.contains(latest_of(times)),
    decreases times.len(),
{
    if times.len() > 0 {
        let front = times.drop_last();
        law_watermark_is_the_latest(front);
        assert forall|i: int| 0 <= i < times.len() && #[trigger] times[i] is Some implies latest_of(
            times,
        ) is Some && times[i]->0 <= latest_of(times)->0 by {
            if i < front.len() {
                assert(times[i] == front[i]);
            }
        }
        if latest_of(times) is Some {
            if latest_of(times) == times.last() {
                assert(times[times.len() - 1] == latest_of(times));
            } else {
                let k = choose|k: int| 0 <= k < front.len() && front[k] == latest_of(front);
                assert(times[k] == latest_of(times));
            }
        }
    }
}

// ---------------------------------------------------------------------------
// Windows
// ---------------------------------------------------------------------------

/// A window of a lane, whose sketches are held under a token.
#[derive(Debug)]
pub struct LaneWindow {
    pub query: String,
    pub start: u64,
    pub end: u64,
    pub token: u64,
}

/// What a worker reports.
#[derive(Debug)]
pub struct LaneReport {
    pub completed: Vec<LaneWindow>,
    pub current: Vec<LaneWindow>,
    pub sketch_memory_bytes: u64,
    pub late_events: u64,
}

/// The windows of all lanes with the same query and bounds: the sketches of
/// the first token take in those of all others.
#[derive(Debug)]
pub struct MergeGroup {
    pub query: String,
    pub start: u64,
    pub end: u64,
    pub tokens: Vec<u64>,
}

/// The content of a [`MergeGroup`].
pub ghost struct GroupView {
    pub query: Seq<char>,
    pub start: u64,
    pub end: u64,
    pub tokens: Seq<u64>,
}

impl View for MergeGroup {
    type V = GroupView;

    open spec fn view(&self) -> GroupView {
        GroupView {
            query: self.query@,
            start: self.start,
            end: self.end,
            tokens: self.tokens@,
        }
    }
}

pub open spec fn group_views(v: Seq<MergeGroup>) -> Seq<GroupView> {
    v.map_values(|g: MergeGroup| g@)
}

/// Whether a group holds the windows of that query and those bounds.
pub open spec fn is_of(g: GroupView, w: LaneWindow) -> bool {
    g.query == w.query@ && g.start == w.start && g.end == w.end
}

/// Whether a group comes before a window: by query, then start, then end.
pub open spec fn comes_before(g: GroupView, w: LaneWindow) -> bool {
    text_before(g.query, w.query@) || g.query == w.query@ && (g.start < w.start || g.start
        == w.start && g.end < w.end)
}

/// Groups after one more window: in its group, or in one of its own.
pub open spec fn with_window(groups: Seq<GroupView>, w: LaneWindow) -> Seq<GroupView>
    decreases groups.len(),
{
    let alone = GroupView { query: w.query@, start: w.start, end: w.end, tokens: seq![w.token] };
    if groups.len() == 0 {
        seq![alone]
    } else if is_of(groups.last(), w) {
        groups.drop_last().push(
            GroupView { tokens: groups.last().tokens.push(w.token), ..groups.last() },
        )
    } else if comes_before(groups.last(), w) {
        groups.push(alone)
    } else {
        with_window(groups.drop_last(), w).push(groups.last())
    }
}

/// Groups after more windows.
pub open spec fn with_windows(groups: Seq<GroupView>, ws: Seq<LaneWindow>) -> Seq<GroupView>
    decreases ws.len(),
{
    if ws.len() == 0 {
        groups
    } else {
        with_window(with_windows(groups, ws.drop_last()), ws.last())
    }
}

fn add_window(groups: &mut Vec<MergeGroup>, w: LaneWindow)
    ensures
        group_views(final(groups)@) == with_window(group_views(old(groups)@), w),
{
    let ghost all = group_views(groups@);
    let ghost before = groups@;
    let mut at: usize = groups.len();
    let mut found = false;
    assert(all.take(at as int) =~= all);
    assert(with_window(all, w) =~= with_window(all.take(at as int), w) + all.skip(at as int));
    while at > 0
        invariant_except_break
            !found,
        invariant
            at <= groups@.len(),
            groups@ == before,
            all == group_views(before),
            with_window(all, w) == with_window(all.take(at as int), w) + all.skip(at as int),
        ensures
            found ==> at > 0 && is_of(all[at - 1], w),
            !found ==> at == 0 || comes_before(all[at - 1], w) && !is_of(all[at - 1], w),
        decreases at,
    {
        let g = &groups[at - 1];
        assert(all[at - 1] == g@);
        let same = same_text(g.query.as_str(), w.query.as_str());
        if same && g.start == w.start && g.end == w.end {
            found = true;
            break;
        }
        if (same && (g.start < w.start || (g.start == w.start && g.end < w.end))) || text_less(
            g.query.as_str(),
            w.query.as_str(),
        ) {
            break;
        }
        proof {
            let t = all.take(at as int);
            assert(t.last() == all[at - 1]);
            assert(t.drop_last() =~= all.take(at - 1));
            assert(with_window(t, w) + all.skip(at as int) =~= with_window(all.take(at - 1), w)
                + all.skip(at - 1));
        }
        at -= 1;
    }
    proof {
        let t = all.take(at as int);
        if at > 0 {
            assert(t.last() == all[at - 1]);
        }
    }
    if found {
        let mut g = groups.remove(at - 1);
        g.tokens.push(w.token);
        let ghost view = g@;
        groups.insert(at - 1, g);
        proof {
            let t = all.take(at as int);
            assert(view == GroupView { tokens: t.last().tokens.push(w.token), ..t.last() });
            assert(group_views(groups@) =~= t.drop_last().push(view) + all.skip(at as int));
        }
    } else {
        let LaneWindow { query, start, end, token } = w;
        let mut tokens: Vec<u64> = Vec::new();
        tokens.push(token);
        let g = MergeGroup { query, start, end, tokens };
        let ghost view = g@;
        groups.insert(at, g);
        proof {
            let t = all.take(at as int);
            assert(view.tokens =~= seq![token]);
            if at == 0 {
                assert(t =~= Seq::empty());
                assert(t.push(view) =~= seq![view]);
            }
            assert(group_views(groups@) =~= t.push(view) + all.skip(at as int));
        }
    }
}

fn add_windows(groups: &mut Vec<MergeGroup>, windows: Vec<LaneWindow>)
    ensures
        group_views(final(groups)@) == with_windows(group_views(old(groups)@), windows@),
{
    let ghost start = group_views(groups@);
    let ghost all = windows@;
    let mut rest = reversed(windows);
    let ghost mut k: int = 0;
    assert(all.take(0) =~= Seq::<LaneWindow>::empty());
    assert(all.skip(0) =~= all);
    while rest.len() > 0
        invariant
            0 <= k <= all.len(),
            rest@ == all.skip(k).reverse(),
            group_views(groups@) == with_windows(start, all.take(k)),
        decreases rest@.len(),
    {
        assert(all.take(k + 1).drop_last() =~= all.take(k));
        assert(rest@.last() == all[k]);
        if let Some(w) = rest.pop() {
            add_window(groups, w);
        }
        proof {
            assert(rest@ =~= all.skip(k + 1).reverse());
            k = k + 1;
        }
    }
    assert(all.take(k) =~= all);
}

// ---------------------------------------------------------------------------
// A checkpoint
// ---------------------------------------------------------------------------

/// The completed windows of all reports, in their order.
pub open spec fn completed_windows(reports: Seq<LaneReport>) -> Seq<LaneWindow>
    decreases reports.len(),
{
    if reports.len() == 0 {
        Seq::empty()
    } else {
        completed_windows(reports.drop_last()) + reports.last().completed@
    }
}

/// The current windows of all reports, in their order.
pub open spec fn current_windows(reports: Seq<LaneReport>) -> Seq<LaneWindow>
    decreases reports.len(),
{
    if reports.len() == 0 {
        Seq::empty()
    } else {
        current_windows(reports.drop_last()) + reports.last().current@
    }
}

/// A sum, or the largest number if it is larger.
pub open spec fn capped_sum(a: u64, b: u64) -> u64 {
    if a + b > u64::MAX {
        u64::MAX
    } else {
        (a + b) as u64
    }
}

fn saturating_sum(a: u64, b: u64) -> (r: u64)
    ensures
        r == capped_sum(a, b),
{
    if a > u64::MAX - b {
        u64::MAX
    } else {
        a + b
    }
}

/// Memory of all lanes.
pub open spec fn memory_of(reports: Seq<LaneReport>) -> u64
    decreases reports.len(),
{
    if reports.len() == 0 {
        0
    } else {
        capped_sum(memory_of(reports.drop_last()), reports.last().sketch_memory_bytes)
    }
}

/// Late events of all lanes.
pub open spec fn late_of(reports: Seq<LaneReport>) -> u64
    decreases reports.len(),
{
    if reports.len() == 0 {
        0
    } else {
        capped_sum(late_of(reports.drop_last()), reports.last().late_events)
    }
}

/// Bounds of a window as text.
pub open spec fn bounds_text(start: u64, end: u64) -> Seq<char> {
    "("@ + dec(start as nat) + ", "@ + dec(end as nat) + ")"@
}

/// The first window of a query.
pub open spec fn first_of(ws: Seq<LaneWindow>, query: Seq<char>) -> Option<LaneWindow>
    decreases ws.len(),
{
    if ws.len() == 0 {
        None
    } else if ws[0].query@ == query {
        Some(ws[0])
    } else {
        first_of(ws.drop_first(), query)
    }
}

/// Whether a window has other bounds than the first one of its query.
pub open spec fn is_unaligned(ws: Seq<LaneWindow>, i: int) -> bool {
    let first = first_of(ws, ws[i].query@)->0;
    first.start != ws[i].start || first.end != ws[i].end
}

/// What is wrong with current windows, from place `i` on: lanes that disagree
/// on the bounds of a query.
pub open spec fn alignment_fault(ws: Seq<LaneWindow>, i: nat) -> Option<Seq<char>>
    decreases ws.len() - i,
{
    if i >= ws.len() {
        None
    } else if is_unaligned(ws, i as int) {
        let w = ws[i as int];
        let first = first_of(ws, w.query@)->0;
        Some(
            "queue-local query "@ + debug_text(w.query@) + " has unaligned current windows "@
                + bounds_text(first.start, first.end) + " and "@ + bounds_text(w.start, w.end),
        )
    } else {
        alignment_fault(ws, i + 1)
    }
}

fn push_bounds(out: &mut String, start: u64, end: u64)
    ensures
        final(out)@ == old(out)@ + bounds_text(start, end),
{
    let ghost before = out@;
    out.append("(");
    push_decimal(out, start);
    out.append(", ");
    push_decimal(out, end);
    out.append(")");
    assert(out@ =~= before + bounds_text(start, end));
}

fn find_first(ws: &Vec<LaneWindow>, query: &str) -> (r: usize)
    requires
        first_of(ws@, query@) is Some,
    ensures
        r < ws@.len(),
        first_of(ws@, query@) == Some(ws@[r as int]),
{
    let mut i: usize = 0;
    assert(ws@.skip(0) =~= ws@);
    while i < ws.len()
        invariant
            i <= ws@.len(),
            first_of(ws@, query@) is Some,
            first_of(ws@.skip(i as int), query@) == first_of(ws@, query@),
        decreases ws@.len() - i,
    {
        if same_text(ws[i].query.as_str(), query) {
            return i;
        }
        assert(ws@.skip(i as int).drop_first() =~= ws@.skip(i + 1));
        i += 1;
    }
    0
}

proof fn lemma_first_is_there(ws: Seq<LaneWindow>, i: int)
    requires
        0 <= i < ws.len(),
    ensures
        first_of(ws, ws[i].query@) is Some,
    decreases ws.len(),
{
    if ws[0].query@ != ws[i].query@ {
        assert(ws.drop_first()[i - 1] == ws[i]);
        lemma_first_is_there(ws.drop_first(), i - 1);
    }
}

fn check_alignment(ws: &Vec<LaneWindow>) -> (r: Result<(), AgentError>)
    ensures
        match alignment_fault(ws@, 0) {
            Some(m) => r matches Err(AgentError::Engine(SketchError::IncompatibleMerge(s))) && s@
                == m,
            None => r is Ok,
        },
{
    let mut i: usize = 0;
    while i < ws.len()
        invariant
            i <= ws@.len(),
            alignment_fault(ws@, i as nat) == alignment_fault(ws@, 0),
        decreases ws@.len() - i,
    {
        proof {
            lemma_first_is_there(ws@, i as int);
        }
        let w = &ws[i];
        let first = &ws[find_first(ws, w.query.as_str())];
        if first.start != w.start || first.end != w.end {
            let mut m = "queue-local query ".to_owned();
            m.append(quoted(w.query.as_str()).as_str());
            m.append(" has unaligned current windows ");
            push_bounds(&mut m, first.start, first.end);
            m.append(" and ");
            push_bounds(&mut m, w.start, w.end);
            return Err(AgentError::Engine(SketchError::IncompatibleMerge(m)));
        }
        i += 1;
    }
    Ok(())
}

/// The first group, from place `i` on, whose query has no plan.
pub open spec fn unplanned(
    groups: Seq<GroupView>,
    planned: Seq<Seq<char>>,
    i: nat,
) -> Option<Seq<char>>
    decreases groups.len() - i,
{
    if i >= groups.len() {
        None
    } else if !planned.contains(groups[i as int].query) {
        Some(groups[i as int].query)
    } else {
        unplanned(groups, planned, i + 1)
    }
}

fn check_planned(groups: &Vec<MergeGroup>, planned: &[String]) -> (r: Result<(), AgentError>)
    ensures
        match unplanned(group_views(groups@), texts(planned@), 0) {
            Some(q) => r matches Err(AgentError::Engine(SketchError::InvalidParam(s))) && s@
                == "queue-local runtime produced unknown query "@ + debug_text(q),
            None => r is Ok,
        },
{
    let ghost all = group_views(groups@);
    let ghost names = texts(planned@);
    let mut i: usize = 0;
    while i < groups.len()
        invariant
            i <= groups@.len(),
            all == group_views(groups@),
            names == texts(planned@),
            unplanned(all, names, i as nat) == unplanned(all, names, 0),
        decreases groups@.len() - i,
    {
        let query = groups[i].query.as_str();
        assert(all[i as int].query == query@);
        let mut k: usize = 0;
        let mut found = false;
        while k < planned.len() && !found
            invariant
                k <= planned@.len(),
                names == texts(planned@),
                found ==> names.contains(query@),
                !found ==> forall|j: int| 0 <= j < k ==> names[j] != query@,
            decreases planned@.len() - k + (if found {
                0int
            } else {
                1int
            }),
        {
            if same_text(planned[k].as_str(), query) {
                assert(names[k as int] == query@);
                found = true;
            } else {
                k += 1;
            }
        }
        if !found {
            let mut m = "queue-local runtime produced unknown query ".to_owned();
            m.append(quoted(query).as_str());
            return Err(AgentError::Engine(SketchError::InvalidParam(m)));
        }
        i += 1;
    }
    Ok(())
}

/// What a checkpoint comes to.
#[derive(Debug)]
pub struct CheckpointPlan {
    /// Completed windows, whose estimates are published.
    pub completed: Vec<MergeGroup>,
    /// Current windows, whose snapshots are exported; empty if none are asked
    /// for.
    pub current: Vec<MergeGroup>,
    pub sketch_memory_bytes: u64,
    pub late_events: u64,
}

/// What the reports of all lanes come to, lane by lane: which windows are
/// merged, and the sums of the rest. `planned` names the queries that have a
/// plan.
pub fn checkpoint_plan(
    reports: Vec<LaneReport>,
    include_current: bool,
    planned: &[String],
) -> (r: Result<CheckpointPlan, AgentError>)
    ensures
        ({
            let none = Seq::<GroupView>::empty();
            let completed = with_windows(none, completed_windows(reports@));
            let current = current_windows(reports@);
            if include_current && alignment_fault(current, 0) is Some {
                r matches Err(AgentError::Engine(SketchError::IncompatibleMerge(s))) && s@
                    == alignment_fault(current, 0)->0
            } else if unplanned(completed, texts(planned@), 0) is Some {
                r matches Err(AgentError::Engine(SketchError::InvalidParam(s))) && s@
                    == "queue-local runtime produced unknown query "@ + debug_text(
                    unplanned(completed, texts(planned@), 0)->0,
                )
            } else {
                &&& r is Ok
                &&& group_views(r->Ok_0.completed@) == completed
                &&& group_views(r->Ok_0.current@) == (if include_current {
                    with_windows(none, current)
                } else {
                    none
                })
                &&& r->Ok_0.sketch_memory_bytes == memory_of(reports@)
                &&& r->Ok_0.late_events == late_of(reports@)
            }
        }),
{
    let ghost all = reports@;
    let mut rest = reversed(reports);
    let ghost mut k: int = 0;
    let mut completed: Vec<LaneWindow> = Vec::new();
    let mut current: Vec<LaneWindow> = Vec::new();
    let mut memory: u64 = 0;
    let mut late: u64 = 0;
    assert(all.take(0) =~= Seq::<LaneReport>::empty());
    assert(all.skip(0) =~= all);
    while rest.len() > 0
        invariant
            0 <= k <= all.len(),
            rest@ == all.skip(k).reverse(),
            completed@ == completed_windows(all.take(k)),
            current@ == current_windows(all.take(k)),
            memory == memory_of(all.take(k)),
            late == late_of(all.take(k)),
        decreases rest@.len(),
    {
        assert(all.take(k + 1).drop_last() =~= all.take(k));
        assert(rest@.last() == all[k]);
        if let Some(report) = rest.pop() {
            let LaneReport {
                completed: more_completed,
                current: more_current,
                sketch_memory_bytes,
                late_events,
            } = report;
            let mut more_completed = more_completed;
            let mut more_current = more_current;
            completed.append(&mut more_completed);
            current.append(&mut more_current);
            memory = saturating_sum(memory, sketch_memory_bytes);
            late = saturating_sum(late, late_events);
        }
        proof {
            assert(rest@ =~= all.skip(k + 1).reverse());
            k = k + 1;
        }
    }
    assert(all.take(k) =~= all);
    if include_current {
        check_alignment(&current)?;
    }
    let mut completed_groups: Vec<MergeGroup> = Vec::new();
    assert(group_views(completed_groups@) =~= Seq::<GroupView>::empty());
    add_windows(&mut completed_groups, completed);
    check_planned(&completed_groups, planned)?;
    let mut current_groups: Vec<MergeGroup> = Vec::new();
    assert(group_views(current_groups@) =~= Seq::<GroupView>::empty());
    if include_current {
        add_windows(&mut current_groups, current);
    }
    Ok(
        CheckpointPlan {
            completed: completed_groups,
            current: current_groups,
            sketch_memory_bytes: memory,
            late_events: late,
        },
    )
}

/// Whether a window is merged in some group of its query and bounds.
pub open spec fn is_merged(groups: Seq<GroupView>, w: LaneWindow) -> bool {
    exists|i: int|
        0 <= i < groups.len() && is_of(#[trigger] groups[i], w) && groups[i].tokens.contains(
            w.token,
        )
}

proof fn lemma_window_stays_merged(groups: Seq<GroupView>, more: LaneWindow, w: LaneWindow)
    requires
        is_merged(groups, w) || w == more,
    ensures
        is_merged(with_window(groups, more), w),
    decreases groups.len(),
{
    let r = with_window(groups, more);
    let alone = GroupView {
        query: more.query@,
        start: more.start,
        end: more.end,
        tokens: seq![more.token],
    };
    assert(alone.tokens[0] == more.token);
    if groups.len() == 0 {
        assert(r[0] == alone);
        assert(is_of(r[0], w));
    } else {
        let front = groups.drop_last();
        let last = groups.last();
        if is_of(last, more) {
            let grown = GroupView { tokens: last.tokens.push(more.token), ..last };
            assert(r[front.len() as int] == grown);
            if w == more {
                assert(grown.tokens[last.tokens.len() as int] == more.token);
                assert(is_of(r[front.len() as int], w));
            } else {
                let i = choose|i: int|
                    0 <= i < groups.len() && is_of(#[trigger] groups[i], w)
                        && groups[i].tokens.contains(w.token);
                if i < front.len() {
                    assert(r[i] == groups[i]);
                } else {
                    let k = choose|k: int|
                        0 <= k < last.tokens.len() && last.tokens[k] == w.token;
                    assert(grown.tokens[k] == w.token);
                    assert(is_of(r[i], w));
                }
            }
        } else if comes_before(last, more) {
            if w == more {
                assert(r[groups.len() as int] == alone);
                assert(is_of(r[groups.len() as int], w));
            } else {
                let i = choose|i: int|
                    0 <= i < groups.len() && is_of(#[trigger] groups[i], w)
                        && groups[i].tokens.contains(w.token);
                assert(r[i] == groups[i]);
            }
        } else {
            let before = with_window(front, more);
            if w != more && is_of(last, w) && last.tokens.contains(w.token) {
                assert(r[before.len() as int] == last);
            } else {
                if w != more {
                    let i = choose|i: int|
                        0 <= i < groups.len() && is_of(#[trigger] groups[i], w)
                            && groups[i].tokens.contains(w.token);
                    assert(front[i] == groups[i]);
                    assert(is_merged(front, w));
                }
                lemma_window_stays_merged(front, more, w);
                let i = choose|i: int|
                    0 <= i < before.len() && is_of(#[trigger] before[i], w)
                        && before[i].tokens.contains(w.token);
                assert(r[i] == before[i]);
            }
        }
    }
}

/// No window of any lane is lost at a checkpoint.
pub proof fn law_every_window_is_merged(ws: Seq<LaneWindow>, i: int)
    requires
        0 <= i < ws.len(),
    ensures
        is_merged(with_windows(Seq::empty(), ws), ws[i]),
    decreases ws.len(),
{
    let front = ws.drop_last();
    if i < front.len() {
        law_every_window_is_merged(front, i);
        assert(front[i] == ws[i]);
    }
    lemma_window_stays_merged(with_windows(Seq::empty(), front), ws.last(), ws[i]);
}

} // verus!
