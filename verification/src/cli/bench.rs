//! How a benchmark is laid out and judged.

use vstd::prelude::*;
use vstd::string::*;

use crate::event::FlowEvent;
use crate::float_bits::Float64;
use crate::sorting::{lemma_sorted_words, sort_words, sorted_words};

verus! {

/// The algorithms that can be measured.
#[derive(Debug, Clone, Copy, PartialEq, Eq, Structural)]
pub enum Algo {
    CountMin,
    CountSketch,
    Hll,
    HllMap,
    SpaceSaving,
    MisraGries,
}

impl Algo {
    pub open spec fn text(self) -> Seq<char> {
        match self {
            Algo::CountMin => "count-min"@,
            Algo::CountSketch => "count-sketch"@,
            Algo::Hll => "hll"@,
            Algo::HllMap => "hllmap"@,
            Algo::SpaceSaving => "spacesaving"@,
            Algo::MisraGries => "misra-gries"@,
        }
    }

    pub fn name(self) -> (r: &'static str)
        ensures
            r@ == self.text(),
    {
        match self {
            Algo::CountMin => "count-min",
            Algo::CountSketch => "count-sketch",
            Algo::Hll => "hll",
            Algo::HllMap => "hllmap",
            Algo::SpaceSaving => "spacesaving",
            Algo::MisraGries => "misra-gries",
        }
    }
}

/// How often keys occur.
#[derive(Debug, Clone, Copy, PartialEq, Eq, Structural)]
pub enum Dist {
    Uniform,
    Zipf,
}

impl Dist {
    pub open spec fn text(self) -> Seq<char> {
        match self {
            Dist::Uniform => "uniform"@,
            Dist::Zipf => "zipf(s=1)"@,
        }
    }

    pub fn name(self) -> (r: &'static str)
        ensures
            r@ == self.text(),
    {
        match self {
            Dist::Uniform => "uniform",
            Dist::Zipf => "zipf(s=1)",
        }
    }
}

/// A line rate to measure up to.
#[derive(Debug, Clone, Copy, PartialEq, Eq, Structural)]
pub enum Profile {
    /// Every line rate.
    All,
    OneG,
    TenG,
    TwentyFiveG,
    FortyG,
    HundredG,
}

impl Profile {
    /// The line rates that are meant.
    pub open spec fn rates(self) -> Seq<Profile> {
        match self {
            Profile::All => seq![
                Profile::OneG,
                Profile::TenG,
                Profile::TwentyFiveG,
                Profile::FortyG,
                Profile::HundredG,
            ],
            _ => seq![self],
        }
    }

    pub open spec fn text(self) -> Seq<char> {
        match self {
            Profile::All => "all"@,
            Profile::OneG => "1 Gb/s"@,
            Profile::TenG => "10 Gb/s"@,
            Profile::TwentyFiveG => "25 Gb/s"@,
            Profile::FortyG => "40 Gb/s"@,
            Profile::HundredG => "100 Gb/s"@,
        }
    }

    pub open spec fn gigabits(self) -> u32 {
        match self {
            Profile::All => 0,
            Profile::OneG => 1,
            Profile::TenG => 10,
            Profile::TwentyFiveG => 25,
            Profile::FortyG => 40,
            Profile::HundredG => 100,
        }
    }

    /// The line rates that are meant.
    pub fn selected(self) -> (r: Vec<Profile>)
        ensures
            r@ == self.rates(),
    {
        let mut out: Vec<Profile> = Vec::new();
        match self {
            Profile::All => {
                out.push(Profile::OneG);
                out.push(Profile::TenG);
                out.push(Profile::TwentyFiveG);
                out.push(Profile::FortyG);
                out.push(Profile::HundredG);
            },
            _ => {
                out.push(self);
            },
        }
        assert(out@ =~= self.rates());
        out
    }

    pub fn name(self) -> (r: &'static str)
        ensures
            r@ == self.text(),
    {
        match self {
            Profile::All => "all",
            Profile::OneG => "1 Gb/s",
            Profile::TenG => "10 Gb/s",
            Profile::TwentyFiveG => "25 Gb/s",
            Profile::FortyG => "40 Gb/s",
            Profile::HundredG => "100 Gb/s",
        }
    }

    /// The rate in gigabits per second.
    pub fn gbps(self) -> (r: u32)
        ensures
            r == self.gigabits(),
    {
        match self {
            Profile::All => 0,
            Profile::OneG => 1,
            Profile::TenG => 10,
            Profile::TwentyFiveG => 25,
            Profile::FortyG => 40,
            Profile::HundredG => 100,
        }
    }
}

// ---------------------------------------------------------------------------
// Options
// ---------------------------------------------------------------------------

/// Check the options of a benchmark over made-up keys.
pub fn check_synthetic(keys: u64) -> (r: Result<(), String>)
    ensures
        if keys == 0 {
            r matches Err(m) && m@ == "--keys must be positive"@
        } else {
            r is Ok
        },
{
    if keys == 0 {
        Err("--keys must be positive".to_owned())
    } else {
        Ok(())
    }
}

/// Check the options of a benchmark over several shards.
pub fn check_sharded(shards: usize, iterations: usize) -> (r: Result<(), String>)
    ensures
        if shards == 0 {
            r matches Err(m) && m@ == "--runtime-shards must be at least 1"@
        } else if iterations < 1 || iterations > 100 {
            r matches Err(m) && m@ == "--runtime-iterations must be between 1 and 100"@
        } else {
            r is Ok
        },
{
    if shards == 0 {
        Err("--runtime-shards must be at least 1".to_owned())
    } else if iterations < 1 || iterations > 100 {
        Err("--runtime-iterations must be between 1 and 100".to_owned())
    } else {
        Ok(())
    }
}

/// Whether a number is finite and above zero.
pub open spec fn is_positive(x: Float64) -> bool {
    0 < x.bits < 0x7ff0_0000_0000_0000
}

fn positive(x: Float64) -> (r: bool)
    ensures
        r == is_positive(x),
{
    x.bits > 0 && x.bits < 0x7ff0_0000_0000_0000
}

/// Check a line rate that event times are to be stretched to.
pub fn check_line_rate(gbps: Float64) -> (r: Result<(), String>)
    ensures
        if is_positive(gbps) {
            r is Ok
        } else {
            r matches Err(m) && m@
                == "--normalize-line-rate-gbps must be a finite value greater than zero"@
        },
{
    if positive(gbps) {
        Ok(())
    } else {
        Err("--normalize-line-rate-gbps must be a finite value greater than zero".to_owned())
    }
}

/// How many keys a map of sketches keeps in a benchmark: room for the groups
/// of the scanner example, but not more than there are keys.
pub fn retained_keys(keys: usize) -> (r: usize)
    ensures
        r == (if keys < 1 {
            1usize
        } else if keys > 2_000 {
            2_000usize
        } else {
            keys
        }),
{
    if keys < 1 {
        1
    } else if keys > 2_000 {
        2_000
    } else {
        keys
    }
}

// ---------------------------------------------------------------------------
// A trace
// ---------------------------------------------------------------------------

/// What a trace adds up to.
#[derive(Debug, Clone, Copy, PartialEq, Eq, Structural)]
pub struct TraceTally {
    pub events: u64,
    pub total_l3_bytes: u64,
    pub first_timestamp: Option<u64>,
    pub last_timestamp: Option<u64>,
}

impl TraceTally {
    /// The tally of events in their order.
    pub open spec fn of(es: Seq<FlowEvent>) -> TraceTally
        decreases es.len(),
    {
        if es.len() == 0 {
            TraceTally { events: 0, total_l3_bytes: 0, first_timestamp: None, last_timestamp: None }
        } else {
            let before = Self::of(es.drop_last());
            TraceTally {
                events: (before.events + 1) as u64,
                total_l3_bytes: (before.total_l3_bytes + es.last().bytes) as u64,
                first_timestamp: match before.first_timestamp {
                    Some(t) => Some(t),
                    None => Some(es.last().ts_nanos),
                },
                last_timestamp: Some(es.last().ts_nanos),
            }
        }
    }

    pub fn new() -> (r: Self)
        ensures
            r == Self::of(Seq::empty()),
    {
        TraceTally { events: 0, total_l3_bytes: 0, first_timestamp: None, last_timestamp: None }
    }

    /// Count an event.
    pub fn count(&mut self, e: &FlowEvent)
        requires
            old(self).events < u64::MAX,
            old(self).total_l3_bytes + e.bytes <= u64::MAX,
        ensures
            forall|es: Seq<FlowEvent>|
                *old(self) == #[trigger] Self::of(es) ==> *final(self) == Self::of(es.push(*e)),
            final(self).events == old(self).events + 1,
            final(self).total_l3_bytes == old(self).total_l3_bytes + e.bytes,
    {
        self.events = self.events + 1;
        self.total_l3_bytes = self.total_l3_bytes + e.bytes as u64;
        if self.first_timestamp.is_none() {
            self.first_timestamp = Some(e.ts_nanos);
        }
        self.last_timestamp = Some(e.ts_nanos);
        proof {
            assert forall|es: Seq<FlowEvent>| *old(self) == #[trigger] Self::of(
                es,
            ) implies *self == Self::of(es.push(*e)) by {
                assert(es.push(*e).drop_last() =~= es);
            }
        }
    }

    /// Time from the first event to the last; none if it does not go forward.
    pub fn duration_nanos(&self) -> (r: u64)
        ensures
            match (self.first_timestamp, self.last_timestamp) {
                (Some(first), Some(last)) => r == (if last > first {
                    (last - first) as u64
                } else {
                    0u64
                }),
                _ => r == 0,
            },
    {
        match (self.first_timestamp, self.last_timestamp) {
            (Some(first), Some(last)) => if last > first {
                last - first
            } else {
                0
            },
            _ => 0,
        }
    }
}

/// How many shards are worth having for a number of events.
pub fn effective_shards(shards: usize, events: usize) -> (r: usize)
    requires
        shards > 0,
    ensures
        r > 0,
        r == (if events == 0 {
            1
        } else if shards < events {
            shards
        } else {
            events
        }),
{
    if events == 0 {
        1
    } else if shards < events {
        shards
    } else {
        events
    }
}

/// The smallest and the largest of counts; zero if there are none.
pub fn extremes(counts: &[usize]) -> (r: (usize, usize))
    ensures
        counts@.len() == 0 ==> r == (0usize, 0usize),
        counts@.len() > 0 ==> counts@.contains(r.0) && counts@.contains(r.1),
        forall|i: int| 0 <= i < counts@.len() ==> r.0 <= #[trigger] counts@[i] <= r.1,
{
    if counts.len() == 0 {
        return (0, 0);
    }
    let mut low: usize = counts[0];
    let mut high: usize = counts[0];
    let mut i: usize = 1;
    assert(counts@[0] == low);
    while i < counts.len()
        invariant
            1 <= i <= counts@.len(),
            counts@.contains(low),
            counts@.contains(high),
            forall|k: int| 0 <= k < i ==> low <= #[trigger] counts@[k] <= high,
        decreases counts@.len() - i,
    {
        let n: usize = counts[i];
        assert(counts@[i as int] == n);
        if n < low {
            low = n;
        }
        if n > high {
            high = n;
        }
        i += 1;
    }
    (low, high)
}

/// The middle of samples, the later one of two.
pub fn median(samples: &Vec<u64>) -> (r: u64)
    requires
        samples@.len() > 0,
    ensures
        r == sorted_words(samples@)[samples@.len() as int / 2],
{
    let sorted = sort_words(samples);
    proof {
        lemma_sorted_words(samples@);
    }
    sorted[sorted.len() / 2]
}

// ---------------------------------------------------------------------------
// Readiness
// ---------------------------------------------------------------------------

/// How many cores a line rate would take.
#[derive(Debug, Clone, Copy, PartialEq, Eq, Structural)]
pub struct LineRateProjection {
    pub profile: Profile,
    pub estimated_cores: Float64,
}

/// What is wrong with a budget of cores.
pub open spec fn budget_fault(projections: nat, budget: Float64) -> Option<Seq<char>> {
    if projections == 0 {
        Some("--core-budget requires --profile so there is a line-rate target to check"@)
    } else if !is_positive(budget) {
        Some("--core-budget must be a positive finite number"@)
    } else {
        None
    }
}

/// Which projections stay within a budget of cores.
pub fn check_budget(projections: &[LineRateProjection], budget: Float64) -> (r: Result<
    Vec<bool>,
    String,
>)
    ensures
        match budget_fault(projections@.len(), budget) {
            Some(m) => r matches Err(s) && s@ == m,
            None => r is Ok && r->Ok_0@.len() == projections@.len() && forall|i: int|
                0 <= i < projections@.len() ==> #[trigger] r->Ok_0@[i]
                    == projections@[i].estimated_cores.at_most(budget),
        },
{
    if projections.len() == 0 {
        return Err(
            "--core-budget requires --profile so there is a line-rate target to check".to_owned(),
        );
    }
    if !positive(budget) {
        return Err("--core-budget must be a positive finite number".to_owned());
    }
    let mut passed: Vec<bool> = Vec::new();
    let mut i: usize = 0;
    while i < projections.len()
        invariant
            i <= projections@.len(),
            passed@.len() == i,
            forall|k: int|
                0 <= k < i ==> #[trigger] passed@[k] == projections@[k].estimated_cores.at_most(
                    budget,
                ),
        decreases projections@.len() - i,
    {
        passed.push(projections[i].estimated_cores.le(budget));
        i += 1;
    }
    Ok(passed)
}

/// The verdict on a budget: every projection has to pass.
pub fn readiness(passed: &[bool]) -> (r: Result<(), String>)
    ensures
        (forall|i: int| 0 <= i < passed@.len() ==> #[trigger] passed@[i]) ==> r is Ok,
        !(forall|i: int| 0 <= i < passed@.len() ==> #[trigger] passed@[i]) ==> (r matches Err(m)
            && m@ == "line-rate readiness check exceeded --core-budget"@),
{
    let mut i: usize = 0;
    while i < passed.len()
        invariant
            i <= passed@.len(),
            forall|k: int| 0 <= k < i ==> #[trigger] passed@[k],
        decreases passed@.len() - i,
    {
        if !passed[i] {
            return Err("line-rate readiness check exceeded --core-budget".to_owned());
        }
        i += 1;
    }
    Ok(())
}

/// All profiles together are the five line rates, in ascending order.
pub proof fn law_all_profiles_are_ascending(i: int, j: int)
    requires
        0 <= i < j < Profile::All.rates().len(),
    ensures
        Profile::All.rates()[i].gigabits() < Profile::All.rates()[j].gigabits(),
        Profile::All.rates()[i] != Profile::All,
{
}

} // verus!
