//! Benchmarks of one sketch over a synthetic stream of keys.

use std::collections::HashSet;

use vstd::prelude::*;
use vstd::std_specs::hash::*;
use vstd::string::*;

use crate::algos::count_min::{CountMin, CountMinSketch};
use crate::algos::count_sketch::{CountSketch, SignedTable};
use crate::algos::hll::{Hll, HyperLogLog};
use crate::algos::misra_gries::{lemma_least_exists, Frequent, MisraGries};
use crate::algos::space_saving::SpaceSaving;
use crate::algos::summary::Summary;
use crate::algos::summary_laws::lemma_least;
use crate::bytes::{le, put_le};
use crate::cli::bench::Algo;
use crate::error::{SketchError, SketchErrorView};
use crate::hash::{stream_state, stream_value, HashSpec, SplitMixRng};
use crate::sketch::Sketch;

verus! {

// ---------------------------------------------------------------------------
// The stream
// ---------------------------------------------------------------------------

/// The bytes of a key.
pub open spec fn key_of(id: u64) -> Seq<u8> {
    le(id as nat, 8)
}

/// The bytes of a key.
pub fn key_bytes(id: u64) -> (r: Vec<u8>)
    ensures
        r@ == key_of(id),
{
    let mut out: Vec<u8> = Vec::new();
    put_le(&mut out, id, 8);
    assert(out@ =~= key_of(id));
    out
}

/// The bytes of all keys, so that none has to be encoded while updates are
/// timed.
pub fn key_table(keys: usize) -> (r: Vec<Vec<u8>>)
    ensures
        r@.len() == keys,
        forall|i: int| 0 <= i < keys ==> (#[trigger] r@[i])@ == key_of(i as u64),
{
    let mut out: Vec<Vec<u8>> = Vec::new();
    for i in 0..keys
        invariant
            out@.len() == i,
            forall|k: int| 0 <= k < i ==> (#[trigger] out@[k])@ == key_of(k as u64),
    {
        out.push(key_bytes(i as u64));
    }
    out
}

/// Draw keys that are all equally likely.
pub fn uniform_ids(rng: &mut SplitMixRng, events: usize, keys: u64) -> (r: Vec<u64>)
    requires
        keys > 0,
    ensures
        r@.len() == events,
        forall|i: int|
            0 <= i < events ==> #[trigger] r@[i] == stream_value(old(rng).state(), i as nat) % keys,
        final(rng).state() == stream_state(old(rng).state(), events as nat),
{
    let ghost start = rng.state();
    let mut out: Vec<u64> = Vec::new();
    for i in 0..events
        invariant
            keys > 0,
            out@.len() == i,
            forall|k: int|
                0 <= k < i ==> #[trigger] out@[k] == stream_value(start, k as nat) % keys,
            rng.state() == stream_state(start, i as nat),
    {
        let drawn: u64 = rng.next_u64();
        out.push(drawn % keys);
    }
    out
}

/// How many different keys there are.
pub fn distinct(ids: &[u64]) -> (r: usize)
    ensures
        r == ids@.to_set().len(),
{
    broadcast use group_hash_axioms;

    let mut seen: HashSet<u64> = HashSet::new();
    proof {
        assert(ids@.take(0).to_set() =~= Set::empty());
    }
    for i in 0..ids.len()
        invariant
            seen@ == ids@.take(i as int).to_set(),
    {
        seen.insert(ids[i]);
        proof {
            let before = ids@.take(i as int);
            let after = ids@.take(i + 1);
            assert(after =~= before.push(ids@[i as int]));
            assert forall|x: u64| after.to_set().contains(x) implies before.to_set().insert(
                ids@[i as int],
            ).contains(x) by {
                let k = choose|k: int| 0 <= k < after.len() && after[k] == x;
                if k < i {
                    assert(before[k] == x);
                }
            }
            assert forall|x: u64| before.to_set().insert(ids@[i as int]).contains(x) implies
                after.to_set().contains(x) by {
                if x == ids@[i as int] {
                    assert(after[i as int] == x);
                } else {
                    let k = choose|k: int| 0 <= k < before.len() && before[k] == x;
                    assert(after[k] == x);
                }
            }
            assert(after.to_set() =~= before.to_set().insert(ids@[i as int]));
        }
    }
    proof {
        assert(ids@.take(ids@.len() as int) =~= ids@);
    }
    seen.len()
}

// ---------------------------------------------------------------------------
// The sketch
// ---------------------------------------------------------------------------

/// Columns and rows of a count-sketch under test.
pub const SIGNED_WIDTH: usize = 32_768;

pub const SIGNED_DEPTH: usize = 5;

/// Precision of a HyperLogLog under test.
pub const HLL_PRECISION: u8 = 14;

/// Counters of a heavy-hitter summary under test.
pub const SUMMARY_CAPACITY: usize = 4_096;

/// A sketch under test.
pub enum Subject {
    CountMin(CountMinSketch),
    CountSketch(CountSketch),
    Hll(HyperLogLog),
    SpaceSaving(SpaceSaving),
    MisraGries(MisraGries),
}

/// The content of a [`Subject`].
pub ghost enum SubjectView {
    CountMin(CountMin),
    CountSketch(SignedTable),
    Hll(Hll),
    SpaceSaving(Summary),
    MisraGries(Frequent),
}

impl View for Subject {
    type V = SubjectView;

    open spec fn view(&self) -> SubjectView {
        match self {
            Subject::CountMin(s) => SubjectView::CountMin(s@),
            Subject::CountSketch(s) => SubjectView::CountSketch(s@),
            Subject::Hll(s) => SubjectView::Hll(s@),
            Subject::SpaceSaving(s) => SubjectView::SpaceSaving(s@),
            Subject::MisraGries(s) => SubjectView::MisraGries(s@),
        }
    }
}

impl SubjectView {
    /// A sketch that has seen nothing. The dimensions are those of a
    /// count-min sketch; a map of sketches is no subject.
    pub open spec fn empty(algo: Algo, width: int, depth: int, hash: HashSpec) -> SubjectView {
        match algo {
            Algo::CountMin => SubjectView::CountMin(CountMin::empty(width, depth, false, hash)),
            Algo::CountSketch => SubjectView::CountSketch(
                SignedTable::empty(SIGNED_WIDTH as int, SIGNED_DEPTH as int, hash),
            ),
            Algo::Hll => SubjectView::Hll(Hll::empty(HLL_PRECISION, hash)),
            Algo::SpaceSaving => SubjectView::SpaceSaving(
                Summary::empty(SUMMARY_CAPACITY as int, hash),
            ),
            _ => SubjectView::MisraGries(Frequent::empty(SUMMARY_CAPACITY as int, hash)),
        }
    }

    /// The sketch after one more occurrence of a key.
    pub open spec fn updated(self, key: Seq<u8>) -> SubjectView {
        match self {
            SubjectView::CountMin(s) => SubjectView::CountMin(s.updated(key, 1)),
            SubjectView::CountSketch(s) => SubjectView::CountSketch(s.updated(key, 1)),
            SubjectView::Hll(s) => SubjectView::Hll(s.inserted(key)),
            SubjectView::SpaceSaving(s) => SubjectView::SpaceSaving(s.added(key, 1)),
            SubjectView::MisraGries(s) => SubjectView::MisraGries(s.added(key, 1)),
        }
    }

    /// The sketch after the keys that `ids` names, first to last.
    pub open spec fn fed(self, keys: Seq<Vec<u8>>, ids: Seq<u64>) -> SubjectView
        decreases ids.len(),
    {
        if ids.len() == 0 {
            self
        } else {
            self.fed(keys, ids.drop_last()).updated(keys[ids.last() as int]@)
        }
    }

    pub open spec fn updates(self) -> int {
        match self {
            SubjectView::CountMin(s) => s.updates,
            SubjectView::CountSketch(s) => s.updates,
            SubjectView::Hll(s) => s.updates,
            SubjectView::SpaceSaving(s) => s.updates,
            SubjectView::MisraGries(s) => s.updates,
        }
    }

    /// No counter exceeds `n`.
    pub open spec fn within(self, n: int) -> bool {
        match self {
            SubjectView::CountMin(s) => {
                &&& s.indexable() && !s.conservative
                &&& forall|i: int| 0 <= i < s.table.len() ==> 0 <= #[trigger] s.table[i] <= n
                &&& 0 <= s.total <= n
            },
            SubjectView::CountSketch(s) => {
                &&& s.indexable()
                &&& forall|i: int| 0 <= i < s.table.len() ==> -n <= #[trigger] s.table[i] <= n
            },
            SubjectView::Hll(s) => true,
            SubjectView::SpaceSaving(s) => {
                &&& s.bounded()
                &&& forall|k: Seq<u8>| #[trigger]
                    s.entries.contains_key(k) ==> 0 <= s.entries[k].error <= s.entries[k].count
                        <= n
                &&& 0 <= s.total <= n
            },
            SubjectView::MisraGries(s) => {
                &&& s.bounded()
                &&& forall|k: Seq<u8>| #[trigger]
                    s.counters.contains_key(k) ==> 0 <= s.counters[k] <= n
                &&& 0 <= s.total <= n
            },
        }
    }

    /// The sketch has counted single occurrences only, so that no counter
    /// exceeds the number of updates.
    pub open spec fn counts_ones(self) -> bool {
        self.updates() >= 0 && self.within(self.updates())
    }
}

proof fn lemma_count_min_within(s: CountMin, key: Seq<u8>, n: int)
    requires
        SubjectView::CountMin(s).within(n),
    ensures
        SubjectView::CountMin(s.updated(key, 1)).within(n + 1),
{
}

proof fn lemma_count_sketch_within(s: SignedTable, key: Seq<u8>, n: int)
    requires
        SubjectView::CountSketch(s).within(n),
    ensures
        SubjectView::CountSketch(s.updated(key, 1)).within(n + 1),
{
    let after = s.updated(key, 1);
    assert forall|i: int| 0 <= i < after.table.len() implies -(n + 1) <= #[trigger] after.table[i]
        <= n + 1 by {
        let sign = s.sign(key, i / s.width);
        assert(sign == 1 || sign == -1);
        assert(-n <= s.table[i] <= n);
        assert(sign * 1 == sign);
    }
}

proof fn lemma_summary_within(s: Summary, key: Seq<u8>, n: int)
    requires
        SubjectView::SpaceSaving(s).within(n),
        n >= 0,
    ensures
        ({
            let after = s.added(key, 1);
            &&& forall|k: Seq<u8>| #[trigger]
                after.entries.contains_key(k) ==> 0 <= after.entries[k].error
                    <= after.entries[k].count <= n + 1
            &&& 0 <= after.total <= n + 1
        }),
{
    if s.entries.dom().len() > 0 {
        lemma_least(s);
    }
}

proof fn lemma_frequent_within(s: Frequent, key: Seq<u8>, n: int)
    requires
        SubjectView::MisraGries(s).within(n),
        n >= 0,
    ensures
        ({
            let after = s.added(key, 1);
            &&& forall|k: Seq<u8>| #[trigger]
                after.counters.contains_key(k) ==> 0 <= after.counters[k] <= n + 1
            &&& 0 <= after.total <= n + 1
        }),
{
    if s.counters.dom().len() > 0 {
        lemma_least_exists(s.counters);
    }
}

impl Subject {
    pub open spec fn wf(&self) -> bool {
        match self {
            Subject::CountMin(s) => s.wf(),
            Subject::CountSketch(s) => s.wf(),
            Subject::Hll(s) => s.wf(),
            Subject::SpaceSaving(s) => s.wf(),
            Subject::MisraGries(s) => s.wf(),
        }
    }

    /// A sketch to measure, with the dimensions of a count-min sketch.
    pub fn new(algo: Algo, width: usize, depth: usize, hash: HashSpec) -> (r: Result<
        Self,
        SketchError,
    >)
        requires
            algo != Algo::HllMap,
            8 * (width * depth) <= isize::MAX,
        ensures
            r is Ok <==> algo != Algo::CountMin || width > 0 && depth > 0,
            r matches Ok(s) ==> s.wf() && s@ == SubjectView::empty(
                algo,
                width as int,
                depth as int,
                hash,
            ) && s@.counts_ones(),
            r matches Err(e) ==> e@ == SketchErrorView::InvalidParam(
                "count-min width and depth must be positive"@,
            ),
    {
        match algo {
            Algo::CountMin => match CountMinSketch::new(width, depth, false, hash) {
                Ok(s) => Ok(Subject::CountMin(s)),
                Err(e) => Err(e),
            },
            Algo::CountSketch => match CountSketch::new(SIGNED_WIDTH, SIGNED_DEPTH, hash) {
                Ok(s) => Ok(Subject::CountSketch(s)),
                Err(e) => Err(e),
            },
            Algo::Hll => match HyperLogLog::new(HLL_PRECISION, hash) {
                Ok(s) => Ok(Subject::Hll(s)),
                Err(e) => Err(e),
            },
            Algo::SpaceSaving => match SpaceSaving::new(SUMMARY_CAPACITY, hash) {
                Ok(s) => {
                    proof {
                        s.law_tracked_keys_are_bounded();
                    }
                    Ok(Subject::SpaceSaving(s))
                },
                Err(e) => Err(e),
            },
            _ => match MisraGries::new(SUMMARY_CAPACITY, hash) {
                Ok(s) => {
                    proof {
                        s.law_tracked_keys_are_bounded();
                    }
                    Ok(Subject::MisraGries(s))
                },
                Err(e) => Err(e),
            },
        }
    }

    /// Count one occurrence of a key.
    pub fn update(&mut self, key: &[u8])
        requires
            old(self).wf(),
            old(self)@.counts_ones(),
            old(self)@.updates() < i64::MAX,
        ensures
            final(self).wf(),
            final(self)@ == old(self)@.updated(key@),
            final(self)@.counts_ones(),
    {
        let ghost n = self@.updates();
        match self {
            Subject::CountMin(s) => {
                proof {
                    lemma_count_min_within(s@, key@, n);
                }
                s.update(key, 1);
            },
            Subject::CountSketch(s) => {
                proof {
                    lemma_count_sketch_within(s@, key@, n);
                }
                s.update(key, 1);
            },
            Subject::Hll(s) => {
                s.update(key, 1);
            },
            Subject::SpaceSaving(s) => {
                proof {
                    lemma_summary_within(s@, key@, n);
                }
                s.update(key, 1);
                proof {
                    s.law_tracked_keys_are_bounded();
                }
            },
            Subject::MisraGries(s) => {
                proof {
                    lemma_frequent_within(s@, key@, n);
                }
                s.update(key, 1);
                proof {
                    s.law_tracked_keys_are_bounded();
                }
            },
        }
    }

    /// Count the keys that `ids` names, first to last.
    pub fn fill(&mut self, keys: &[Vec<u8>], ids: &[u64])
        requires
            forall|i: int| 0 <= i < ids@.len() ==> #[trigger] ids@[i] < keys@.len(),
            old(self).wf(),
            old(self)@.counts_ones(),
            old(self)@.updates() + ids@.len() <= i64::MAX,
        ensures
            final(self).wf(),
            final(self)@ == old(self)@.fed(keys@, ids@),
            final(self)@.counts_ones(),
            final(self)@.updates() == old(self)@.updates() + ids@.len(),
    {
        proof {
            assert(ids@.take(0) =~= Seq::empty());
        }
        for i in 0..ids.len()
            invariant
                self.wf(),
                self@.counts_ones(),
                self@.updates() == old(self)@.updates() + i,
                old(self)@.updates() + ids@.len() <= i64::MAX,
                self@ == old(self)@.fed(keys@, ids@.take(i as int)),
                forall|k: int| 0 <= k < ids@.len() ==> #[trigger] ids@[k] < keys@.len(),
        {
            let id: usize = ids[i] as usize;
            self.update(keys[id].as_slice());
            proof {
                assert(ids@.take(i + 1).drop_last() =~= ids@.take(i as int));
                assert(ids@.take(i + 1).last() == ids@[i as int]);
            }
        }
        proof {
            assert(ids@.take(ids@.len() as int) =~= ids@);
        }
    }

    /// Whether a heavy-hitter summary counts a key.
    pub open spec fn counts_key(&self, key: Seq<u8>) -> bool {
        match self {
            Subject::SpaceSaving(s) => s@.entries.contains_key(key) && s@.entries[key].count > 0,
            Subject::MisraGries(s) => s@.counters.contains_key(key) && s@.counters[key] > 0,
            _ => false,
        }
    }

    /// How many of the first `n` keys a heavy-hitter summary counts.
    pub open spec fn hits_among(&self, truth: Seq<(Vec<u8>, u64)>, n: nat) -> nat
        decreases n,
    {
        if n == 0 {
            0
        } else {
            self.hits_among(truth, (n - 1) as nat) + if self.counts_key(truth[n - 1].0@) {
                1nat
            } else {
                0
            }
        }
    }

    /// How many keys a heavy-hitter summary counts; none for other sketches.
    pub fn hits(&self, truth: &[(Vec<u8>, u64)]) -> (r: usize)
        requires
            self.wf(),
        ensures
            r == self.hits_among(truth@, truth@.len()),
            r <= truth@.len(),
    {
        let mut n: usize = 0;
        for i in 0..truth.len()
            invariant
                self.wf(),
                n == self.hits_among(truth@, i as nat),
                n <= i,
        {
            let key = truth[i].0.as_slice();
            let counted = match self {
                Subject::SpaceSaving(s) => match s.get(key) {
                    Some(e) => e.count > 0,
                    None => false,
                },
                Subject::MisraGries(s) => match s.get(key) {
                    Some(c) => c > 0,
                    None => false,
                },
                _ => false,
            };
            if counted {
                n += 1;
            }
        }
        n
    }
}

} // verus!
