//! Count-Min Sketch (Cormode & Muthukrishnan): a sublinear-space frequency
//! table for nonnegative updates.
//!
//! Point estimates never underestimate; with width `w` and depth `d`, the
//! overestimate exceeds `(e / w) * N` (N = total weight) with probability at
//! most `e^-d`. Optional conservative update reduces overestimation for
//! skewed streams at the cost of linearity.

use vstd::prelude::*;
use vstd::string::*;

use crate::algos::table::{
    cell, is_hit, lemma_cell, lemma_row, lemma_words_index, lemma_words_len, sum_tables, words,
    words_at,
};
use crate::bytes::{le, lemma_le_value_of_le, lemma_pow256_values};
use crate::error::{SketchError, SketchErrorView};
use crate::hash::{hash64, hash_of, row_base, HashSpec, RowHashes};
use crate::sketch::{Compat, Sketch, SketchCompatibility};
use crate::snapshot::{
    algorithm_id, field_at, law_snapshot_round_trip, read_snapshot, snapshot_bytes,
    snapshot_content, snapshot_err, write_snapshot, Reader, SnapshotHeader, Writer,
    SNAPSHOT_VERSION,
};

verus! {

pub const ALGORITHM: &'static str = "count-min";

#[derive(Debug, Clone)]
pub struct CountMinSketch {
    width: usize,
    depth: usize,
    conservative: bool,
    hash: HashSpec,
    table: Vec<u64>,
    total_weight: u64,
    updates: u64,
}

/// The mathematical state of a [`CountMinSketch`].
#[verifier::ext_equal]
pub ghost struct CountMin {
    pub width: int,
    pub depth: int,
    pub conservative: bool,
    pub hash: HashSpec,
    /// `depth` rows of `width` columns, row by row.
    pub table: Seq<int>,
    pub total: int,
    pub updates: int,
}

pub open spec fn min_int(a: int, b: int) -> int {
    if a < b {
        a
    } else {
        b
    }
}

pub open spec fn max_int(a: int, b: int) -> int {
    if a < b {
        b
    } else {
        a
    }
}

impl CountMin {
    /// The state before any update.
    pub open spec fn empty(width: int, depth: int, conservative: bool, hash: HashSpec) -> CountMin {
        CountMin {
            width,
            depth,
            conservative,
            hash,
            table: Seq::new((width * depth) as nat, |i: int| 0),
            total: 0,
            updates: 0,
        }
    }

    /// The table has the declared shape.
    pub open spec fn shaped(self) -> bool {
        &&& 0 <= self.width
        &&& 0 <= self.depth
        &&& self.table.len() == self.width * self.depth
    }

    /// Every row has columns, so keys have cells.
    pub open spec fn indexable(self) -> bool {
        self.depth > 0 ==> self.width > 0
    }

    /// All numbers fit into 64 bits.
    pub open spec fn fits(self) -> bool {
        &&& forall|i: int| 0 <= i < self.table.len() ==> 0 <= #[trigger] self.table[i] <= u64::MAX
        &&& 0 <= self.total <= u64::MAX
        &&& 0 <= self.updates <= u64::MAX
    }

    /// The least cell of `key` among the first `rows` rows.
    pub open spec fn least(self, key: Seq<u8>, rows: int) -> int
        decreases rows,
    {
        if rows <= 0 {
            u64::MAX as int
        } else {
            min_int(
                self.least(key, rows - 1),
                self.table[cell(self.hash.seed, key, rows - 1, self.width)],
            )
        }
    }

    /// The point estimate for `key`: the least of its cells.
    pub open spec fn estimate(self, key: Seq<u8>) -> int {
        self.least(key, self.depth)
    }

    /// The value of position `i` after an update. A plain update adds to
    /// every cell of the key; a conservative one raises each only up to the
    /// new point estimate.
    pub open spec fn updated_cell(self, key: Seq<u8>, value: int, i: int) -> int {
        if !is_hit(self.hash.seed, key, self.width, i) {
            self.table[i]
        } else if self.conservative {
            max_int(self.table[i], self.estimate(key) + value)
        } else {
            self.table[i] + value
        }
    }

    /// The state after adding `value` for `key`.
    pub open spec fn updated(self, key: Seq<u8>, value: int) -> CountMin {
        CountMin {
            table: Seq::new(self.table.len(), |i: int| self.updated_cell(key, value, i)),
            total: self.total + value,
            updates: self.updates + 1,
            ..self
        }
    }

    /// The state after merging `other`.
    pub open spec fn merged(self, other: CountMin) -> CountMin {
        CountMin {
            table: sum_tables(self.table, other.table),
            total: self.total + other.total,
            updates: self.updates + other.updates,
            ..self
        }
    }

    /// The state after a stream of updates, first to last.
    pub open spec fn fed(self, stream: Seq<(Seq<u8>, int)>) -> CountMin
        decreases stream.len(),
    {
        if stream.len() == 0 {
            self
        } else {
            self.fed(stream.drop_last()).updated(stream.last().0, stream.last().1)
        }
    }

    /// What distinguishes the parameters in a descriptor.
    pub open spec fn params_hash(self) -> u64 {
        hash_of(
            le(self.width as nat, 8) + le(self.depth as nat, 8) + seq![
                if self.conservative { 1u8 } else { 0u8 },
            ],
            0,
        )
    }

    pub open spec fn compat(self) -> Compat {
        Compat {
            algorithm: ALGORITHM@,
            version: 1,
            hash: self.hash,
            params_hash: self.params_hash(),
        }
    }

    /// The snapshot of the state for a window.
    pub open spec fn snapshot(self, window_start: u64, window_end: u64) -> Seq<u8> {
        snapshot_bytes(
            SnapshotHeader {
                version: SNAPSHOT_VERSION,
                algorithm_id: algorithm_id::COUNT_MIN,
                hash: self.hash,
                window_start_nanos: window_start,
                window_end_nanos: window_end,
            },
            le(self.width as usize as u32 as nat, 4) + le(self.depth as usize as u32 as nat, 4)
                + seq![if self.conservative { 1u8 } else { 0u8 }],
            le(self.total as nat, 8) + le(self.updates as nat, 8) + words(self.table),
        )
    }

    /// The state that a snapshot denotes, or why it denotes none.
    pub open spec fn from_snapshot(bytes: Seq<u8>) -> Result<CountMin, SketchErrorView> {
        match snapshot_content(bytes) {
            Err(e) => Err(e),
            Ok((header, params, payload)) => {
                let width = field_at(params, 0, 4) as int;
                let depth = field_at(params, 4, 4) as int;
                if header.algorithm_id != algorithm_id::COUNT_MIN {
                    snapshot_err("not a count-min snapshot"@)
                } else if params.len() < 9 || payload.len() < 16 + 8 * (width * depth) {
                    snapshot_err("unexpected end of snapshot"@)
                } else {
                    Ok(
                        CountMin {
                            width,
                            depth,
                            conservative: params[8] != 0,
                            hash: header.hash,
                            table: words_at(payload, 16, width * depth),
                            total: field_at(payload, 0, 8) as int,
                            updates: field_at(payload, 8, 8) as int,
                        },
                    )
                }
            },
        }
    }
}

impl View for CountMinSketch {
    type V = CountMin;

    closed spec fn view(&self) -> CountMin {
        CountMin {
            width: self.width as int,
            depth: self.depth as int,
            conservative: self.conservative,
            hash: self.hash,
            table: self.table@.map_values(|c: u64| c as int),
            total: self.total_weight as int,
            updates: self.updates as int,
        }
    }
}

impl CountMinSketch {
    pub fn new(width: usize, depth: usize, conservative: bool, hash: HashSpec) -> (r: Result<
        Self,
        SketchError,
    >)
        requires
            8 * (width * depth) <= isize::MAX,
        ensures
            r is Ok <==> width > 0 && depth > 0,
            r matches Ok(s) ==> s.wf() && s@ == CountMin::empty(
                width as int,
                depth as int,
                conservative,
                hash,
            ),
            r matches Err(e) ==> e@ == SketchErrorView::InvalidParam(
                "count-min width and depth must be positive"@,
            ),
    {
        if width == 0 || depth == 0 {
            return Err(
                SketchError::InvalidParam("count-min width and depth must be positive".to_owned()),
            );
        }
        let s = CountMinSketch {
            width,
            depth,
            conservative,
            hash,
            table: vec![0u64;width * depth],
            total_weight: 0,
            updates: 0,
        };
        assert(s@ =~= CountMin::empty(width as int, depth as int, conservative, hash));
        Ok(s)
    }

    pub fn width(&self) -> (r: usize)
        ensures
            r == self@.width,
    {
        self.width
    }

    pub fn depth(&self) -> (r: usize)
        ensures
            r == self@.depth,
    {
        self.depth
    }

    pub fn conservative(&self) -> (r: bool)
        ensures
            r == self@.conservative,
    {
        self.conservative
    }

    pub fn total_weight(&self) -> (r: u64)
        ensures
            r == self@.total,
    {
        self.total_weight
    }

    /// Whether the sums of a merge fit into 64 bits.
    pub fn can_merge(&self, other: &Self) -> (r: bool)
        ensures
            r == self@.merged(other@).fits(),
    {
        let ghost after = self@.merged(other@);
        if self.total_weight.checked_add(other.total_weight).is_none()
            || self.updates.checked_add(other.updates).is_none() {
            return false;
        }
        let mut i: usize = 0;
        while i < self.table.len() && i < other.table.len()
            invariant
                after == self@.merged(other@),
                i <= self.table@.len(),
                i <= other.table@.len(),
                forall|j: int| 0 <= j < i ==> 0 <= #[trigger] after.table[j] <= u64::MAX,
            decreases self.table.len() - i,
        {
            assert(after.table[i as int] == self.table@[i as int] + other.table@[i as int]);
            if self.table[i].checked_add(other.table[i]).is_none() {
                return false;
            }
            i += 1;
        }
        assert forall|j: int| 0 <= j < after.table.len() implies 0 <= #[trigger] after.table[j]
            <= u64::MAX by {
            if j >= i {
                assert(after.table[j] == self.table@[j]);
            }
        }
        true
    }

    /// The point estimate for `key`, at least its true weight.
    pub fn estimate_u64(&self, key: &[u8]) -> (r: u64)
        requires
            self.wf(),
            self@.indexable(),
        ensures
            r == self@.estimate(key@),
    {
        let rh = RowHashes::new(&self.hash, key);
        let mut min: u64 = u64::MAX;
        let mut row: usize = 0;
        while row < self.depth
            invariant
                self.wf(),
                self@.indexable(),
                rh.base() == row_base(self.hash.seed, key@),
                row <= self.depth,
                min == self@.least(key@, row as int),
            decreases self.depth - row,
        {
            proof {
                lemma_cell(
                    self.hash.seed,
                    key@,
                    row as int,
                    self.width as int,
                    self.depth as int,
                );
            }
            let idx: usize = self.cell_index(&rh, row, Ghost(key@));
            if self.table[idx] < min {
                min = self.table[idx];
            }
            row += 1;
        }
        min
    }

    /// Position of the cell of the hashed key in `row`.
    fn cell_index(&self, rh: &RowHashes, row: usize, key: Ghost<Seq<u8>>) -> (r: usize)
        requires
            self.wf(),
            self.width > 0,
            row < self.depth,
            rh.base() == row_base(self.hash.seed, key@),
        ensures
            r == cell(self.hash.seed, key@, row as int, self.width as int),
            r < self.table.len(),
    {
        proof {
            lemma_cell(self.hash.seed, key@, row as int, self.width as int, self.depth as int);
            assert(row * self.width >= 0) by (nonlinear_arith);
            assert(self@.table.len() == self.table.len());
        }
        let col: usize = rh.index(row, self.width);
        row * self.width + col
    }

    fn params_hash(&self) -> (r: u64)
        ensures
            r == self@.params_hash(),
    {
        let mut w = Writer::new();
        w.u64(self.width as u64);
        w.u64(self.depth as u64);
        w.u8(
            if self.conservative {
                1
            } else {
                0
            },
        );
        assert(w.buf@ =~= le(self.width as nat, 8) + le(self.depth as nat, 8) + seq![
            if self.conservative {
                1u8
            } else {
                0u8
            },
        ]);
        hash64(w.buf.as_slice(), 0)
    }

    pub fn to_snapshot(&self, window_start_nanos: u64, window_end_nanos: u64) -> (r: Vec<u8>)
        requires
            self.wf(),
        ensures
            r@ == self@.snapshot(window_start_nanos, window_end_nanos),
    {
        let mut params = Writer::new();
        params.u32(self.width as u32);
        params.u32(self.depth as u32);
        params.u8(
            if self.conservative {
                1
            } else {
                0
            },
        );
        let mut payload = Writer::new();
        payload.u64(self.total_weight);
        payload.u64(self.updates);
        let ghost lead = payload.buf@;
        let mut i: usize = 0;
        assert(lead + words(self@.table.take(0)) =~= lead);
        while i < self.table.len()
            invariant
                i <= self.table.len(),
                payload.buf@ == lead + words(self@.table.take(i as int)),
            decreases self.table.len() - i,
        {
            payload.u64(self.table[i]);
            proof {
                assert(self@.table.take(i + 1).drop_last() =~= self@.table.take(i as int));
                assert(self@.table.take(i + 1).last() == self.table@[i as int]);
                assert(payload.buf@ =~= lead + words(self@.table.take(i + 1)));
            }
            i += 1;
        }
        assert(self@.table.take(i as int) =~= self@.table);
        assert(params.buf@ =~= le(self.width as u32 as nat, 4) + le(self.depth as u32 as nat, 4)
            + seq![
            if self.conservative {
                1u8
            } else {
                0u8
            },
        ]);
        assert(payload.buf@ =~= le(self.total_weight as nat, 8) + le(self.updates as nat, 8)
            + words(self@.table));
        write_snapshot(
            &SnapshotHeader {
                version: SNAPSHOT_VERSION,
                algorithm_id: algorithm_id::COUNT_MIN,
                hash: self.hash,
                window_start_nanos,
                window_end_nanos,
            },
            params.buf.as_slice(),
            payload.buf.as_slice(),
        )
    }

    pub fn from_snapshot(bytes: &[u8]) -> (r: Result<Self, SketchError>)
        ensures
            match CountMin::from_snapshot(bytes@) {
                Ok(s) => r matches Ok(x) && x.wf() && x@ == s,
                Err(e) => r matches Err(x) && x@ == e,
            },
    {
        let (header, params, payload) = read_snapshot(bytes)?;
        if header.algorithm_id != algorithm_id::COUNT_MIN {
            return Err(SketchError::Snapshot("not a count-min snapshot".to_owned()));
        }
        let mut p = Reader::new(params.as_slice());
        let width: u32 = p.u32()?;
        let depth: u32 = p.u32()?;
        let conservative: bool = p.u8()? != 0;
        let mut r = Reader::new(payload.as_slice());
        let ghost cells = width * depth;
        assert(0 <= cells <= u32::MAX * u32::MAX) by (nonlinear_arith)
            requires
                cells == width * depth,
        ;
        let total_weight: u64 = r.u64()?;
        let updates: u64 = r.u64()?;
        let n: u64 = (width as u64) * (depth as u64);
        if n > (r.remaining() / 8) as u64 {
            return Err(SketchError::Snapshot("unexpected end of snapshot".to_owned()));
        }
        let mut table: Vec<u64> = Vec::with_capacity(n as usize);
        let ghost target = words_at(payload@, 16, cells);
        let mut i: u64 = 0;
        while i < n
            invariant
                i <= n,
                n == cells,
                r.wf(),
                r.input() == payload@,
                r.at() == 16 + 8 * i,
                r.rest().len() >= 8 * (n - i),
                target == words_at(payload@, 16, cells),
                table@.map_values(|c: u64| c as int) == target.take(i as int),
            decreases n - i,
        {
            let ghost before = table@;
            let c: u64 = r.u64()?;
            table.push(c);
            proof {
                assert(target[i as int] == c);
                assert(table@.map_values(|c: u64| c as int) =~= before.map_values(
                    |c: u64| c as int,
                ).push(c as int));
                assert(target.take(i + 1) =~= target.take(i as int).push(c as int));
            }
            i += 1;
        }
        let s = CountMinSketch {
            width: width as usize,
            depth: depth as usize,
            conservative,
            hash: header.hash,
            table,
            total_weight,
            updates,
        };
        assert(s@.table =~= target);
        Ok(s)
    }
}

impl Sketch for CountMinSketch {
    open spec fn wf(&self) -> bool {
        self@.shaped()
    }

    open spec fn compat(&self) -> Compat {
        self@.compat()
    }

    open spec fn update_fits(&self, key: Seq<u8>, value: u64) -> bool {
        &&& self@.indexable()
        &&& self@.updated(key, value as int).fits()
        &&& self@.conservative ==> self@.estimate(key) + value <= u64::MAX
    }

    open spec fn is_updated(&self, key: Seq<u8>, value: u64, after: &Self) -> bool {
        after@ == self@.updated(key, value as int)
    }

    open spec fn merge_fits(&self, other: &Self) -> bool {
        self@.merged(other@).fits()
    }

    open spec fn is_merged(&self, other: &Self, after: &Self) -> bool {
        after@ == self@.merged(other@)
    }

    open spec fn is_cleared(&self, after: &Self) -> bool {
        after@ == CountMin::empty(self@.width, self@.depth, self@.conservative, self@.hash)
    }

    open spec fn updates(&self) -> u64 {
        self@.updates as u64
    }

    open spec fn memory_fits(&self) -> bool {
        self@.table.len() * 8 + vstd::layout::size_of::<Self>() <= usize::MAX
    }

    open spec fn is_memory(&self, bytes: usize) -> bool {
        bytes == self@.table.len() * 8 + vstd::layout::size_of::<Self>()
    }

    fn update(&mut self, key: &[u8], value: u64) {
        let ghost before = self@;
        let ghost after = before.updated(key@, value as int);
        let ghost seed = self.hash.seed;
        let rh = RowHashes::new(&self.hash, key);
        assert(after.total == before.total + value && after.updates == before.updates + 1);
        let target: u64 = if self.conservative {
            self.estimate_u64(key) + value
        } else {
            0
        };
        self.total_weight = self.total_weight + value;
        self.updates = self.updates + 1;
        let mut row: usize = 0;
        while row < self.depth
            invariant
                before.shaped(),
                before.indexable(),
                after == before.updated(key@, value as int),
                after.fits(),
                seed == before.hash.seed,
                rh.base() == row_base(seed, key@),
                self@.shaped(),
                self@ == (CountMin { table: self@.table, total: after.total, updates:
                    after.updates, ..before }),
                before.conservative ==> target == before.estimate(key@) + value,
                row <= self.depth,
                forall|i: int|
                    0 <= i < before.table.len() ==> #[trigger] self@.table[i] == if i / before.width
                        < row {
                        before.updated_cell(key@, value as int, i)
                    } else {
                        before.table[i]
                    },
            decreases self.depth - row,
        {
            proof {
                lemma_cell(seed, key@, row as int, before.width, before.depth);
            }
            let idx: usize = self.cell_index(&rh, row, Ghost(key@));
            let ghost mid = self@.table;
            let c: u64 = self.table[idx];
            assert(mid[idx as int] == c);
            assert(after.table[idx as int] == before.updated_cell(key@, value as int, idx as int));
            let v: u64 = if self.conservative {
                if c < target {
                    target
                } else {
                    c
                }
            } else {
                c + value
            };
            self.table.set(idx, v);
            proof {
                assert(self@.table =~= mid.update(idx as int, v as int));
                assert forall|i: int| 0 <= i < before.table.len() implies #[trigger] self@.table[i]
                    == if i / before.width < row + 1 {
                    before.updated_cell(key@, value as int, i)
                } else {
                    before.table[i]
                } by {
                    if i / before.width == row && i != idx {
                        assert(!is_hit(seed, key@, before.width, i));
                    }
                }
            }
            row += 1;
        }
        proof {
            assert forall|i: int| 0 <= i < before.table.len() implies self@.table[i]
                == after.table[i] by {
                if before.width == 0 {
                    assert(before.width * before.depth == 0) by (nonlinear_arith)
                        requires
                            before.width == 0,
                    ;
                } else {
                    lemma_row(i, before.width, before.depth);
                }
            }
            assert(self@ =~= after);
        }
    }

    fn merge_from(&mut self, other: &Self) -> (r: Result<(), SketchError>) {
        self.compatibility().ensure_matches(&other.compatibility())?;
        let ghost before = self@;
        let ghost after = before.merged(other@);
        let mut i: usize = 0;
        while i < self.table.len() && i < other.table.len()
            invariant
                after == before.merged(other@),
                after.fits(),
                before.table.len() == self.table.len(),
                self@ == (CountMin { table: self@.table, ..before }),
                i <= self.table.len(),
                i <= other.table.len(),
                forall|j: int|
                    0 <= j < before.table.len() ==> #[trigger] self@.table[j] == if j < i {
                        after.table[j]
                    } else {
                        before.table[j]
                    },
            decreases self.table.len() - i,
        {
            let ghost mid = self@.table;
            assert(self@.table[i as int] == self.table@[i as int]);
            assert(other@.table[i as int] == other.table@[i as int]);
            assert(after.table[i as int] == before.table[i as int] + other@.table[i as int]);
            let v: u64 = self.table[i] + other.table[i];
            self.table.set(i, v);
            assert(self@.table =~= mid.update(i as int, v as int));
            i += 1;
        }
        assert(after.total == before.total + other@.total);
        self.total_weight = self.total_weight + other.total_weight;
        assert(after.updates == before.updates + other@.updates);
        self.updates = self.updates + other.updates;
        assert(self@ =~= after);
        Ok(())
    }

    fn memory_bytes(&self) -> (r: usize) {
        self.table.len() * 8 + core::mem::size_of::<Self>()
    }

    fn reset(&mut self) {
        let n: usize = self.table.len();
        self.table = vec![0u64;n];
        self.total_weight = 0;
        self.updates = 0;
        assert(self@ =~= CountMin::empty(
            old(self)@.width,
            old(self)@.depth,
            old(self)@.conservative,
            old(self)@.hash,
        ));
    }

    fn update_count(&self) -> (r: u64) {
        self.updates
    }

    fn compatibility(&self) -> (r: SketchCompatibility) {
        SketchCompatibility {
            algorithm: ALGORITHM.to_owned(),
            version: 1,
            hash: self.hash,
            params_hash: self.params_hash(),
        }
    }
}

// ---------------------------------------------------------------------------
// Laws
// ---------------------------------------------------------------------------

/// The true weight of `key` in a stream.
pub open spec fn weight_of(stream: Seq<(Seq<u8>, int)>, key: Seq<u8>) -> int
    decreases stream.len(),
{
    if stream.len() == 0 {
        0
    } else {
        weight_of(stream.drop_last(), key) + if stream.last().0 == key {
            stream.last().1
        } else {
            0
        }
    }
}

/// The total weight of a stream.
pub open spec fn total_of(stream: Seq<(Seq<u8>, int)>) -> int
    decreases stream.len(),
{
    if stream.len() == 0 {
        0
    } else {
        total_of(stream.drop_last()) + stream.last().1
    }
}

/// The weight of all keys in a stream whose cells include position `i`.
pub open spec fn colliding_weight(
    stream: Seq<(Seq<u8>, int)>,
    seed: u64,
    width: int,
    i: int,
) -> int
    decreases stream.len(),
{
    if stream.len() == 0 {
        0
    } else {
        colliding_weight(stream.drop_last(), seed, width, i) + if is_hit(
            seed,
            stream.last().0,
            width,
            i,
        ) {
            stream.last().1
        } else {
            0
        }
    }
}

/// All weights of a stream are nonnegative.
pub open spec fn nonnegative(stream: Seq<(Seq<u8>, int)>) -> bool {
    forall|i: int| 0 <= i < stream.len() ==> 0 <= (#[trigger] stream[i]).1
}

/// The configuration and the shape survive updates.
pub proof fn lemma_fed_config(s: CountMin, stream: Seq<(Seq<u8>, int)>)
    ensures
        ({
            let t = s.fed(stream);
            &&& t.width == s.width
            &&& t.depth == s.depth
            &&& t.conservative == s.conservative
            &&& t.hash == s.hash
            &&& t.table.len() == s.table.len()
            &&& t.updates == s.updates + stream.len()
            &&& t.total == s.total + total_of(stream)
        }),
    decreases stream.len(),
{
    if stream.len() > 0 {
        lemma_fed_config(s, stream.drop_last());
    }
}

/// The least cell is at most each of the cells, and one of them (or the
/// starting value).
proof fn lemma_least(s: CountMin, key: Seq<u8>, rows: int, row: int)
    requires
        0 <= row < rows,
    ensures
        s.least(key, rows) <= s.table[cell(s.hash.seed, key, row, s.width)],
    decreases rows,
{
    if row < rows - 1 {
        lemma_least(s, key, rows - 1, row);
    }
}

/// A lower bound of all cells is a lower bound of the least.
proof fn lemma_least_bound(s: CountMin, key: Seq<u8>, rows: int, bound: int)
    requires
        bound <= u64::MAX,
        forall|row: int|
            0 <= row < rows ==> bound <= #[trigger] s.table[cell(
                s.hash.seed,
                key,
                row,
                s.width,
            )],
    ensures
        bound <= s.least(key, rows),
    decreases rows,
{
    if rows > 0 {
        lemma_least_bound(s, key, rows - 1, bound);
    }
}

/// Every cell of a key holds at least the key's true weight.
proof fn lemma_cells_cover(s: CountMin, stream: Seq<(Seq<u8>, int)>, key: Seq<u8>, row: int)
    requires
        s.shaped(),
        s.width > 0,
        0 <= row < s.depth,
        nonnegative(stream),
        forall|i: int| 0 <= i < s.table.len() ==> 0 <= #[trigger] s.table[i],
        total_of(stream) <= u64::MAX,
    ensures
        weight_of(stream, key) <= s.fed(stream).table[cell(s.hash.seed, key, row, s.width)],
        0 <= weight_of(stream, key) <= total_of(stream),
    decreases stream.len(),
{
    lemma_cell(s.hash.seed, key, row, s.width, s.depth);
    if stream.len() > 0 {
        let front = stream.drop_last();
        let (k, v) = stream.last();
        assert(v == stream[stream.len() - 1].1);
        assert(nonnegative(front));
        lemma_cells_cover(s, front, key, row);
        lemma_fed_config(s, front);
        let prev = s.fed(front);
        let i = cell(s.hash.seed, key, row, s.width);
        if k == key && s.conservative {
            assert forall|r: int| 0 <= r < s.depth implies weight_of(front, key)
                <= #[trigger] prev.table[cell(prev.hash.seed, key, r, prev.width)] by {
                lemma_cells_cover(s, front, key, r);
            }
            lemma_least_bound(prev, key, prev.depth, weight_of(front, key));
        }
    }
}

/// Point estimates never underestimate: whatever the stream, plain or
/// conservative, the estimate of a key is at least its true weight.
pub proof fn law_never_underestimates(
    width: int,
    depth: int,
    conservative: bool,
    hash: HashSpec,
    stream: Seq<(Seq<u8>, int)>,
    key: Seq<u8>,
)
    requires
        width > 0,
        depth > 0,
        nonnegative(stream),
        total_of(stream) <= u64::MAX,
    ensures
        CountMin::empty(width, depth, conservative, hash).fed(stream).estimate(key) >= weight_of(
            stream,
            key,
        ),
{
    let s = CountMin::empty(width, depth, conservative, hash);
    lemma_shape(width, depth, conservative, hash);
    lemma_fed_config(s, stream);
    lemma_cells_cover(s, stream, key, 0);
    assert forall|r: int| 0 <= r < depth implies weight_of(stream, key) <= #[trigger] s.fed(
        stream,
    ).table[cell(hash.seed, key, r, width)] by {
        lemma_cells_cover(s, stream, key, r);
    }
    lemma_least_bound(s.fed(stream), key, depth, weight_of(stream, key));
}

proof fn lemma_shape(width: int, depth: int, conservative: bool, hash: HashSpec)
    requires
        width >= 0,
        depth >= 0,
    ensures
        CountMin::empty(width, depth, conservative, hash).shaped(),
{
    assert(width * depth >= 0) by (nonlinear_arith)
        requires
            width >= 0,
            depth >= 0,
    ;
}

/// A plain table holds, in every position, exactly the weight of the keys
/// that share it: the overestimate is the weight of colliding keys.
pub proof fn law_plain_cell_is_colliding_weight(
    width: int,
    depth: int,
    hash: HashSpec,
    stream: Seq<(Seq<u8>, int)>,
    i: int,
)
    requires
        width > 0,
        depth > 0,
        0 <= i < width * depth,
    ensures
        CountMin::empty(width, depth, false, hash).fed(stream).table[i] == colliding_weight(
            stream,
            hash.seed,
            width,
            i,
        ),
    decreases stream.len(),
{
    let s = CountMin::empty(width, depth, false, hash);
    lemma_shape(width, depth, false, hash);
    if stream.len() > 0 {
        law_plain_cell_is_colliding_weight(width, depth, hash, stream.drop_last(), i);
        lemma_fed_config(s, stream.drop_last());
    }
}

/// Conservative counting never estimates more than plain counting over the
/// same stream.
pub proof fn law_conservative_at_most_plain(
    width: int,
    depth: int,
    hash: HashSpec,
    stream: Seq<(Seq<u8>, int)>,
    key: Seq<u8>,
)
    requires
        width > 0,
        depth > 0,
        nonnegative(stream),
    ensures
        CountMin::empty(width, depth, true, hash).fed(stream).estimate(key) <= CountMin::empty(
            width,
            depth,
            false,
            hash,
        ).fed(stream).estimate(key),
{
    let c = CountMin::empty(width, depth, true, hash);
    let p = CountMin::empty(width, depth, false, hash);
    lemma_shape(width, depth, true, hash);
    lemma_fed_config(c, stream);
    lemma_fed_config(p, stream);
    assert forall|i: int| 0 <= i < width * depth implies #[trigger] c.fed(stream).table[i]
        <= p.fed(stream).table[i] by {
        lemma_conservative_cell(width, depth, hash, stream, i);
    }
    lemma_least_le(c.fed(stream), p.fed(stream), key, depth);
}

/// Cell by cell smaller tables have smaller least cells.
proof fn lemma_least_le(a: CountMin, b: CountMin, key: Seq<u8>, rows: int)
    requires
        a.width == b.width,
        a.depth == b.depth,
        a.hash == b.hash,
        a.width > 0,
        rows <= a.depth,
        a.table.len() == a.width * a.depth,
        forall|i: int| 0 <= i < a.table.len() ==> #[trigger] a.table[i] <= b.table[i],
    ensures
        a.least(key, rows) <= b.least(key, rows),
    decreases rows,
{
    if rows > 0 {
        lemma_least_le(a, b, key, rows - 1);
        lemma_cell(a.hash.seed, key, rows - 1, a.width, a.depth);
    }
}

proof fn lemma_conservative_cell(
    width: int,
    depth: int,
    hash: HashSpec,
    stream: Seq<(Seq<u8>, int)>,
    i: int,
)
    requires
        width > 0,
        depth > 0,
        nonnegative(stream),
        0 <= i < width * depth,
    ensures
        CountMin::empty(width, depth, true, hash).fed(stream).table[i] <= CountMin::empty(
            width,
            depth,
            false,
            hash,
        ).fed(stream).table[i],
    decreases stream.len(),
{
    let c = CountMin::empty(width, depth, true, hash);
    let p = CountMin::empty(width, depth, false, hash);
    lemma_shape(width, depth, true, hash);
    if stream.len() > 0 {
        let front = stream.drop_last();
        let (k, v) = stream.last();
        assert(v == stream[stream.len() - 1].1);
        assert(nonnegative(front));
        lemma_conservative_cell(width, depth, hash, front, i);
        lemma_fed_config(c, front);
        lemma_fed_config(p, front);
        if is_hit(hash.seed, k, width, i) {
            lemma_row(i, width, depth);
            lemma_least(c.fed(front), k, depth, i / width);
        }
    }
}

/// Merging plain sketches of two streams gives the sketch of one stream
/// followed by the other.
pub proof fn law_merge_equals_single_stream(
    width: int,
    depth: int,
    hash: HashSpec,
    first: Seq<(Seq<u8>, int)>,
    second: Seq<(Seq<u8>, int)>,
)
    requires
        width > 0,
        depth > 0,
    ensures
        ({
            let s = CountMin::empty(width, depth, false, hash);
            s.fed(first).merged(s.fed(second)) == s.fed(first + second)
        }),
    decreases second.len(),
{
    let s = CountMin::empty(width, depth, false, hash);
    lemma_shape(width, depth, false, hash);
    lemma_fed_config(s, first);
    if second.len() == 0 {
        assert(first + second =~= first);
        assert(s.fed(first).merged(s.fed(second)) =~= s.fed(first + second));
    } else {
        let front = second.drop_last();
        law_merge_equals_single_stream(width, depth, hash, first, front);
        lemma_fed_config(s, front);
        lemma_fed_config(s, first + front);
        assert((first + second).drop_last() =~= first + front);
        assert((first + second).last() == second.last());
        assert(s.fed(first).merged(s.fed(second)) =~= s.fed(first + second));
    }
}

/// Merging sketches of equal configuration does not depend on the order.
pub proof fn law_merge_commutes(a: CountMin, b: CountMin)
    requires
        a.width == b.width,
        a.depth == b.depth,
        a.conservative == b.conservative,
        a.hash == b.hash,
        a.table.len() == b.table.len(),
    ensures
        a.merged(b) == b.merged(a),
{
    assert(a.merged(b) =~= b.merged(a));
}

/// A merged sketch still never underestimates: its estimate of a key is at
/// least the key's true weight in both streams together, plain or
/// conservative.
pub proof fn law_merge_never_underestimates(
    width: int,
    depth: int,
    conservative: bool,
    hash: HashSpec,
    first: Seq<(Seq<u8>, int)>,
    second: Seq<(Seq<u8>, int)>,
    key: Seq<u8>,
)
    requires
        width > 0,
        depth > 0,
        nonnegative(first),
        nonnegative(second),
        total_of(first) + total_of(second) <= u64::MAX,
    ensures
        ({
            let s = CountMin::empty(width, depth, conservative, hash);
            s.fed(first).merged(s.fed(second)).estimate(key) >= weight_of(first, key) + weight_of(
                second,
                key,
            )
        }),
{
    let s = CountMin::empty(width, depth, conservative, hash);
    lemma_shape(width, depth, conservative, hash);
    lemma_fed_config(s, first);
    lemma_fed_config(s, second);
    lemma_total_nonnegative(first);
    lemma_total_nonnegative(second);
    let m = s.fed(first).merged(s.fed(second));
    let bound = weight_of(first, key) + weight_of(second, key);
    lemma_cells_cover(s, first, key, 0);
    lemma_cells_cover(s, second, key, 0);
    assert forall|r: int| 0 <= r < depth implies bound <= #[trigger] m.table[cell(
        hash.seed,
        key,
        r,
        width,
    )] by {
        lemma_cell(hash.seed, key, r, width, depth);
        lemma_cells_cover(s, first, key, r);
        lemma_cells_cover(s, second, key, r);
    }
    lemma_least_bound(m, key, depth, bound);
}

proof fn lemma_total_nonnegative(stream: Seq<(Seq<u8>, int)>)
    requires
        nonnegative(stream),
    ensures
        0 <= total_of(stream),
    decreases stream.len(),
{
    if stream.len() > 0 {
        assert(stream.last() == stream[stream.len() - 1]);
        assert(nonnegative(stream.drop_last()));
        lemma_total_nonnegative(stream.drop_last());
    }
}

/// No cell exceeds the total weight, so an update fits whenever the total
/// weight and the update count do.
pub proof fn law_total_weight_bounds_cells(
    width: int,
    depth: int,
    conservative: bool,
    hash: HashSpec,
    stream: Seq<(Seq<u8>, int)>,
    i: int,
)
    requires
        width > 0,
        depth > 0,
        nonnegative(stream),
        0 <= i < width * depth,
    ensures
        ({
            let s = CountMin::empty(width, depth, conservative, hash).fed(stream);
            0 <= s.table[i] <= s.total
        }),
    decreases stream.len(),
{
    let s = CountMin::empty(width, depth, conservative, hash);
    lemma_shape(width, depth, conservative, hash);
    if stream.len() > 0 {
        let front = stream.drop_last();
        assert(stream.last() == stream[stream.len() - 1]);
        assert(nonnegative(front));
        law_total_weight_bounds_cells(width, depth, conservative, hash, front, i);
        lemma_fed_config(s, front);
        if is_hit(hash.seed, stream.last().0, width, i) {
            lemma_row(i, width, depth);
            lemma_least(s.fed(front), stream.last().0, depth, i / width);
        }
    }
}

/// Reading a snapshot back gives the sketch that was written, for every
/// sketch whose dimensions and payload fit the format's length fields.
#[verifier::spinoff_prover]
#[verifier::rlimit(60)]
pub proof fn law_count_min_snapshot_round_trip(s: CountMin, window_start: u64, window_end: u64)
    requires
        s.shaped(),
        s.fits(),
        s.width <= u32::MAX,
        s.depth <= u32::MAX,
        16 + 8 * s.table.len() <= u32::MAX,
    ensures
        CountMin::from_snapshot(s.snapshot(window_start, window_end)) == Ok::<
            CountMin,
            SketchErrorView,
        >(s),
{
    lemma_pow256_values();
    let flag = seq![if s.conservative { 1u8 } else { 0u8 }];
    let params = le(s.width as nat, 4) + le(s.depth as nat, 4) + flag;
    let payload = le(s.total as nat, 8) + le(s.updates as nat, 8) + words(s.table);
    lemma_le_value_of_le(s.width as nat, 4);
    lemma_le_value_of_le(s.depth as nat, 4);
    lemma_le_value_of_le(s.total as nat, 8);
    lemma_le_value_of_le(s.updates as nat, 8);
    lemma_words_len(s.table);
    let header = SnapshotHeader {
        version: SNAPSHOT_VERSION,
        algorithm_id: algorithm_id::COUNT_MIN,
        hash: s.hash,
        window_start_nanos: window_start,
        window_end_nanos: window_end,
    };
    law_snapshot_round_trip(header, params, payload);
    assert(params.subrange(0, 4) =~= le(s.width as nat, 4));
    assert(params.subrange(4, 8) =~= le(s.depth as nat, 4));
    assert(payload.subrange(0, 8) =~= le(s.total as nat, 8));
    assert(payload.subrange(8, 16) =~= le(s.updates as nat, 8));
    assert forall|i: int| 0 <= i < s.table.len() implies #[trigger] field_at(
        payload,
        16 + 8 * i,
        8,
    ) == s.table[i] by {
        lemma_words_index(s.table, i);
        assert(payload.subrange(16 + 8 * i, 16 + 8 * i + 8) =~= words(s.table).subrange(
            8 * i,
            8 * i + 8,
        ));
        lemma_le_value_of_le(s.table[i] as nat, 8);
    }
    assert(words_at(payload, 16, s.width * s.depth) =~= s.table);
}

} // verus!
