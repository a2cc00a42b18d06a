//! CountSketch (Charikar, Chen, Farach-Colton): frequency estimation with
//! signed counters and median-of-rows estimates.
//!
//! Unlike Count-Min, it supports signed (turnstile) updates and gives
//! unbiased estimates with error bounded in the L2 norm of the frequency
//! vector.

use vstd::prelude::*;
use vstd::relations::sorted_by;
use vstd::string::*;

use crate::algos::count_min::weight_of;
use crate::algos::table::{
    cell, is_hit, lemma_cell, lemma_row, lemma_words_index, lemma_words_len, sum_tables, words,
};
use crate::bytes::{le, lemma_le_value_of_le, lemma_pow256_values};
use crate::error::{SketchError, SketchErrorView};
use crate::hash::{hash64, hash_of, row_base, row_sign, HashSpec, RowHashes};
use crate::sketch::{Compat, Sketch, SketchCompatibility};
use crate::snapshot::{
    algorithm_id, field_at, law_i64_round_trip, law_snapshot_round_trip, read_snapshot,
    snapshot_bytes, snapshot_content, snapshot_err, write_snapshot, Reader, SnapshotHeader, Writer,
    SNAPSHOT_VERSION,
};

verus! {

pub const ALGORITHM: &'static str = "count-sketch";

#[derive(Debug, Clone)]
pub struct CountSketch {
    width: usize,
    depth: usize,
    hash: HashSpec,
    table: Vec<i64>,
    updates: u64,
}

/// The mathematical state of a [`CountSketch`].
#[verifier::ext_equal]
pub ghost struct SignedTable {
    pub width: int,
    pub depth: int,
    pub hash: HashSpec,
    /// `depth` rows of `width` columns, row by row.
    pub table: Seq<int>,
    pub updates: int,
}

/// Half of a number, rounded toward zero.
pub open spec fn half(x: int) -> int {
    if x >= 0 {
        x / 2
    } else {
        -((-x) / 2)
    }
}

pub open spec fn ascending() -> spec_fn(int, int) -> bool {
    |a: int, b: int| a <= b
}

/// The middle value, or the rounded mean of the two middle values.
pub open spec fn median(s: Seq<int>) -> int {
    let t = s.sort_by(ascending());
    let mid = s.len() as int / 2;
    if s.len() % 2 == 1 {
        t[mid]
    } else {
        half(t[mid - 1] + t[mid])
    }
}

/// Numbers that fit into 64 bits with sign.
pub open spec fn is_i64(x: int) -> bool {
    i64::MIN <= x <= i64::MAX
}

impl SignedTable {
    pub open spec fn empty(width: int, depth: int, hash: HashSpec) -> SignedTable {
        SignedTable {
            width,
            depth,
            hash,
            table: Seq::new((width * depth) as nat, |i: int| 0),
            updates: 0,
        }
    }

    /// The table has the declared shape.
    pub open spec fn shaped(self) -> bool {
        &&& 0 <= self.width
        &&& 0 <= self.depth
        &&& self.table.len() == self.width * self.depth
    }

    /// Every row has columns, so keys have cells.
    pub open spec fn indexable(self) -> bool {
        self.depth > 0 ==> self.width > 0
    }

    pub open spec fn fits(self) -> bool {
        &&& forall|i: int| 0 <= i < self.table.len() ==> is_i64(#[trigger] self.table[i])
        &&& 0 <= self.updates <= u64::MAX
    }

    pub open spec fn sign(self, key: Seq<u8>, row: int) -> int {
        row_sign(self.hash.seed, key, row as nat)
    }

    /// What one row says about `key`.
    pub open spec fn row_estimate(self, key: Seq<u8>, row: int) -> int {
        self.sign(key, row) * self.table[cell(self.hash.seed, key, row, self.width)]
    }

    pub open spec fn row_estimates(self, key: Seq<u8>) -> Seq<int> {
        Seq::new(self.depth as nat, |row: int| self.row_estimate(key, row))
    }

    /// The estimate for `key`: the median over the rows.
    pub open spec fn estimate(self, key: Seq<u8>) -> int {
        median(self.row_estimates(key))
    }

    /// Every row estimate, and the sum of the two middle ones, fits.
    pub open spec fn estimate_fits(self, key: Seq<u8>) -> bool {
        let s = self.row_estimates(key);
        let t = s.sort_by(ascending());
        let mid = s.len() as int / 2;
        &&& forall|row: int| 0 <= row < self.depth ==> is_i64(#[trigger] self.row_estimate(key, row))
        &&& s.len() % 2 == 0 ==> is_i64(t[mid - 1] + t[mid])
    }

    pub open spec fn updated(self, key: Seq<u8>, value: int) -> SignedTable {
        SignedTable {
            table: Seq::new(
                self.table.len(),
                |i: int|
                    if is_hit(self.hash.seed, key, self.width, i) {
                        self.table[i] + self.sign(key, i / self.width) * value
                    } else {
                        self.table[i]
                    },
            ),
            updates: self.updates + 1,
            ..self
        }
    }

    pub open spec fn merged(self, other: SignedTable) -> SignedTable {
        SignedTable {
            table: sum_tables(self.table, other.table),
            updates: self.updates + other.updates,
            ..self
        }
    }

    /// The state after a stream of updates, first to last.
    pub open spec fn fed(self, stream: Seq<(Seq<u8>, int)>) -> SignedTable
        decreases stream.len(),
    {
        if stream.len() == 0 {
            self
        } else {
            self.fed(stream.drop_last()).updated(stream.last().0, stream.last().1)
        }
    }

    pub open spec fn params_hash(self) -> u64 {
        hash_of(le(self.width as nat, 8) + le(self.depth as nat, 8), 0)
    }

    pub open spec fn compat(self) -> Compat {
        Compat {
            algorithm: ALGORITHM@,
            version: 1,
            hash: self.hash,
            params_hash: self.params_hash(),
        }
    }

    pub open spec fn snapshot(self, window_start: u64, window_end: u64) -> Seq<u8> {
        snapshot_bytes(
            SnapshotHeader {
                version: SNAPSHOT_VERSION,
                algorithm_id: algorithm_id::COUNT_SKETCH,
                hash: self.hash,
                window_start_nanos: window_start,
                window_end_nanos: window_end,
            },
            le(self.width as usize as u32 as nat, 4) + le(self.depth as usize as u32 as nat, 4),
            le(self.updates as nat, 8) + words(self.table),
        )
    }

    /// The state that a snapshot denotes, or why it denotes none.
    pub open spec fn from_snapshot(bytes: Seq<u8>) -> Result<SignedTable, SketchErrorView> {
        match snapshot_content(bytes) {
            Err(e) => Err(e),
            Ok((header, params, payload)) => {
                let width = field_at(params, 0, 4) as int;
                let depth = field_at(params, 4, 4) as int;
                if header.algorithm_id != algorithm_id::COUNT_SKETCH {
                    snapshot_err("not a count-sketch snapshot"@)
                } else if params.len() < 8 || payload.len() < 8 + 8 * (width * depth) {
                    snapshot_err("unexpected end of snapshot"@)
                } else {
                    Ok(
                        SignedTable {
                            width,
                            depth,
                            hash: header.hash,
                            table: signed_words_at(payload, 8, width * depth),
                            updates: field_at(payload, 0, 8) as int,
                        },
                    )
                }
            },
        }
    }
}

/// The `n` eight-byte two's complement numbers of `s` from `at` on.
pub open spec fn signed_words_at(s: Seq<u8>, at: int, n: int) -> Seq<int> {
    Seq::new(n as nat, |i: int| (field_at(s, at + 8 * i, 8) as u64) as i64 as int)
}

impl View for CountSketch {
    type V = SignedTable;

    closed spec fn view(&self) -> SignedTable {
        SignedTable {
            width: self.width as int,
            depth: self.depth as int,
            hash: self.hash,
            table: self.table@.map_values(|c: i64| c as int),
            updates: self.updates as int,
        }
    }
}

impl CountSketch {
    pub fn new(width: usize, depth: usize, hash: HashSpec) -> (r: Result<Self, SketchError>)
        requires
            8 * (width * depth) <= isize::MAX,
        ensures
            r is Ok <==> width > 0 && depth > 0,
            r matches Ok(s) ==> s.wf() && s@ == SignedTable::empty(
                width as int,
                depth as int,
                hash,
            ),
            r matches Err(e) ==> e@ == SketchErrorView::InvalidParam(
                "count-sketch width and depth must be positive"@,
            ),
    {
        if width == 0 || depth == 0 {
            return Err(
                SketchError::InvalidParam(
                    "count-sketch width and depth must be positive".to_owned(),
                ),
            );
        }
        let s = CountSketch { width, depth, hash, table: vec![0i64;width * depth], updates: 0 };
        assert(s@ =~= SignedTable::empty(width as int, depth as int, hash));
        Ok(s)
    }

    pub fn width(&self) -> (r: usize)
        ensures
            r == self@.width,
    {
        self.width
    }

    pub fn depth(&self) -> (r: usize)
        ensures
            r == self@.depth,
    {
        self.depth
    }

    /// Position of the cell of the hashed key in `row`.
    fn cell_index(&self, rh: &RowHashes, row: usize, key: Ghost<Seq<u8>>) -> (r: usize)
        requires
            self.wf(),
            self.width > 0,
            row < self.depth,
            rh.base() == row_base(self.hash.seed, key@),
        ensures
            r == cell(self.hash.seed, key@, row as int, self.width as int),
            r < self.table.len(),
    {
        proof {
            lemma_cell(self.hash.seed, key@, row as int, self.width as int, self.depth as int);
            assert(row * self.width >= 0) by (nonlinear_arith);
            assert(self@.table.len() == self.table.len());
        }
        let col: usize = rh.index(row, self.width);
        row * self.width + col
    }

    /// Signed update (turnstile model).
    pub fn update_signed(&mut self, key: &[u8], value: i64)
        requires
            old(self).wf(),
            old(self)@.indexable(),
            old(self)@.updated(key@, value as int).fits(),
            forall|row: int|
                0 <= row < old(self)@.depth ==> #[trigger] old(self)@.sign(key@, row) * value
                    <= i64::MAX,
        ensures
            final(self).wf(),
            final(self)@ == old(self)@.updated(key@, value as int),
    {
        let ghost before = self@;
        let ghost after = before.updated(key@, value as int);
        let ghost seed = self.hash.seed;
        let rh = RowHashes::new(&self.hash, key);
        assert(after.updates == before.updates + 1);
        self.updates = self.updates + 1;
        let mut row: usize = 0;
        while row < self.depth
            invariant
                before.shaped(),
                before.indexable(),
                after == before.updated(key@, value as int),
                after.fits(),
                forall|row: int|
                    0 <= row < before.depth ==> #[trigger] before.sign(key@, row) * value
                        <= i64::MAX,
                seed == before.hash.seed,
                rh.base() == row_base(seed, key@),
                self@.shaped(),
                self@ == (SignedTable { table: self@.table, updates: after.updates, ..before }),
                row <= self.depth,
                forall|i: int|
                    0 <= i < before.table.len() ==> #[trigger] self@.table[i] == if i / before.width
                        < row {
                        after.table[i]
                    } else {
                        before.table[i]
                    },
            decreases self.depth - row,
        {
            proof {
                lemma_cell(seed, key@, row as int, before.width, before.depth);
            }
            let idx: usize = self.cell_index(&rh, row, Ghost(key@));
            let ghost mid = self@.table;
            let c: i64 = self.table[idx];
            assert(mid[idx as int] == c);
            assert(after.table[idx as int] == before.table[idx as int] + before.sign(
                key@,
                row as int,
            ) * value);
            let sign: i64 = rh.sign(row);
            assert(before.sign(key@, row as int) == sign);
            assert(sign == 1 ==> sign * value == value) by (nonlinear_arith);
            assert(sign == -1 ==> sign * value == -value) by (nonlinear_arith);
            let v: i64 = c + sign * value;
            self.table.set(idx, v);
            proof {
                assert(self@.table =~= mid.update(idx as int, v as int));
                assert forall|i: int| 0 <= i < before.table.len() implies #[trigger] self@.table[i]
                    == if i / before.width < row + 1 {
                    after.table[i]
                } else {
                    before.table[i]
                } by {
                    if i / before.width == row && i != idx {
                        assert(!is_hit(seed, key@, before.width, i));
                    }
                }
            }
            row += 1;
        }
        proof {
            assert forall|i: int| 0 <= i < before.table.len() implies self@.table[i]
                == after.table[i] by {
                if before.width == 0 {
                    assert(before.width * before.depth == 0) by (nonlinear_arith)
                        requires
                            before.width == 0,
                    ;
                } else {
                    lemma_row(i, before.width, before.depth);
                }
            }
            assert(self@ =~= after);
        }
    }

    /// Median-of-rows signed estimate, rounded toward zero on even depth.
    pub fn estimate_signed(&self, key: &[u8]) -> (r: i64)
        requires
            self.wf(),
            self@.width > 0,
            self@.depth > 0,
            self@.estimate_fits(key@),
        ensures
            r == self@.estimate(key@),
    {
        let rh = RowHashes::new(&self.hash, key);
        let ghost wanted = self@.row_estimates(key@);
        let mut sorted: Vec<i64> = Vec::new();
        let mut row: usize = 0;
        proof {
            assert(ints(sorted@) =~= wanted.take(0));
        }
        while row < self.depth
            invariant
                self.wf(),
                self@.width > 0,
                self@.estimate_fits(key@),
                wanted == self@.row_estimates(key@),
                rh.base() == row_base(self.hash.seed, key@),
                row <= self.depth,
                sorted.len() == row,
                sorted_by(ints(sorted@), ascending()),
                ints(sorted@).to_multiset() == wanted.take(row as int).to_multiset(),
            decreases self.depth - row,
        {
            let idx: usize = self.cell_index(&rh, row, Ghost(key@));
            let c: i64 = self.table[idx];
            let sign: i64 = rh.sign(row);
            assert(self@.table[idx as int] == c);
            assert(is_i64(self@.row_estimate(key@, row as int)));
            assert(sign == 1 ==> sign * c == c) by (nonlinear_arith);
            assert(sign == -1 ==> sign * c == -c) by (nonlinear_arith);
            let v: i64 = sign * c;
            assert(wanted[row as int] == v);
            let ghost before = ints(sorted@);
            insert_sorted(&mut sorted, v);
            proof {
                broadcast use vstd::seq_lib::group_to_multiset_ensures;

                assert(wanted.take(row + 1) =~= wanted.take(row as int).push(v as int));
            }
            row += 1;
        }
        proof {
            assert(wanted.take(row as int) =~= wanted);
            lemma_ascending();
            wanted.lemma_sort_by_ensures(ascending());
            vstd::seq_lib::lemma_sorted_unique(
                ints(sorted@),
                wanted.sort_by(ascending()),
                ascending(),
            );
            assert forall|i: int| 0 <= i < sorted.len() implies ints(sorted@)[i]
                == #[trigger] sorted@[i] by {}
        }
        let mid: usize = sorted.len() / 2;
        if sorted.len() % 2 == 1 {
            sorted[mid]
        } else {
            let sum: i64 = sorted[mid - 1] + sorted[mid];
            if sum >= 0 {
                sum / 2
            } else {
                let magnitude: i128 = -(sum as i128);
                (-(magnitude / 2)) as i64
            }
        }
    }

    fn params_hash(&self) -> (r: u64)
        ensures
            r == self@.params_hash(),
    {
        let mut w = Writer::new();
        w.u64(self.width as u64);
        w.u64(self.depth as u64);
        assert(w.buf@ =~= le(self.width as nat, 8) + le(self.depth as nat, 8));
        hash64(w.buf.as_slice(), 0)
    }

    pub fn to_snapshot(&self, window_start_nanos: u64, window_end_nanos: u64) -> (r: Vec<u8>)
        requires
            self.wf(),
        ensures
            r@ == self@.snapshot(window_start_nanos, window_end_nanos),
    {
        let mut params = Writer::new();
        params.u32(self.width as u32);
        params.u32(self.depth as u32);
        let mut payload = Writer::new();
        payload.u64(self.updates);
        let ghost lead = payload.buf@;
        let mut i: usize = 0;
        assert(lead + words(self@.table.take(0)) =~= lead);
        while i < self.table.len()
            invariant
                i <= self.table.len(),
                payload.buf@ == lead + words(self@.table.take(i as int)),
            decreases self.table.len() - i,
        {
            payload.i64(self.table[i]);
            proof {
                assert(self@.table.take(i + 1).drop_last() =~= self@.table.take(i as int));
                assert(self@.table.take(i + 1).last() == self.table@[i as int]);
                assert(payload.buf@ =~= lead + words(self@.table.take(i + 1)));
            }
            i += 1;
        }
        assert(self@.table.take(i as int) =~= self@.table);
        assert(params.buf@ =~= le(self.width as u32 as nat, 4) + le(self.depth as u32 as nat, 4));
        assert(payload.buf@ =~= le(self.updates as nat, 8) + words(self@.table));
        write_snapshot(
            &SnapshotHeader {
                version: SNAPSHOT_VERSION,
                algorithm_id: algorithm_id::COUNT_SKETCH,
                hash: self.hash,
                window_start_nanos,
                window_end_nanos,
            },
            params.buf.as_slice(),
            payload.buf.as_slice(),
        )
    }

    pub fn from_snapshot(bytes: &[u8]) -> (r: Result<Self, SketchError>)
        ensures
            match SignedTable::from_snapshot(bytes@) {
                Ok(s) => r matches Ok(x) && x.wf() && x@ == s,
                Err(e) => r matches Err(x) && x@ == e,
            },
    {
        let (header, params, payload) = read_snapshot(bytes)?;
        if header.algorithm_id != algorithm_id::COUNT_SKETCH {
            return Err(SketchError::Snapshot("not a count-sketch snapshot".to_owned()));
        }
        let mut p = Reader::new(params.as_slice());
        let width: u32 = p.u32()?;
        let depth: u32 = p.u32()?;
        let mut r = Reader::new(payload.as_slice());
        let ghost cells = width * depth;
        assert(0 <= cells <= u32::MAX * u32::MAX) by (nonlinear_arith)
            requires
                cells == width * depth,
        ;
        let updates: u64 = r.u64()?;
        let n: u64 = (width as u64) * (depth as u64);
        if n > (r.remaining() / 8) as u64 {
            return Err(SketchError::Snapshot("unexpected end of snapshot".to_owned()));
        }
        let mut table: Vec<i64> = Vec::with_capacity(n as usize);
        let ghost target = signed_words_at(payload@, 8, cells);
        let mut i: u64 = 0;
        while i < n
            invariant
                i <= n,
                n == cells,
                r.wf(),
                r.input() == payload@,
                r.at() == 8 + 8 * i,
                r.rest().len() >= 8 * (n - i),
                target == signed_words_at(payload@, 8, cells),
                ints(table@) == target.take(i as int),
            decreases n - i,
        {
            let ghost before = table@;
            assert(r.rest().take(8) =~= payload@.subrange(8 + 8 * i, 8 + 8 * i + 8));
            let c: i64 = r.i64()?;
            table.push(c);
            proof {
                assert(target[i as int] == c);
                assert(ints(table@) =~= ints(before).push(c as int));
                assert(target.take(i + 1) =~= target.take(i as int).push(c as int));
            }
            i += 1;
        }
        let s = CountSketch {
            width: width as usize,
            depth: depth as usize,
            hash: header.hash,
            table,
            updates,
        };
        assert(s@.table =~= target);
        Ok(s)
    }
}

pub open spec fn ints(s: Seq<i64>) -> Seq<int> {
    s.map_values(|c: i64| c as int)
}

pub proof fn lemma_ascending()
    ensures
        vstd::relations::total_ordering(ascending()),
{
}

/// Insert into an ascending list, keeping it ascending.
fn insert_sorted(list: &mut Vec<i64>, v: i64)
    requires
        sorted_by(ints(old(list)@), ascending()),
    ensures
        final(list).len() == old(list).len() + 1,
        sorted_by(ints(final(list)@), ascending()),
        ints(final(list)@).to_multiset() == ints(old(list)@).to_multiset().insert(v as int),
{
    let ghost s = ints(list@);
    let mut at: usize = 0;
    while at < list.len() && list[at] <= v
        invariant
            list@ == old(list)@,
            s == ints(list@),
            at <= list.len(),
            forall|i: int| 0 <= i < at ==> #[trigger] s[i] <= v,
        decreases list.len() - at,
    {
        assert(s[at as int] == list@[at as int]);
        at += 1;
    }
    proof {
        if at < s.len() {
            assert(s[at as int] == list@[at as int]);
            assert forall|i: int| at <= i < s.len() implies v <= #[trigger] s[i] by {
                if i > at {
                    assert(ascending()(s[at as int], s[i]));
                }
            }
        }
    }
    list.insert(at, v);
    proof {
        broadcast use vstd::seq_lib::group_to_multiset_ensures;

        assert(ints(list@) =~= s.insert(at as int, v as int));
        let t = ints(list@);
        assert forall|i: int, j: int| 0 <= i < j < t.len() implies #[trigger] ascending()(
            t[i],
            t[j],
        ) by {
            let i0 = if i > at { i - 1 } else { i };
            let j0 = if j > at { j - 1 } else { j };
            if i != at && j != at {
                assert(ascending()(s[i0], s[j0]));
            }
        }
    }
}

impl Sketch for CountSketch {
    open spec fn wf(&self) -> bool {
        self@.shaped()
    }

    open spec fn compat(&self) -> Compat {
        self@.compat()
    }

    open spec fn update_fits(&self, key: Seq<u8>, value: u64) -> bool {
        let v = value as i64;
        &&& self@.indexable()
        &&& self@.updated(key, v as int).fits()
        &&& forall|row: int|
            0 <= row < self@.depth ==> #[trigger] self@.sign(key, row) * v <= i64::MAX
    }

    /// The weight is taken as a signed number of 64 bits.
    open spec fn is_updated(&self, key: Seq<u8>, value: u64, after: &Self) -> bool {
        after@ == self@.updated(key, (value as i64) as int)
    }

    open spec fn merge_fits(&self, other: &Self) -> bool {
        self@.merged(other@).fits()
    }

    open spec fn is_merged(&self, other: &Self, after: &Self) -> bool {
        after@ == self@.merged(other@)
    }

    open spec fn is_cleared(&self, after: &Self) -> bool {
        after@ == SignedTable::empty(self@.width, self@.depth, self@.hash)
    }

    open spec fn updates(&self) -> u64 {
        self@.updates as u64
    }

    open spec fn memory_fits(&self) -> bool {
        self@.table.len() * 8 + vstd::layout::size_of::<Self>() <= usize::MAX
    }

    open spec fn is_memory(&self, bytes: usize) -> bool {
        bytes == self@.table.len() * 8 + vstd::layout::size_of::<Self>()
    }

    fn update(&mut self, key: &[u8], value: u64) {
        self.update_signed(key, value as i64);
    }

    fn merge_from(&mut self, other: &Self) -> (r: Result<(), SketchError>) {
        self.compatibility().ensure_matches(&other.compatibility())?;
        let ghost before = self@;
        let ghost after = before.merged(other@);
        let mut i: usize = 0;
        while i < self.table.len() && i < other.table.len()
            invariant
                after == before.merged(other@),
                after.fits(),
                before.table.len() == self.table.len(),
                self@ == (SignedTable { table: self@.table, ..before }),
                i <= self.table.len(),
                i <= other.table.len(),
                forall|j: int|
                    0 <= j < before.table.len() ==> #[trigger] self@.table[j] == if j < i {
                        after.table[j]
                    } else {
                        before.table[j]
                    },
            decreases self.table.len() - i,
        {
            let ghost mid = self@.table;
            assert(self@.table[i as int] == self.table@[i as int]);
            assert(other@.table[i as int] == other.table@[i as int]);
            assert(after.table[i as int] == before.table[i as int] + other@.table[i as int]);
            let v: i64 = self.table[i] + other.table[i];
            self.table.set(i, v);
            assert(self@.table =~= mid.update(i as int, v as int));
            i += 1;
        }
        assert(after.updates == before.updates + other@.updates);
        self.updates = self.updates + other.updates;
        assert(self@ =~= after);
        Ok(())
    }

    fn memory_bytes(&self) -> (r: usize) {
        self.table.len() * 8 + core::mem::size_of::<Self>()
    }

    fn reset(&mut self) {
        let n: usize = self.table.len();
        self.table = vec![0i64;n];
        self.updates = 0;
        assert(self@ =~= SignedTable::empty(old(self)@.width, old(self)@.depth, old(self)@.hash));
    }

    fn update_count(&self) -> (r: u64) {
        self.updates
    }

    fn compatibility(&self) -> (r: SketchCompatibility) {
        SketchCompatibility {
            algorithm: ALGORITHM.to_owned(),
            version: 1,
            hash: self.hash,
            params_hash: self.params_hash(),
        }
    }
}

// ---------------------------------------------------------------------------
// Laws
// ---------------------------------------------------------------------------

proof fn lemma_fed_config(s: SignedTable, stream: Seq<(Seq<u8>, int)>)
    ensures
        ({
            let t = s.fed(stream);
            &&& t.width == s.width
            &&& t.depth == s.depth
            &&& t.hash == s.hash
            &&& t.table.len() == s.table.len()
            &&& t.updates == s.updates + stream.len()
        }),
    decreases stream.len(),
{
    if stream.len() > 0 {
        lemma_fed_config(s, stream.drop_last());
    }
}

/// An update and its opposite cancel: all counters, and so all estimates,
/// are as before.
pub proof fn law_signed_updates_cancel(s: SignedTable, key: Seq<u8>, value: int, other: Seq<u8>)
    ensures
        s.updated(key, value).updated(key, -value).table == s.table,
        s.updated(key, value).updated(key, -value).estimate(other) == s.estimate(other),
{
    let t = s.updated(key, value).updated(key, -value);
    assert forall|i: int| 0 <= i < s.table.len() implies t.table[i] == s.table[i] by {
        let g = s.sign(key, i / s.width);
        assert(g * value + g * (-value) == 0) by (nonlinear_arith);
    }
    assert(t.table =~= s.table);
    assert(t.row_estimates(other) =~= s.row_estimates(other));
}

/// Merging sketches of two streams gives the sketch of one stream followed
/// by the other.
pub proof fn law_signed_merge_equals_single_stream(
    width: int,
    depth: int,
    hash: HashSpec,
    first: Seq<(Seq<u8>, int)>,
    second: Seq<(Seq<u8>, int)>,
)
    ensures
        ({
            let s = SignedTable::empty(width, depth, hash);
            s.fed(first).merged(s.fed(second)) == s.fed(first + second)
        }),
    decreases second.len(),
{
    let s = SignedTable::empty(width, depth, hash);
    lemma_fed_config(s, first);
    if second.len() == 0 {
        assert(first + second =~= first);
        assert(s.fed(first).merged(s.fed(second)) =~= s.fed(first + second));
    } else {
        let front = second.drop_last();
        law_signed_merge_equals_single_stream(width, depth, hash, first, front);
        lemma_fed_config(s, front);
        lemma_fed_config(s, first + front);
        assert((first + second).drop_last() =~= first + front);
        assert((first + second).last() == second.last());
        assert(s.fed(first).merged(s.fed(second)) =~= s.fed(first + second));
    }
}

/// Merging sketches of equal configuration does not depend on the order.
pub proof fn law_signed_merge_commutes(a: SignedTable, b: SignedTable)
    requires
        a.width == b.width,
        a.depth == b.depth,
        a.hash == b.hash,
        a.table.len() == b.table.len(),
    ensures
        a.merged(b) == b.merged(a),
{
    assert(a.merged(b) =~= b.merged(a));
}

/// Reading a snapshot back gives the sketch that was written, for every
/// sketch whose dimensions and payload fit the format's length fields.
pub proof fn law_count_sketch_snapshot_round_trip(
    s: SignedTable,
    window_start: u64,
    window_end: u64,
)
    requires
        s.shaped(),
        s.fits(),
        s.width <= u32::MAX,
        s.depth <= u32::MAX,
        8 + 8 * s.table.len() <= u32::MAX,
    ensures
        SignedTable::from_snapshot(s.snapshot(window_start, window_end)) == Ok::<
            SignedTable,
            SketchErrorView,
        >(s),
{
    lemma_pow256_values();
    let params = le(s.width as nat, 4) + le(s.depth as nat, 4);
    let payload = le(s.updates as nat, 8) + words(s.table);
    lemma_le_value_of_le(s.width as nat, 4);
    lemma_le_value_of_le(s.depth as nat, 4);
    lemma_le_value_of_le(s.updates as nat, 8);
    lemma_words_len(s.table);
    let header = SnapshotHeader {
        version: SNAPSHOT_VERSION,
        algorithm_id: algorithm_id::COUNT_SKETCH,
        hash: s.hash,
        window_start_nanos: window_start,
        window_end_nanos: window_end,
    };
    law_snapshot_round_trip(header, params, payload);
    assert(params.subrange(0, 4) =~= le(s.width as nat, 4));
    assert(params.subrange(4, 8) =~= le(s.depth as nat, 4));
    assert(payload.subrange(0, 8) =~= le(s.updates as nat, 8));
    let back = signed_words_at(payload, 8, s.width * s.depth);
    assert forall|i: int| 0 <= i < s.table.len() implies #[trigger] back[i] == s.table[i] by {
        lemma_words_index(s.table, i);
        assert(payload.subrange(8 + 8 * i, 8 + 8 * i + 8) =~= words(s.table).subrange(
            8 * i,
            8 * i + 8,
        ));
        assert(is_i64(s.table[i]));
        law_i64_round_trip(s.table[i] as i64);
    }
    assert(back =~= s.table);
}

proof fn lemma_single_key_cells(s: SignedTable, key: Seq<u8>, stream: Seq<(Seq<u8>, int)>, row: int)
    requires
        s.shaped(),
        s.width > 0,
        0 <= row < s.depth,
        forall|i: int| 0 <= i < stream.len() ==> (#[trigger] stream[i]).0 == key,
    ensures
        s.fed(stream).table[cell(s.hash.seed, key, row, s.width)] == s.table[cell(
            s.hash.seed,
            key,
            row,
            s.width,
        )] + s.sign(key, row) * weight_of(stream, key),
    decreases stream.len(),
{
    let at = cell(s.hash.seed, key, row, s.width);
    let g = s.sign(key, row);
    lemma_cell(s.hash.seed, key, row, s.width, s.depth);
    if stream.len() == 0 {
        assert(g * 0 == 0);
    } else {
        let front = stream.drop_last();
        assert(stream.last() == stream[stream.len() - 1]);
        assert forall|i: int| 0 <= i < front.len() implies (#[trigger] front[i]).0 == key by {
            assert(front[i] == stream[i]);
        }
        lemma_single_key_cells(s, key, front, row);
        lemma_fed_config(s, front);
        let v = stream.last().1;
        let w = weight_of(front, key);
        assert(weight_of(stream, key) == w + v);
        assert(g * w + g * v == g * (w + v)) by (nonlinear_arith);
    }
}

proof fn lemma_constant_median(s: Seq<int>, x: int)
    requires
        s.len() > 0,
        forall|i: int| 0 <= i < s.len() ==> #[trigger] s[i] == x,
    ensures
        median(s) == x,
        s.sort_by(ascending()).len() == s.len(),
        forall|i: int| 0 <= i < s.len() ==> #[trigger] s.sort_by(ascending())[i] == x,
{
    broadcast use vstd::seq_lib::group_to_multiset_ensures;

    let t = s.sort_by(ascending());
    lemma_ascending();
    s.lemma_sort_by_ensures(ascending());
    assert(t.len() == t.to_multiset().len());
    assert(s.len() == s.to_multiset().len());
    assert forall|i: int| 0 <= i < s.len() implies #[trigger] t[i] == x by {
        assert(t.contains(t[i]));
        assert(s.contains(t[i]));
    }
}

/// A sketch that was fed a single key estimates its net sum exactly.
pub proof fn law_single_key_is_exact(
    width: int,
    depth: int,
    hash: HashSpec,
    key: Seq<u8>,
    stream: Seq<(Seq<u8>, int)>,
)
    requires
        width > 0,
        depth > 0,
        forall|i: int| 0 <= i < stream.len() ==> (#[trigger] stream[i]).0 == key,
    ensures
        ({
            let s = SignedTable::empty(width, depth, hash).fed(stream);
            let sum = weight_of(stream, key);
            &&& s.estimate(key) == sum
            &&& i64::MIN / 2 <= sum <= i64::MAX / 2 ==> s.estimate_fits(key)
        }),
{
    let empty = SignedTable::empty(width, depth, hash);
    let s = empty.fed(stream);
    let sum = weight_of(stream, key);
    assert(width * depth >= 0) by (nonlinear_arith)
        requires
            width > 0,
            depth > 0,
    ;
    lemma_fed_config(empty, stream);
    let rows = s.row_estimates(key);
    assert forall|row: int| 0 <= row < depth implies #[trigger] s.row_estimate(key, row) == sum by {
        lemma_single_key_cells(empty, key, stream, row);
        lemma_cell(hash.seed, key, row, width, depth);
        let g = empty.sign(key, row);
        assert(g == 1 || g == -1);
        assert(g * (0 + g * sum) == sum) by (nonlinear_arith)
            requires
                g == 1 || g == -1,
        ;
    }
    lemma_constant_median(rows, sum);
}

} // verus!
