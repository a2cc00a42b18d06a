//! The `FSK1` versioned binary snapshot format.
//!
//! ```text
//! magic:        "FSK1" (4 bytes)
//! version:      u16
//! algorithm_id: u16
//! hash_family:  u8   (0 = fsk1)
//! hash_seed:    u64
//! hash_version: u16
//! window_start: u64
//! window_end:   u64
//! params_len:   u32
//! params:       [u8; params_len]
//! payload_len:  u32
//! payload:      [u8; payload_len]
//! checksum:     u64 (fsk1 hash of everything before it, seed 0)
//! ```
//!
//! All integers are little-endian.

use vstd::prelude::*;
use vstd::string::*;

use crate::bytes::{
    get_le, le, le_value, lemma_le_len, lemma_le_of_le_value, lemma_le_value_of_le,
    lemma_pow256_values, put_bytes, put_le, same_bytes,
};
use crate::error::{SketchError, SketchErrorView};
use crate::hash::{hash64, hash_of, law_hash_tells_bytes_apart, HashFamily, HashSpec};
use crate::text::{dec, push_decimal};

pub mod algorithm_id;

verus! {

pub const MAGIC: [u8; 4] = [0x46, 0x53, 0x4B, 0x31];

/// Version of the layout. Readers reject every other version at the header
/// instead of misreading a payload.
pub const SNAPSHOT_VERSION: u16 = 2;

#[derive(Debug, Clone, Copy, PartialEq, Eq, Structural)]
pub struct SnapshotHeader {
    pub version: u16,
    pub algorithm_id: u16,
    pub hash: HashSpec,
    pub window_start_nanos: u64,
    pub window_end_nanos: u64,
}

/// Everything up to the length of the parameters.
pub open spec fn header_bytes(h: SnapshotHeader) -> Seq<u8> {
    MAGIC@ + le(h.version as nat, 2) + le(h.algorithm_id as nat, 2) + seq![0u8] + le(
        h.hash.seed as nat,
        8,
    ) + le(h.hash.version as nat, 2) + le(h.window_start_nanos as nat, 8) + le(
        h.window_end_nanos as nat,
        8,
    )
}

/// A byte string behind its length in four bytes.
pub open spec fn framed(s: Seq<u8>) -> Seq<u8> {
    le(s.len() as u32 as nat, 4) + s
}

/// Everything that the checksum covers.
pub open spec fn snapshot_body(h: SnapshotHeader, params: Seq<u8>, payload: Seq<u8>) -> Seq<u8> {
    header_bytes(h) + framed(params) + framed(payload)
}

/// A whole snapshot.
pub open spec fn snapshot_bytes(h: SnapshotHeader, params: Seq<u8>, payload: Seq<u8>) -> Seq<u8> {
    let body = snapshot_body(h, params, payload);
    body + le(hash_of(body, 0) as nat, 8)
}

/// The value of the `n` bytes of `s` at `at`.
pub open spec fn field_at(s: Seq<u8>, at: int, n: int) -> nat {
    le_value(s.subrange(at, at + n))
}

/// Length of the part before the parameters' length.
pub open spec fn fixed_len() -> int {
    35
}

/// Length of the shortest snapshot.
pub open spec fn min_len() -> int {
    51
}

pub open spec fn snapshot_err<T>(message: Seq<char>) -> Result<T, SketchErrorView> {
    Err(SketchErrorView::Snapshot(message))
}

/// The header that the first bytes of `body` denote.
pub open spec fn header_of(body: Seq<u8>) -> SnapshotHeader {
    SnapshotHeader {
        version: field_at(body, 4, 2) as u16,
        algorithm_id: field_at(body, 6, 2) as u16,
        hash: HashSpec {
            family: HashFamily::Fsk1,
            seed: field_at(body, 9, 8) as u64,
            version: field_at(body, 17, 2) as u16,
        },
        window_start_nanos: field_at(body, 19, 8) as u64,
        window_end_nanos: field_at(body, 27, 8) as u64,
    }
}

/// What the part of a snapshot that the checksum covers denotes, or why it
/// denotes nothing.
pub open spec fn body_content(body: Seq<u8>) -> Result<
    (SnapshotHeader, Seq<u8>, Seq<u8>),
    SketchErrorView,
> {
    let params_at = fixed_len() + 4;
    let params_len = field_at(body, fixed_len(), 4);
    let payload_at = params_at + params_len + 4;
    let payload_len = field_at(body, params_at + params_len, 4);
    if body.take(4) != MAGIC@ {
        snapshot_err("bad magic (expected FSK1)"@)
    } else if header_of(body).version != SNAPSHOT_VERSION {
        snapshot_err("unsupported snapshot version "@ + dec(header_of(body).version as nat))
    } else if body[8] != 0 {
        snapshot_err("unknown hash family id "@ + dec(body[8] as nat))
    } else if payload_at > body.len() || payload_at + payload_len > body.len() {
        snapshot_err("unexpected end of snapshot"@)
    } else {
        Ok(
            (
                header_of(body),
                body.subrange(params_at, params_at + params_len),
                body.subrange(payload_at, payload_at + payload_len),
            ),
        )
    }
}

/// What a byte string denotes as a snapshot, or why it is none.
pub open spec fn snapshot_content(bytes: Seq<u8>) -> Result<
    (SnapshotHeader, Seq<u8>, Seq<u8>),
    SketchErrorView,
> {
    let body = bytes.take(bytes.len() - 8);
    if bytes.len() < min_len() {
        snapshot_err("snapshot too short"@)
    } else if hash_of(body, 0) != field_at(bytes, bytes.len() - 8, 8) {
        snapshot_err("checksum mismatch"@)
    } else {
        body_content(body)
    }
}

/// Whether an outcome is the one that `expected` describes.
pub open spec fn is_content(
    r: Result<(SnapshotHeader, Vec<u8>, Vec<u8>), SketchError>,
    expected: Result<(SnapshotHeader, Seq<u8>, Seq<u8>), SketchErrorView>,
) -> bool {
    match expected {
        Ok((h, params, payload)) => r matches Ok((rh, rp, rl)) && rh == h && rp@ == params && rl@
            == payload,
        Err(e) => r matches Err(x) && x@ == e,
    }
}

/// Serialize a snapshot with header, algorithm parameters and payload.
pub fn write_snapshot(header: &SnapshotHeader, params: &[u8], payload: &[u8]) -> (r: Vec<u8>)
    ensures
        r@ == snapshot_bytes(*header, params@, payload@),
{
    let mut w = Writer::new();
    w.bytes(&MAGIC);
    w.u16(header.version);
    w.u16(header.algorithm_id);
    w.u8(
        match header.hash.family {
            HashFamily::Fsk1 => 0,
        },
    );
    w.u64(header.hash.seed);
    w.u16(header.hash.version);
    w.u64(header.window_start_nanos);
    w.u64(header.window_end_nanos);
    assert(w.buf@ =~= header_bytes(*header));
    w.lp_bytes(params);
    w.lp_bytes(payload);
    assert(w.buf@ =~= snapshot_body(*header, params@, payload@));
    let checksum: u64 = hash64(w.buf.as_slice(), 0);
    w.u64(checksum);
    w.buf
}

/// Parse and checksum-verify a snapshot, returning header, parameters and
/// payload.
pub fn read_snapshot(bytes: &[u8]) -> (r: Result<
    (SnapshotHeader, Vec<u8>, Vec<u8>),
    SketchError,
>)
    ensures
        is_content(r, snapshot_content(bytes@)),
{
    proof {
        lemma_pow256_values();
    }
    if bytes.len() < 51 {
        return Err(SketchError::Snapshot("snapshot too short".to_owned()));
    }
    let (body, tail) = bytes.split_at(bytes.len() - 8);
    let ghost b = body@;
    let expected: u64 = get_le(tail, 0, 8);
    assert(b =~= bytes@.take(bytes.len() - 8));
    assert(tail@.subrange(0, 8) =~= bytes@.subrange(bytes.len() - 8, bytes.len() as int));
    if hash64(body, 0) != expected {
        return Err(SketchError::Snapshot("checksum mismatch".to_owned()));
    }
    read_body(body)
}

/// Parse the part of a snapshot that its checksum covers.
fn read_body(body: &[u8]) -> (r: Result<(SnapshotHeader, Vec<u8>, Vec<u8>), SketchError>)
    requires
        body.len() >= min_len() - 8,
    ensures
        is_content(r, body_content(body@)),
{
    proof {
        lemma_pow256_values();
    }
    let ghost b = body@;
    let mut r = Reader::new(body);
    let fixed = r.take(35)?;
    let magic = vstd::slice::slice_subrange(fixed, 0, 4);
    assert(magic@ =~= b.take(4));
    if !same_bytes(magic, &MAGIC) {
        return Err(SketchError::Snapshot("bad magic (expected FSK1)".to_owned()));
    }
    let version: u16 = get_le(body, 4, 2) as u16;
    if version != SNAPSHOT_VERSION {
        let mut message = "unsupported snapshot version ".to_owned();
        push_decimal(&mut message, version as u64);
        return Err(SketchError::Snapshot(message));
    }
    let family_id: u8 = body[8];
    if family_id != 0 {
        let mut message = "unknown hash family id ".to_owned();
        push_decimal(&mut message, family_id as u64);
        return Err(SketchError::Snapshot(message));
    }
    let header = SnapshotHeader {
        version,
        algorithm_id: get_le(body, 6, 2) as u16,
        hash: HashSpec {
            family: HashFamily::Fsk1,
            seed: get_le(body, 9, 8),
            version: get_le(body, 17, 2) as u16,
        },
        window_start_nanos: get_le(body, 19, 8),
        window_end_nanos: get_le(body, 27, 8),
    };
    assert(r.rest().take(4) =~= b.subrange(35, 39));
    let params = crate::bytes::copy_bytes(r.lp_bytes()?);
    assert(r.rest().len() >= 4 ==> r.rest().take(4) =~= b.subrange(r.at(), r.at() + 4));
    let payload = crate::bytes::copy_bytes(r.lp_bytes()?);
    Ok((header, params, payload))
}

/// Little-endian byte writer for snapshot parameters and payloads.
pub struct Writer {
    pub buf: Vec<u8>,
}

impl Default for Writer {
    fn default() -> (r: Self)
        ensures
            r.buf@ == Seq::<u8>::empty(),
    {
        Writer { buf: Vec::new() }
    }
}

impl Writer {
    pub fn new() -> (r: Self)
        ensures
            r.buf@ == Seq::<u8>::empty(),
    {
        Writer { buf: Vec::new() }
    }

    pub fn with_capacity(n: usize) -> (r: Self)
        ensures
            r.buf@ == Seq::<u8>::empty(),
    {
        Writer { buf: Vec::with_capacity(n) }
    }

    pub fn u8(&mut self, v: u8)
        ensures
            final(self).buf@ == old(self).buf@.push(v),
    {
        self.buf.push(v);
    }

    pub fn u16(&mut self, v: u16)
        ensures
            final(self).buf@ == old(self).buf@ + le(v as nat, 2),
    {
        put_le(&mut self.buf, v as u64, 2);
    }

    pub fn u32(&mut self, v: u32)
        ensures
            final(self).buf@ == old(self).buf@ + le(v as nat, 4),
    {
        put_le(&mut self.buf, v as u64, 4);
    }

    pub fn u64(&mut self, v: u64)
        ensures
            final(self).buf@ == old(self).buf@ + le(v as nat, 8),
    {
        put_le(&mut self.buf, v, 8);
    }

    /// Two's complement.
    pub fn i64(&mut self, v: i64)
        ensures
            final(self).buf@ == old(self).buf@ + le(v as u64 as nat, 8),
    {
        put_le(&mut self.buf, v as u64, 8);
    }

    pub fn bytes(&mut self, v: &[u8])
        ensures
            final(self).buf@ == old(self).buf@ + v@,
    {
        put_bytes(&mut self.buf, v);
    }

    /// Length-prefixed byte string (four bytes of length).
    pub fn lp_bytes(&mut self, v: &[u8])
        ensures
            final(self).buf@ == old(self).buf@ + framed(v@),
    {
        self.u32(v.len() as u32);
        self.bytes(v);
        assert(self.buf@ =~= old(self).buf@ + framed(v@));
    }
}

/// Little-endian byte reader for snapshot parameters and payloads.
pub struct Reader<'a> {
    buf: &'a [u8],
    pos: usize,
}

/// The refusal of a declared count that `left` bytes cannot hold.
pub open spec fn count_error(count: nat, left: nat) -> SketchErrorView {
    SketchErrorView::Snapshot(
        "declared count "@ + dec(count) + " cannot fit in the "@ + dec(left) + " bytes remaining"@,
    )
}

/// The outcome of reading past the end.
pub open spec fn is_end<T>(r: Result<T, SketchError>) -> bool {
    r matches Err(e) && e@ == SketchErrorView::Snapshot("unexpected end of snapshot"@)
}

impl<'a> Reader<'a> {
    /// All bytes of the input.
    pub closed spec fn input(&self) -> Seq<u8> {
        self.buf@
    }

    /// How many bytes have been consumed.
    pub closed spec fn at(&self) -> int {
        self.pos as int
    }

    /// The bytes not yet consumed.
    pub open spec fn rest(&self) -> Seq<u8> {
        self.input().skip(self.at())
    }

    /// The position is inside the input.
    pub open spec fn wf(&self) -> bool {
        0 <= self.at() <= self.input().len() <= usize::MAX
    }

    /// `self` is `before` with `n` more bytes consumed.
    pub open spec fn advanced(&self, before: &Self, n: int) -> bool {
        &&& self.wf()
        &&& self.input() == before.input()
        &&& self.at() == before.at() + n
        &&& self.rest() == before.rest().skip(n)
    }

    /// A field of `n` bytes is read if and only if that many are left.
    pub open spec fn reads<T>(
        &self,
        before: &Self,
        n: int,
        r: Result<T, SketchError>,
    ) -> bool {
        if before.rest().len() < n {
            is_end(r) && *self == *before
        } else {
            r is Ok && self.advanced(before, n)
        }
    }

    pub fn new(buf: &'a [u8]) -> (r: Self)
        ensures
            r.wf(),
            r.input() == buf@,
            r.at() == 0,
            r.rest() == buf@,
    {
        let r = Reader { buf, pos: 0 };
        assert(buf@.len() == buf.len());
        assert(r.rest() =~= buf@);
        r
    }

    pub fn remaining(&self) -> (r: usize)
        requires
            self.wf(),
        ensures
            r == self.rest().len(),
            r == self.input().len() - self.at(),
    {
        self.buf.len() - self.pos
    }

    /// The next `n` bytes.
    pub fn take(&mut self, n: usize) -> (r: Result<&'a [u8], SketchError>)
        requires
            old(self).wf(),
        ensures
            final(self).reads(old(self), n as int, r),
            r is Ok ==> r->Ok_0@ == old(self).input().subrange(old(self).at(), old(self).at() + n),
            r is Ok ==> r->Ok_0@ == old(self).rest().take(n as int),
    {
        if self.remaining() < n {
            return Err(SketchError::Snapshot("unexpected end of snapshot".to_owned()));
        }
        let s = vstd::slice::slice_subrange(self.buf, self.pos, self.pos + n);
        self.pos = self.pos + n;
        assert(s@ =~= old(self).rest().take(n as int));
        assert(self.rest() =~= old(self).rest().skip(n as int));
        Ok(s)
    }

    pub fn u8(&mut self) -> (r: Result<u8, SketchError>)
        requires
            old(self).wf(),
        ensures
            final(self).reads(old(self), 1, r),
            r is Ok ==> r->Ok_0 == old(self).rest()[0],
            r is Ok ==> r->Ok_0 == old(self).input()[old(self).at()],
    {
        let s = self.take(1)?;
        Ok(s[0])
    }

    pub fn u16(&mut self) -> (r: Result<u16, SketchError>)
        requires
            old(self).wf(),
        ensures
            final(self).reads(old(self), 2, r),
            r is Ok ==> r->Ok_0 == le_value(old(self).rest().take(2)),
            r is Ok ==> r->Ok_0 == field_at(old(self).input(), old(self).at(), 2),
    {
        proof {
            lemma_pow256_values();
        }
        let s = self.take(2)?;
        assert(s@.subrange(0, 2) =~= s@);
        Ok(get_le(s, 0, 2) as u16)
    }

    pub fn u32(&mut self) -> (r: Result<u32, SketchError>)
        requires
            old(self).wf(),
        ensures
            final(self).reads(old(self), 4, r),
            r is Ok ==> r->Ok_0 == le_value(old(self).rest().take(4)),
            r is Ok ==> r->Ok_0 == field_at(old(self).input(), old(self).at(), 4),
    {
        proof {
            lemma_pow256_values();
        }
        let s = self.take(4)?;
        assert(s@.subrange(0, 4) =~= s@);
        Ok(get_le(s, 0, 4) as u32)
    }

    pub fn u64(&mut self) -> (r: Result<u64, SketchError>)
        requires
            old(self).wf(),
        ensures
            final(self).reads(old(self), 8, r),
            r is Ok ==> r->Ok_0 == le_value(old(self).rest().take(8)),
            r is Ok ==> r->Ok_0 == field_at(old(self).input(), old(self).at(), 8),
    {
        let s = self.take(8)?;
        assert(s@.subrange(0, 8) =~= s@);
        Ok(get_le(s, 0, 8))
    }

    /// Two's complement.
    pub fn i64(&mut self) -> (r: Result<i64, SketchError>)
        requires
            old(self).wf(),
        ensures
            final(self).reads(old(self), 8, r),
            r is Ok ==> r->Ok_0 == (le_value(old(self).rest().take(8)) as u64) as i64,
    {
        let v: u64 = self.u64()?;
        Ok(v as i64)
    }

    /// A byte string behind its length in four bytes. The length is consumed
    /// even if the bytes that it promises are not there.
    pub fn lp_bytes(&mut self) -> (r: Result<&'a [u8], SketchError>)
        requires
            old(self).wf(),
        ensures
            ({
                let n = le_value(old(self).rest().take(4)) as int;
                &&& final(self).wf()
                &&& final(self).input() == old(self).input()
                &&& r is Ok <==> old(self).rest().len() >= 4 + n && old(self).rest().len() >= 4
                &&& r is Err ==> is_end(r)
                &&& r is Ok ==> final(self).advanced(old(self), 4 + n)
                &&& r is Ok ==> r->Ok_0@ == old(self).rest().subrange(4, 4 + n)
                &&& r is Ok ==> r->Ok_0@ == old(self).input().subrange(
                    old(self).at() + 4,
                    old(self).at() + 4 + n,
                )
            }),
    {
        let n: usize = self.u32()? as usize;
        let ghost mid = *self;
        let s = self.take(n)?;
        assert(mid.rest().skip(n as int) =~= old(self).rest().skip(4 + n));
        assert(mid.rest().take(n as int) =~= old(self).rest().subrange(4, 4 + n));
        Ok(s)
    }

    /// Validate a declared element count against the bytes actually left,
    /// given the smallest possible encoding of one element (at least one
    /// byte). A count must never size an allocation that the payload cannot
    /// back.
    pub fn check_count(&self, count: usize, min_bytes_each: usize) -> (r: Result<(), SketchError>)
        requires
            self.wf(),
        ensures
            ({
                let each = if min_bytes_each == 0 { 1int } else { min_bytes_each as int };
                &&& r is Ok <==> count * each <= self.rest().len()
                &&& r matches Err(e) ==> e@ == count_error(count as nat, self.rest().len())
            }),
    {
        let each: usize = if min_bytes_each == 0 {
            1
        } else {
            min_bytes_each
        };
        let left: usize = self.remaining();
        proof {
            lemma_count_fits(count as int, each as int, left as int);
        }
        if count > left / each {
            let mut message = "declared count ".to_owned();
            push_decimal(&mut message, count as u64);
            message.append(" cannot fit in the ");
            push_decimal(&mut message, left as u64);
            message.append(" bytes remaining");
            return Err(SketchError::Snapshot(message));
        }
        Ok(())
    }
}

proof fn lemma_count_fits(count: int, each: int, left: int)
    by (nonlinear_arith)
    requires
        each > 0,
        left >= 0,
        count >= 0,
    ensures
        count <= left / each <==> count * each <= left,
{
}

// ---------------------------------------------------------------------------
// Laws
// ---------------------------------------------------------------------------

/// Reading what was written gives back header, parameters and payload.
pub proof fn law_snapshot_round_trip(h: SnapshotHeader, params: Seq<u8>, payload: Seq<u8>)
    requires
        h.version == SNAPSHOT_VERSION,
        params.len() <= u32::MAX,
        payload.len() <= u32::MAX,
    ensures
        snapshot_content(snapshot_bytes(h, params, payload)) == Ok::<_, SketchErrorView>(
            (h, params, payload),
        ),
{
    lemma_pow256_values();
    let body = snapshot_body(h, params, payload);
    let sum = le(hash_of(body, 0) as nat, 8);
    let bytes = snapshot_bytes(h, params, payload);
    lemma_le_value_of_le(hash_of(body, 0) as nat, 8);
    lemma_le_value_of_le(h.version as nat, 2);
    lemma_le_value_of_le(h.algorithm_id as nat, 2);
    lemma_le_value_of_le(h.hash.seed as nat, 8);
    lemma_le_value_of_le(h.hash.version as nat, 2);
    lemma_le_value_of_le(h.window_start_nanos as nat, 8);
    lemma_le_value_of_le(h.window_end_nanos as nat, 8);
    lemma_le_value_of_le(params.len(), 4);
    lemma_le_value_of_le(payload.len(), 4);
    assert(header_bytes(h).len() == 35);
    assert(bytes.take(bytes.len() - 8) =~= body);
    assert(bytes.subrange(bytes.len() - 8, bytes.len() as int) =~= sum);
    assert(body.take(4) =~= MAGIC@);
    assert(body.subrange(4, 6) =~= le(h.version as nat, 2));
    assert(body.subrange(6, 8) =~= le(h.algorithm_id as nat, 2));
    assert(body[8] == 0);
    assert(body.subrange(9, 17) =~= le(h.hash.seed as nat, 8));
    assert(body.subrange(17, 19) =~= le(h.hash.version as nat, 2));
    assert(body.subrange(19, 27) =~= le(h.window_start_nanos as nat, 8));
    assert(body.subrange(27, 35) =~= le(h.window_end_nanos as nat, 8));
    assert(body.subrange(35, 39) =~= le(params.len(), 4));
    let at: int = 39 + params.len() as int;
    assert(body.subrange(39, at) =~= params);
    assert(body.subrange(at, at + 4) =~= le(payload.len(), 4));
    assert(body.subrange(at + 4, at + 4 + payload.len() as int) =~= payload);
}

/// The length of a snapshot.
pub proof fn lemma_snapshot_len(h: SnapshotHeader, params: Seq<u8>, payload: Seq<u8>)
    ensures
        snapshot_bytes(h, params, payload).len() == 51 + params.len() + payload.len(),
{
    lemma_le_len(hash_of(snapshot_body(h, params, payload), 0) as nat, 8);
    lemma_le_len(h.version as nat, 2);
    lemma_le_len(h.algorithm_id as nat, 2);
    lemma_le_len(h.hash.seed as nat, 8);
    lemma_le_len(h.hash.version as nat, 2);
    lemma_le_len(h.window_start_nanos as nat, 8);
    lemma_le_len(h.window_end_nanos as nat, 8);
    lemma_le_len(params.len() as u32 as nat, 4);
    lemma_le_len(payload.len() as u32 as nat, 4);
}

/// A snapshot is accepted only if its last eight bytes are the hash of all
/// the others: any other checksum, and any change of the body that changes
/// its hash, is rejected.
pub proof fn law_corruption_is_rejected(bytes: Seq<u8>)
    requires
        bytes.len() < min_len() || hash_of(bytes.take(bytes.len() - 8), 0) != field_at(
            bytes,
            bytes.len() - 8,
            8,
        ),
    ensures
        snapshot_content(bytes) is Err,
{
}

/// A byte string whose last eight bytes are the hash of the others no longer
/// is one after a change of any single byte.
pub proof fn law_checksum_covers_every_byte(bytes: Seq<u8>, i: int, y: u8)
    requires
        bytes.len() >= 8,
        0 <= i < bytes.len(),
        y != bytes[i],
        hash_of(bytes.take(bytes.len() - 8), 0) == field_at(bytes, bytes.len() - 8, 8),
    ensures
        ({
            let changed = bytes.update(i, y);
            hash_of(changed.take(changed.len() - 8), 0) != field_at(
                changed,
                changed.len() - 8,
                8,
            )
        }),
{
    let changed = bytes.update(i, y);
    let n = bytes.len() - 8;
    let body = bytes.take(n);
    let sum = bytes.subrange(n, n + 8);
    if i < n {
        assert(changed.take(n) =~= body.update(i, y));
        assert(changed.subrange(n, n + 8) =~= sum);
        law_hash_tells_bytes_apart(body, i, y, 0);
    } else {
        let other = changed.subrange(n, n + 8);
        assert(changed.take(n) =~= body);
        assert(other[i - n] != sum[i - n]);
        lemma_le_of_le_value(sum);
        lemma_le_of_le_value(other);
    }
}

/// A snapshot in which any single byte was changed is rejected.
pub proof fn law_any_changed_byte_is_rejected(bytes: Seq<u8>, i: int, y: u8)
    requires
        snapshot_content(bytes) is Ok,
        0 <= i < bytes.len(),
        y != bytes[i],
    ensures
        snapshot_content(bytes.update(i, y)) == snapshot_err::<
            (SnapshotHeader, Seq<u8>, Seq<u8>),
        >("checksum mismatch"@),
{
    law_checksum_covers_every_byte(bytes, i, y);
}

/// An eight-byte two's complement field reads back as the number written.
pub proof fn law_i64_round_trip(v: i64)
    ensures
        (le_value(le(v as u64 as nat, 8)) as u64) as i64 == v,
{
    lemma_pow256_values();
    lemma_le_value_of_le(v as u64 as nat, 8);
    assert((v as u64) as i64 == v) by (bit_vector);
}

} // verus!
