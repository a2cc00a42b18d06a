//! The push batch: one round of component snapshots that an agent sends to
//! the gateway.
//!
//! ```text
//! magic:       "FSKB" (4 bytes)
//! version:     u16
//! node:        length-prefixed UTF-8
//! entry_count: u32
//! entries:     query name, component, snapshot, each length-prefixed
//! checksum:    u64 (fsk1 hash of everything before it, seed 0)
//! ```
//!
//! Integers have their least significant byte first. The snapshots inside are
//! opaque here.

use vstd::prelude::*;
use vstd::slice::slice_subrange;
use vstd::string::*;
use vstd::utf8::*;

use crate::bytes::{
    copy_bytes, get_le, le, le_value, lemma_le_len, lemma_le_of_le_value, lemma_le_value_of_le, lemma_pow256_values,
    same_bytes,
};
use crate::error::{SketchError, SketchErrorView};
use crate::hash::{hash64, hash_of};
use crate::ir::logical::MAX_QUERY_NAME_BYTES;
use crate::snapshot::{law_checksum_covers_every_byte, field_at, framed, snapshot_err, Reader, Writer};
use crate::text::{dec, push_decimal, text_from_utf8, trim, trimmed};

verus! {

pub const MAGIC: [u8; 4] = [0x46, 0x53, 0x4B, 0x42];

pub const BATCH_VERSION: u16 = 1;

/// Most entries of a batch. An agent pushes a handful of snapshots per query;
/// anything huge is no batch.
pub const MAX_ENTRIES: usize = 4_096;

/// Longest node name, as long as a DNS name.
pub const MAX_NODE_NAME_BYTES: usize = 253;

pub const MAX_COMPONENT_NAME_BYTES: usize = 128;

/// One component snapshot of a batch.
#[derive(Debug, Clone, PartialEq, Eq)]
pub struct PushEntry {
    pub query_name: String,
    pub component: String,
    pub snapshot: Vec<u8>,
}

/// Everything that an agent pushes at once.
#[derive(Debug, Clone, PartialEq, Eq)]
pub struct PushBatch {
    pub node: String,
    pub entries: Vec<PushEntry>,
}

/// The content of a [`PushEntry`].
#[verifier::ext_equal]
pub ghost struct PushEntryView {
    pub query_name: Seq<char>,
    pub component: Seq<char>,
    pub snapshot: Seq<u8>,
}

/// The content of a [`PushBatch`].
#[verifier::ext_equal]
pub ghost struct PushBatchView {
    pub node: Seq<char>,
    pub entries: Seq<PushEntryView>,
}

impl View for PushEntry {
    type V = PushEntryView;

    open spec fn view(&self) -> PushEntryView {
        PushEntryView {
            query_name: self.query_name@,
            component: self.component@,
            snapshot: self.snapshot@,
        }
    }
}

/// The contents of entries.
pub open spec fn entry_views(entries: Seq<PushEntry>) -> Seq<PushEntryView> {
    entries.map_values(|e: PushEntry| e@)
}

impl View for PushBatch {
    type V = PushBatchView;

    open spec fn view(&self) -> PushBatchView {
        PushBatchView { node: self.node@, entries: entry_views(self.entries@) }
    }
}

// ---------------------------------------------------------------------------
// Encoding
// ---------------------------------------------------------------------------

pub open spec fn entry_bytes(e: PushEntryView) -> Seq<u8> {
    framed(encode_utf8(e.query_name)) + framed(encode_utf8(e.component)) + framed(e.snapshot)
}

pub open spec fn entries_bytes(es: Seq<PushEntryView>) -> Seq<u8>
    decreases es.len(),
{
    if es.len() == 0 {
        Seq::empty()
    } else {
        entries_bytes(es.drop_last()) + entry_bytes(es.last())
    }
}

/// What comes before the entries.
pub open spec fn head_bytes(b: PushBatchView) -> Seq<u8> {
    MAGIC@ + le(BATCH_VERSION as nat, 2) + framed(encode_utf8(b.node)) + le(
        b.entries.len() as u32 as nat,
        4,
    )
}

/// Everything that the checksum covers.
pub open spec fn batch_body(b: PushBatchView) -> Seq<u8> {
    head_bytes(b) + entries_bytes(b.entries)
}

/// A whole batch.
pub open spec fn batch_bytes(b: PushBatchView) -> Seq<u8> {
    batch_body(b) + le(hash_of(batch_body(b), 0) as nat, 8)
}

// ---------------------------------------------------------------------------
// Decoding
// ---------------------------------------------------------------------------

/// The name that bytes mean: not empty, not too long, UTF-8 and not blank.
pub open spec fn name_meant(bytes: Seq<u8>, what: Seq<char>, max_bytes: nat) -> Result<
    Seq<char>,
    SketchErrorView,
> {
    if bytes.len() == 0 {
        snapshot_err("push batch "@ + what + " must not be empty"@)
    } else if bytes.len() > max_bytes {
        snapshot_err(
            "push batch "@ + what + " is "@ + dec(bytes.len()) + " bytes (max "@ + dec(max_bytes)
                + ")"@,
        )
    } else if !valid_utf8(bytes) {
        snapshot_err("push batch "@ + what + " is not UTF-8"@)
    } else if trimmed(decode_utf8(bytes)).len() == 0 {
        snapshot_err("push batch "@ + what + " must not be blank"@)
    } else {
        Ok(decode_utf8(bytes))
    }
}

/// The byte string at the start of `rest`, and what follows it.
pub open spec fn framed_read(rest: Seq<u8>) -> Result<(Seq<u8>, Seq<u8>), SketchErrorView> {
    let n = le_value(rest.take(4)) as int;
    if rest.len() < 4 || rest.len() < 4 + n {
        snapshot_err("unexpected end of snapshot"@)
    } else {
        Ok((rest.subrange(4, 4 + n), rest.skip(4 + n)))
    }
}

/// The name at the start of `rest`, and what follows it.
pub open spec fn name_read(rest: Seq<u8>, what: Seq<char>, max_bytes: nat) -> Result<
    (Seq<char>, Seq<u8>),
    SketchErrorView,
> {
    match framed_read(rest) {
        Err(e) => Err(e),
        Ok((bytes, after)) => match name_meant(bytes, what, max_bytes) {
            Err(e) => Err(e),
            Ok(name) => Ok((name, after)),
        },
    }
}

/// The entry at the start of `rest`, and what follows it.
#[verifier::opaque]
pub open spec fn entry_read(rest: Seq<u8>) -> Result<(PushEntryView, Seq<u8>), SketchErrorView> {
    match name_read(rest, "query name"@, MAX_QUERY_NAME_BYTES as nat) {
        Err(e) => Err(e),
        Ok((query_name, r1)) => match name_read(
            r1,
            "component"@,
            MAX_COMPONENT_NAME_BYTES as nat,
        ) {
            Err(e) => Err(e),
            Ok((component, r2)) => match framed_read(r2) {
                Err(e) => Err(e),
                Ok((snapshot, r3)) => Ok((PushEntryView { query_name, component, snapshot }, r3)),
            },
        },
    }
}

/// The entries at the start of `rest` behind those already `read`, and what
/// follows them.
pub open spec fn entries_read(rest: Seq<u8>, count: nat, read: Seq<PushEntryView>) -> Result<
    (Seq<PushEntryView>, Seq<u8>),
    SketchErrorView,
>
    decreases count,
{
    if count == 0 {
        Ok((read, rest))
    } else {
        match entry_read(rest) {
            Err(e) => Err(e),
            Ok((entry, after)) => entries_read(after, (count - 1) as nat, read.push(entry)),
        }
    }
}

/// What the part of a batch that the checksum covers denotes.
pub open spec fn body_meant(body: Seq<u8>) -> Result<PushBatchView, SketchErrorView> {
    let version = field_at(body, 4, 2);
    if body.take(4) != MAGIC@ {
        snapshot_err("bad magic (expected FSKB)"@)
    } else if version != BATCH_VERSION {
        snapshot_err("unsupported push batch version "@ + dec(version))
    } else {
        match name_read(body.skip(6), "node"@, MAX_NODE_NAME_BYTES as nat) {
            Err(e) => Err(e),
            Ok((node, after)) => {
                let count = le_value(after.take(4));
                if after.len() < 4 {
                    snapshot_err("unexpected end of snapshot"@)
                } else if count > MAX_ENTRIES {
                    snapshot_err(
                        "push batch declares "@ + dec(count) + " entries (max "@ + dec(
                            MAX_ENTRIES as nat,
                        ) + ")"@,
                    )
                } else {
                    match entries_read(after.skip(4), count, Seq::empty()) {
                        Err(e) => Err(e),
                        Ok((entries, left)) => if left.len() != 0 {
                            snapshot_err("trailing bytes after push batch entries"@)
                        } else {
                            Ok(PushBatchView { node, entries })
                        },
                    }
                }
            },
        }
    }
}

/// What a byte string denotes as a batch, or why it is none.
pub open spec fn batch_meant(bytes: Seq<u8>) -> Result<PushBatchView, SketchErrorView> {
    let body = bytes.take(bytes.len() - 8);
    if bytes.len() < 22 {
        snapshot_err("push batch too short"@)
    } else if hash_of(body, 0) != field_at(bytes, bytes.len() - 8, 8) {
        snapshot_err("push batch checksum mismatch"@)
    } else {
        body_meant(body)
    }
}

fn utf8_bounded(bytes: &[u8], what: &str, max_bytes: usize) -> (r: Result<String, SketchError>)
    ensures
        match name_meant(bytes@, what@, max_bytes as nat) {
            Ok(s) => r is Ok && r->Ok_0@ == s,
            Err(e) => r is Err && r->Err_0@ == e,
        },
{
    let mut m = "push batch ".to_owned();
    m.append(what);
    if bytes.len() == 0 {
        m.append(" must not be empty");
        return Err(SketchError::Snapshot(m));
    }
    if bytes.len() > max_bytes {
        m.append(" is ");
        push_decimal(&mut m, bytes.len() as u64);
        m.append(" bytes (max ");
        push_decimal(&mut m, max_bytes as u64);
        m.append(")");
        return Err(SketchError::Snapshot(m));
    }
    match text_from_utf8(copy_bytes(bytes)) {
        None => {
            m.append(" is not UTF-8");
            Err(SketchError::Snapshot(m))
        },
        Some(value) => {
            if trim(value.as_str()).as_str().unicode_len() == 0 {
                m.append(" must not be blank");
                return Err(SketchError::Snapshot(m));
            }
            Ok(value)
        },
    }
}

/// Read a byte string.
fn read_framed<'a>(reader: &mut Reader<'a>) -> (r: Result<&'a [u8], SketchError>)
    requires
        old(reader).wf(),
    ensures
        final(reader).wf(),
        match framed_read(old(reader).rest()) {
            Ok((bytes, after)) => r is Ok && r->Ok_0@ == bytes && final(reader).rest() == after,
            Err(e) => r is Err && r->Err_0@ == e,
        },
{
    reader.lp_bytes()
}

/// Read a name.
fn read_name(reader: &mut Reader, what: &str, max_bytes: usize) -> (r: Result<String, SketchError>)
    requires
        old(reader).wf(),
    ensures
        final(reader).wf(),
        match name_read(old(reader).rest(), what@, max_bytes as nat) {
            Ok((name, after)) => r is Ok && r->Ok_0@ == name && final(reader).rest() == after,
            Err(e) => r is Err && r->Err_0@ == e,
        },
{
    match read_framed(reader) {
        Err(e) => Err(e),
        Ok(bytes) => utf8_bounded(bytes, what, max_bytes),
    }
}

fn read_entry(reader: &mut Reader) -> (r: Result<PushEntry, SketchError>)
    requires
        old(reader).wf(),
    ensures
        final(reader).wf(),
        match entry_read(old(reader).rest()) {
            Ok((entry, after)) => r is Ok && r->Ok_0@ == entry && final(reader).rest() == after,
            Err(e) => r is Err && r->Err_0@ == e,
        },
{
    proof {
        reveal(entry_read);
    }
    let query_name = match read_name(reader, "query name", MAX_QUERY_NAME_BYTES) {
        Ok(s) => s,
        Err(e) => {
            return Err(e);
        },
    };
    let component = match read_name(reader, "component", MAX_COMPONENT_NAME_BYTES) {
        Ok(s) => s,
        Err(e) => {
            return Err(e);
        },
    };
    match read_framed(reader) {
        Err(e) => Err(e),
        Ok(bytes) => Ok(PushEntry { query_name, component, snapshot: copy_bytes(bytes) }),
    }
}

impl PushBatch {
    pub fn encode(&self) -> (r: Vec<u8>)
        ensures
            r@ == batch_bytes(self@),
    {
        let ghost view = self@;
        let mut w = Writer::new();
        w.bytes(MAGIC.as_slice());
        assert(w.buf@ =~= MAGIC@);
        w.u16(BATCH_VERSION);
        w.lp_bytes(self.node.as_str().as_bytes());
        w.u32(self.entries.len() as u32);
        let ghost head = w.buf@;
        assert(head == head_bytes(view));
        let mut i: usize = 0;
        assert(view.entries.take(0) =~= Seq::<PushEntryView>::empty());
        assert(head + entries_bytes(view.entries.take(0)) =~= head);
        while i < self.entries.len()
            invariant
                i <= self.entries@.len(),
                view == self@,
                w.buf@ == head + entries_bytes(view.entries.take(i as int)),
            decreases self.entries@.len() - i,
        {
            let e = &self.entries[i];
            w.lp_bytes(e.query_name.as_str().as_bytes());
            w.lp_bytes(e.component.as_str().as_bytes());
            w.lp_bytes(e.snapshot.as_slice());
            proof {
                assert(view.entries.take(i + 1).drop_last() =~= view.entries.take(i as int));
                assert(view.entries.take(i + 1).last() == e@);
                assert(w.buf@ =~= head + entries_bytes(view.entries.take(i + 1)));
            }
            i += 1;
        }
        assert(view.entries.take(i as int) =~= view.entries);
        let checksum: u64 = hash64(w.buf.as_slice(), 0);
        w.u64(checksum);
        w.buf
    }

    pub fn decode(bytes: &[u8]) -> (r: Result<Self, SketchError>)
        ensures
            match batch_meant(bytes@) {
                Ok(b) => r is Ok && r->Ok_0@ == b,
                Err(e) => r is Err && r->Err_0@ == e,
            },
    {
        if bytes.len() < 22 {
            return Err(SketchError::Snapshot("push batch too short".to_owned()));
        }
        let n: usize = bytes.len() - 8;
        let body = slice_subrange(bytes, 0, n);
        assert(body@ =~= bytes@.take(n as int));
        let expected: u64 = get_le(bytes, n, 8);
        if hash64(body, 0) != expected {
            return Err(SketchError::Snapshot("push batch checksum mismatch".to_owned()));
        }
        let mut reader = Reader::new(body);
        let magic = match reader.take(4) {
            Ok(m) => m,
            Err(e) => {
                return Err(e);
            },
        };
        if !same_bytes(magic, MAGIC.as_slice()) {
            return Err(SketchError::Snapshot("bad magic (expected FSKB)".to_owned()));
        }
        let version: u16 = match reader.u16() {
            Ok(v) => v,
            Err(e) => {
                return Err(e);
            },
        };
        assert(reader.rest() =~= body@.skip(6));
        if version != BATCH_VERSION {
            let mut m = "unsupported push batch version ".to_owned();
            push_decimal(&mut m, version as u64);
            return Err(SketchError::Snapshot(m));
        }
        let node = match read_name(&mut reader, "node", MAX_NODE_NAME_BYTES) {
            Ok(s) => s,
            Err(e) => {
                return Err(e);
            },
        };
        let ghost after = reader.rest();
        let count: usize = match reader.u32() {
            Ok(v) => v as usize,
            Err(e) => {
                return Err(e);
            },
        };
        if count > MAX_ENTRIES {
            let mut m = "push batch declares ".to_owned();
            push_decimal(&mut m, count as u64);
            m.append(" entries (max ");
            push_decimal(&mut m, MAX_ENTRIES as u64);
            m.append(")");
            return Err(SketchError::Snapshot(m));
        }
        let mut entries: Vec<PushEntry> = Vec::new();
        let ghost whole = entries_read(after.skip(4), count as nat, Seq::empty());
        let mut i: usize = 0;
        assert(entry_views(entries@) =~= Seq::<PushEntryView>::empty());
        assert(whole == entries_read(reader.rest(), (count - i) as nat, entry_views(entries@)));
        while i < count
            invariant
                i <= count,
                reader.wf(),
                body_meant(body@) == match whole {
                    Err(e) => Err(e),
                    Ok((es, left)) => if left.len() != 0 {
                        snapshot_err("trailing bytes after push batch entries"@)
                    } else {
                        Ok(PushBatchView { node: node@, entries: es })
                    },
                },
                batch_meant(bytes@) == body_meant(body@),
                whole == entries_read(
                    reader.rest(),
                    (count - i) as nat,
                    entry_views(entries@),
                ),
            decreases count - i,
        {
            let ghost before = entries@;
            match read_entry(&mut reader) {
                Ok(e) => {
                    entries.push(e);
                    assert(entry_views(entries@) =~= entry_views(before).push(e@));
                },
                Err(e) => {
                    return Err(e);
                },
            }
            i += 1;
        }
        if reader.remaining() != 0 {
            return Err(
                SketchError::Snapshot("trailing bytes after push batch entries".to_owned()),
            );
        }
        Ok(PushBatch { node, entries })
    }
}

// ---------------------------------------------------------------------------
// Laws
// ---------------------------------------------------------------------------

/// A name that a batch can carry.
pub open spec fn carries(name: Seq<char>, max_bytes: nat) -> bool {
    &&& 0 < encode_utf8(name).len() <= max_bytes
    &&& trimmed(name).len() > 0
}

/// A batch that survives the wire.
pub open spec fn is_sendable(b: PushBatchView) -> bool {
    &&& carries(b.node, MAX_NODE_NAME_BYTES as nat)
    &&& b.entries.len() <= MAX_ENTRIES
    &&& forall|i: int| 0 <= i < b.entries.len() ==> is_sendable_entry(#[trigger] b.entries[i])
}

pub open spec fn is_sendable_entry(e: PushEntryView) -> bool {
    &&& carries(e.query_name, MAX_QUERY_NAME_BYTES as nat)
    &&& carries(e.component, MAX_COMPONENT_NAME_BYTES as nat)
    &&& e.snapshot.len() <= u32::MAX
}

proof fn lemma_framed_reads_back(s: Seq<u8>, after: Seq<u8>)
    requires
        s.len() <= u32::MAX,
    ensures
        framed_read(framed(s) + after) == Ok::<(Seq<u8>, Seq<u8>), SketchErrorView>((s, after)),
{
    let r = framed(s) + after;
    lemma_pow256_values();
    lemma_le_value_of_le(s.len(), 4);
    assert(r.take(4) =~= le(s.len(), 4));
    assert(r.subrange(4, 4 + s.len() as int) =~= s);
    assert(r.skip(4 + s.len() as int) =~= after);
}

proof fn lemma_name_reads_back(name: Seq<char>, what: Seq<char>, max_bytes: nat, after: Seq<u8>)
    requires
        carries(name, max_bytes),
        max_bytes <= u32::MAX,
    ensures
        name_read(framed(encode_utf8(name)) + after, what, max_bytes) == Ok::<
            (Seq<char>, Seq<u8>),
            SketchErrorView,
        >((name, after)),
{
    lemma_framed_reads_back(encode_utf8(name), after);
    encode_utf8_valid_utf8(name);
    encode_utf8_decode_utf8(name);
}

proof fn lemma_entry_reads_back(e: PushEntryView, after: Seq<u8>)
    requires
        is_sendable_entry(e),
    ensures
        entry_read(entry_bytes(e) + after) == Ok::<(PushEntryView, Seq<u8>), SketchErrorView>(
            (e, after),
        ),
{
    reveal(entry_read);
    let c = framed(encode_utf8(e.component));
    let s = framed(e.snapshot);
    assert(entry_bytes(e) + after =~= framed(encode_utf8(e.query_name)) + (c + (s + after)));
    lemma_name_reads_back(
        e.query_name,
        "query name"@,
        MAX_QUERY_NAME_BYTES as nat,
        c + (s + after),
    );
    lemma_name_reads_back(e.component, "component"@, MAX_COMPONENT_NAME_BYTES as nat, s + after);
    lemma_framed_reads_back(e.snapshot, after);
}

proof fn lemma_entries_front(es: Seq<PushEntryView>)
    requires
        es.len() > 0,
    ensures
        entries_bytes(es) == entry_bytes(es[0]) + entries_bytes(es.drop_first()),
    decreases es.len(),
{
    if es.len() == 1 {
        assert(es.drop_last() =~= Seq::<PushEntryView>::empty());
        assert(es.drop_first() =~= Seq::<PushEntryView>::empty());
        assert(entries_bytes(es) =~= entry_bytes(es[0]) + entries_bytes(es.drop_first()));
    } else {
        lemma_entries_front(es.drop_last());
        assert(es.drop_last()[0] == es[0]);
        assert(es.drop_last().drop_first() =~= es.drop_first().drop_last());
        assert(entries_bytes(es) =~= entry_bytes(es[0]) + entries_bytes(es.drop_first()));
    }
}

proof fn lemma_entries_read_back(es: Seq<PushEntryView>, read: Seq<PushEntryView>)
    requires
        forall|i: int| 0 <= i < es.len() ==> is_sendable_entry(#[trigger] es[i]),
    ensures
        entries_read(entries_bytes(es), es.len(), read) == Ok::<
            (Seq<PushEntryView>, Seq<u8>),
            SketchErrorView,
        >((read + es, Seq::empty())),
    decreases es.len(),
{
    if es.len() > 0 {
        lemma_entries_front(es);
        assert(is_sendable_entry(es[0]));
        lemma_entry_reads_back(es[0], entries_bytes(es.drop_first()));
        assert forall|i: int| 0 <= i < es.drop_first().len() implies is_sendable_entry(
            #[trigger] es.drop_first()[i],
        ) by {
            assert(es.drop_first()[i] == es[i + 1]);
        }
        lemma_entries_read_back(es.drop_first(), read.push(es[0]));
        assert(read.push(es[0]) + es.drop_first() =~= read + es);
    } else {
        assert(read + es =~= read);
    }
}

/// A batch that was encoded decodes to itself.
pub proof fn law_batch_round_trip(b: PushBatchView)
    requires
        is_sendable(b),
    ensures
        batch_meant(batch_bytes(b)) == Ok::<PushBatchView, SketchErrorView>(b),
{
    let body = batch_body(b);
    let bytes = batch_bytes(b);
    let sum = hash_of(body, 0) as nat;
    lemma_pow256_values();
    lemma_le_value_of_le(sum, 8);
    lemma_le_value_of_le(BATCH_VERSION as nat, 2);
    lemma_le_value_of_le(b.entries.len(), 4);
    lemma_le_len(encode_utf8(b.node).len(), 4);
    assert(bytes.take(bytes.len() - 8) =~= body);
    assert(bytes.subrange(bytes.len() - 8, bytes.len() as int) =~= le(sum, 8));
    assert(body.take(4) =~= MAGIC@);
    assert(body.subrange(4, 6) =~= le(BATCH_VERSION as nat, 2));
    let counted = le(b.entries.len(), 4) + entries_bytes(b.entries);
    assert(body.skip(6) =~= framed(encode_utf8(b.node)) + counted);
    lemma_name_reads_back(b.node, "node"@, MAX_NODE_NAME_BYTES as nat, counted);
    assert(counted.take(4) =~= le(b.entries.len(), 4));
    assert(counted.skip(4) =~= entries_bytes(b.entries));
    lemma_entries_read_back(b.entries, Seq::empty());
    assert(Seq::<PushEntryView>::empty() + b.entries =~= b.entries);
}

/// A batch whose bytes do not match their checksum is refused, whatever it
/// says.
pub proof fn law_corrupt_batch_is_refused(bytes: Seq<u8>)
    requires
        bytes.len() >= 22,
        hash_of(bytes.take(bytes.len() - 8), 0) != field_at(bytes, bytes.len() - 8, 8),
    ensures
        batch_meant(bytes) == Err::<PushBatchView, SketchErrorView>(
            SketchErrorView::Snapshot("push batch checksum mismatch"@),
        ),
{
}

/// What is taken could have been sent: no batch that is taken carries an
/// empty, blank or oversized name, or too many entries.
pub proof fn law_taken_batch_is_sendable(bytes: Seq<u8>)
    requires
        batch_meant(bytes) is Ok,
    ensures
        is_sendable(batch_meant(bytes)->Ok_0),
{
    let body = bytes.take(bytes.len() - 8);
    let start = body.skip(6);
    let (node, after) = name_read(start, "node"@, MAX_NODE_NAME_BYTES as nat)->Ok_0;
    lemma_name_read_carries(start, "node"@, MAX_NODE_NAME_BYTES as nat);
    lemma_entries_read_sendable(after.skip(4), le_value(after.take(4)), Seq::empty());
}

proof fn lemma_name_read_carries(rest: Seq<u8>, what: Seq<char>, max_bytes: nat)
    requires
        name_read(rest, what, max_bytes) is Ok,
    ensures
        carries(name_read(rest, what, max_bytes)->Ok_0.0, max_bytes),
{
    let bytes = framed_read(rest)->Ok_0.0;
    decode_utf8_encode_utf8(bytes);
}

proof fn lemma_entries_read_sendable(rest: Seq<u8>, count: nat, read: Seq<PushEntryView>)
    requires
        entries_read(rest, count, read) is Ok,
        forall|i: int| 0 <= i < read.len() ==> is_sendable_entry(#[trigger] read[i]),
    ensures
        entries_read(rest, count, read)->Ok_0.0.len() == read.len() + count,
        forall|i: int|
            0 <= i < read.len() + count ==> is_sendable_entry(
                #[trigger] entries_read(rest, count, read)->Ok_0.0[i],
            ),
    decreases count,
{
    if count > 0 {
        let (entry, after) = entry_read(rest)->Ok_0;
        lemma_entry_read_sendable(rest);
        assert forall|i: int| 0 <= i < read.push(entry).len() implies is_sendable_entry(
            #[trigger] read.push(entry)[i],
        ) by {
            if i < read.len() {
                assert(read.push(entry)[i] == read[i]);
            }
        }
        lemma_entries_read_sendable(after, (count - 1) as nat, read.push(entry));
    }
}

proof fn lemma_entry_read_sendable(rest: Seq<u8>)
    requires
        entry_read(rest) is Ok,
    ensures
        is_sendable_entry(entry_read(rest)->Ok_0.0),
{
    reveal(entry_read);
    lemma_name_read_carries(rest, "query name"@, MAX_QUERY_NAME_BYTES as nat);
    let r1 = name_read(rest, "query name"@, MAX_QUERY_NAME_BYTES as nat)->Ok_0.1;
    lemma_name_read_carries(r1, "component"@, MAX_COMPONENT_NAME_BYTES as nat);
    let r2 = name_read(r1, "component"@, MAX_COMPONENT_NAME_BYTES as nat)->Ok_0.1;
    lemma_pow256_values();
    lemma_le_of_le_value(r2.take(4));
}

/// A batch in which any single byte was changed is refused.
pub proof fn law_any_changed_batch_byte_is_refused(bytes: Seq<u8>, i: int, y: u8)
    requires
        batch_meant(bytes) is Ok,
        0 <= i < bytes.len(),
        y != bytes[i],
    ensures
        batch_meant(bytes.update(i, y)) == snapshot_err::<PushBatchView>(
            "push batch checksum mismatch"@,
        ),
{
    law_checksum_covers_every_byte(bytes, i, y);
}

proof fn lemma_framed_written_back(rest: Seq<u8>)
    requires
        framed_read(rest) is Ok,
    ensures
        rest == framed(framed_read(rest)->Ok_0.0) + framed_read(rest)->Ok_0.1,
{
    let (bytes, after) = framed_read(rest)->Ok_0;
    lemma_pow256_values();
    lemma_le_of_le_value(rest.take(4));
    assert(rest =~= rest.take(4) + bytes + after);
}

proof fn lemma_name_written_back(rest: Seq<u8>, what: Seq<char>, max_bytes: nat)
    requires
        name_read(rest, what, max_bytes) is Ok,
    ensures
        ({
            let (name, after) = name_read(rest, what, max_bytes)->Ok_0;
            rest == framed(encode_utf8(name)) + after
        }),
{
    lemma_framed_written_back(rest);
    decode_utf8_encode_utf8(framed_read(rest)->Ok_0.0);
}

proof fn lemma_entry_written_back(rest: Seq<u8>)
    requires
        entry_read(rest) is Ok,
    ensures
        rest == entry_bytes(entry_read(rest)->Ok_0.0) + entry_read(rest)->Ok_0.1,
{
    reveal(entry_read);
    let (query_name, r1) = name_read(rest, "query name"@, MAX_QUERY_NAME_BYTES as nat)->Ok_0;
    let (component, r2) = name_read(r1, "component"@, MAX_COMPONENT_NAME_BYTES as nat)->Ok_0;
    let (snapshot, r3) = framed_read(r2)->Ok_0;
    lemma_name_written_back(rest, "query name"@, MAX_QUERY_NAME_BYTES as nat);
    lemma_name_written_back(r1, "component"@, MAX_COMPONENT_NAME_BYTES as nat);
    lemma_framed_written_back(r2);
    assert(rest =~= framed(encode_utf8(query_name)) + framed(encode_utf8(component)) + framed(
        snapshot,
    ) + r3);
}

proof fn lemma_entries_written_back(rest: Seq<u8>, count: nat, read: Seq<PushEntryView>)
    requires
        entries_read(rest, count, read) is Ok,
    ensures
        ({
            let (entries, left) = entries_read(rest, count, read)->Ok_0;
            &&& entries.len() == read.len() + count
            &&& entries_bytes(read) + rest == entries_bytes(entries) + left
        }),
    decreases count,
{
    if count > 0 {
        let (entry, after) = entry_read(rest)->Ok_0;
        lemma_entry_written_back(rest);
        lemma_entries_written_back(after, (count - 1) as nat, read.push(entry));
        assert(read.push(entry).drop_last() =~= read);
        assert(entries_bytes(read) + (entry_bytes(entry) + after) =~= entries_bytes(read)
            + entry_bytes(entry) + after);
    }
}

proof fn lemma_four_parts(a: Seq<u8>, b: Seq<u8>, c: Seq<u8>, d: Seq<u8>, e: Seq<u8>)
    ensures
        a + b + (c + (d + e)) == a + b + c + d + e,
{
    assert(a + b + (c + (d + e)) =~= a + b + c + d + e);
}

#[verifier::spinoff_prover]
proof fn lemma_body_written_back(body: Seq<u8>)
    requires
        body.len() >= 14,
        body_meant(body) is Ok,
    ensures
        batch_body(body_meant(body)->Ok_0) == body,
{
    let b = body_meant(body)->Ok_0;
    let start = body.skip(6);
    let (node, after) = name_read(start, "node"@, MAX_NODE_NAME_BYTES as nat)->Ok_0;
    let count = le_value(after.take(4));
    let rest = after.skip(4);
    lemma_pow256_values();
    lemma_le_of_le_value(body.subrange(4, 6));
    lemma_le_of_le_value(after.take(4));
    lemma_name_written_back(start, "node"@, MAX_NODE_NAME_BYTES as nat);
    lemma_entries_written_back(rest, count, Seq::empty());
    let left = entries_read(rest, count, Seq::empty())->Ok_0.1;
    assert(entries_bytes(Seq::<PushEntryView>::empty()) + rest =~= rest);
    assert(entries_bytes(b.entries) + left =~= entries_bytes(b.entries));
    assert(after =~= after.take(4) + rest);
    assert(body =~= body.take(4) + body.subrange(4, 6) + start);
    lemma_four_parts(
        body.take(4),
        body.subrange(4, 6),
        framed(encode_utf8(node)),
        after.take(4),
        rest,
    );
}

/// A batch that is taken encodes back to the bytes it was read from.
pub proof fn law_taken_batch_encodes_back(bytes: Seq<u8>)
    requires
        batch_meant(bytes) is Ok,
    ensures
        batch_bytes(batch_meant(bytes)->Ok_0) == bytes,
{
    let n = bytes.len() - 8;
    lemma_le_of_le_value(bytes.subrange(n, n + 8));
    lemma_body_written_back(bytes.take(n));
    assert(bytes =~= bytes.take(n) + bytes.subrange(n, n + 8));
}

} // verus!
