//! The ring of packet blocks that a packet socket shares with the kernel.
//!
//! A block begins with a descriptor and holds packets, each behind a header
//! that says where its bytes are and how far the next header is. All numbers
//! are in the byte order of the machine.

use vstd::prelude::*;
use vstd::string::*;

use crate::agent::error::AgentError;
use crate::bytes::{lemma_be_bound, lemma_le_of_le_value, lemma_pow256_values};
use crate::ebpf::record::{get_ordered, ordered_value};
use crate::text::{dec, push_decimal};

verus! {

/// Bytes of a frame.
pub const FRAME_SIZE_BYTES: u32 = 2_048;

/// The block format that is asked for.
pub const BLOCK_VERSION: u32 = 2;

/// Bytes of the descriptor of a block.
pub const BLOCK_DESCRIPTOR_BYTES: usize = 48;

/// Bytes of the header of a packet.
pub const PACKET_HEADER_BYTES: usize = 48;

// ---------------------------------------------------------------------------
// The size of a ring
// ---------------------------------------------------------------------------

/// How a ring is made.
#[derive(Debug, Clone, Copy, PartialEq, Eq, Structural)]
pub struct RingSettings {
    pub block_size_bytes: u32,
    pub block_count: u32,
    pub retire_timeout_ms: u32,
}

/// How large a ring is.
#[derive(Debug, Clone, Copy, PartialEq, Eq, Structural)]
pub struct RingShape {
    pub ring_bytes: usize,
    pub frame_count: u32,
}

/// What is wrong with a ring on a machine with pages of `page_size` bytes.
pub open spec fn shape_fault(s: RingSettings, page_size: i64) -> Option<Seq<char>> {
    let bytes = s.block_size_bytes as nat * s.block_count as nat;
    if page_size <= 0 || s.block_size_bytes as int % page_size as int != 0 {
        Some(
            "AF_PACKET ring block size "@ + dec(s.block_size_bytes as nat)
                + " is not a multiple of host page size "@ + signed(page_size),
        )
    } else if bytes > usize::MAX {
        Some("AF_PACKET ring size overflows usize"@)
    } else if bytes / FRAME_SIZE_BYTES as nat > u32::MAX {
        Some("AF_PACKET frame count overflows u32"@)
    } else {
        None
    }
}

/// A number with its sign in decimal.
pub open spec fn signed(n: i64) -> Seq<char> {
    if n < 0 {
        "-"@ + dec((-n) as nat)
    } else {
        dec(n as nat)
    }
}

fn push_signed(out: &mut String, n: i64)
    ensures
        final(out)@ == old(out)@ + signed(n),
{
    let ghost before = out@;
    if n < 0 {
        out.append("-");
        let magnitude: u64 = if n == i64::MIN {
            9_223_372_036_854_775_808
        } else {
            (-n) as u64
        };
        push_decimal(out, magnitude);
        assert(out@ =~= before + signed(n));
    } else {
        push_decimal(out, n as u64);
    }
}

impl RingSettings {
    /// The size of the ring, if it can be made.
    pub fn shape(self, page_size: i64) -> (r: Result<RingShape, AgentError>)
        ensures
            match shape_fault(self, page_size) {
                Some(m) => r matches Err(AgentError::Source(s)) && s@ == m,
                None => {
                    &&& r is Ok
                    &&& r->Ok_0.ring_bytes == self.block_size_bytes as nat * self.block_count as nat
                    &&& r->Ok_0.frame_count == self.block_size_bytes as nat
                        * self.block_count as nat / FRAME_SIZE_BYTES as nat
                },
            },
    {
        if page_size <= 0 || self.block_size_bytes as u64 % page_size as u64 != 0 {
            let mut m = "AF_PACKET ring block size ".to_owned();
            push_decimal(&mut m, self.block_size_bytes as u64);
            m.append(" is not a multiple of host page size ");
            push_signed(&mut m, page_size);
            return Err(AgentError::Source(m));
        }
        proof {
            assert(self.block_size_bytes as nat * self.block_count as nat <= 0xffff_ffff
                * 0xffff_ffff) by (nonlinear_arith)
                requires
                    self.block_size_bytes <= 0xffff_ffff,
                    self.block_count <= 0xffff_ffff,
            ;
        }
        let bytes: u64 = self.block_size_bytes as u64 * self.block_count as u64;
        if bytes > usize::MAX as u64 {
            return Err(AgentError::Source("AF_PACKET ring size overflows usize".to_owned()));
        }
        let frames: u64 = bytes / FRAME_SIZE_BYTES as u64;
        if frames > u32::MAX as u64 {
            return Err(AgentError::Source("AF_PACKET frame count overflows u32".to_owned()));
        }
        Ok(RingShape { ring_bytes: bytes as usize, frame_count: frames as u32 })
    }
}

/// The block after `current` in a ring of `count`.
pub fn next_block(current: usize, count: usize) -> (r: usize)
    requires
        current < count,
    ensures
        r == (current + 1) % count as int,
        r < count,
{
    if current + 1 == count {
        proof {
            vstd::arithmetic::div_mod::lemma_mod_self_0(count as int);
        }
        0
    } else {
        proof {
            vstd::arithmetic::div_mod::lemma_small_mod((current + 1) as nat, count as nat);
        }
        current + 1
    }
}

// ---------------------------------------------------------------------------
// The packets of a block
// ---------------------------------------------------------------------------

/// What is wrong with a block.
#[derive(Debug, Clone, Copy, PartialEq, Eq, Structural)]
pub enum BlockFault {
    Version(u32),
    Bounds,
    TruncatedHeader,
    SnapshotLength,
    DataOffset,
    TruncatedPacket,
    Nanoseconds,
    NextOffset,
    OffsetOverflow,
}

impl BlockFault {
    /// The message shown to people.
    pub open spec fn text(self) -> Seq<char> {
        match self {
            BlockFault::Version(v) => "unexpected packet-ring block version "@ + dec(v as nat),
            BlockFault::Bounds => "invalid TPACKET_V3 block bounds"@,
            BlockFault::TruncatedHeader => "truncated TPACKET_V3 header"@,
            BlockFault::SnapshotLength => "TPACKET_V3 snapshot length exceeds packet length"@,
            BlockFault::DataOffset => "invalid TPACKET_V3 data offset"@,
            BlockFault::TruncatedPacket => "truncated TPACKET_V3 packet"@,
            BlockFault::Nanoseconds => "invalid TPACKET_V3 nanosecond timestamp"@,
            BlockFault::NextOffset => "invalid TPACKET_V3 next-packet offset"@,
            BlockFault::OffsetOverflow => "TPACKET_V3 offset overflow"@,
        }
    }

    pub fn to_string(&self) -> (r: String)
        ensures
            r@ == self.text(),
    {
        match self {
            BlockFault::Version(v) => {
                let mut out = "unexpected packet-ring block version ".to_owned();
                push_decimal(&mut out, *v as u64);
                out
            },
            BlockFault::Bounds => "invalid TPACKET_V3 block bounds".to_owned(),
            BlockFault::TruncatedHeader => "truncated TPACKET_V3 header".to_owned(),
            BlockFault::SnapshotLength =>
                "TPACKET_V3 snapshot length exceeds packet length".to_owned(),
            BlockFault::DataOffset => "invalid TPACKET_V3 data offset".to_owned(),
            BlockFault::TruncatedPacket => "truncated TPACKET_V3 packet".to_owned(),
            BlockFault::Nanoseconds => "invalid TPACKET_V3 nanosecond timestamp".to_owned(),
            BlockFault::NextOffset => "invalid TPACKET_V3 next-packet offset".to_owned(),
            BlockFault::OffsetOverflow => "TPACKET_V3 offset overflow".to_owned(),
        }
    }
}

/// A place in a block: how many packets are left and where the next one is.
#[derive(Debug, Clone, Copy, PartialEq, Eq, Structural)]
pub struct BlockCursor {
    /// Bytes of the block that are in use.
    pub len: usize,
    /// Packets that have not been visited.
    pub remaining: u32,
    /// Header of the packet visited last, or of the first one.
    pub offset: usize,
    /// How far the next header is, once a packet has been visited.
    pub distance: Option<u32>,
}

/// A packet in a block.
#[derive(Debug, Clone, Copy, PartialEq, Eq, Structural)]
pub struct PacketPlace {
    /// Where its bytes start.
    pub start: usize,
    /// Where its bytes end.
    pub end: usize,
    /// Bytes that it had on the wire.
    pub wire_len: u32,
    pub timestamp_nanos: u64,
}

/// The number of four bytes at `at`.
pub open spec fn word_at(block: Seq<u8>, at: int, little: bool) -> nat {
    ordered_value(block.subrange(at, at + 4), little)
}

/// The number of two bytes at `at`.
pub open spec fn half_at(block: Seq<u8>, at: int, little: bool) -> nat {
    ordered_value(block.subrange(at, at + 2), little)
}

/// Where a block starts to be read.
pub open spec fn opened(block: Seq<u8>, little: bool) -> Result<BlockCursor, BlockFault> {
    if block.len() < BLOCK_DESCRIPTOR_BYTES {
        Err(BlockFault::Bounds)
    } else if word_at(block, 0, little) != BLOCK_VERSION {
        Err(BlockFault::Version(word_at(block, 0, little) as u32))
    } else {
        let packets = word_at(block, 12, little);
        let first = word_at(block, 16, little);
        let len = word_at(block, 20, little);
        if len < BLOCK_DESCRIPTOR_BYTES || len > block.len() || first > len || packets > len
            / PACKET_HEADER_BYTES as nat {
            Err(BlockFault::Bounds)
        } else {
            Ok(
                BlockCursor {
                    len: len as usize,
                    remaining: packets as u32,
                    offset: first as usize,
                    distance: None,
                },
            )
        }
    }
}

/// Whether a cursor lies in a block.
pub open spec fn lies_in(c: BlockCursor, block: Seq<u8>) -> bool {
    c.offset <= c.len <= block.len()
}

/// The packet whose header is at `at`.
pub open spec fn packet_at(block: Seq<u8>, len: nat, at: int, little: bool) -> Result<
    PacketPlace,
    BlockFault,
> {
    let snapshot = word_at(block, at + 12, little);
    let wire = word_at(block, at + 16, little);
    let start = at + half_at(block, at + 24, little);
    let end = start + snapshot;
    let nanos = word_at(block, at + 8, little);
    if at + PACKET_HEADER_BYTES > len {
        Err(BlockFault::TruncatedHeader)
    } else if snapshot > wire {
        Err(BlockFault::SnapshotLength)
    } else if start < at + PACKET_HEADER_BYTES || start > len {
        Err(BlockFault::DataOffset)
    } else if end > len {
        Err(BlockFault::TruncatedPacket)
    } else if nanos >= 1_000_000_000 {
        Err(BlockFault::Nanoseconds)
    } else {
        Ok(
            PacketPlace {
                start: start as usize,
                end: end as usize,
                wire_len: wire as u32,
                timestamp_nanos: (word_at(block, at + 4, little) * 1_000_000_000 + nanos) as u64,
            },
        )
    }
}

/// The next packet of a block and the place behind it, if one is left.
pub open spec fn advanced(c: BlockCursor, block: Seq<u8>, little: bool) -> Result<
    Option<(PacketPlace, BlockCursor)>,
    BlockFault,
> {
    let at = match c.distance {
        None => c.offset as int,
        Some(n) => c.offset + n,
    };
    if c.remaining == 0 {
        Ok(None)
    } else if c.distance is Some && c.distance->0 < PACKET_HEADER_BYTES {
        Err(BlockFault::NextOffset)
    } else if at > usize::MAX {
        Err(BlockFault::OffsetOverflow)
    } else {
        match packet_at(block, c.len as nat, at, little) {
            Err(e) => Err(e),
            Ok(p) => Ok(
                Some(
                    (
                        p,
                        BlockCursor {
                            len: c.len,
                            remaining: (c.remaining - 1) as u32,
                            offset: at as usize,
                            distance: Some(word_at(block, at, little) as u32),
                        },
                    ),
                ),
            ),
        }
    }
}

fn read_word(block: &[u8], at: usize, little: bool) -> (r: u32)
    requires
        at + 4 <= block@.len(),
    ensures
        r == word_at(block@, at as int, little),
{
    proof {
        lemma_pow256_values();
    }
    get_ordered(block, at, 4, little) as u32
}

fn read_half(block: &[u8], at: usize, little: bool) -> (r: u16)
    requires
        at + 2 <= block@.len(),
    ensures
        r == half_at(block@, at as int, little),
{
    proof {
        lemma_pow256_values();
    }
    get_ordered(block, at, 2, little) as u16
}

impl BlockCursor {
    /// Start reading a block that the kernel has handed over.
    pub fn open(block: &[u8], little: bool) -> (r: Result<Self, BlockFault>)
        ensures
            r == opened(block@, little),
            r is Ok ==> lies_in(r->Ok_0, block@),
    {
        if block.len() < BLOCK_DESCRIPTOR_BYTES {
            return Err(BlockFault::Bounds);
        }
        let version: u32 = read_word(block, 0, little);
        if version != BLOCK_VERSION {
            return Err(BlockFault::Version(version));
        }
        let packets: u32 = read_word(block, 12, little);
        let first: u32 = read_word(block, 16, little);
        let len: u32 = read_word(block, 20, little);
        if (len as usize) < BLOCK_DESCRIPTOR_BYTES || len as usize > block.len() || first > len
            || packets > len / PACKET_HEADER_BYTES as u32 {
            return Err(BlockFault::Bounds);
        }
        Ok(
            BlockCursor {
                len: len as usize,
                remaining: packets,
                offset: first as usize,
                distance: None,
            },
        )
    }

    /// Go to the next packet. Every place handed out lies wholly in the block.
    pub fn next_packet(self, block: &[u8], little: bool) -> (r: Result<
        Option<(PacketPlace, BlockCursor)>,
        BlockFault,
    >)
        requires
            lies_in(self, block@),
        ensures
            r == advanced(self, block@, little),
            r matches Ok(Some((p, c))) ==> p.start <= p.end <= block@.len() && lies_in(c, block@),
    {
        if self.remaining == 0 {
            return Ok(None);
        }
        let at: usize = match self.distance {
            None => self.offset,
            Some(n) => {
                if (n as usize) < PACKET_HEADER_BYTES {
                    return Err(BlockFault::NextOffset);
                }
                if n as usize > usize::MAX - self.offset {
                    return Err(BlockFault::OffsetOverflow);
                }
                self.offset + n as usize
            },
        };
        if at > self.len || self.len - at < PACKET_HEADER_BYTES {
            return Err(BlockFault::TruncatedHeader);
        }
        let snapshot: u32 = read_word(block, at + 12, little);
        let wire_len: u32 = read_word(block, at + 16, little);
        if snapshot > wire_len {
            return Err(BlockFault::SnapshotLength);
        }
        let data_offset: usize = read_half(block, at + 24, little) as usize;
        if data_offset < PACKET_HEADER_BYTES || data_offset > self.len - at {
            return Err(BlockFault::DataOffset);
        }
        let start: usize = at + data_offset;
        if snapshot as usize > self.len - start {
            return Err(BlockFault::TruncatedPacket);
        }
        let end: usize = start + snapshot as usize;
        let nanos: u32 = read_word(block, at + 8, little);
        if nanos >= 1_000_000_000 {
            return Err(BlockFault::Nanoseconds);
        }
        let seconds: u32 = read_word(block, at + 4, little);
        let timestamp_nanos: u64 = seconds as u64 * 1_000_000_000 + nanos as u64;
        let distance: u32 = read_word(block, at, little);
        Ok(
            Some(
                (
                    PacketPlace { start, end, wire_len, timestamp_nanos },
                    BlockCursor {
                        len: self.len,
                        remaining: self.remaining - 1,
                        offset: at,
                        distance: Some(distance),
                    },
                ),
            ),
        )
    }
}

// ---------------------------------------------------------------------------
// Laws
// ---------------------------------------------------------------------------

/// Whatever a block holds, no packet reaches out of it, none is longer than it
/// was on the wire, and reading comes to an end.
pub proof fn law_packets_lie_in_their_block(c: BlockCursor, block: Seq<u8>, little: bool)
    requires
        lies_in(c, block),
        block.len() <= usize::MAX,
    ensures
        advanced(c, block, little) matches Ok(Some((p, next))) ==> {
            &&& c.offset + PACKET_HEADER_BYTES <= p.start <= p.end <= c.len <= block.len()
            &&& p.end - p.start <= p.wire_len
            &&& next.remaining == c.remaining - 1
            &&& next.len == c.len
            &&& c.distance is Some ==> next.offset >= c.offset + PACKET_HEADER_BYTES
        },
{
    let at = match c.distance {
        None => c.offset as int,
        Some(n) => c.offset + n,
    };
    if advanced(c, block, little) matches Ok(Some(_)) {
        assert(packet_at(block, c.len as nat, at, little) is Ok);
        lemma_word_fits(block, at + 16, little);
        lemma_half_fits(block, at + 24, little);
        lemma_word_fits(block, at + 12, little);
    }
}

proof fn lemma_word_fits(block: Seq<u8>, at: int, little: bool)
    requires
        0 <= at,
        at + 4 <= block.len(),
    ensures
        word_at(block, at, little) < 0x1_0000_0000,
{
    lemma_le_of_le_value(block.subrange(at, at + 4));
    lemma_be_bound(block.subrange(at, at + 4));
    lemma_pow256_values();
}

proof fn lemma_half_fits(block: Seq<u8>, at: int, little: bool)
    requires
        0 <= at,
        at + 2 <= block.len(),
    ensures
        half_at(block, at, little) < 0x1_0000,
{
    lemma_le_of_le_value(block.subrange(at, at + 2));
    lemma_be_bound(block.subrange(at, at + 2));
    lemma_pow256_values();
}

} // verus!
