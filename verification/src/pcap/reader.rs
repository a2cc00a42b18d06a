//! Reading capture files, of either byte order and with timestamps in
//! microseconds or nanoseconds.

use vstd::prelude::*;
use vstd::slice::slice_subrange;
use vstd::string::*;

use crate::bytes::{be_value, copy_bytes, get_be, get_le, le_value, lemma_pow256_values};
use crate::event::{Direction, FlowEvent};
use crate::ip::hex_char;
use crate::pcap::parse::{captured_event, parse_packet_with_wire_len};

verus! {

/// Files with timestamps in microseconds begin with this number.
pub const MAGIC_USEC: u32 = 0xA1B2_C3D4;

/// Files with timestamps in nanoseconds begin with this number.
pub const MAGIC_NSEC: u32 = 0xA1B2_3C4D;

/// Length of the header of a file.
pub const FILE_HEADER_LEN: usize = 24;

/// Length of the header of a record.
pub const RECORD_HEADER_LEN: usize = 16;

/// Longest capture of one packet that is believed.
pub const MAX_CAPTURE_LEN: usize = 262_144;

/// Why a capture file cannot be read.
#[derive(Debug)]
pub enum PcapError {
    /// The file could not be read.
    Io(String),
    /// The file does not begin as a capture file does.
    BadMagic(u32),
    /// A record claims more than can be.
    Truncated,
    /// A timestamp has a full second or more behind the point.
    InvalidTimestamp,
}

/// The content of a [`PcapError`].
pub ghost enum PcapErrorView {
    Io(Seq<char>),
    BadMagic(u32),
    Truncated,
    InvalidTimestamp,
}

impl View for PcapError {
    type V = PcapErrorView;

    open spec fn view(&self) -> PcapErrorView {
        match self {
            PcapError::Io(m) => PcapErrorView::Io(m@),
            PcapError::BadMagic(m) => PcapErrorView::BadMagic(*m),
            PcapError::Truncated => PcapErrorView::Truncated,
            PcapError::InvalidTimestamp => PcapErrorView::InvalidTimestamp,
        }
    }
}

/// The `n` low hexadecimal digits of a number.
pub open spec fn hex_digits(v: nat, n: nat) -> Seq<char>
    decreases n,
{
    if n == 0 {
        Seq::empty()
    } else {
        hex_digits(v / 16, (n - 1) as nat).push(hex_char(v % 16))
    }
}

fn push_hex_digits(out: &mut String, v: u32, n: usize)
    ensures
        final(out)@ == old(out)@ + hex_digits(v as nat, n as nat),
    decreases n,
{
    if n > 0 {
        push_hex_digits(out, v / 16, n - 1);
        let d: u8 = (v % 16) as u8;
        let c: char = if d < 10 {
            (48 + d) as char
        } else {
            (87 + d) as char
        };
        out.push(c);
    }
    assert(out@ =~= old(out)@ + hex_digits(v as nat, n as nat));
}

impl PcapErrorView {
    /// The message shown to people.
    pub open spec fn message(self) -> Seq<char> {
        match self {
            PcapErrorView::Io(m) => "io error: "@ + m,
            PcapErrorView::BadMagic(m) => "not a pcap file (bad magic 0x"@ + hex_digits(m as nat, 8)
                + "); pcapng is not supported yet"@,
            PcapErrorView::Truncated => "truncated pcap record"@,
            PcapErrorView::InvalidTimestamp => "pcap record has an out-of-range sub-second timestamp"@,
        }
    }
}

impl PcapError {
    pub fn to_string(&self) -> (r: String)
        ensures
            r@ == self@.message(),
    {
        match self {
            PcapError::Io(m) => {
                let mut out = "io error: ".to_owned();
                out.append(m.as_str());
                out
            },
            PcapError::BadMagic(m) => {
                let mut out = "not a pcap file (bad magic 0x".to_owned();
                push_hex_digits(&mut out, *m, 8);
                out.append("); pcapng is not supported yet");
                out
            },
            PcapError::Truncated => "truncated pcap record".to_owned(),
            PcapError::InvalidTimestamp => "pcap record has an out-of-range sub-second timestamp".to_owned(),
        }
    }
}

/// How a file writes its numbers.
#[derive(Debug, Clone, Copy, PartialEq, Eq, Structural)]
pub struct Format {
    /// Most significant byte first.
    pub swapped: bool,
    /// Nanoseconds in one unit of the sub-second field.
    pub subsec_to_nanos: u64,
    pub linktype: u32,
}

/// The four bytes at `i` as a number.
pub open spec fn word_at(s: Seq<u8>, i: int, swapped: bool) -> nat {
    if swapped {
        be_value(s.subrange(i, i + 4))
    } else {
        le_value(s.subrange(i, i + 4))
    }
}

/// The format that a file header declares.
pub open spec fn format_of(bytes: Seq<u8>) -> Result<Format, PcapErrorView> {
    let low_first = word_at(bytes, 0, false);
    let high_first = word_at(bytes, 0, true);
    if bytes.len() < FILE_HEADER_LEN {
        Err(PcapErrorView::Io("failed to fill whole buffer"@))
    } else if low_first == MAGIC_USEC || low_first == MAGIC_NSEC {
        Ok(
            Format {
                swapped: false,
                subsec_to_nanos: if low_first == MAGIC_USEC {
                    1_000
                } else {
                    1
                },
                linktype: word_at(bytes, 20, false) as u32,
            },
        )
    } else if high_first == MAGIC_USEC || high_first == MAGIC_NSEC {
        Ok(
            Format {
                swapped: true,
                subsec_to_nanos: if high_first == MAGIC_USEC {
                    1_000
                } else {
                    1
                },
                linktype: word_at(bytes, 20, true) as u32,
            },
        )
    } else {
        Err(PcapErrorView::BadMagic(low_first as u32))
    }
}

/// What stands at a place of a file.
pub ghost enum Found {
    /// No further record.
    End,
    /// A record that is refused, and where reading would go on.
    Fault(PcapErrorView, int),
    /// A packet: timestamp, length on the wire, and the captured bytes from
    /// one place to another.
    Packet { ts_nanos: nat, wire_len: nat, from: int, to: int },
}

/// What stands at `pos` of a file.
pub open spec fn found_at(bytes: Seq<u8>, pos: int, f: Format) -> Found {
    let seconds = word_at(bytes, pos, f.swapped);
    let subsec = word_at(bytes, pos + 4, f.swapped);
    let caplen = word_at(bytes, pos + 8, f.swapped);
    let wire_len = word_at(bytes, pos + 12, f.swapped);
    if bytes.len() - pos < RECORD_HEADER_LEN {
        Found::End
    } else if caplen > MAX_CAPTURE_LEN || wire_len < caplen {
        Found::Fault(PcapErrorView::Truncated, pos + 16)
    } else if subsec >= 1_000_000_000nat / f.subsec_to_nanos as nat {
        Found::Fault(PcapErrorView::InvalidTimestamp, pos + 16)
    } else if bytes.len() - pos - 16 < caplen {
        Found::Fault(PcapErrorView::Truncated, bytes.len() as int)
    } else {
        Found::Packet {
            ts_nanos: seconds * 1_000_000_000 + subsec * f.subsec_to_nanos as nat,
            wire_len,
            from: pos + 16,
            to: pos + 16 + caplen,
        }
    }
}

/// The event of a packet in a file.
pub open spec fn event_of(f: Format, data: Seq<u8>, ts_nanos: nat, wire_len: nat) -> Option<FlowEvent> {
    match captured_event(f.linktype, data, wire_len as int) {
        None => None,
        Some(e) => Some(
            FlowEvent {
                ts_nanos: ts_nanos as u64,
                bytes: if e.bytes == 0 {
                    wire_len as u32
                } else {
                    e.bytes
                },
                direction: Direction::Unknown,
                ..e
            },
        ),
    }
}

/// What a search for the next event comes to.
pub ghost struct Search {
    pub outcome: Result<Option<FlowEvent>, PcapErrorView>,
    /// Where reading goes on.
    pub pos: int,
    /// Packets passed, the one with the event included.
    pub packets: nat,
}

/// The next event from `pos` on: packets that give none are passed over.
pub open spec fn search(bytes: Seq<u8>, pos: int, f: Format) -> Search
    decreases bytes.len() - pos,
{
    match found_at(bytes, pos, f) {
        Found::End => Search { outcome: Ok(None), pos, packets: 0 },
        Found::Fault(e, next) => Search { outcome: Err(e), pos: next, packets: 0 },
        Found::Packet { ts_nanos, wire_len, from, to } => match event_of(
            f,
            bytes.subrange(from, to),
            ts_nanos,
            wire_len,
        ) {
            Some(e) => Search { outcome: Ok(Some(e)), pos: to, packets: 1 },
            None => if to > pos && to <= bytes.len() {
                let rest = search(bytes, to, f);
                Search { packets: rest.packets + 1, ..rest }
            } else {
                Search { outcome: Ok(None), pos, packets: 0 }
            },
        },
    }
}

/// How many packets a file holds from `pos` on; none if a record is refused.
pub open spec fn packets_from(bytes: Seq<u8>, pos: int, f: Format) -> Option<nat>
    decreases bytes.len() - pos,
{
    match found_at(bytes, pos, f) {
        Found::End => Some(0),
        Found::Fault(_, _) => None,
        Found::Packet { to, .. } => if pos < to <= bytes.len() {
            match packets_from(bytes, to, f) {
                Some(n) => Some(n + 1),
                None => None,
            }
        } else {
            None
        },
    }
}

/// A capture file that is read from the start to the end.
#[derive(Debug)]
pub struct PcapReader {
    bytes: Vec<u8>,
    pos: usize,
    format: Format,
    packets_read: u64,
}

fn read_word(bytes: &[u8], i: usize, swapped: bool) -> (r: u32)
    requires
        i + 4 <= bytes.len(),
    ensures
        r == word_at(bytes@, i as int, swapped),
{
    proof {
        lemma_pow256_values();
    }
    if swapped {
        get_be(bytes, i, 4) as u32
    } else {
        get_le(bytes, i, 4) as u32
    }
}

impl PcapReader {
    /// The file.
    pub closed spec fn content(&self) -> Seq<u8> {
        self.bytes@
    }

    /// Where reading goes on.
    pub closed spec fn at(&self) -> int {
        self.pos as int
    }

    pub closed spec fn declared(&self) -> Format {
        self.format
    }

    /// Packets read so far.
    pub closed spec fn count(&self) -> nat {
        self.packets_read as nat
    }

    pub open spec fn wf(&self) -> bool {
        &&& FILE_HEADER_LEN <= self.at() <= self.content().len() <= usize::MAX
        &&& self.declared().subsec_to_nanos == 1 || self.declared().subsec_to_nanos == 1_000
        &&& self.count() * 16 <= self.at()
    }

    /// How many packets are still to come; none if one of them is refused.
    pub open spec fn to_come(&self) -> Option<nat> {
        packets_from(self.content(), self.at(), self.declared())
    }

    /// Nothing but the place and the count has changed.
    pub open spec fn moved(&self, before: &Self, pos: int, packets: nat) -> bool {
        &&& self.wf()
        &&& self.content() == before.content()
        &&& self.declared() == before.declared()
        &&& self.at() == pos
        &&& self.count() == before.count() + packets
    }

    /// Start to read a file.
    pub fn new(bytes: Vec<u8>) -> (r: Result<Self, PcapError>)
        ensures
            match format_of(bytes@) {
                Ok(f) => {
                    &&& r is Ok
                    &&& r->Ok_0.wf()
                    &&& r->Ok_0.content() == bytes@
                    &&& r->Ok_0.declared() == f
                    &&& r->Ok_0.at() == FILE_HEADER_LEN
                    &&& r->Ok_0.count() == 0
                },
                Err(e) => r is Err && r->Err_0@ == e,
            },
    {
        if bytes.len() < FILE_HEADER_LEN {
            return Err(PcapError::Io("failed to fill whole buffer".to_owned()));
        }
        let low_first: u32 = read_word(&bytes, 0, false);
        let high_first: u32 = read_word(&bytes, 0, true);
        let (swapped, subsec_to_nanos): (bool, u64) = if low_first == MAGIC_USEC {
            (false, 1_000)
        } else if low_first == MAGIC_NSEC {
            (false, 1)
        } else if high_first == MAGIC_USEC {
            (true, 1_000)
        } else if high_first == MAGIC_NSEC {
            (true, 1)
        } else {
            return Err(PcapError::BadMagic(low_first));
        };
        let linktype: u32 = read_word(&bytes, 20, swapped);
        Ok(
            PcapReader {
                bytes,
                pos: FILE_HEADER_LEN,
                format: Format { swapped, subsec_to_nanos, linktype },
                packets_read: 0,
            },
        )
    }

    pub fn linktype(&self) -> (r: u32)
        ensures
            r == self.declared().linktype,
    {
        self.format.linktype
    }

    pub fn packets_read(&self) -> (r: u64)
        ensures
            r == self.count(),
    {
        self.packets_read
    }

    /// Next packet as `(ts_nanos, wire_len, captured_bytes)`, or `None` at the
    /// end of the file.
    pub fn next_packet(&mut self) -> (r: Result<Option<(u64, u32, Vec<u8>)>, PcapError>)
        requires
            old(self).wf(),
        ensures
            match found_at(old(self).content(), old(self).at(), old(self).declared()) {
                Found::End => {
                    &&& r matches Ok(None)
                    &&& final(self).moved(old(self), old(self).at(), 0)
                },
                Found::Fault(e, next) => {
                    &&& r is Err && r->Err_0@ == e
                    &&& final(self).moved(old(self), next, 0)
                },
                Found::Packet { ts_nanos, wire_len, from, to } => {
                    &&& r matches Ok(Some(p))
                    &&& p.0 == ts_nanos
                    &&& p.1 == wire_len
                    &&& p.2@ == old(self).content().subrange(from, to)
                    &&& final(self).moved(old(self), to, 1)
                },
            },
            old(self).to_come() matches Some(n) ==> {
                &&& r matches Ok(next) && (next is Some <==> n > 0)
                &&& final(self).to_come() == Some(
                    if n > 0 {
                        (n - 1) as nat
                    } else {
                        0
                    },
                )
            },
    {
        let mut data: Vec<u8> = Vec::new();
        match self.next_packet_into(&mut data) {
            Ok(Some((ts_nanos, wire_len))) => Ok(Some((ts_nanos, wire_len, data))),
            Ok(None) => Ok(None),
            Err(e) => Err(e),
        }
    }

    /// Next packet as `(ts_nanos, wire_len)`, with the captured bytes in the
    /// caller's buffer, or `None` at the end of the file.
    pub fn next_packet_into(&mut self, data: &mut Vec<u8>) -> (r: Result<
        Option<(u64, u32)>,
        PcapError,
    >)
        requires
            old(self).wf(),
        ensures
            match found_at(old(self).content(), old(self).at(), old(self).declared()) {
                Found::End => {
                    &&& r matches Ok(None)
                    &&& final(data)@ == old(data)@
                    &&& final(self).moved(old(self), old(self).at(), 0)
                },
                Found::Fault(e, next) => {
                    &&& r is Err && r->Err_0@ == e
                    &&& final(self).moved(old(self), next, 0)
                },
                Found::Packet { ts_nanos, wire_len, from, to } => {
                    &&& r matches Ok(Some(p))
                    &&& p.0 == ts_nanos
                    &&& p.1 == wire_len
                    &&& final(data)@ == old(self).content().subrange(from, to)
                    &&& final(self).moved(old(self), to, 1)
                },
            },
    {
        let at: usize = self.pos;
        let f: Format = self.format;
        if self.bytes.len() - at < RECORD_HEADER_LEN {
            return Ok(None);
        }
        let seconds: u64 = read_word(&self.bytes, at, f.swapped) as u64;
        let subsec: u64 = read_word(&self.bytes, at + 4, f.swapped) as u64;
        let caplen: usize = read_word(&self.bytes, at + 8, f.swapped) as usize;
        let wire_len: u32 = read_word(&self.bytes, at + 12, f.swapped);
        self.pos = at + 16;
        if caplen > MAX_CAPTURE_LEN {
            return Err(PcapError::Truncated);
        }
        if (wire_len as usize) < caplen {
            return Err(PcapError::Truncated);
        }
        if subsec >= 1_000_000_000 / f.subsec_to_nanos {
            return Err(PcapError::InvalidTimestamp);
        }
        if self.bytes.len() - self.pos < caplen {
            self.pos = self.bytes.len();
            return Err(PcapError::Truncated);
        }
        let end: usize = self.pos + caplen;
        let captured = copy_bytes(slice_subrange(self.bytes.as_slice(), self.pos, end));
        *data = captured;
        self.pos = end;
        self.packets_read = self.packets_read + 1;
        let fraction: u64 = if f.subsec_to_nanos == 1 {
            subsec
        } else {
            subsec * 1_000
        };
        assert(subsec * f.subsec_to_nanos == fraction);
        Ok(Some((seconds * 1_000_000_000 + fraction, wire_len)))
    }

    /// Next event, passing over packets that are not IP or came over an
    /// unknown link.
    pub fn next_event(&mut self) -> (r: Result<Option<FlowEvent>, PcapError>)
        requires
            old(self).wf(),
        ensures
            ({
                let s = search(old(self).content(), old(self).at(), old(self).declared());
                &&& match s.outcome {
                    Ok(e) => r is Ok && r->Ok_0 == e,
                    Err(e) => r is Err && r->Err_0@ == e,
                }
                &&& final(self).moved(old(self), s.pos, s.packets)
            }),
    {
        let mut data: Vec<u8> = Vec::new();
        self.next_event_into(&mut data)
    }

    /// Next event, with the bytes of its packet in the caller's buffer.
    pub fn next_event_into(&mut self, data: &mut Vec<u8>) -> (r: Result<
        Option<FlowEvent>,
        PcapError,
    >)
        requires
            old(self).wf(),
        ensures
            ({
                let s = search(old(self).content(), old(self).at(), old(self).declared());
                &&& match s.outcome {
                    Ok(e) => r is Ok && r->Ok_0 == e,
                    Err(e) => r is Err && r->Err_0@ == e,
                }
                &&& final(self).moved(old(self), s.pos, s.packets)
            }),
    {
        let ghost bytes = self.content();
        let ghost f = self.declared();
        let ghost whole = search(bytes, self.at(), f);
        loop
            invariant
                self.wf(),
                bytes == old(self).content(),
                f == old(self).declared(),
                self.content() == bytes,
                self.declared() == f,
                whole == search(bytes, old(self).at(), f),
                self.count() >= old(self).count(),
                whole.outcome == search(bytes, self.at(), f).outcome,
                whole.pos == search(bytes, self.at(), f).pos,
                whole.packets == search(bytes, self.at(), f).packets + (self.count() - old(
                    self,
                ).count()),
            decreases bytes.len() - self.at(),
        {
            match self.next_packet_into(data) {
                Err(e) => {
                    return Err(e);
                },
                Ok(None) => {
                    return Ok(None);
                },
                Ok(Some((ts_nanos, wire_len))) => {
                    if let Some(found) = parse_packet_with_wire_len(
                        self.format.linktype,
                        data.as_slice(),
                        wire_len,
                    ) {
                        let mut e: FlowEvent = found;
                        e.ts_nanos = ts_nanos;
                        if e.bytes == 0 {
                            e.bytes = wire_len;
                        }
                        e.direction = Direction::Unknown;
                        return Ok(Some(e));
                    }
                },
            }
        }
    }
}

} // verus!
