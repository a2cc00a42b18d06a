//! What capture, the lanes and the published estimates hold of what went into
//! them.

use vstd::prelude::*;
use vstd::string::*;

use crate::agent::capture::{
    framing, packet_outcome, record_outcome, CaptureOutcome, CaptureTally, LiveTimestampBounds,
};
use crate::agent::error::AgentError;
use crate::agent::http::{routed, RouteView};
use crate::agent::lanes::{comes_before, is_of, with_window, with_windows, GroupView, LaneWindow};
use crate::agent::latest::{placed, with_estimate, without_older};
use crate::agent::lifecycle::{both, is_after_server, last_sent, ServerEnd};
use crate::agent::ring::{advanced, half_at, opened, word_at, BlockCursor};
use crate::agent::worker::{Worker, WorkerAction, WorkerEvent, WorkerPhase};
use crate::bytes::{be_value, le_value};
use crate::ebpf::record::EbpfFlowEvent;
use crate::estimate::SketchEstimate;
use crate::mentions::{lemma_mentions, mentions};
use crate::names::{lemma_text_irreflexive, lemma_text_total, lemma_text_transitive};
use crate::pcap::laws::{high_first, low_first};
use crate::pcap::parse::captured_event;
use crate::text::text_before;

verus! {

// ---------------------------------------------------------------------------
// Capture
// ---------------------------------------------------------------------------

/// A packet that can be parsed becomes the event that it holds, with the time
/// of its capture, and with its length where it states none; unless that time
/// is not believed. One that cannot be parsed never has a bad time.
pub proof fn law_packets_become_their_events(
    link: u32,
    packet: Seq<u8>,
    wire_len: u32,
    timestamp: u64,
    bounds: LiveTimestampBounds,
)
    ensures
        ({
            let outcome = packet_outcome(link, packet, wire_len, timestamp, bounds);
            let found = captured_event(link, packet, wire_len as int);
            let believed = bounds.earliest <= timestamp && timestamp <= bounds.latest;
            &&& outcome is Unparsed <==> found is None
            &&& outcome is BadTimestamp <==> found is Some && !believed
            &&& outcome is Event <==> found is Some && believed
            &&& outcome matches CaptureOutcome::Event(e) ==> {
                let f = found->0;
                &&& e.ts_nanos == timestamp
                &&& e.src_ip == f.src_ip && e.dst_ip == f.dst_ip
                &&& e.src_port == f.src_port && e.dst_port == f.dst_port
                &&& e.protocol == f.protocol && e.tcp_flags == f.tcp_flags
                &&& e.packets == f.packets && e.direction == f.direction
                &&& e.interface_index == f.interface_index
                &&& f.bytes > 0 ==> e.bytes == f.bytes
                &&& f.bytes == 0 ==> e.bytes == packet.len() as u32
            }
        }),
{
}

/// A record becomes its event at the time that the offset between the clocks
/// gives, unless that time is not believed; a record of that time that holds no
/// event is not parsed.
pub proof fn law_records_become_their_events(
    record: EbpfFlowEvent,
    offset: int,
    bounds: LiveTimestampBounds,
)
    ensures
        ({
            let outcome = record_outcome(record, offset, bounds);
            let time = record.ts_nanos + offset;
            let believed = bounds.earliest <= time && time <= bounds.latest;
            let known = (record.ip_version == 4 || record.ip_version == 6)
                && EbpfFlowEvent::direction_of(record.direction) is Some;
            &&& outcome is BadTimestamp <==> !believed
            &&& outcome is Event <==> believed && known
            &&& outcome is Unparsed <==> believed && !known
            &&& outcome matches CaptureOutcome::Event(e) ==> {
                &&& e.ts_nanos == time
                &&& e.src_port == record.src_port && e.dst_port == record.dst_port
                &&& e.protocol == record.protocol && e.bytes == record.bytes
                &&& e.packets == 1 && e.tcp_flags == record.tcp_flags
                &&& e.interface_index == record.interface_index
            }
        }),
{
}

/// Every outcome is counted once as seen and once as parsed or not; a bad time
/// is a packet that was not parsed.
pub proof fn law_outcomes_are_counted_once(t: CaptureTally, outcome: CaptureOutcome)
    requires
        t.wf(),
        t.seen < u64::MAX,
    ensures
        ({
            let n = t.with(outcome);
            &&& n.wf()
            &&& n.seen == t.seen + 1
            &&& outcome is Event ==> n.parsed == t.parsed + 1 && n.unparsed == t.unparsed
                && n.bad_timestamps == t.bad_timestamps
            &&& outcome is Unparsed ==> n.parsed == t.parsed && n.unparsed == t.unparsed + 1
                && n.bad_timestamps == t.bad_timestamps
            &&& outcome is BadTimestamp ==> n.parsed == t.parsed && n.unparsed == t.unparsed + 1
                && n.bad_timestamps == t.bad_timestamps + 1
        }),
{
}

/// Ethernet and loopback interfaces carry Ethernet frames; tunnels and raw
/// interfaces carry bare packets; no other hardware is captured from.
pub proof fn law_hardware_decides_the_framing(hardware: u16)
    ensures
        framing(hardware) == Some(1u32) <==> hardware == 1 || hardware == 772,
        framing(hardware) == Some(101u32) <==> hardware == 519 || hardware == 65_534,
        framing(hardware) is None <==> hardware != 1 && hardware != 772 && hardware != 519
            && hardware != 65_534,
{
}

// ---------------------------------------------------------------------------
// Blocks of packets
// ---------------------------------------------------------------------------

/// Four bytes at `i` in the byte order of the machine.
pub open spec fn word(b: Seq<u8>, i: int, little: bool) -> nat {
    if little {
        low_first(b, i)
    } else {
        high_first(b, i)
    }
}

/// Two bytes at `i` in the byte order of the machine.
pub open spec fn half_word(b: Seq<u8>, i: int, little: bool) -> nat {
    if little {
        b[i] as nat + 0x100 * b[i + 1] as nat
    } else {
        0x100 * b[i] as nat + b[i + 1] as nat
    }
}

proof fn lemma_word(b: Seq<u8>, i: int, little: bool)
    requires
        0 <= i,
        i + 4 <= b.len(),
    ensures
        word_at(b, i, little) == word(b, i, little),
{
    let s = b.subrange(i, i + 4);
    if little {
        let t = s.drop_first();
        let u = t.drop_first();
        let v = u.drop_first();
        assert(v.drop_first().len() == 0);
        reveal_with_fuel(le_value, 6);
    } else {
        let t = s.drop_last();
        let u = t.drop_last();
        let v = u.drop_last();
        assert(v.drop_last().len() == 0);
        reveal_with_fuel(be_value, 6);
    }
}

proof fn lemma_half_word(b: Seq<u8>, i: int, little: bool)
    requires
        0 <= i,
        i + 2 <= b.len(),
    ensures
        half_at(b, i, little) == half_word(b, i, little),
{
    let s = b.subrange(i, i + 2);
    if little {
        let t = s.drop_first();
        assert(t.drop_first().len() == 0);
        reveal_with_fuel(le_value, 4);
    } else {
        let t = s.drop_last();
        assert(t.drop_last().len() == 0);
        reveal_with_fuel(be_value, 4);
    }
}

/// A block is read if it is of the second version and its length, its first
/// packet and its number of packets can be true.
pub proof fn law_blocks_say_where_they_start(block: Seq<u8>, little: bool)
    ensures
        block.len() < 48 ==> opened(block, little) is Err,
        block.len() >= 48 ==> {
            let packets = word(block, 12, little);
            let first = word(block, 16, little);
            let len = word(block, 20, little);
            &&& opened(block, little) is Ok <==> word(block, 0, little) == 2 && 48 <= len
                && len <= block.len() && first <= len && packets * 48 <= len
            &&& opened(block, little) matches Ok(c) ==> c.len == len && c.offset == first
                && c.remaining == packets && c.distance is None
        },
{
    if block.len() >= 48 {
        lemma_word(block, 0, little);
        lemma_word(block, 12, little);
        lemma_word(block, 16, little);
        lemma_word(block, 20, little);
        let packets = word(block, 12, little) as int;
        let len = word(block, 20, little) as int;
        assert(packets > len / 48 <==> packets * 48 > len);
    }
}

/// The next packet of a block stands where the last one points to, or where the
/// block starts: its bytes, its length on the wire, its time in nanoseconds and
/// the distance to the packet behind it are those of its header.
pub proof fn law_packets_are_as_their_header_says(c: BlockCursor, block: Seq<u8>, little: bool)
    requires
        c.offset <= c.len <= block.len() <= usize::MAX,
    ensures
        ({
            let at = c.offset + match c.distance {
                Some(n) => n as int,
                None => 0,
            };
            let r = advanced(c, block, little);
            &&& (r matches Ok(None)) <==> c.remaining == 0
            &&& r matches Ok(Some((p, next))) ==> {
                &&& at + 48 <= c.len
                &&& p.start == at + half_word(block, at + 24, little)
                &&& p.end == p.start + word(block, at + 12, little)
                &&& p.wire_len == word(block, at + 16, little)
                &&& p.timestamp_nanos == word(block, at + 4, little) * 1_000_000_000 + word(
                    block,
                    at + 8,
                    little,
                )
                &&& word(block, at + 8, little) < 1_000_000_000
                &&& next.offset == at
                &&& next.distance == Some(word(block, at, little) as u32)
                &&& next.remaining == c.remaining - 1
                &&& next.len == c.len
            }
            &&& c.remaining > 0 && (c.distance is None || c.distance->0 >= 48) && at + 48 <= c.len
                ==> {
                let start = at + half_word(block, at + 24, little);
                let end = start + word(block, at + 12, little);
                r is Ok <==> word(block, at + 12, little) <= word(block, at + 16, little) && at + 48
                    <= start && end <= c.len && word(block, at + 8, little) < 1_000_000_000
            }
        }),
{
    let at = c.offset + match c.distance {
        Some(n) => n as int,
        None => 0,
    };
    if at + 48 <= c.len {
        lemma_word(block, at, little);
        lemma_word(block, at + 4, little);
        lemma_word(block, at + 8, little);
        lemma_word(block, at + 12, little);
        lemma_word(block, at + 16, little);
        lemma_half_word(block, at + 24, little);
    }
}

// ---------------------------------------------------------------------------
// Windows of all lanes
// ---------------------------------------------------------------------------

/// The windows of a query and bounds.
pub open spec fn windows_like(g: GroupView) -> spec_fn(LaneWindow) -> bool {
    |w: LaneWindow| w.query@ == g.query && w.start == g.start && w.end == g.end
}

/// Their tokens, in the order of the windows.
pub open spec fn tokens_like(ws: Seq<LaneWindow>, g: GroupView) -> Seq<u64> {
    ws.filter(windows_like(g)).map_values(|w: LaneWindow| w.token)
}

/// One group is ahead of another: by query, then start, then end.
spec fn group_before(a: GroupView, b: GroupView) -> bool {
    text_before(a.query, b.query) || a.query == b.query && (a.start < b.start || a.start == b.start
        && a.end < b.end)
}

spec fn in_order(groups: Seq<GroupView>) -> bool {
    forall|i: int, j: int|
        0 <= i < j < groups.len() ==> group_before(#[trigger] groups[i], #[trigger] groups[j])
}

proof fn lemma_group_order(a: GroupView, b: GroupView, c: GroupView)
    ensures
        !group_before(a, a),
        group_before(a, b) && group_before(b, c) ==> group_before(a, c),
        group_before(a, b) || group_before(b, a) || (a.query == b.query && a.start == b.start
            && a.end == b.end),
{
    lemma_text_irreflexive(a.query);
    lemma_text_total(a.query, b.query);
    if text_before(a.query, b.query) && text_before(b.query, c.query) {
        lemma_text_transitive(a.query, b.query, c.query);
    }
}

/// A window joins the group of its query and bounds, or makes one of its own;
/// all other groups stay as they are.
proof fn lemma_joined(groups: Seq<GroupView>, w: LaneWindow)
    requires
        in_order(groups),
    ensures
        ({
            let r = with_window(groups, w);
            &&& in_order(r)
            &&& forall|k: int|
                0 <= k < r.len() ==> groups.contains(#[trigger] r[k]) && !is_of(r[k], w) || (is_of(
                    r[k],
                    w,
                ) && ((r[k].tokens == seq![w.token] && forall|i: int|
                    0 <= i < groups.len() ==> !is_of(#[trigger] groups[i], w)) || exists|i: int|
                    0 <= i < groups.len() && is_of(#[trigger] groups[i], w) && r[k].tokens
                        == groups[i].tokens.push(w.token)))
            &&& forall|i: int|
                0 <= i < groups.len() && !is_of(#[trigger] groups[i], w) ==> r.contains(groups[i])
            &&& exists|k: int| 0 <= k < r.len() && is_of(#[trigger] r[k], w)
        }),
    decreases groups.len(),
{
    let r = with_window(groups, w);
    let alone = GroupView { query: w.query@, start: w.start, end: w.end, tokens: seq![w.token] };
    if groups.len() == 0 {
        assert(r[0] == alone);
        assert(is_of(r[0], w));
    } else {
        let front = groups.drop_last();
        let last = groups.last();
        assert(groups[groups.len() - 1] == last);
        assert(in_order(front)) by {
            assert forall|i: int, j: int| 0 <= i < j < front.len() implies group_before(
                #[trigger] front[i],
                #[trigger] front[j],
            ) by {
                assert(front[i] == groups[i] && front[j] == groups[j]);
            }
        }
        assert forall|i: int| 0 <= i < front.len() implies group_before(#[trigger] front[i], last) by {
            assert(front[i] == groups[i]);
        }
        if is_of(last, w) {
            let grown = GroupView { tokens: last.tokens.push(w.token), ..last };
            assert(r == front.push(grown));
            assert(is_of(r[front.len() as int], w));
            assert forall|i: int| 0 <= i < front.len() implies !is_of(#[trigger] front[i], w)
                && groups.contains(front[i]) && r.contains(front[i]) by {
                lemma_group_order(front[i], last, last);
                lemma_text_irreflexive(last.query);
                assert(groups[i] == front[i]);
                assert(r[i] == front[i]);
            }
            assert forall|i: int, j: int| 0 <= i < j < r.len() implies group_before(
                #[trigger] r[i],
                #[trigger] r[j],
            ) by {
                assert(r[i] == front[i]);
                if j < front.len() {
                    assert(r[j] == front[j]);
                } else {
                    assert(r[j] == grown);
                    assert(group_before(front[i], last));
                }
            }
            assert forall|i: int|
                0 <= i < groups.len() && !is_of(#[trigger] groups[i], w) implies r.contains(
                groups[i],
            ) by {
                assert(front[i] == groups[i]);
            }
            assert forall|k: int| 0 <= k < r.len() implies groups.contains(#[trigger] r[k])
                && !is_of(r[k], w) || (is_of(r[k], w) && exists|i: int|
                0 <= i < groups.len() && is_of(#[trigger] groups[i], w) && r[k].tokens
                    == groups[i].tokens.push(w.token)) by {
                if k < front.len() {
                    assert(r[k] == front[k]);
                } else {
                    assert(r[k].tokens == groups[groups.len() - 1].tokens.push(w.token));
                }
            }
        } else if comes_before(last, w) {
            assert(r == groups.push(alone));
            assert(group_before(last, alone));
            assert(is_of(r[groups.len() as int], w));
            assert forall|i: int| 0 <= i < groups.len() implies group_before(
                #[trigger] groups[i],
                alone,
            ) && !is_of(groups[i], w) && r.contains(groups[i]) by {
                if i < front.len() {
                    assert(front[i] == groups[i]);
                    lemma_group_order(groups[i], last, alone);
                }
                lemma_group_order(groups[i], alone, alone);
                lemma_text_irreflexive(alone.query);
                assert(r[i] == groups[i]);
            }
            assert forall|i: int, j: int| 0 <= i < j < r.len() implies group_before(
                #[trigger] r[i],
                #[trigger] r[j],
            ) by {
                assert(r[i] == groups[i]);
                if j < groups.len() {
                    assert(r[j] == groups[j]);
                }
            }
            assert forall|k: int| 0 <= k < r.len() implies groups.contains(#[trigger] r[k])
                && !is_of(r[k], w) || (is_of(r[k], w) && r[k].tokens == seq![w.token]) by {
                if k < groups.len() {
                    assert(r[k] == groups[k]);
                }
            }
        } else {
            let before = with_window(front, w);
            lemma_joined(front, w);
            lemma_group_order(last, alone, alone);
            assert(group_before(alone, last));
            assert(r == before.push(last));
            assert forall|k: int| 0 <= k < before.len() implies group_before(
                #[trigger] before[k],
                last,
            ) by {
                if is_of(before[k], w) {
                    assert(group_before(alone, last));
                } else {
                    assert(front.contains(before[k]));
                    let i = choose|i: int| 0 <= i < front.len() && front[i] == before[k];
                    assert(group_before(front[i], last));
                }
            }
            assert forall|i: int, j: int| 0 <= i < j < r.len() implies group_before(
                #[trigger] r[i],
                #[trigger] r[j],
            ) by {
                assert(r[i] == before[i]);
                if j < before.len() {
                    assert(r[j] == before[j]);
                } else {
                    assert(group_before(before[i], last));
                }
            }
            assert forall|k: int| 0 <= k < r.len() implies groups.contains(#[trigger] r[k])
                && !is_of(r[k], w) || (is_of(r[k], w) && ((r[k].tokens == seq![w.token] && forall|
                i: int,
            |
                0 <= i < groups.len() ==> !is_of(#[trigger] groups[i], w)) || exists|i: int|
                0 <= i < groups.len() && is_of(#[trigger] groups[i], w) && r[k].tokens
                    == groups[i].tokens.push(w.token))) by {
                if k < before.len() {
                    assert(r[k] == before[k]);
                    if !is_of(before[k], w) {
                        let i = choose|i: int| 0 <= i < front.len() && front[i] == before[k];
                        assert(groups[i] == before[k]);
                    } else if exists|i: int|
                        0 <= i < front.len() && is_of(#[trigger] front[i], w) && before[k].tokens
                            == front[i].tokens.push(w.token) {
                        let i = choose|i: int|
                            0 <= i < front.len() && is_of(#[trigger] front[i], w)
                                && before[k].tokens == front[i].tokens.push(w.token);
                        assert(groups[i] == front[i]);
                    } else {
                        assert forall|i: int| 0 <= i < groups.len() implies !is_of(
                            #[trigger] groups[i],
                            w,
                        ) by {
                            if i < front.len() {
                                assert(front[i] == groups[i]);
                            }
                        }
                    }
                } else {
                    assert(groups.contains(last));
                }
            }
            assert forall|i: int|
                0 <= i < groups.len() && !is_of(#[trigger] groups[i], w) implies r.contains(
                groups[i],
            ) by {
                if i < front.len() {
                    assert(front[i] == groups[i]);
                    let k = choose|k: int| 0 <= k < before.len() && before[k] == groups[i];
                    assert(r[k] == groups[i]);
                } else {
                    assert(r[before.len() as int] == last);
                }
            }
            let k = choose|k: int| 0 <= k < before.len() && is_of(#[trigger] before[k], w);
            assert(is_of(r[k], w));
        }
    }
}

proof fn lemma_tokens_step(ws: Seq<LaneWindow>, g: GroupView)
    requires
        ws.len() > 0,
    ensures
        is_of(g, ws.last()) ==> tokens_like(ws, g) == tokens_like(ws.drop_last(), g).push(
            ws.last().token,
        ),
        !is_of(g, ws.last()) ==> tokens_like(ws, g) == tokens_like(ws.drop_last(), g),
{
    reveal(Seq::filter);
    if is_of(g, ws.last()) {
        assert(tokens_like(ws, g) =~= tokens_like(ws.drop_last(), g).push(ws.last().token));
    }
}

proof fn lemma_groups(ws: Seq<LaneWindow>)
    ensures
        ({
            let groups = with_windows(Seq::empty(), ws);
            &&& in_order(groups)
            &&& forall|k: int|
                0 <= k < groups.len() ==> (#[trigger] groups[k]).tokens == tokens_like(
                    ws,
                    groups[k],
                )
            &&& forall|g: GroupView|
                (forall|k: int|
                    0 <= k < groups.len() ==> !((#[trigger] groups[k]).query == g.query
                        && groups[k].start == g.start && groups[k].end == g.end)) ==> (
                #[trigger] tokens_like(ws, g)).len() == 0
        }),
    decreases ws.len(),
{
    let groups = with_windows(Seq::empty(), ws);
    if ws.len() == 0 {
        reveal(Seq::filter);
    } else {
        let front = ws.drop_last();
        let w = ws.last();
        let before = with_windows(Seq::empty(), front);
        lemma_groups(front);
        lemma_joined(before, w);
        assert forall|k: int| 0 <= k < groups.len() implies (#[trigger] groups[k]).tokens
            == tokens_like(ws, groups[k]) by {
            let g = groups[k];
            lemma_tokens_step(ws, g);
            if !is_of(g, w) {
                let i = choose|i: int| 0 <= i < before.len() && before[i] == g;
                assert(before[i].tokens == tokens_like(front, before[i]));
            } else if exists|i: int|
                0 <= i < before.len() && is_of(#[trigger] before[i], w) && g.tokens
                    == before[i].tokens.push(w.token) {
                let i = choose|i: int|
                    0 <= i < before.len() && is_of(#[trigger] before[i], w) && g.tokens
                        == before[i].tokens.push(w.token);
                assert(before[i].tokens == tokens_like(front, before[i]));
                assert(windows_like(before[i]) =~= windows_like(g));
            } else {
                assert(tokens_like(front, g).len() == 0) by {
                    assert forall|i: int| 0 <= i < before.len() implies !((
                    #[trigger] before[i]).query == g.query && before[i].start == g.start
                        && before[i].end == g.end) by {
                        assert(!is_of(before[i], w));
                    }
                }
                assert(tokens_like(front, g) =~= Seq::<u64>::empty());
                assert(Seq::<u64>::empty().push(w.token) =~= seq![w.token]);
            }
        }
        assert forall|g: GroupView|
            (forall|k: int|
                0 <= k < groups.len() ==> !((#[trigger] groups[k]).query == g.query
                    && groups[k].start == g.start && groups[k].end == g.end)) implies (
        #[trigger] tokens_like(ws, g)).len() == 0 by {
            lemma_tokens_step(ws, g);
            let k = choose|k: int| 0 <= k < groups.len() && is_of(#[trigger] groups[k], w);
            assert(!is_of(g, w));
            assert forall|i: int| 0 <= i < before.len() implies !((#[trigger] before[i]).query
                == g.query && before[i].start == g.start && before[i].end == g.end) by {
                if before[i].query == g.query && before[i].start == g.start && before[i].end
                    == g.end {
                    assert(!is_of(before[i], w));
                    assert(groups.contains(before[i]));
                    let j = choose|j: int| 0 <= j < groups.len() && groups[j] == before[i];
                    assert(groups[j].query == g.query);
                }
            }
            assert(tokens_like(front, g).len() == 0);
        }
    }
}

/// A checkpoint merges, for every query and bounds, exactly the windows that
/// the lanes have reported of them, each as often as it was reported and in
/// their order; no query and bounds have two groups.
pub proof fn law_groups_hold_exactly_their_windows(ws: Seq<LaneWindow>)
    ensures
        ({
            let groups = with_windows(Seq::empty(), ws);
            &&& forall|k: int|
                0 <= k < groups.len() ==> (#[trigger] groups[k]).tokens == ws.filter(
                    |w: LaneWindow|
                        w.query@ == groups[k].query && w.start == groups[k].start && w.end
                            == groups[k].end,
                ).map_values(|w: LaneWindow| w.token)
            &&& forall|i: int, j: int|
                0 <= i < j < groups.len() ==> (#[trigger] groups[i]).query != (
                #[trigger] groups[j]).query || groups[i].start != groups[j].start || groups[i].end
                    != groups[j].end
        }),
{
    let groups = with_windows(Seq::empty(), ws);
    lemma_groups(ws);
    assert forall|k: int| 0 <= k < groups.len() implies (#[trigger] groups[k]).tokens == ws.filter(
        |w: LaneWindow|
            w.query@ == groups[k].query && w.start == groups[k].start && w.end == groups[k].end,
    ).map_values(|w: LaneWindow| w.token) by {
        assert(windows_like(groups[k]) =~= (|w: LaneWindow|
            w.query@ == groups[k].query && w.start == groups[k].start && w.end == groups[k].end));
    }
    assert forall|i: int, j: int| 0 <= i < j < groups.len() implies (#[trigger] groups[i]).query
        != (#[trigger] groups[j]).query || groups[i].start != groups[j].start || groups[i].end
        != groups[j].end by {
        lemma_text_irreflexive(groups[i].query);
        assert(group_before(groups[i], groups[j]));
    }
}

// ---------------------------------------------------------------------------
// Published estimates
// ---------------------------------------------------------------------------

/// The estimates that may stand beside one of `query` whose window ends at
/// `end`: all but those of earlier windows of that query.
pub open spec fn stays_beside(query: Seq<char>, end: u64) -> spec_fn(SketchEstimate) -> bool {
    |x: SketchEstimate| x.query_name@ != query || x.window_end_nanos >= end
}

proof fn lemma_without_older_filters(es: Seq<SketchEstimate>, query: Seq<char>, end: u64)
    ensures
        without_older(es, query, end) == es.filter(stays_beside(query, end)),
    decreases es.len(),
{
    reveal(Seq::filter);
    if es.len() > 0 {
        lemma_without_older_filters(es.drop_last(), query, end);
    }
}

proof fn lemma_placed_once(es: Seq<SketchEstimate>, e: SketchEstimate)
    ensures
        placed(es, e).to_multiset() == es.to_multiset().insert(e),
    decreases es.len(),
{
    broadcast use vstd::seq_lib::group_to_multiset_ensures;

    if es.len() > 0 && text_before(e.query_name@, es.last().query_name@) {
        let front = es.drop_last();
        lemma_placed_once(front, e);
        assert(es =~= front.push(es.last()));
        assert(es.to_multiset() =~= front.to_multiset().insert(es.last()));
        assert(placed(es, e).to_multiset() =~= es.to_multiset().insert(e));
    }
}

/// A new estimate is published once, unless its query has one of a later
/// window. Beside it stay, as often as they were there, all estimates but those
/// of earlier windows of its query.
pub proof fn law_newer_estimates_replace_older_ones(es: Seq<SketchEstimate>, e: SketchEstimate)
    ensures
        ({
            let late = exists|i: int|
                0 <= i < es.len() && (#[trigger] es[i]).query_name@ == e.query_name@
                    && es[i].window_end_nanos > e.window_end_nanos;
            &&& late ==> with_estimate(es, e) == es
            &&& !late ==> with_estimate(es, e).to_multiset() == es.filter(
                stays_beside(e.query_name@, e.window_end_nanos),
            ).to_multiset().insert(e)
        }),
{
    let kept = without_older(es, e.query_name@, e.window_end_nanos);
    lemma_without_older_filters(es, e.query_name@, e.window_end_nanos);
    lemma_placed_once(kept, e);
}

// ---------------------------------------------------------------------------
// Requests
// ---------------------------------------------------------------------------

/// Only reading is allowed, of four paths. An agent whose source has failed is
/// neither healthy nor ready and says so; one that has not started is healthy
/// but not ready.
pub proof fn law_requests_are_answered(
    method: Seq<char>,
    path: Seq<char>,
    failure: Option<Seq<char>>,
    ready: bool,
)
    ensures
        ({
            let r = routed(method, path, failure, ready);
            let known = path == "/healthz"@ || path == "/readyz"@ || path == "/metrics"@ || path
                == "/v1/queries"@;
            &&& method != "GET"@ ==> (r matches RouteView::Answer(a) && a.status == 405)
            &&& method == "GET"@ && !known ==> (r matches RouteView::Answer(a) && a.status == 404)
            &&& method == "GET"@ && path == "/healthz"@ ==> (r matches RouteView::Answer(a)
                && a.status == (if failure is Some {
                503u16
            } else {
                200
            }) && (failure is Some ==> mentions(a.body, failure->0)))
            &&& r is Metrics ==> method == "GET"@ && path == "/metrics"@
            &&& r is Queries ==> method == "GET"@ && path == "/v1/queries"@
        }),
        ({
            let r = routed("GET"@, "/readyz"@, failure, ready);
            r matches RouteView::Answer(a) && a.status == (if failure is None && ready {
                200u16
            } else {
                503
            })
        }),
        routed("GET"@, "/metrics"@, failure, ready) is Metrics,
        routed("GET"@, "/v1/queries"@, failure, ready) is Queries,
{
    reveal_strlit("/metrics");
    reveal_strlit("/v1/queries");
    reveal_strlit("/healthz");
    reveal_strlit("/readyz");
    assert("/metrics"@.len() == 8 && "/healthz"@.len() == 8 && "/readyz"@.len() == 7
        && "/v1/queries"@.len() == 11);
    assert("/metrics"@[1] == 'm' && "/healthz"@[1] == 'h');
    if let Some(e) = failure {
        lemma_mentions("capture source failed: "@, e, "\n"@);
    }
}

// ---------------------------------------------------------------------------
// Workers
// ---------------------------------------------------------------------------

/// Events that a worker has processed and not yet counted.
pub open spec fn uncounted(w: Worker) -> nat {
    match w.phase {
        WorkerPhase::Processing { processed, .. } => processed as nat,
        WorkerPhase::TakingEvent { processed } => processed as nat,
        WorkerPhase::ReportingDrain { processed } => processed as nat,
        _ => 0,
    }
}

/// A worker that goes on counts every event that it has processed once, and
/// only those; and it knows the latest of their times.
pub proof fn law_workers_count_what_they_process(w: Worker, e: WorkerEvent)
    requires
        w.wf(),
        w.expects(e),
    ensures
        ({
            let (next, action) = w.next(e);
            let counted = match action {
                WorkerAction::CountBatch(n) => n as int,
                _ => 0,
            };
            let done = w.phase is Processing && e is Done;
            &&& !(next.phase is Stopped) ==> uncounted(next) + counted == uncounted(w) + (if done {
                1int
            } else {
                0
            })
            &&& w.phase matches WorkerPhase::Processing { timestamp, .. } ==> (e is Done
                ==> next.max_timestamp is Some && (w.max_timestamp is None ==> next.max_timestamp
                == Some(timestamp)) && (w.max_timestamp matches Some(t) ==> next.max_timestamp->0
                == vstd::math::max(t as int, timestamp as int)))
            &&& !done ==> next.max_timestamp == w.max_timestamp
        }),
{
}

/// Every event that a worker gets is processed, and its end of the queue is
/// reported, each with the times that belong to it. Outside a checkpoint a pause
/// is acknowledged and a shutdown obeyed.
pub proof fn law_workers_take_what_they_get(w: Worker, e: WorkerEvent)
    requires
        w.wf(),
        w.expects(e),
    ensures
        ({
            let (next, action) = w.next(e);
            let idle = w.phase is CheckingCommands || w.phase is AwaitingCommand;
            &&& e matches WorkerEvent::Event(t) ==> action is Process && (next.phase matches
                WorkerPhase::Processing { timestamp, .. } && timestamp == t)
            &&& e is EventsClosed ==> !next.data_open && action == WorkerAction::ReportDrain(
                w.max_timestamp,
            )
            &&& idle ==> (e matches WorkerEvent::Command(c) ==> (c is Pause ==> action
                == WorkerAction::Acknowledge(w.max_timestamp)) && (c is Shutdown ==> action is Stop
                && next.phase is Stopped))
            &&& w.phase is CheckingCommands && e is NoCommand && w.data_open ==> action is WaitEvent
        }),
{
}

// ---------------------------------------------------------------------------
// Results and exports
// ---------------------------------------------------------------------------

/// A run fails if anything in it has, with its first failure: that of the
/// runtime, then of the capture, then of the server.
pub proof fn law_the_first_failure_counts(
    runtime: Result<(), AgentError>,
    capture: Result<(), AgentError>,
    end: ServerEnd,
    r: Result<(), AgentError>,
)
    requires
        is_after_server(both(runtime, capture), end, r),
    ensures
        runtime is Err ==> r == runtime,
        runtime is Ok && capture is Err ==> r == capture,
        runtime is Ok && capture is Ok ==> (r is Err <==> !(end is Clean)),
{
}

/// What was exported last of a query is what the log says first of it.
pub proof fn law_exports_are_logged_by_query(sent: Seq<(Seq<char>, u64)>, query: Seq<char>)
    ensures
        last_sent(sent, query) is None <==> forall|i: int|
            0 <= i < sent.len() ==> (#[trigger] sent[i]).0 != query,
        last_sent(sent, query) matches Some(end) ==> exists|i: int|
            {
                &&& 0 <= i < sent.len()
                &&& (#[trigger] sent[i]).0 == query
                &&& sent[i].1 == end
                &&& forall|j: int| 0 <= j < i ==> (#[trigger] sent[j]).0 != query
            },
    decreases sent.len(),
{
    if sent.len() > 0 {
        let rest = sent.drop_first();
        if sent[0].0 == query {
            assert(last_sent(sent, query) == Some(sent[0].1));
        } else {
            law_exports_are_logged_by_query(rest, query);
            if let Some(end) = last_sent(rest, query) {
                let i = choose|i: int|
                    {
                        &&& 0 <= i < rest.len()
                        &&& (#[trigger] rest[i]).0 == query
                        &&& rest[i].1 == end
                        &&& forall|j: int| 0 <= j < i ==> (#[trigger] rest[j]).0 != query
                    };
                assert(sent[i + 1] == rest[i]);
                assert forall|j: int| 0 <= j < i + 1 implies (#[trigger] sent[j]).0 != query by {
                    if j > 0 {
                        assert(rest[j - 1] == sent[j]);
                    }
                }
            } else {
                assert forall|i: int| 0 <= i < sent.len() implies (#[trigger] sent[i]).0 != query by {
                    if i > 0 {
                        assert(rest[i - 1] == sent[i]);
                    }
                }
            }
        }
    }
}

} // verus!
