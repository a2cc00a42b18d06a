//! What a query that was taken asks for: what its document states, part by
//! part, and the documented default where it states nothing.

use vstd::prelude::*;
use vstd::string::*;

use crate::event::{protocol, FlowEvent};
use crate::field::{named, Field};
use crate::float_bits::Float64;
use crate::ir::logical::{AlertSpec, Measure, WindowSpec};
use crate::ir::query::{
    duration_meant, duration_scale, fields_meant, is_numeric, leading_digits, lemma_leading_digits,
    lemma_number_with_unit, measure_meant, memory_meant, name_fault, query_meant, Ports,
    RawMeasure, RawProtocol, RawQuery,
};
use crate::text::{
    dec, is_digit, is_space, law_decimal_round_trip, lemma_dec_digits, parsed_number, trimmed,
};

verus! {

// ---------------------------------------------------------------------------
// The measure
// ---------------------------------------------------------------------------

/// The measure of a query is the one that its document names, over the field
/// that the document names, with the number that the document states: the
/// quantile is the stated one and the median only where none is stated, the
/// limit is the stated one and 100 only where none is stated.
pub proof fn law_measure_is_as_stated(m: RawMeasure)
    requires
        measure_meant(m) is Ok,
    ensures
        match measure_meant(m)->Ok_0 {
            Measure::Count => m.kind@ == "count"@,
            Measure::Sum { value } => {
                &&& m.kind@ == "sum"@
                &&& is_numeric(value)
                &&& m.value is Some ==> named(m.value->0@) == Some(value)
                &&& m.value is None ==> m.field is Some && named(m.field->0@) == Some(value)
            },
            Measure::HeavyHitters { value, limit } => {
                &&& m.kind@ == "heavy_hitters"@
                &&& is_numeric(value)
                &&& m.value is Some && named(m.value->0@) == Some(value)
                &&& limit > 0
                &&& m.limit is Some ==> limit == m.limit->0
                &&& m.limit is None ==> limit == 100
            },
            Measure::DistinctCount { field } => {
                &&& m.kind@ == "distinct_count"@
                &&& m.field is Some && named(m.field->0@) == Some(field)
            },
            Measure::Entropy { field } => {
                &&& m.kind@ == "entropy"@
                &&& m.field is Some && named(m.field->0@) == Some(field)
            },
            Measure::Quantile { field, q } => {
                &&& m.kind@ == "quantile"@
                &&& is_numeric(field)
                &&& m.field is Some && named(m.field->0@) == Some(field)
                &&& m.q is Some ==> q == m.q->0
                &&& m.q is None ==> q.bits == 0x3FE0_0000_0000_0000
            },
        },
{
}

proof fn lemma_kinds_differ()
    ensures
        "count"@.len() == 5,
        "sum"@.len() == 3,
        "heavy_hitters"@.len() == 13,
        "distinct_count"@.len() == 14,
        "entropy"@.len() == 7,
        "quantile"@.len() == 8,
{
    reveal_strlit("count");
    reveal_strlit("sum");
    reveal_strlit("heavy_hitters");
    reveal_strlit("distinct_count");
    reveal_strlit("entropy");
    reveal_strlit("quantile");
}

/// Whether a measured field is named and numeric.
pub open spec fn names_number(s: Option<String>) -> bool {
    s is Some && (named(s->0@) == Some(Field::Bytes) || named(s->0@) == Some(Field::Packets))
}

/// Whether a measured field is named.
pub open spec fn names_field(s: Option<String>) -> bool {
    s is Some && named(s->0@) is Some
}

/// A measure with all that it needs is taken, whichever kind it is.
pub proof fn law_complete_measures_are_taken(m: RawMeasure)
    ensures
        m.kind@ == "count"@ ==> measure_meant(m) == Ok::<Measure, Seq<char>>(Measure::Count),
        m.kind@ == "sum"@ && (names_number(m.value) || m.value is None && names_number(m.field))
            ==> measure_meant(m) is Ok,
        m.kind@ == "heavy_hitters"@ && names_number(m.value) && m.limit != Some(0usize)
            ==> measure_meant(m) is Ok,
        m.kind@ == "distinct_count"@ && names_field(m.field) ==> measure_meant(m) is Ok,
        m.kind@ == "entropy"@ && names_field(m.field) ==> measure_meant(m) is Ok,
        m.kind@ == "quantile"@ && names_number(m.field) ==> measure_meant(m) is Ok,
{
    lemma_kinds_differ();
}

// ---------------------------------------------------------------------------
// Durations and sizes
// ---------------------------------------------------------------------------

proof fn lemma_trimmed_number(n: nat, unit: Seq<char>)
    requires
        unit.len() > 0,
        !is_digit(unit[0]),
        !is_space(unit.last()),
    ensures
        ({
            let s = dec(n) + unit;
            &&& trimmed(s) == s
            &&& leading_digits(s) == dec(n).len()
            &&& s.take(dec(n).len() as int) == dec(n)
            &&& s.skip(dec(n).len() as int) == unit
            &&& dec(n).len() < s.len()
            &&& n <= u64::MAX ==> parsed_number(dec(n), u64::MAX as nat) == Some(n)
        }),
{
    let s = dec(n) + unit;
    lemma_dec_digits(n);
    assert(is_digit(dec(n)[0]));
    assert(s[0] == dec(n)[0]);
    assert(s.last() == unit.last());
    lemma_leading_digits(dec(n), unit);
    assert(s.take(dec(n).len() as int) =~= dec(n));
    assert(s.skip(dec(n).len() as int) =~= unit);
    if n <= u64::MAX {
        law_decimal_round_trip(n, u64::MAX as nat);
    }
}

/// A number of a time unit is that many of its nanoseconds.
pub proof fn law_durations_are_scaled_by_their_unit(n: nat)
    requires
        n * 3_600_000_000_000 <= u64::MAX,
    ensures
        duration_meant(dec(n) + "ns"@) == Ok::<nat, Seq<char>>(n),
        duration_meant(dec(n) + "us"@) == Ok::<nat, Seq<char>>(n * 1_000),
        duration_meant(dec(n) + "ms"@) == Ok::<nat, Seq<char>>(n * 1_000_000),
        duration_meant(dec(n) + "s"@) == Ok::<nat, Seq<char>>(n * 1_000_000_000),
        duration_meant(dec(n) + "m"@) == Ok::<nat, Seq<char>>(n * 60 * 1_000_000_000),
        duration_meant(dec(n) + "h"@) == Ok::<nat, Seq<char>>(n * 60 * 60 * 1_000_000_000),
{
    reveal_strlit("ns");
    reveal_strlit("us");
    reveal_strlit("ms");
    reveal_strlit("s");
    reveal_strlit("m");
    reveal_strlit("h");
    assert("us"@[0] != "ns"@[0] && "ms"@[0] != "ns"@[0] && "ms"@[0] != "us"@[0]);
    assert("m"@[0] != "s"@[0] && "h"@[0] != "s"@[0] && "h"@[0] != "m"@[0]);
    assert(duration_scale("ns"@) == Some(1nat));
    assert(n * duration_scale("ns"@)->0 == n) by (nonlinear_arith)
        requires
            duration_scale("ns"@)->0 == 1,
    ;
    lemma_number_with_unit(n, "ns"@);
    lemma_trimmed_number(n, "us"@);
    lemma_trimmed_number(n, "ms"@);
    lemma_trimmed_number(n, "s"@);
    lemma_trimmed_number(n, "m"@);
    lemma_trimmed_number(n, "h"@);
}

/// A number of a memory unit is that many of its bytes.
pub proof fn law_sizes_are_scaled_by_their_unit(n: nat)
    requires
        n * 1_073_741_824 <= u64::MAX,
    ensures
        memory_meant(dec(n) + "B"@) == Ok::<nat, Seq<char>>(n),
        memory_meant(dec(n) + "KiB"@) == Ok::<nat, Seq<char>>(n * 1_024),
        memory_meant(dec(n) + "MiB"@) == Ok::<nat, Seq<char>>(n * 1_024 * 1_024),
        memory_meant(dec(n) + "GiB"@) == Ok::<nat, Seq<char>>(n * 1_024 * 1_024 * 1_024),
{
    reveal_strlit("B");
    reveal_strlit("KiB");
    reveal_strlit("MiB");
    reveal_strlit("GiB");
    assert("KiB"@[0] != "MiB"@[0] && "GiB"@[0] != "MiB"@[0] && "KiB"@[0] != "GiB"@[0]);
    lemma_trimmed_number(n, "B"@);
    lemma_trimmed_number(n, "KiB"@);
    lemma_trimmed_number(n, "MiB"@);
    lemma_trimmed_number(n, "GiB"@);
}

// ---------------------------------------------------------------------------
// The whole query
// ---------------------------------------------------------------------------

proof fn lemma_fields(names: Seq<String>)
    requires
        fields_meant(names) is Ok,
    ensures
        fields_meant(names)->Ok_0.len() == names.len(),
        forall|i: int|
            0 <= i < names.len() ==> named((#[trigger] names[i])@) == Some(
                fields_meant(names)->Ok_0[i],
            ),
    decreases names.len(),
{
    if names.len() > 0 {
        let head = names.drop_last();
        lemma_fields(head);
        assert forall|i: int| 0 <= i < names.len() implies named((#[trigger] names[i])@) == Some(
            fields_meant(names)->Ok_0[i],
        ) by {
            if i < head.len() {
                assert(head[i] == names[i]);
            }
        }
    }
}

/// A query that is taken keeps every part of its document: name, grouping in
/// its order, window, error, alert thresholds, export and memory budget are
/// the stated ones, and the documented defaults where nothing is stated.
pub proof fn law_query_is_as_stated(raw: RawQuery)
    requires
        query_meant(raw) is Ok,
    ensures
        ({
            let q = query_meant(raw)->Ok_0;
            &&& q.name == raw.name@
            &&& Ok::<Measure, Seq<char>>(q.measure) == measure_meant(raw.measure)
            &&& q.group_by.len() == raw.group_by@.len()
            &&& forall|i: int|
                0 <= i < q.group_by.len() ==> named((#[trigger] raw.group_by@[i])@) == Some(
                    q.group_by[i],
                )
        }),
        ({
            let q = query_meant(raw)->Ok_0;
            &&& duration_meant(raw.window.size@) == Ok::<nat, Seq<char>>(
                q.window.size_nanos as nat,
            )
            &&& raw.window.slide is Some ==> duration_meant(raw.window.slide->0@) == Ok::<
                nat,
                Seq<char>,
            >(q.window.slide_nanos as nat)
            &&& raw.window.slide is None ==> q.window.slide_nanos == q.window.size_nanos
        }),
        ({
            let q = query_meant(raw)->Ok_0;
            let e = raw.measure.error;
            &&& e is Some && e->0.epsilon is Some ==> q.error.epsilon == e->0.epsilon->0
            &&& e is Some && e->0.delta is Some ==> q.error.delta == e->0.delta->0
            &&& e is None || e->0.epsilon is None ==> q.error.epsilon.bits == (
            if raw.measure.kind@ == "distinct_count"@ {
                0x3F90_B0F2_7BB2_FEC5u64
            } else {
                0x3F50_624D_D2F1_A9FCu64
            })
            &&& e is None || e->0.delta is None ==> q.error.delta.bits == 0x3F84_7AE1_47AE_147Bu64
        }),
        ({
            let q = query_meant(raw)->Ok_0;
            &&& raw.alert_if is Some ==> q.alert.gt == raw.alert_if->0.gt && q.alert.lt
                == raw.alert_if->0.lt
            &&& raw.alert_if is None ==> q.alert.gt is None && q.alert.lt is None
            &&& raw.export is Some && raw.export->0.max_series is Some ==> q.export.max_series
                == raw.export->0.max_series->0
            &&& raw.export is None || raw.export->0.max_series is None ==> q.export.max_series
                == 1000
            &&& raw.export is Some && raw.export->0.prometheus is Some ==> q.export.prometheus
                == raw.export->0.prometheus->0
            &&& raw.export is None || raw.export->0.prometheus is None ==> q.export.prometheus
            &&& raw.resources is Some && raw.resources->0.max_memory is Some ==> memory_meant(
                raw.resources->0.max_memory->0@,
            ) == Ok::<nat, Seq<char>>(q.max_memory_bytes as nat)
            &&& raw.resources is None || raw.resources->0.max_memory is None ==> q.max_memory_bytes
                == 128 * 1_024 * 1_024
        }),
{
    lemma_fields(raw.group_by@);
}

/// An event passes the filter of a query if and only if it has the stated
/// protocol, one of the stated ports and one of the stated interfaces. What is
/// not stated restricts nothing.
pub proof fn law_filter_is_as_stated(raw: RawQuery, e: FlowEvent)
    requires
        query_meant(raw) is Ok,
    ensures
        ({
            let f = query_meant(raw)->Ok_0.filter;
            &&& raw.filter is None ==> f.passes(e)
            &&& raw.filter is Some ==> {
                let m = raw.filter->0;
                f.passes(e) <==> {
                    &&& match m.protocol {
                        None => true,
                        Some(RawProtocol::Name(s)) => protocol::meant(s@) == Some(e.protocol),
                        Some(RawProtocol::Number(n)) => n == Some(e.protocol as u64),
                        Some(RawProtocol::Other(_)) => false,
                    }
                    &&& match m.dst_port {
                        None => true,
                        Some(Ports::One(p)) => e.dst_port == p,
                        Some(Ports::Many(v)) => v@.len() == 0 || v@.contains(e.dst_port),
                    }
                    &&& match m.src_port {
                        None => true,
                        Some(Ports::One(p)) => e.src_port == p,
                        Some(Ports::Many(v)) => v@.len() == 0 || v@.contains(e.src_port),
                    }
                    &&& match m.interfaces {
                        None => true,
                        Some(v) => v@.len() == 0 || v@.contains(e.interface_index),
                    }
                }
            }
        }),
{
    if raw.filter is Some {
        let m = raw.filter->0;
        if let Some(Ports::One(p)) = m.dst_port {
            assert(seq![p].contains(e.dst_port) <==> e.dst_port == p) by {
                assert(seq![p][0] == p);
            }
        }
        if let Some(Ports::One(p)) = m.src_port {
            assert(seq![p].contains(e.src_port) <==> e.src_port == p) by {
                assert(seq![p][0] == p);
            }
        }
    }
}

/// A document is refused for its name only if the name is blank or holds
/// another character than letters, digits, underscores and hyphens.
pub proof fn law_plain_names_are_taken(name: Seq<char>)
    requires
        name.len() > 0,
        forall|i: int|
            0 <= i < name.len() ==> ({
                let c = #[trigger] name[i];
                'a' <= c <= 'z' || 'A' <= c <= 'Z' || '0' <= c <= '9' || c == '_' || c == '-'
            }),
    ensures
        name_fault(name) is None,
{
    assert(!is_space(name[0]));
    assert(!is_space(name[name.len() - 1]));
    assert(trimmed(name) == name);
}

proof fn lemma_known_fields(names: Seq<String>)
    requires
        forall|i: int| 0 <= i < names.len() ==> named((#[trigger] names[i])@) is Some,
    ensures
        fields_meant(names) is Ok,
    decreases names.len(),
{
    if names.len() > 0 {
        let head = names.drop_last();
        assert(named(names[names.len() - 1]@) is Some);
        assert forall|i: int| 0 <= i < head.len() implies named((#[trigger] head[i])@) is Some by {
            assert(head[i] == names[i]);
        }
        lemma_known_fields(head);
    }
}

/// A document without a fault is taken: a plain name, a window that its slide
/// divides, known fields, a filter that can be read, an error within the unit
/// interval, a complete measure that goes with the grouping, room for series
/// and a readable budget.
pub proof fn law_documents_without_fault_are_taken(raw: RawQuery, size: nat, slide: nat)
    requires
        name_fault(raw.name@) is None,
        duration_meant(raw.window.size@) == Ok::<nat, Seq<char>>(size),
        raw.window.slide is Some ==> duration_meant(raw.window.slide->0@) == Ok::<nat, Seq<char>>(
            slide,
        ),
        raw.window.slide is None ==> slide == size,
        0 < slide <= size,
        size % slide == 0,
        forall|i: int|
            0 <= i < raw.group_by@.len() ==> named((#[trigger] raw.group_by@[i])@) is Some,
        raw.filter is Some ==> match raw.filter->0.protocol {
            None => true,
            Some(RawProtocol::Name(s)) => protocol::meant(s@) is Some,
            Some(RawProtocol::Number(n)) => n is Some && n->0 <= 255,
            Some(RawProtocol::Other(_)) => false,
        },
        raw.measure.error is Some && raw.measure.error->0.epsilon is Some ==> 0
            < raw.measure.error->0.epsilon->0.bits < 0x3FF0_0000_0000_0000,
        raw.measure.error is Some && raw.measure.error->0.delta is Some ==> 0
            < raw.measure.error->0.delta->0.bits < 0x3FF0_0000_0000_0000,
        measure_meant(raw.measure) is Ok,
        measure_meant(raw.measure)->Ok_0 is HeavyHitters ==> raw.group_by@.len() > 0,
        measure_meant(raw.measure)->Ok_0 matches Measure::DistinctCount { field } ==> forall|i: int|
            0 <= i < raw.group_by@.len() ==> named((#[trigger] raw.group_by@[i])@) != Some(field),
        raw.export is Some ==> raw.export->0.max_series != Some(0usize),
        raw.resources is Some && raw.resources->0.max_memory is Some ==> memory_meant(
            raw.resources->0.max_memory->0@,
        ) is Ok,
    ensures
        query_meant(raw) is Ok,
{
    lemma_known_fields(raw.group_by@);
    lemma_fields(raw.group_by@);
    assert(raw.window.meant() is Ok);
    let fields = fields_meant(raw.group_by@)->Ok_0;
    if let Measure::DistinctCount { field } = measure_meant(raw.measure)->Ok_0 {
        if fields.contains(field) {
            let i = choose|i: int| 0 <= i < fields.len() && fields[i] == field;
            assert(named(raw.group_by@[i]@) == Some(field));
        }
    }
}

// ---------------------------------------------------------------------------
// Fields
// ---------------------------------------------------------------------------

/// Every field has its own name, and no other text names it.
pub proof fn law_names_mean_their_fields(s: Seq<char>)
    ensures
        named(s) == Some(Field::SrcIp) <==> s == "src.ip"@,
        named(s) == Some(Field::DstIp) <==> s == "dst.ip"@,
        named(s) == Some(Field::SrcPort) <==> s == "src.port"@,
        named(s) == Some(Field::DstPort) <==> s == "dst.port"@,
        named(s) == Some(Field::Protocol) <==> s == "protocol"@,
        named(s) == Some(Field::TcpFlags) <==> s == "tcp.flags"@,
        named(s) == Some(Field::Direction) <==> s == "direction"@,
        named(s) == Some(Field::Bytes) <==> s == "bytes"@,
        named(s) == Some(Field::Packets) <==> s == "packets"@,
        named(s) == Some(Field::InterfaceIndex) <==> s == "interface.index"@,
        named(s) == Some(Field::NodeId) <==> s == "node.id"@,
{
    crate::field::law_field_names_round_trip(Field::SrcIp);
    crate::field::law_field_names_round_trip(Field::DstIp);
    crate::field::law_field_names_round_trip(Field::SrcPort);
    crate::field::law_field_names_round_trip(Field::DstPort);
    crate::field::law_field_names_round_trip(Field::Protocol);
    crate::field::law_field_names_round_trip(Field::TcpFlags);
    crate::field::law_field_names_round_trip(Field::Direction);
    crate::field::law_field_names_round_trip(Field::Bytes);
    crate::field::law_field_names_round_trip(Field::Packets);
    crate::field::law_field_names_round_trip(Field::InterfaceIndex);
    crate::field::law_field_names_round_trip(Field::NodeId);
}

/// The value of a field is that part of the event: events that agree in it
/// have one value, whatever else they differ in, and a field that counts
/// something gives that number.
pub proof fn law_values_come_from_their_part(a: FlowEvent, b: FlowEvent)
    ensures
        Field::Bytes.value_number(a) == a.bytes,
        Field::Packets.value_number(a) == a.packets,
        Field::SrcPort.value_number(a) == a.src_port,
        Field::DstPort.value_number(a) == a.dst_port,
        Field::Protocol.value_number(a) == a.protocol,
        Field::TcpFlags.value_number(a) == a.tcp_flags,
        Field::InterfaceIndex.value_number(a) == a.interface_index,
        Field::NodeId.value_number(a) == a.node_id,
        Field::SrcIp.value_text(a) == a.src_ip.text(),
        Field::DstIp.value_text(a) == a.dst_ip.text(),
        Field::SrcPort.value_text(a) == dec(a.src_port as nat),
        Field::DstPort.value_text(a) == dec(a.dst_port as nat),
        Field::Bytes.value_text(a) == dec(a.bytes as nat),
        Field::Packets.value_text(a) == dec(a.packets as nat),
        Field::TcpFlags.value_text(a) == dec(a.tcp_flags as nat),
        Field::InterfaceIndex.value_text(a) == dec(a.interface_index as nat),
        Field::NodeId.value_text(a) == dec(a.node_id as nat),
        a.protocol == b.protocol ==> Field::Protocol.value_text(a) == Field::Protocol.value_text(b),
        a.direction == b.direction ==> Field::Direction.value_text(a)
            == Field::Direction.value_text(b),
{
}

/// The numbers that a protocol's name and number stand for.
pub proof fn law_protocols_mean_their_numbers(n: nat)
    ensures
        protocol::shown(1) == "icmp"@,
        protocol::shown(6) == "tcp"@,
        protocol::shown(17) == "udp"@,
        protocol::shown(58) == "icmpv6"@,
        n <= 255 && n != 1 && n != 6 && n != 17 && n != 58 ==> protocol::shown(n as u8) == dec(n),
{
}

// ---------------------------------------------------------------------------
// Alerts and errors
// ---------------------------------------------------------------------------

/// Whether the bits are those of a number that is not negative.
pub open spec fn is_plain(x: Float64) -> bool {
    x.bits <= 0x7FF0_0000_0000_0000
}

/// An alert fires above its upper threshold and below its lower one, and not
/// otherwise. Numbers that are not negative are ordered as their bits are.
pub proof fn law_alerts_fire_beyond_their_thresholds(a: AlertSpec, value: Float64)
    requires
        is_plain(value),
        a.gt is Some ==> is_plain(a.gt->0),
        a.lt is Some ==> is_plain(a.lt->0),
    ensures
        a.triggers(value) <==> (a.gt is Some && value.bits > a.gt->0.bits) || (a.lt is Some
            && value.bits < a.lt->0.bits),
{
}

/// The open and the closed unit interval, by the bits of a number.
pub proof fn law_unit_intervals(x: Float64)
    ensures
        x.in_open_unit() <==> 0 < x.bits < 0x3FF0_0000_0000_0000,
        x.in_closed_unit() <==> x.bits <= 0x3FF0_0000_0000_0000 || x.bits
            == 0x8000_0000_0000_0000,
{
}

/// A window is made of as many slides as fit into it.
pub proof fn law_buckets_make_up_the_window(w: WindowSpec)
    requires
        0 < w.slide_nanos <= w.size_nanos,
        w.size_nanos as nat % w.slide_nanos as nat == 0,
    ensures
        w.buckets() * w.slide_nanos == w.size_nanos,
{
    let a = w.size_nanos as int;
    let b = w.slide_nanos as int;
    vstd::arithmetic::div_mod::lemma_fundamental_div_mod(a, b);
    assert(a / b >= 1) by (nonlinear_arith)
        requires
            0 < b <= a,
    ;
    assert((a / b) * b == b * (a / b)) by (nonlinear_arith);
}

} // verus!
