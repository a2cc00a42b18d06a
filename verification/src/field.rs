//! Logical dimensions of a flow event, addressable from queries by dotted
//! names (`src.ip`, `dst.port`, `protocol`, ...).

use vstd::prelude::*;
use vstd::string::*;
use vstd::utf8::*;

use crate::event::{protocol, Direction, FlowEvent};
use crate::ip::{all_address_chars, is_address_char, law_address_chars, lemma_dec_chars, IpAddr};
use crate::text::{
    ascii, chars_of, debug_text, dec, decimal, is_plain, lemma_plain_bytes, lossy_text, push_plain,
    quoted, same_text, text_from_utf8_lossy,
};

verus! {

/// A logical field of [`FlowEvent`] that queries can group by, filter on or
/// measure over.
#[derive(Debug, Clone, Copy, PartialEq, Eq, Structural)]
pub enum Field {
    SrcIp,
    DstIp,
    SrcPort,
    DstPort,
    Protocol,
    TcpFlags,
    Direction,
    Bytes,
    Packets,
    InterfaceIndex,
    NodeId,
}

/// Dots become underscores.
pub open spec fn undotted(s: Seq<char>) -> Seq<char> {
    s.map_values(
        |c: char|
            if c == '.' {
                '_'
            } else {
                c
            },
    )
}

/// The field that a text names.
pub open spec fn named(s: Seq<char>) -> Option<Field> {
    if s == "src.ip"@ {
        Some(Field::SrcIp)
    } else if s == "dst.ip"@ {
        Some(Field::DstIp)
    } else if s == "src.port"@ {
        Some(Field::SrcPort)
    } else if s == "dst.port"@ {
        Some(Field::DstPort)
    } else if s == "protocol"@ {
        Some(Field::Protocol)
    } else if s == "tcp.flags"@ {
        Some(Field::TcpFlags)
    } else if s == "direction"@ {
        Some(Field::Direction)
    } else if s == "bytes"@ {
        Some(Field::Bytes)
    } else if s == "packets"@ {
        Some(Field::Packets)
    } else if s == "interface.index"@ {
        Some(Field::InterfaceIndex)
    } else if s == "node.id"@ {
        Some(Field::NodeId)
    } else {
        None
    }
}

/// The refusal of a text that names no field.
pub open spec fn unknown_field(s: Seq<char>) -> Seq<char> {
    "unknown field "@ + debug_text(s)
        + "; known fields: src.ip, dst.ip, src.port, dst.port, protocol, tcp.flags, direction, bytes, packets, interface.index, node.id"@
}

impl Field {
    pub open spec fn text(self) -> Seq<char> {
        match self {
            Field::SrcIp => "src.ip"@,
            Field::DstIp => "dst.ip"@,
            Field::SrcPort => "src.port"@,
            Field::DstPort => "dst.port"@,
            Field::Protocol => "protocol"@,
            Field::TcpFlags => "tcp.flags"@,
            Field::Direction => "direction"@,
            Field::Bytes => "bytes"@,
            Field::Packets => "packets"@,
            Field::InterfaceIndex => "interface.index"@,
            Field::NodeId => "node.id"@,
        }
    }

    /// The value of the field in an event, as shown to people and as used in
    /// keys.
    pub open spec fn value_text(self, e: FlowEvent) -> Seq<char> {
        match self {
            Field::SrcIp => e.src_ip.text(),
            Field::DstIp => e.dst_ip.text(),
            Field::SrcPort => dec(e.src_port as nat),
            Field::DstPort => dec(e.dst_port as nat),
            Field::Protocol => protocol::shown(e.protocol),
            Field::TcpFlags => dec(e.tcp_flags as nat),
            Field::Direction => e.direction.text(),
            Field::Bytes => dec(e.bytes as nat),
            Field::Packets => dec(e.packets as nat),
            Field::InterfaceIndex => dec(e.interface_index as nat),
            Field::NodeId => dec(e.node_id as nat),
        }
    }

    /// The value of the field in an event as a number.
    pub open spec fn value_number(self, e: FlowEvent) -> u64 {
        match self {
            Field::Bytes => e.bytes as u64,
            Field::Packets => e.packets as u64,
            Field::SrcPort => e.src_port as u64,
            Field::DstPort => e.dst_port as u64,
            Field::Protocol => e.protocol as u64,
            Field::TcpFlags => e.tcp_flags as u64,
            Field::InterfaceIndex => e.interface_index as u64,
            Field::NodeId => e.node_id,
            Field::SrcIp => 0,
            Field::DstIp => 0,
            Field::Direction => 0,
        }
    }

    pub fn name(self) -> (r: &'static str)
        ensures
            r@ == self.text(),
    {
        match self {
            Field::SrcIp => "src.ip",
            Field::DstIp => "dst.ip",
            Field::SrcPort => "src.port",
            Field::DstPort => "dst.port",
            Field::Protocol => "protocol",
            Field::TcpFlags => "tcp.flags",
            Field::Direction => "direction",
            Field::Bytes => "bytes",
            Field::Packets => "packets",
            Field::InterfaceIndex => "interface.index",
            Field::NodeId => "node.id",
        }
    }

    /// A Prometheus-safe label name for this field (`src.ip` -> `src_ip`).
    pub fn label_name(self) -> (r: String)
        ensures
            r@ == undotted(self.text()),
    {
        let chars = chars_of(self.name());
        let mut out = String::new();
        let mut i: usize = 0;
        while i < chars.len()
            invariant
                chars@ == self.text(),
                i <= chars@.len(),
                out@ == undotted(chars@).take(i as int),
            decreases chars@.len() - i,
        {
            let c: char = if chars[i] == '.' {
                '_'
            } else {
                chars[i]
            };
            out.push(c);
            assert(out@ =~= undotted(chars@).take(i + 1));
            i += 1;
        }
        assert(out@ =~= undotted(chars@));
        out
    }

    /// Whether the field is usable as the value of `sum` or `heavy_hitters`.
    pub fn is_numeric_measure(self) -> (r: bool)
        ensures
            r == (self == Field::Bytes || self == Field::Packets),
    {
        match self {
            Field::Bytes => true,
            Field::Packets => true,
            _ => false,
        }
    }

    /// This field's display value. Display values are also the canonical key
    /// encoding: stable, self-describing, mergeable across nodes.
    pub fn extract(self, e: &FlowEvent) -> (r: String)
        ensures
            r@ == self.value_text(*e),
    {
        match self {
            Field::SrcIp => e.src_ip.to_string(),
            Field::DstIp => e.dst_ip.to_string(),
            Field::SrcPort => decimal(e.src_port as u64),
            Field::DstPort => decimal(e.dst_port as u64),
            Field::Protocol => protocol::name(e.protocol),
            Field::TcpFlags => decimal(e.tcp_flags as u64),
            Field::Direction => e.direction.name().to_owned(),
            Field::Bytes => decimal(e.bytes as u64),
            Field::Packets => decimal(e.packets as u64),
            Field::InterfaceIndex => decimal(e.interface_index as u64),
            Field::NodeId => decimal(e.node_id),
        }
    }

    /// This field as a numeric measure value.
    pub fn extract_value(self, e: &FlowEvent) -> (r: u64)
        ensures
            r == self.value_number(*e),
    {
        match self {
            Field::Bytes => e.bytes as u64,
            Field::Packets => e.packets as u64,
            Field::SrcPort => e.src_port as u64,
            Field::DstPort => e.dst_port as u64,
            Field::Protocol => e.protocol as u64,
            Field::TcpFlags => e.tcp_flags as u64,
            Field::InterfaceIndex => e.interface_index as u64,
            Field::NodeId => e.node_id,
            Field::SrcIp => 0,
            Field::DstIp => 0,
            Field::Direction => 0,
        }
    }

    /// The field with the given name.
    pub fn from_str(s: &str) -> (r: Result<Field, String>)
        ensures
            match named(s@) {
                Some(f) => r == Ok::<Field, String>(f),
                None => r matches Err(m) && m@ == unknown_field(s@),
            },
    {
        if same_text(s, "src.ip") {
            Ok(Field::SrcIp)
        } else if same_text(s, "dst.ip") {
            Ok(Field::DstIp)
        } else if same_text(s, "src.port") {
            Ok(Field::SrcPort)
        } else if same_text(s, "dst.port") {
            Ok(Field::DstPort)
        } else if same_text(s, "protocol") {
            Ok(Field::Protocol)
        } else if same_text(s, "tcp.flags") {
            Ok(Field::TcpFlags)
        } else if same_text(s, "direction") {
            Ok(Field::Direction)
        } else if same_text(s, "bytes") {
            Ok(Field::Bytes)
        } else if same_text(s, "packets") {
            Ok(Field::Packets)
        } else if same_text(s, "interface.index") {
            Ok(Field::InterfaceIndex)
        } else if same_text(s, "node.id") {
            Ok(Field::NodeId)
        } else {
            let mut message = "unknown field ".to_owned();
            message.append(quoted(s).as_str());
            message.append(
                "; known fields: src.ip, dst.ip, src.port, dst.port, protocol, tcp.flags, direction, bytes, packets, interface.index, node.id",
            );
            Err(message)
        }
    }
}

// ---------------------------------------------------------------------------
// Group keys
// ---------------------------------------------------------------------------

/// Separator of the fields in a group key (ASCII unit separator).
pub const GROUP_KEY_SEP: u8 = 0x1F;

/// The canonical bytes of a field's value.
pub open spec fn value_bytes(f: Field, e: FlowEvent) -> Seq<u8> {
    ascii(f.value_text(e))
}

/// The values of some fields, with the separator between them.
pub open spec fn key_bytes(fields: Seq<Field>, e: FlowEvent) -> Seq<u8>
    decreases fields.len(),
{
    if fields.len() == 0 {
        Seq::empty()
    } else if fields.len() == 1 {
        value_bytes(fields[0], e)
    } else {
        key_bytes(fields.drop_last(), e).push(GROUP_KEY_SEP) + value_bytes(fields.last(), e)
    }
}

/// Encode the group-by key of `fields` for `event` into stable bytes.
pub fn group_key(fields: &[Field], event: &FlowEvent) -> (r: Vec<u8>)
    ensures
        r@ == key_bytes(fields@, *event),
{
    let mut out: Vec<u8> = Vec::new();
    group_key_into(fields, event, &mut out);
    out
}

/// Encode the group-by key of `fields` into a caller-owned buffer, whose
/// content it replaces.
pub fn group_key_into(fields: &[Field], event: &FlowEvent, out: &mut Vec<u8>)
    ensures
        final(out)@ == key_bytes(fields@, *event),
{
    out.clear();
    let mut i: usize = 0;
    assert(fields@.take(0) =~= Seq::<Field>::empty());
    while i < fields.len()
        invariant
            i <= fields@.len(),
            out@ == key_bytes(fields@.take(i as int), *event),
        decreases fields@.len() - i,
    {
        proof {
            assert(fields@.take(i + 1).drop_last() =~= fields@.take(i as int));
            assert(fields@.take(i + 1).last() == fields@[i as int]);
            if i == 0 {
                assert(fields@.take(1)[0] == fields@[0]);
            }
        }
        if i > 0 {
            out.push(GROUP_KEY_SEP);
        }
        field_value_into(fields[i], event, out);
        proof {
            if i == 0 {
                assert(out@ =~= value_bytes(fields@[0], *event));
            }
        }
        i += 1;
    }
    assert(fields@.take(i as int) =~= fields@);
}

/// Append one field's canonical display value to a caller-owned buffer.
pub fn field_value_into(field: Field, event: &FlowEvent, out: &mut Vec<u8>)
    ensures
        final(out)@ == old(out)@ + value_bytes(field, *event),
{
    match field {
        Field::SrcIp => append_ip(out, event.src_ip),
        Field::DstIp => append_ip(out, event.dst_ip),
        Field::SrcPort => append_decimal(out, event.src_port as u64),
        Field::DstPort => append_decimal(out, event.dst_port as u64),
        Field::Protocol => {
            proof {
                lemma_value_plain(field, *event);
            }
            push_plain(out, protocol::name(event.protocol).as_str());
        },
        Field::TcpFlags => append_decimal(out, event.tcp_flags as u64),
        Field::Direction => {
            proof {
                lemma_value_plain(field, *event);
            }
            push_plain(out, event.direction.name());
        },
        Field::Bytes => append_decimal(out, event.bytes as u64),
        Field::Packets => append_decimal(out, event.packets as u64),
        Field::InterfaceIndex => append_decimal(out, event.interface_index as u64),
        Field::NodeId => append_decimal(out, event.node_id),
    }
}

fn append_ip(out: &mut Vec<u8>, ip: IpAddr)
    ensures
        final(out)@ == old(out)@ + ascii(ip.text()),
{
    let text = ip.to_string();
    proof {
        law_address_chars(ip);
        lemma_address_plain(ip.text());
    }
    push_plain(out, text.as_str());
}

fn append_decimal(out: &mut Vec<u8>, value: u64)
    ensures
        final(out)@ == old(out)@ + ascii(dec(value as nat)),
    decreases value,
{
    if value >= 10 {
        append_decimal(out, value / 10);
    }
    out.push(48u8 + (value % 10) as u8);
    assert(out@ =~= old(out)@ + ascii(dec(value as nat)));
}

/// Decode a group key back into per-field values: the parts between the
/// separators.
pub open spec fn key_parts(key: Seq<u8>) -> Seq<Seq<u8>>
    decreases key.len(),
{
    if key.len() == 0 {
        seq![Seq::empty()]
    } else {
        let parts = key_parts(key.drop_last());
        if key.last() == GROUP_KEY_SEP {
            parts.push(Seq::empty())
        } else {
            parts.drop_last().push(parts.last().push(key.last()))
        }
    }
}

/// Decode a group key produced by [`group_key`] back into per-field values.
pub fn split_group_key(key: &[u8]) -> (r: Vec<String>)
    ensures
        key@.len() == 0 ==> r@.len() == 0,
        key@.len() > 0 ==> r@.len() == key_parts(key@).len(),
        forall|i: int|
            0 <= i < r@.len() ==> (#[trigger] r@[i])@ == lossy_text(key_parts(key@)[i]),
        forall|i: int|
            0 <= i < r@.len() && valid_utf8(key_parts(key@)[i]) ==> (#[trigger] r@[i])@
                == decode_utf8(key_parts(key@)[i]),
{
    let mut out: Vec<String> = Vec::new();
    if key.len() == 0 {
        return out;
    }
    let mut part: Vec<u8> = Vec::new();
    let mut i: usize = 0;
    assert(key@.take(0) =~= Seq::<u8>::empty());
    while i < key.len()
        invariant
            i <= key@.len(),
            key_parts(key@.take(i as int)).len() == out@.len() + 1,
            key_parts(key@.take(i as int)).last() == part@,
            forall|j: int|
                0 <= j < out@.len() ==> (#[trigger] out@[j])@ == lossy_text(
                    key_parts(key@.take(i as int))[j],
                ),
            forall|j: int|
                0 <= j < out@.len() && valid_utf8(key_parts(key@.take(i as int))[j]) ==> (
                #[trigger] out@[j])@ == decode_utf8(key_parts(key@.take(i as int))[j]),
        decreases key@.len() - i,
    {
        let b: u8 = key[i];
        let ghost before = key_parts(key@.take(i as int));
        let ghost known = out@;
        proof {
            assert(key@.take(i + 1).drop_last() =~= key@.take(i as int));
            assert(key@.take(i + 1).last() == b);
        }
        if b == GROUP_KEY_SEP {
            out.push(text_from_utf8_lossy(part.as_slice()));
            part.clear();
            assert(part@ =~= Seq::<u8>::empty());
        } else {
            part.push(b);
        }
        proof {
            let after = key_parts(key@.take(i + 1));
            assert forall|j: int| 0 <= j < out@.len() implies (#[trigger] out@[j])@ == lossy_text(
                after[j],
            ) && (valid_utf8(after[j]) ==> out@[j]@ == decode_utf8(after[j])) by {
                if j < known.len() {
                    assert(out@[j] == known[j]);
                    assert(after[j] == before[j]);
                }
            }
        }
        i += 1;
    }
    out.push(text_from_utf8_lossy(part.as_slice()));
    assert(key@.take(i as int) =~= key@);
    out
}

// ---------------------------------------------------------------------------
// Laws
// ---------------------------------------------------------------------------

/// A field's name is read back as the field.
pub proof fn law_field_names_round_trip(f: Field)
    ensures
        named(f.text()) == Some(f),
{
    reveal_strlit("src.ip");
    reveal_strlit("dst.ip");
    reveal_strlit("src.port");
    reveal_strlit("dst.port");
    reveal_strlit("protocol");
    reveal_strlit("tcp.flags");
    reveal_strlit("direction");
    reveal_strlit("bytes");
    reveal_strlit("packets");
    reveal_strlit("interface.index");
    reveal_strlit("node.id");
    assert("src.ip"@.len() == 6 && "dst.ip"@.len() == 6);
    assert("src.port"@.len() == 8 && "dst.port"@.len() == 8 && "protocol"@.len() == 8);
    assert("tcp.flags"@.len() == 9 && "direction"@.len() == 9);
    assert("bytes"@.len() == 5 && "packets"@.len() == 7 && "node.id"@.len() == 7);
    assert("interface.index"@.len() == 15);
    assert("src.ip"@[0] != "dst.ip"@[0]);
    assert("src.port"@[0] != "dst.port"@[0]);
    assert("src.port"@[0] != "protocol"@[0]);
    assert("dst.port"@[0] != "protocol"@[0]);
    assert("tcp.flags"@[0] != "direction"@[0]);
    assert("packets"@[0] != "node.id"@[0]);
}

proof fn lemma_address_plain(s: Seq<char>)
    requires
        all_address_chars(s),
    ensures
        is_plain(s),
        forall|i: int| 0 <= i < s.len() ==> ascii(s)[i] != GROUP_KEY_SEP,
{
    assert forall|i: int| 0 <= i < s.len() implies '\0' <= #[trigger] s[i] <= '\u{7f}' by {
        assert(is_address_char(s[i]));
    }
    assert forall|i: int| 0 <= i < s.len() implies ascii(s)[i] != GROUP_KEY_SEP by {
        assert(is_address_char(s[i]));
    }
}

/// Field values are not empty, are plain ASCII, and do not hold the separator.
pub proof fn lemma_value_plain(f: Field, e: FlowEvent)
    ensures
        is_plain(f.value_text(e)),
        f.value_text(e).len() > 0,
        forall|i: int|
            0 <= i < value_bytes(f, e).len() ==> #[trigger] value_bytes(f, e)[i] != GROUP_KEY_SEP,
{
    reveal_strlit("icmp");
    reveal_strlit("tcp");
    reveal_strlit("udp");
    reveal_strlit("icmpv6");
    reveal_strlit("ingress");
    reveal_strlit("egress");
    reveal_strlit("unknown");
    law_address_chars(e.src_ip);
    law_address_chars(e.dst_ip);
    lemma_address_plain(e.src_ip.text());
    lemma_address_plain(e.dst_ip.text());
    lemma_number_plain(e.src_port as nat);
    lemma_number_plain(e.dst_port as nat);
    lemma_number_plain(e.protocol as nat);
    lemma_number_plain(e.tcp_flags as nat);
    lemma_number_plain(e.bytes as nat);
    lemma_number_plain(e.packets as nat);
    lemma_number_plain(e.interface_index as nat);
    lemma_number_plain(e.node_id as nat);
}

proof fn lemma_number_plain(n: nat)
    ensures
        is_plain(dec(n)),
        dec(n).len() > 0,
        forall|i: int| 0 <= i < dec(n).len() ==> ascii(dec(n))[i] != GROUP_KEY_SEP,
{
    lemma_dec_chars(n);
    lemma_address_plain(dec(n));
}

/// Bytes without separators join the last part.
proof fn lemma_parts_extend(key: Seq<u8>, more: Seq<u8>)
    requires
        forall|i: int| 0 <= i < more.len() ==> #[trigger] more[i] != GROUP_KEY_SEP,
    ensures
        key_parts(key).len() > 0,
        key_parts(key + more) == key_parts(key).drop_last().push(key_parts(key).last() + more),
    decreases more.len(),
{
    lemma_parts_nonempty(key);
    if more.len() == 0 {
        assert(key + more =~= key);
        assert(key_parts(key).last() + more =~= key_parts(key).last());
        assert(key_parts(key) =~= key_parts(key).drop_last().push(key_parts(key).last()));
    } else {
        let front = more.drop_last();
        lemma_parts_extend(key, front);
        assert((key + more).drop_last() =~= key + front);
        assert((key + more).last() == more.last());
        assert(more[more.len() - 1] != GROUP_KEY_SEP);
        let p = key_parts(key + front);
        assert(p.drop_last() =~= key_parts(key).drop_last());
        assert((key_parts(key).last() + front).push(more.last()) =~= key_parts(key).last() + more);
    }
}

proof fn lemma_parts_nonempty(key: Seq<u8>)
    ensures
        key_parts(key).len() > 0,
    decreases key.len(),
{
    if key.len() > 0 {
        lemma_parts_nonempty(key.drop_last());
    }
}

/// Splitting a group key gives the values of its fields, one by one.
pub proof fn law_group_key_round_trip(fields: Seq<Field>, e: FlowEvent)
    requires
        fields.len() > 0,
    ensures
        key_bytes(fields, e).len() > 0,
        key_parts(key_bytes(fields, e)).len() == fields.len(),
        forall|i: int|
            0 <= i < fields.len() ==> {
                let part = #[trigger] key_parts(key_bytes(fields, e))[i];
                &&& part == value_bytes(fields[i], e)
                &&& valid_utf8(part)
                &&& decode_utf8(part) == fields[i].value_text(e)
            },
    decreases fields.len(),
{
    let last = fields.last();
    lemma_value_plain(last, e);
    lemma_plain_bytes(last.value_text(e));
    let v = value_bytes(last, e);
    if fields.len() == 1 {
        let none = Seq::<u8>::empty();
        lemma_parts_extend(none, v);
        assert(none + v =~= v);
        assert(key_parts(none) =~= seq![Seq::<u8>::empty()]);
        assert(key_parts(v) =~= seq![v]);
    } else {
        let front = fields.drop_last();
        law_group_key_round_trip(front, e);
        let head = key_bytes(front, e);
        let mid = head.push(GROUP_KEY_SEP);
        assert(mid.drop_last() =~= head);
        lemma_parts_extend(mid, v);
        assert(key_parts(mid) =~= key_parts(head).push(Seq::empty()));
        assert(Seq::<u8>::empty() + v =~= v);
        assert(key_parts(key_bytes(fields, e)) =~= key_parts(head).push(v));
        assert forall|i: int| 0 <= i < fields.len() implies {
            let part = #[trigger] key_parts(key_bytes(fields, e))[i];
            &&& part == value_bytes(fields[i], e)
            &&& valid_utf8(part)
            &&& decode_utf8(part) == fields[i].value_text(e)
        } by {
            if i < front.len() {
                assert(front[i] == fields[i]);
                assert(key_parts(head)[i] == value_bytes(front[i], e));
            }
        }
    }
}

/// Equal keys mean equal values of every field.
pub proof fn law_group_key_tells_values_apart(fields: Seq<Field>, a: FlowEvent, b: FlowEvent, i: int)
    requires
        key_bytes(fields, a) == key_bytes(fields, b),
        0 <= i < fields.len(),
    ensures
        fields[i].value_text(a) == fields[i].value_text(b),
{
    law_group_key_round_trip(fields, a);
    law_group_key_round_trip(fields, b);
    assert(key_parts(key_bytes(fields, a))[i] == key_parts(key_bytes(fields, b))[i]);
}

} // verus!
