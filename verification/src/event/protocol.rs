//! IANA protocol numbers known by name.

use vstd::prelude::*;
use vstd::string::*;

use crate::text::{
    dec, decimal, is_digit, law_decimal_round_trip, lemma_dec_digits, lower_text, lowercase,
    parse_number, parsed_number, same_text,
};

verus! {

pub const ICMP: u8 = 1;

pub const TCP: u8 = 6;

pub const UDP: u8 = 17;

pub const ICMPV6: u8 = 58;

/// How a protocol number is shown: by name if it has one, else as the number.
pub open spec fn shown(proto: u8) -> Seq<char> {
    if proto == ICMP {
        "icmp"@
    } else if proto == TCP {
        "tcp"@
    } else if proto == UDP {
        "udp"@
    } else if proto == ICMPV6 {
        "icmpv6"@
    } else {
        dec(proto as nat)
    }
}

/// Which protocol number a text means: a name in any case, or a number.
pub open spec fn meant(s: Seq<char>) -> Option<u8> {
    let l = lower_text(s);
    if l == "icmp"@ {
        Some(ICMP)
    } else if l == "tcp"@ {
        Some(TCP)
    } else if l == "udp"@ {
        Some(UDP)
    } else if l == "icmpv6"@ {
        Some(ICMPV6)
    } else {
        match parsed_number(l, 255) {
            Some(n) => Some(n as u8),
            None => None,
        }
    }
}

/// Map a protocol number to a lowercase name, falling back to the number.
pub fn name(proto: u8) -> (r: String)
    ensures
        r@ == shown(proto),
{
    if proto == ICMP {
        "icmp".to_owned()
    } else if proto == TCP {
        "tcp".to_owned()
    } else if proto == UDP {
        "udp".to_owned()
    } else if proto == ICMPV6 {
        "icmpv6".to_owned()
    } else {
        decimal(proto as u64)
    }
}

/// Parse a protocol name or number.
pub fn parse(s: &str) -> (r: Option<u8>)
    ensures
        r == meant(s@),
{
    let l = lowercase(s);
    let t = l.as_str();
    if same_text(t, "icmp") {
        Some(ICMP)
    } else if same_text(t, "tcp") {
        Some(TCP)
    } else if same_text(t, "udp") {
        Some(UDP)
    } else if same_text(t, "icmpv6") {
        Some(ICMPV6)
    } else {
        match parse_number(t, 255) {
            Some(n) => Some(n as u8),
            None => None,
        }
    }
}

/// What is shown of a protocol number is read back as the number.
pub proof fn law_protocol_round_trip(proto: u8)
    ensures
        meant(shown(proto)) == Some(proto),
{
    reveal_strlit("icmp");
    reveal_strlit("tcp");
    reveal_strlit("udp");
    reveal_strlit("icmpv6");
    let s = shown(proto);
    if proto == ICMP || proto == TCP || proto == UDP || proto == ICMPV6 {
        assert(lower_text(s) =~= s);
        assert("icmp"@.len() == 4 && "tcp"@.len() == 3 && "udp"@.len() == 3 && "icmpv6"@.len()
            == 6);
        assert("tcp"@[0] != "udp"@[0]);
    } else {
        lemma_dec_digits(proto as nat);
        assert forall|i: int| 0 <= i < s.len() implies lower_text(s)[i] == s[i] by {
            assert(is_digit(s[i]));
        }
        assert(lower_text(s) =~= s);
        assert(is_digit(s[0]));
        assert(!is_digit("icmp"@[0]) && !is_digit("tcp"@[0]) && !is_digit("udp"@[0])
            && !is_digit("icmpv6"@[0]));
        law_decimal_round_trip(proto as nat, 255);
    }
}

} // verus!
