//! How addresses are written.

use vstd::prelude::*;

use crate::ip::{
    digits, groups, groups_text, groups_value, hex, hex_char, is_longest_run, is_mapped,
    lemma_digits_len, longest_run, v4_text, v6_text, zero_run, IpAddr,
};
use crate::text::dec;

verus! {

/// An IPv4 address is written as its four octets, the highest first.
pub proof fn law_octets_are_written_in_order(a: u8, b: u8, c: u8, d: u8)
    ensures
        IpAddr::V4((a * 0x100_0000 + b * 0x1_0000 + c * 0x100 + d) as u32).text() == dec(a as nat)
            + seq!['.'] + dec(b as nat) + seq!['.'] + dec(c as nat) + seq!['.'] + dec(d as nat),
{
    let n = a * 0x100_0000 + b * 0x1_0000 + c * 0x100 + d;
    reveal_with_fuel(digits, 5);
    assert(n % 256 == d);
    assert(n / 256 == a * 0x1_0000 + b * 0x100 + c);
    assert(n / 256 % 256 == c);
    assert(n / 256 / 256 == a * 0x100 + b);
    assert(n / 256 / 256 % 256 == b);
    assert(n / 256 / 256 / 256 == a);
}

proof fn lemma_groups(g: Seq<u16>)
    ensures
        digits(groups_value(g), 65536, g.len()) == g.map_values(|x: u16| x as nat),
    decreases g.len(),
{
    let want = g.map_values(|x: u16| x as nat);
    if g.len() == 0 {
        assert(digits(groups_value(g), 65536, 0) =~= want);
    } else {
        let front = g.drop_last();
        let v = groups_value(front);
        let last = g.last() as nat;
        lemma_groups(front);
        assert((v * 65536 + last) / 65536 == v);
        assert((v * 65536 + last) % 65536 == last);
        assert(digits(groups_value(g), 65536, g.len()) =~= want);
    }
}

/// The groups of an address are those that it was made of.
pub proof fn law_groups_are_kept(g: Seq<u16>)
    requires
        g.len() == 8,
        groups_value(g) <= u128::MAX,
    ensures
        groups(groups_value(g) as u128) == g.map_values(|x: u16| x as nat),
{
    lemma_groups(g);
}

/// What a hexadecimal digit stands for.
pub open spec fn digit_of(c: char) -> int {
    if '0' <= c <= '9' {
        c as int - '0' as int
    } else {
        c as int - 'a' as int + 10
    }
}

/// The value of hexadecimal digits, the highest first.
pub open spec fn value_of(s: Seq<char>) -> int
    decreases s.len(),
{
    if s.len() == 0 {
        0
    } else {
        value_of(s.drop_last()) * 16 + digit_of(s.last())
    }
}

/// A number in hexadecimal has the value of the number, in digits and the
/// letters `a` to `f`, and does not begin with a zero but for zero itself.
pub proof fn law_hexadecimal_reads_back(n: nat)
    ensures
        value_of(hex(n)) == n,
        hex(n).len() > 0,
        forall|i: int|
            0 <= i < hex(n).len() ==> '0' <= #[trigger] hex(n)[i] <= '9' || 'a' <= hex(n)[i]
                <= 'f',
        n > 0 ==> hex(n)[0] != '0',
    decreases n,
{
    let d = n % 16;
    let c = hex_char(d);
    assert(digit_of(c) == d && ('0' <= c <= '9' || 'a' <= c <= 'f') && (d > 0 ==> c != '0')) by {
        if d < 10 {
            assert((48 + d) as char as int == 48 + d);
        } else {
            assert((87 + d) as char as int == 87 + d);
        }
    }
    reveal_with_fuel(value_of, 2);
    if n < 16 {
        assert(hex(n).drop_last() =~= Seq::<char>::empty());
    } else {
        law_hexadecimal_reads_back(n / 16);
        assert(hex(n).drop_last() =~= hex(n / 16));
        assert forall|i: int| 0 <= i < hex(n).len() implies '0' <= #[trigger] hex(n)[i] <= '9'
            || 'a' <= hex(n)[i] <= 'f' by {
            if i < hex(n / 16).len() {
                assert(hex(n)[i] == hex(n / 16)[i]);
            }
        }
        assert(hex(n)[0] == hex(n / 16)[0]);
    }
}

/// An address without two zero groups in a row is written group by group. One
/// that embeds an IPv4 address is written as such.
pub proof fn law_addresses_are_written_by_group(a: u128)
    ensures
        a / 0x1_0000_0000 == 0xFFFF ==> v6_text(a) == seq![':', ':', 'f', 'f', 'f', 'f', ':']
            + v4_text((a % 0x1_0000_0000) as u32),
        a / 0x1_0000_0000 != 0xFFFF && (forall|i: int|
            0 <= i < 7 ==> !(#[trigger] groups(a)[i] == 0 && groups(a)[i + 1] == 0)) ==> v6_text(a)
            == groups_text(groups(a)),
{
    let g = groups(a);
    lemma_digits_len(a as nat, 65536, 8);
    if !is_mapped(a) && (forall|i: int| 0 <= i < 7 ==> !(#[trigger] g[i] == 0 && g[i + 1] == 0)) {
        let (start, len) = longest_run(g);
        if len > 1 {
            lemma_some_run(g);
            assert(zero_run(g, start, len));
            assert(g[start] == 0 && g[start + 1] == 0);
        }
    }
}

/// There is a longest run: of the runs of zero groups, all within eight groups.
proof fn lemma_some_run(g: Seq<nat>)
    requires
        g.len() == 8,
    ensures
        is_longest_run(g, longest_run(g).0, longest_run(g).1),
{
    lemma_run_upto(g, 8);
}

/// Among the runs of at most `n` groups there is a longest and first one, or
/// a longer run.
proof fn lemma_run_upto(g: Seq<nat>, n: nat)
    requires
        g.len() == 8,
        n <= 8,
        forall|s: int, l: int| #[trigger] zero_run(g, s, l) ==> l <= n,
    ensures
        is_longest_run(g, longest_run(g).0, longest_run(g).1),
    decreases n,
{
    if exists|s: int| #[trigger] zero_run(g, s, n as int) {
        let s0 = choose|s: int| #[trigger] zero_run(g, s, n as int);
        lemma_first_run(g, n as int, s0);
    } else if n > 0 {
        assert forall|s: int, l: int| #[trigger] zero_run(g, s, l) implies l <= n - 1 by {
            if l == n {
                assert(zero_run(g, s, n as int));
            }
        }
        lemma_run_upto(g, (n - 1) as nat);
    } else {
        assert(zero_run(g, 0, 0));
    }
}

proof fn lemma_first_run(g: Seq<nat>, len: int, s: int)
    requires
        zero_run(g, s, len),
        forall|a: int, l: int| #[trigger] zero_run(g, a, l) ==> l <= len,
    ensures
        is_longest_run(g, longest_run(g).0, longest_run(g).1),
    decreases s,
{
    if exists|a: int| #[trigger] zero_run(g, a, len) && a < s {
        let a = choose|a: int| #[trigger] zero_run(g, a, len) && a < s;
        lemma_first_run(g, len, a);
    } else {
        let r = (s, len);
        assert(is_longest_run(g, r.0, r.1));
    }
}

} // verus!
