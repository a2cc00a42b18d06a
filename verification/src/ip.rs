//! Internet addresses and their text form.

use vstd::prelude::*;
use vstd::string::*;

use crate::text::{dec, lemma_dec_digits, push_decimal};

verus! {

/// An IPv4 or IPv6 address, as a number of 32 or 128 bits.
#[derive(Debug, Clone, Copy, PartialEq, Eq, Structural)]
pub enum IpAddr {
    V4(u32),
    V6(u128),
}

/// The `n` low digits of a number, most significant first.
pub open spec fn digits(a: nat, base: nat, n: nat) -> Seq<nat>
    decreases n,
{
    if n == 0 {
        Seq::empty()
    } else {
        digits(a / base, base, (n - 1) as nat).push(a % base)
    }
}

/// The `n` low digits of a number, most significant first.
fn digits_of(a: u128, base: u128, n: usize) -> (r: Vec<u16>)
    requires
        0 < base <= 65536,
    ensures
        r@.map_values(|x: u16| x as nat) == digits(a as nat, base as nat, n as nat),
        r@.len() == n,
    decreases n,
{
    if n == 0 {
        let r: Vec<u16> = Vec::new();
        assert(r@.map_values(|x: u16| x as nat) =~= digits(a as nat, base as nat, 0));
        return r;
    }
    let mut r = digits_of(a / base, base, n - 1);
    let ghost before = r@;
    r.push((a % base) as u16);
    assert(r@.map_values(|x: u16| x as nat) =~= before.map_values(|x: u16| x as nat).push(
        a as nat % base as nat,
    ));
    r
}

/// A hexadecimal digit in lower case.
pub open spec fn hex_char(d: nat) -> char {
    if d < 10 {
        (48 + d) as char
    } else {
        (87 + d) as char
    }
}

/// A number in hexadecimal, without leading zeros.
pub open spec fn hex(n: nat) -> Seq<char>
    decreases n,
{
    if n < 16 {
        seq![hex_char(n)]
    } else {
        hex(n / 16).push(hex_char(n % 16))
    }
}

/// Texts one after the other, with `sep` between them.
pub open spec fn separated(parts: Seq<Seq<char>>, sep: Seq<char>) -> Seq<char>
    decreases parts.len(),
{
    if parts.len() == 0 {
        Seq::empty()
    } else if parts.len() == 1 {
        parts[0]
    } else {
        separated(parts.drop_last(), sep) + sep + parts.last()
    }
}

/// Four octets in decimal.
pub open spec fn v4_text(a: u32) -> Seq<char> {
    let o = digits(a as nat, 256, 4);
    dec(o[0]) + seq!['.'] + dec(o[1]) + seq!['.'] + dec(o[2]) + seq!['.'] + dec(o[3])
}

/// The eight 16-bit groups of an address.
pub open spec fn groups(a: u128) -> Seq<nat> {
    digits(a as nat, 65536, 8)
}

/// `len` zero groups from `start` on.
pub open spec fn zero_run(g: Seq<nat>, start: int, len: int) -> bool {
    &&& 0 <= start
    &&& 0 <= len
    &&& start + len <= g.len()
    &&& forall|i: int| start <= i < start + len ==> #[trigger] g[i] == 0
}

/// The longest run of zero groups, and the first of that length.
pub open spec fn is_longest_run(g: Seq<nat>, start: int, len: int) -> bool {
    &&& zero_run(g, start, len)
    &&& forall|a: int, l: int| #[trigger]
        zero_run(g, a, l) ==> l < len || (l == len && start <= a)
}

pub open spec fn longest_run(g: Seq<nat>) -> (int, int) {
    choose|r: (int, int)| is_longest_run(g, r.0, r.1)
}

/// Groups in hexadecimal, with colons between them.
pub open spec fn groups_text(g: Seq<nat>) -> Seq<char> {
    separated(g.map_values(|n: nat| hex(n)), seq![':'])
}

/// Whether the address embeds an IPv4 address in its low 32 bits.
pub open spec fn is_mapped(a: u128) -> bool {
    a / 0x1_0000_0000 == 0xFFFF
}

/// An embedded IPv4 address in decimal; otherwise groups in hexadecimal, where
/// the longest run of two or more zero groups is left out between two colons.
pub open spec fn v6_text(a: u128) -> Seq<char> {
    let g = groups(a);
    let (start, len) = longest_run(g);
    if is_mapped(a) {
        seq![':', ':', 'f', 'f', 'f', 'f', ':'] + v4_text((a % 0x1_0000_0000) as u32)
    } else if len > 1 {
        groups_text(g.take(start)) + seq![':', ':'] + groups_text(g.skip(start + len))
    } else {
        groups_text(g)
    }
}

impl IpAddr {
    /// An IPv4 address from its octets.
    pub fn v4(a: u8, b: u8, c: u8, d: u8) -> (r: Self)
        ensures
            r == IpAddr::V4((a * 0x100_0000 + b * 0x1_0000 + c * 0x100 + d) as u32),
    {
        IpAddr::V4(
            (a as u32) * 0x100_0000 + (b as u32) * 0x1_0000 + (c as u32) * 0x100 + (d as u32),
        )
    }

    /// An IPv6 address from its groups.
    pub fn v6(groups: [u16; 8]) -> (r: Self)
        ensures
            r == IpAddr::V6(groups_value(groups@) as u128),
            groups_value(groups@) <= u128::MAX,
    {
        proof {
            lemma_groups_value(groups@);
        }
        let mut a: u128 = 0;
        let mut i: usize = 0;
        assert(groups@.take(0) =~= Seq::<u16>::empty());
        while i < 8
            invariant
                i <= 8,
                a == groups_value(groups@.take(i as int)),
            decreases 8 - i,
        {
            proof {
                lemma_groups_value(groups@.take(i as int));
                assert(groups@.take(i + 1).drop_last() =~= groups@.take(i as int));
                lemma_groups_bound(i as nat);
            }
            a = a * 65536 + groups[i] as u128;
            i += 1;
        }
        assert(groups@.take(8) =~= groups@);
        IpAddr::V6(a)
    }

    /// The text form of the address.
    pub open spec fn text(self) -> Seq<char> {
        match self {
            IpAddr::V4(a) => v4_text(a),
            IpAddr::V6(a) => v6_text(a),
        }
    }

    /// The text form of the address.
    pub fn to_string(&self) -> (r: String)
        ensures
            r@ == self.text(),
    {
        let mut out = String::new();
        self.append_to(&mut out);
        assert(out@ =~= self.text());
        out
    }

    /// Append the text form of the address.
    pub fn append_to(&self, out: &mut String)
        ensures
            final(out)@ == old(out)@ + self.text(),
    {
        match self {
            IpAddr::V4(a) => push_v4(out, *a),
            IpAddr::V6(a) => push_v6(out, *a),
        }
    }
}

/// The value of groups, most significant first.
pub open spec fn groups_value(g: Seq<u16>) -> nat
    decreases g.len(),
{
    if g.len() == 0 {
        0
    } else {
        groups_value(g.drop_last()) * 65536 + g.last() as nat
    }
}

spec fn group_power(n: nat) -> nat
    decreases n,
{
    if n == 0 {
        1
    } else {
        group_power((n - 1) as nat) * 65536
    }
}

proof fn lemma_groups_value(g: Seq<u16>)
    ensures
        groups_value(g) < group_power(g.len()),
        group_power(8) == 0x1_0000_0000_0000_0000_0000_0000_0000_0000,
    decreases g.len(),
{
    reveal_with_fuel(group_power, 9);
    if g.len() > 0 {
        lemma_groups_value(g.drop_last());
    }
}

proof fn lemma_groups_bound(n: nat)
    requires
        n < 8,
    ensures
        group_power(n) * 65536 <= 0x1_0000_0000_0000_0000_0000_0000_0000_0000,
{
    reveal_with_fuel(group_power, 9);
}

fn push_v4(out: &mut String, a: u32)
    ensures
        final(out)@ == old(out)@ + v4_text(a),
{
    let o = digits_of(a as u128, 256, 4);
    let ghost d = digits(a as nat, 256, 4);
    assert(d[0] == o@[0] as nat && d[1] == o@[1] as nat && d[2] == o@[2] as nat && d[3]
        == o@[3] as nat);
    push_decimal(out, o[0] as u64);
    out.push('.');
    push_decimal(out, o[1] as u64);
    out.push('.');
    push_decimal(out, o[2] as u64);
    out.push('.');
    push_decimal(out, o[3] as u64);
    assert(out@ =~= old(out)@ + v4_text(a));
}

/// Append a number in hexadecimal.
pub fn push_hex(out: &mut String, n: u64)
    ensures
        final(out)@ == old(out)@ + hex(n as nat),
    decreases n,
{
    if n >= 16 {
        push_hex(out, n / 16);
    }
    let d: u8 = (n % 16) as u8;
    let c: char = if d < 10 {
        (48u8 + d) as char
    } else {
        (87u8 + d) as char
    };
    out.push(c);
    assert(out@ =~= old(out)@ + hex(n as nat));
}

fn push_groups(out: &mut String, g: &Vec<u16>, from: usize, to: usize)
    requires
        from <= to <= g@.len(),
    ensures
        final(out)@ == old(out)@ + groups_text(
            g@.map_values(|x: u16| x as nat).subrange(from as int, to as int),
        ),
{
    let ghost part = g@.map_values(|x: u16| x as nat).subrange(from as int, to as int);
    let ghost parts = part.map_values(|n: nat| hex(n));
    let mut i: usize = from;
    assert(parts.take(0) =~= Seq::<Seq<char>>::empty());
    assert(old(out)@ + separated(parts.take(0), seq![':']) =~= old(out)@);
    while i < to
        invariant
            from <= i <= to <= g@.len(),
            part == g@.map_values(|x: u16| x as nat).subrange(from as int, to as int),
            parts == part.map_values(|n: nat| hex(n)),
            out@ == old(out)@ + separated(parts.take(i - from), seq![':']),
        decreases to - i,
    {
        let ghost n = i - from;
        let ghost before = out@;
        if i > from {
            out.push(':');
        }
        push_hex(out, g[i] as u64);
        proof {
            assert(parts[n] == hex(g@[i as int] as nat));
            assert(parts.take(n + 1).drop_last() =~= parts.take(n));
            assert(parts.take(n + 1).last() == parts[n]);
            assert(out@ =~= old(out)@ + separated(parts.take(n + 1), seq![':']));
        }
        i += 1;
    }
    assert(parts.take(to - from) =~= parts);
}

proof fn lemma_longest_run_unique(g: Seq<nat>, start: int, len: int)
    requires
        is_longest_run(g, start, len),
    ensures
        longest_run(g) == (start, len),
{
    let r = longest_run(g);
    assert(is_longest_run(g, (start, len).0, (start, len).1));
    assert(is_longest_run(g, r.0, r.1));
    assert(zero_run(g, start, len));
    assert(zero_run(g, r.0, r.1));
}

/// Start and length of the longest run of zero groups.
fn find_longest_run(g: &Vec<u16>) -> (r: (usize, usize))
    requires
        g@.len() == 8,
    ensures
        is_longest_run(g@.map_values(|x: u16| x as nat), r.0 as int, r.1 as int),
        longest_run(g@.map_values(|x: u16| x as nat)) == (r.0 as int, r.1 as int),
{
    let ghost s = g@.map_values(|x: u16| x as nat);
    let mut best_start: usize = 0;
    let mut best_len: usize = 0;
    let mut start: usize = 0;
    let mut len: usize = 0;
    let mut i: usize = 0;
    while i < 8
        invariant
            g@.len() == 8,
            s == g@.map_values(|x: u16| x as nat),
            i <= 8,
            start + len == i,
            zero_run(s, start as int, len as int),
            start > 0 ==> s[start - 1] != 0,
            zero_run(s, best_start as int, best_len as int),
            best_start + best_len <= i,
            best_len == 0 ==> best_start == 0,
            forall|a: int, l: int| #[trigger]
                zero_run(s, a, l) && a + l <= i ==> l < best_len || (l == best_len && best_start
                    <= a),
        decreases 8 - i,
    {
        assert(s[i as int] == g@[i as int] as nat);
        if g[i] == 0 {
            if len == 0 {
                start = i;
            }
            len += 1;
            proof {
                assert forall|a: int, l: int| #[trigger] zero_run(s, a, l) && a + l == i + 1 && l
                    > 0 implies a >= start by {
                    if a < start {
                        assert(s[start - 1] == 0);
                    }
                }
            }
            if len > best_len {
                best_start = start;
                best_len = len;
            }
        } else {
            proof {
                assert forall|a: int, l: int| #[trigger] zero_run(s, a, l) && a + l == i + 1 implies l
                    == 0 by {
                    if l > 0 {
                        assert(s[i as int] == 0);
                    }
                }
            }
            start = i + 1;
            len = 0;
        }
        i += 1;
    }
    proof {
        lemma_longest_run_unique(s, best_start as int, best_len as int);
    }
    (best_start, best_len)
}

fn push_v6(out: &mut String, a: u128)
    ensures
        final(out)@ == old(out)@ + v6_text(a),
{
    if a / 0x1_0000_0000 == 0xFFFF {
        out.push(':');
        out.push(':');
        out.push('f');
        out.push('f');
        out.push('f');
        out.push('f');
        out.push(':');
        push_v4(out, (a % 0x1_0000_0000) as u32);
        assert(out@ =~= old(out)@ + v6_text(a));
        return;
    }
    let g = digits_of(a, 65536, 8);
    let ghost s = g@.map_values(|x: u16| x as nat);
    assert(s == groups(a));
    let (start, len): (usize, usize) = find_longest_run(&g);
    if len > 1 {
        push_groups(out, &g, 0, start);
        out.push(':');
        out.push(':');
        push_groups(out, &g, start + len, 8);
        proof {
            assert(s.subrange(0, start as int) =~= s.take(start as int));
            assert(s.subrange(start + len, 8) =~= s.skip(start + len));
            assert(out@ =~= old(out)@ + v6_text(a));
        }
    } else {
        push_groups(out, &g, 0, 8);
        assert(s.subrange(0, 8) =~= s);
    }
}

// ---------------------------------------------------------------------------
// What characters an address is made of
// ---------------------------------------------------------------------------

/// Characters that occur in addresses and numbers.
pub open spec fn is_address_char(c: char) -> bool {
    ('0' <= c <= '9') || ('a' <= c <= 'f') || c == ':' || c == '.'
}

pub open spec fn all_address_chars(s: Seq<char>) -> bool {
    forall|i: int| 0 <= i < s.len() ==> is_address_char(#[trigger] s[i])
}

proof fn lemma_hex_chars(n: nat)
    ensures
        all_address_chars(hex(n)),
        hex(n).len() > 0,
    decreases n,
{
    if n >= 16 {
        lemma_hex_chars(n / 16);
    }
}

pub proof fn lemma_dec_chars(n: nat)
    ensures
        all_address_chars(dec(n)),
        dec(n).len() > 0,
{
    lemma_dec_digits(n);
    assert forall|i: int| 0 <= i < dec(n).len() implies is_address_char(#[trigger] dec(n)[i]) by {
        assert(crate::text::is_digit(dec(n)[i]));
    }
}

proof fn lemma_groups_chars(g: Seq<nat>)
    ensures
        all_address_chars(groups_text(g)),
    decreases g.len(),
{
    let parts = g.map_values(|n: nat| hex(n));
    if g.len() == 1 {
        lemma_hex_chars(g[0]);
    } else if g.len() > 1 {
        lemma_groups_chars(g.drop_last());
        lemma_hex_chars(g.last());
        assert(parts.drop_last() =~= g.drop_last().map_values(|n: nat| hex(n)));
    }
}

/// The text form of an address is not empty and holds only digits, small
/// letters up to f, colons and dots.
pub proof fn law_address_chars(ip: IpAddr)
    ensures
        all_address_chars(ip.text()),
        ip.text().len() > 0,
{
    match ip {
        IpAddr::V4(a) => {
            lemma_v4_chars(a);
        },
        IpAddr::V6(a) => {
            let g = groups(a);
            let (start, len) = longest_run(g);
            lemma_digits_len(a as nat, 65536, 8);
            lemma_v4_chars((a % 0x1_0000_0000) as u32);
            lemma_groups_chars(g.take(start));
            lemma_groups_chars(g.skip(start + len));
            lemma_groups_chars(g);
            let parts = g.map_values(|n: nat| hex(n));
            lemma_hex_chars(g[7]);
            assert(parts.last() == hex(g[7]));
        },
    }
}

pub proof fn lemma_digits_len(a: nat, base: nat, n: nat)
    requires
        base > 0,
    ensures
        digits(a, base, n).len() == n,
    decreases n,
{
    if n > 0 {
        lemma_digits_len(a / base, base, (n - 1) as nat);
    }
}

proof fn lemma_v4_chars(a: u32)
    ensures
        all_address_chars(v4_text(a)),
        v4_text(a).len() > 0,
{
    let o = digits(a as nat, 256, 4);
    lemma_dec_chars(o[0]);
    lemma_dec_chars(o[1]);
    lemma_dec_chars(o[2]);
    lemma_dec_chars(o[3]);
}

} // verus!
