//! Fixed-width integers as byte strings, least or most significant byte first.

use vstd::prelude::*;

verus! {

/// The `n` low bytes of `v`, least significant first.
pub open spec fn le(v: nat, n: nat) -> Seq<u8>
    decreases n,
{
    if n == 0 {
        Seq::empty()
    } else {
        seq![(v % 256) as u8] + le(v / 256, (n - 1) as nat)
    }
}

/// The value of a byte string, least significant byte first.
pub open spec fn le_value(s: Seq<u8>) -> nat
    decreases s.len(),
{
    if s.len() == 0 {
        0
    } else {
        s[0] as nat + 256 * le_value(s.drop_first())
    }
}

/// The value of a byte string, most significant byte first.
pub open spec fn be_value(s: Seq<u8>) -> nat
    decreases s.len(),
{
    if s.len() == 0 {
        0
    } else {
        256 * be_value(s.drop_last()) + s.last() as nat
    }
}

/// 256 to the power of `n`.
pub open spec fn pow256(n: nat) -> nat
    decreases n,
{
    if n == 0 {
        1
    } else {
        256 * pow256((n - 1) as nat)
    }
}

pub proof fn lemma_le_len(v: nat, n: nat)
    ensures
        le(v, n).len() == n,
    decreases n,
{
    if n > 0 {
        lemma_le_len(v / 256, (n - 1) as nat);
    }
}

/// Reading back what was written gives the value modulo the width.
pub proof fn lemma_le_value_of_le(v: nat, n: nat)
    requires
        v < pow256(n),
    ensures
        le(v, n).len() == n,
        le_value(le(v, n)) == v,
    decreases n,
{
    lemma_le_len(v, n);
    if n > 0 {
        assert(v / 256 < pow256((n - 1) as nat)) by (nonlinear_arith)
            requires
                v < 256 * pow256((n - 1) as nat),
        ;
        lemma_le_value_of_le(v / 256, (n - 1) as nat);
        assert(le(v, n).drop_first() =~= le(v / 256, (n - 1) as nat));
    }
}

/// A byte string of `n` bytes denotes less than `256^n`, and writing its
/// value gives it back.
pub proof fn lemma_le_of_le_value(s: Seq<u8>)
    ensures
        le_value(s) < pow256(s.len()),
        le(le_value(s), s.len()) == s,
    decreases s.len(),
{
    if s.len() > 0 {
        let r = s.drop_first();
        lemma_le_of_le_value(r);
        let v = le_value(s);
        assert(v % 256 == s[0] as nat);
        assert(v / 256 == le_value(r));
        assert(seq![s[0]] + r =~= s);
    }
}

pub proof fn lemma_be_bound(s: Seq<u8>)
    ensures
        be_value(s) < pow256(s.len()),
    decreases s.len(),
{
    if s.len() > 0 {
        lemma_be_bound(s.drop_last());
    }
}

pub proof fn lemma_pow256_values()
    ensures
        pow256(0) == 1,
        pow256(1) == 0x100,
        pow256(2) == 0x1_0000,
        pow256(3) == 0x100_0000,
        pow256(4) == 0x1_0000_0000,
        pow256(8) == 0x1_0000_0000_0000_0000,
{
    reveal_with_fuel(pow256, 9);
}

/// Append the `n` low bytes of `v`, least significant first.
pub fn put_le(out: &mut Vec<u8>, v: u64, n: usize)
    ensures
        final(out)@ == old(out)@ + le(v as nat, n as nat),
{
    let mut rest: u64 = v;
    let mut left: usize = n;
    assert(out@ + le(v as nat, n as nat) =~= out@ + le(rest as nat, left as nat));
    while left > 0
        invariant
            out@ + le(rest as nat, left as nat) == old(out)@ + le(v as nat, n as nat),
        decreases left,
    {
        let ghost before = out@;
        out.push((rest % 256) as u8);
        proof {
            let tail = le((rest / 256) as nat, (left - 1) as nat);
            assert(le(rest as nat, left as nat) == seq![(rest as nat % 256) as u8] + tail);
            assert(before + (seq![(rest % 256) as u8] + tail) =~= before.push((rest % 256) as u8)
                + tail);
        }
        rest = rest / 256;
        left = left - 1;
    }
    assert(out@ + le(rest as nat, 0) =~= out@);
}

/// The value of the `n` bytes of `buf` at `pos`, least significant first.
pub fn get_le(buf: &[u8], pos: usize, n: usize) -> (r: u64)
    requires
        n <= 8,
        pos + n <= buf.len(),
    ensures
        r == le_value(buf@.subrange(pos as int, pos + n)),
        r < pow256(n as nat),
{
    let ghost part = buf@.subrange(pos as int, pos + n);
    let mut acc: u64 = 0;
    let mut left: usize = n;
    assert(part.subrange(n as int, n as int) =~= Seq::<u8>::empty());
    while left > 0
        invariant
            left <= n <= 8,
            pos + n <= buf.len(),
            part == buf@.subrange(pos as int, pos + n),
            acc == le_value(part.subrange(left as int, n as int)),
        decreases left,
    {
        let ghost tail = part.subrange(left as int, n as int);
        left = left - 1;
        let b: u8 = buf[pos + left];
        proof {
            let s = part.subrange(left as int, n as int);
            assert(s.drop_first() =~= tail);
            assert(s[0] == b);
            lemma_le_of_le_value(tail);
            lemma_pow256_monotone(tail.len(), 7);
            lemma_pow256_seven();
        }
        acc = (b as u64) + 256 * acc;
    }
    proof {
        assert(part.subrange(0, n as int) =~= part);
        lemma_le_of_le_value(part);
    }
    acc
}

/// The value of the `n` bytes of `buf` at `pos`, most significant first.
pub fn get_be(buf: &[u8], pos: usize, n: usize) -> (r: u64)
    requires
        n <= 8,
        pos + n <= buf.len(),
    ensures
        r == be_value(buf@.subrange(pos as int, pos + n)),
        r < pow256(n as nat),
{
    let ghost part = buf@.subrange(pos as int, pos + n);
    let mut acc: u64 = 0;
    let mut done: usize = 0;
    assert(part.subrange(0, 0) =~= Seq::<u8>::empty());
    while done < n
        invariant
            done <= n <= 8,
            pos + n <= buf.len(),
            part == buf@.subrange(pos as int, pos + n),
            acc == be_value(part.subrange(0, done as int)),
        decreases n - done,
    {
        let ghost head = part.subrange(0, done as int);
        let b: u8 = buf[pos + done];
        proof {
            let s = part.subrange(0, done + 1);
            assert(s.drop_last() =~= head);
            assert(s.last() == b);
            lemma_be_bound(head);
            lemma_pow256_monotone(head.len(), 7);
            lemma_pow256_seven();
        }
        acc = 256 * acc + (b as u64);
        done = done + 1;
    }
    proof {
        assert(part.subrange(0, n as int) =~= part);
        lemma_be_bound(part);
    }
    acc
}

proof fn lemma_pow256_monotone(a: nat, b: nat)
    requires
        a <= b,
    ensures
        pow256(a) <= pow256(b),
    decreases b,
{
    if a < b {
        lemma_pow256_monotone(a, (b - 1) as nat);
    }
}

proof fn lemma_pow256_seven()
    ensures
        pow256(7) == 0x100_0000_0000_0000,
{
    reveal_with_fuel(pow256, 8);
}

/// Whether two byte strings are equal.
pub fn same_bytes(a: &[u8], b: &[u8]) -> (r: bool)
    ensures
        r == (a@ == b@),
{
    if a.len() != b.len() {
        return false;
    }
    let mut i: usize = 0;
    while i < a.len()
        invariant
            a.len() == b.len(),
            i <= a.len(),
            a@.take(i as int) == b@.take(i as int),
        decreases a.len() - i,
    {
        if a[i] != b[i] {
            return false;
        }
        assert(a@.take(i + 1) =~= a@.take(i as int).push(a@[i as int]));
        assert(b@.take(i + 1) =~= b@.take(i as int).push(b@[i as int]));
        i += 1;
    }
    assert(a@.take(i as int) =~= a@);
    assert(b@.take(i as int) =~= b@);
    true
}

/// Append a byte string.
pub fn put_bytes(out: &mut Vec<u8>, v: &[u8])
    ensures
        final(out)@ == old(out)@ + v@,
{
    let mut i: usize = 0;
    assert(old(out)@ + v@.take(0) =~= old(out)@);
    while i < v.len()
        invariant
            i <= v.len(),
            out@ == old(out)@ + v@.take(i as int),
        decreases v.len() - i,
    {
        assert(v@.take(i + 1) =~= v@.take(i as int).push(v@[i as int]));
        out.push(v[i]);
        assert(out@ =~= old(out)@ + v@.take(i + 1));
        i += 1;
    }
    assert(v@.take(i as int) =~= v@);
}

/// A copy of a byte string.
pub fn copy_bytes(v: &[u8]) -> (r: Vec<u8>)
    ensures
        r@ == v@,
{
    let mut out: Vec<u8> = Vec::new();
    put_bytes(&mut out, v);
    assert(Seq::<u8>::empty() + v@ =~= v@);
    out
}

/// Lexicographic order on byte strings: whether `a` comes strictly before `b`.
pub open spec fn bytes_before(a: Seq<u8>, b: Seq<u8>) -> bool
    decreases a.len(),
{
    if b.len() == 0 {
        false
    } else if a.len() == 0 {
        true
    } else if a[0] != b[0] {
        a[0] < b[0]
    } else {
        bytes_before(a.drop_first(), b.drop_first())
    }
}

/// Byte strings one after the other.
pub open spec fn joined(parts: Seq<Seq<u8>>) -> Seq<u8>
    decreases parts.len(),
{
    if parts.len() == 0 {
        Seq::empty()
    } else {
        joined(parts.drop_last()) + parts.last()
    }
}

/// What is joined starts with the first part.
pub proof fn lemma_joined_first(parts: Seq<Seq<u8>>)
    requires
        parts.len() > 0,
    ensures
        joined(parts) == parts[0] + joined(parts.drop_first()),
    decreases parts.len(),
{
    if parts.len() == 1 {
        assert(parts.drop_last() =~= Seq::<Seq<u8>>::empty());
        assert(parts.drop_first() =~= Seq::<Seq<u8>>::empty());
        assert(joined(parts) =~= parts[0] + joined(parts.drop_first()));
    } else {
        lemma_joined_first(parts.drop_last());
        assert(parts.drop_last().drop_first() =~= parts.drop_first().drop_last());
        assert(joined(parts) =~= parts[0] + joined(parts.drop_first()));
    }
}

/// One more part at the end.
pub proof fn lemma_joined_step(parts: Seq<Seq<u8>>, i: int)
    requires
        0 <= i < parts.len(),
    ensures
        joined(parts.take(i + 1)) == joined(parts.take(i)) + parts[i],
{
    assert(parts.take(i + 1).drop_last() =~= parts.take(i));
}

/// The `n` low bytes of `v`, most significant first.
pub open spec fn be(v: nat, n: nat) -> Seq<u8>
    decreases n,
{
    if n == 0 {
        Seq::empty()
    } else {
        be(v / 256, (n - 1) as nat).push((v % 256) as u8)
    }
}

/// Writing the value of a byte string gives the string back.
pub proof fn lemma_be_of_be_value(s: Seq<u8>)
    ensures
        be(be_value(s), s.len()) == s,
    decreases s.len(),
{
    if s.len() > 0 {
        let r = s.drop_last();
        lemma_be_of_be_value(r);
        let v = be_value(s);
        assert(v % 256 == s.last() as nat);
        assert(v / 256 == be_value(r));
        assert(r.push(s.last()) =~= s);
    }
}

/// Reading back what was written gives the value.
pub proof fn lemma_be_value_of_be(v: nat, n: nat)
    ensures
        be(v, n).len() == n,
        v < pow256(n) ==> be_value(be(v, n)) == v,
    decreases n,
{
    if n > 0 {
        lemma_be_value_of_be(v / 256, (n - 1) as nat);
        if v < pow256(n) {
            assert(v / 256 < pow256((n - 1) as nat)) by (nonlinear_arith)
                requires
                    v < 256 * pow256((n - 1) as nat),
            ;
        }
        assert(be(v, n).drop_last() =~= be(v / 256, (n - 1) as nat));
    }
}

/// Append the `n` low bytes of `v`, most significant first.
pub fn put_be(out: &mut Vec<u8>, v: u128, n: usize)
    ensures
        final(out)@ == old(out)@ + be(v as nat, n as nat),
    decreases n,
{
    if n > 0 {
        put_be(out, v / 256, n - 1);
        let ghost before = out@;
        out.push((v % 256) as u8);
        assert(out@ =~= old(out)@ + be(v as nat, n as nat));
    } else {
        assert(out@ =~= old(out)@ + be(v as nat, 0));
    }
}

/// The value of the 16 bytes of `buf` at `pos`, most significant first.
pub fn get_be_wide(buf: &[u8], pos: usize) -> (r: u128)
    requires
        pos + 16 <= buf.len(),
    ensures
        r == be_value(buf@.subrange(pos as int, pos + 16)),
{
    let ghost part = buf@.subrange(pos as int, pos + 16);
    let mut acc: u128 = 0;
    let mut done: usize = 0;
    assert(part.subrange(0, 0) =~= Seq::<u8>::empty());
    while done < 16
        invariant
            done <= 16,
            pos + 16 <= buf.len(),
            part == buf@.subrange(pos as int, pos + 16),
            acc == be_value(part.subrange(0, done as int)),
        decreases 16 - done,
    {
        let ghost head = part.subrange(0, done as int);
        let b: u8 = buf[pos + done];
        proof {
            let s = part.subrange(0, done + 1);
            assert(s.drop_last() =~= head);
            assert(s.last() == b);
            lemma_be_bound(head);
            lemma_pow256_monotone(head.len(), 15);
            reveal_with_fuel(pow256, 16);
        }
        acc = 256 * acc + (b as u128);
        done = done + 1;
    }
    assert(part.subrange(0, 16) =~= part);
    acc
}

} // verus!
