//! Sums over finite sets.

use vstd::prelude::*;

verus! {

/// The sum of `f` over the elements of a finite set.
pub open spec fn sum_over<K>(s: Set<K>, f: spec_fn(K) -> int) -> int
    decreases s.len(),
    when s.finite()
{
    if s.len() == 0 {
        0
    } else {
        let k = s.choose();
        f(k) + sum_over(s.remove(k), f)
    }
}

/// Any element may be taken out first.
pub proof fn lemma_sum_remove<K>(s: Set<K>, f: spec_fn(K) -> int, k: K)
    requires
        s.finite(),
        s.contains(k),
    ensures
        sum_over(s, f) == f(k) + sum_over(s.remove(k), f),
    decreases s.len(),
{
    let c = s.choose();
    assert(s.len() > 0) by {
        if s.len() == 0 {
            s.lemma_len0_is_empty();
        }
    }
    assert(s.contains(c));
    if c != k {
        lemma_sum_remove(s.remove(c), f, k);
        lemma_sum_remove(s.remove(k), f, c);
        assert(s.remove(c).remove(k) =~= s.remove(k).remove(c));
    }
}

pub proof fn lemma_sum_insert<K>(s: Set<K>, f: spec_fn(K) -> int, k: K)
    requires
        s.finite(),
        !s.contains(k),
    ensures
        sum_over(s.insert(k), f) == f(k) + sum_over(s, f),
{
    lemma_sum_remove(s.insert(k), f, k);
    assert(s.insert(k).remove(k) =~= s);
}

pub proof fn lemma_sum_empty<K>(f: spec_fn(K) -> int)
    ensures
        sum_over(Set::<K>::empty(), f) == 0,
{
}

/// Larger terms, larger sum.
pub proof fn lemma_sum_le<K>(s: Set<K>, f: spec_fn(K) -> int, g: spec_fn(K) -> int)
    requires
        s.finite(),
        forall|k: K| #[trigger] s.contains(k) ==> f(k) <= g(k),
    ensures
        sum_over(s, f) <= sum_over(s, g),
    decreases s.len(),
{
    if s.len() > 0 {
        let k = s.choose();
        assert(s.contains(k));
        lemma_sum_le(s.remove(k), f, g);
    }
}

/// Only the values on the set matter.
pub proof fn lemma_sum_same<K>(s: Set<K>, f: spec_fn(K) -> int, g: spec_fn(K) -> int)
    requires
        s.finite(),
        forall|k: K| #[trigger] s.contains(k) ==> f(k) == g(k),
    ensures
        sum_over(s, f) == sum_over(s, g),
{
    lemma_sum_le(s, f, g);
    lemma_sum_le(s, g, f);
}

pub proof fn lemma_sum_constant<K>(s: Set<K>, c: int)
    requires
        s.finite(),
    ensures
        sum_over(s, |k: K| c) == c * s.len(),
    decreases s.len(),
{
    if s.len() > 0 {
        let k = s.choose();
        assert(s.contains(k));
        lemma_sum_constant(s.remove(k), c);
        let n = s.len();
        assert(c + c * (n - 1) == c * n) by (nonlinear_arith);
    } else {
        assert(c * 0 == 0) by (nonlinear_arith);
    }
}

/// A lower bound of the terms bounds the sum.
pub proof fn lemma_sum_at_least<K>(s: Set<K>, f: spec_fn(K) -> int, c: int)
    requires
        s.finite(),
        forall|k: K| #[trigger] s.contains(k) ==> c <= f(k),
    ensures
        c * s.len() <= sum_over(s, f),
{
    lemma_sum_constant(s, c);
    lemma_sum_le(s, |k: K| c, f);
}

pub proof fn lemma_sum_add<K>(s: Set<K>, f: spec_fn(K) -> int, g: spec_fn(K) -> int)
    requires
        s.finite(),
    ensures
        sum_over(s, |k: K| f(k) + g(k)) == sum_over(s, f) + sum_over(s, g),
    decreases s.len(),
{
    if s.len() > 0 {
        let k = s.choose();
        assert(s.contains(k));
        lemma_sum_add(s.remove(k), f, g);
    }
}

/// The sum over a set in two parts.
pub proof fn lemma_sum_split<K>(s: Set<K>, t: Set<K>, f: spec_fn(K) -> int)
    requires
        s.finite(),
    ensures
        s.intersect(t).finite(),
        s.difference(t).finite(),
        sum_over(s, f) == sum_over(s.intersect(t), f) + sum_over(s.difference(t), f),
        s.len() == s.intersect(t).len() + s.difference(t).len(),
    decreases s.len(),
{
    if s.len() == 0 {
        s.lemma_len0_is_empty();
        assert(s.intersect(t) =~= Set::empty());
        assert(s.difference(t) =~= Set::empty());
    } else {
        let k = s.choose();
        assert(s.contains(k));
        let r = s.remove(k);
        lemma_sum_split(r, t, f);
        lemma_sum_remove(s, f, k);
        if t.contains(k) {
            assert(s.intersect(t) =~= r.intersect(t).insert(k));
            assert(s.difference(t) =~= r.difference(t));
            lemma_sum_insert(r.intersect(t), f, k);
        } else {
            assert(s.intersect(t) =~= r.intersect(t));
            assert(s.difference(t) =~= r.difference(t).insert(k));
            lemma_sum_insert(r.difference(t), f, k);
        }
    }
}

} // verus!
