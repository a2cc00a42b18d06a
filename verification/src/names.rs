//! Sorted lists of distinct names.

use vstd::prelude::*;
use vstd::string::*;

use crate::text::{chars_of, same_text, text_before, texts};

verus! {

/// Whether `a` comes strictly before `b`, character by character.
pub fn text_less(a: &str, b: &str) -> (r: bool)
    ensures
        r == text_before(a@, b@),
{
    let x = chars_of(a);
    let y = chars_of(b);
    let mut i: usize = 0;
    assert(x@.skip(0) =~= x@);
    assert(y@.skip(0) =~= y@);
    loop
        invariant
            i <= x@.len(),
            i <= y@.len(),
            text_before(x@.skip(i as int), y@.skip(i as int)) == text_before(a@, b@),
        decreases x@.len() - i,
    {
        if i >= y.len() {
            return false;
        }
        if i >= x.len() {
            return true;
        }
        if x[i] != y[i] {
            return x[i] < y[i];
        }
        assert(x@.skip(i as int).drop_first() =~= x@.skip(i + 1));
        assert(y@.skip(i as int).drop_first() =~= y@.skip(i + 1));
        i += 1;
    }
}

/// No text comes before itself.
pub proof fn lemma_text_irreflexive(a: Seq<char>)
    ensures
        !text_before(a, a),
    decreases a.len(),
{
    if a.len() > 0 {
        lemma_text_irreflexive(a.drop_first());
    }
}

/// Of two different texts one comes first.
pub proof fn lemma_text_total(a: Seq<char>, b: Seq<char>)
    ensures
        a == b || text_before(a, b) || text_before(b, a),
    decreases a.len(),
{
    if a.len() == 0 {
        if b.len() == 0 {
            assert(a =~= b);
        }
    } else if b.len() > 0 {
        lemma_text_total(a.drop_first(), b.drop_first());
        if a[0] == b[0] && a.drop_first() == b.drop_first() {
            assert(a =~= seq![a[0]] + a.drop_first());
            assert(b =~= seq![b[0]] + b.drop_first());
        }
    }
}

/// The order is transitive.
pub proof fn lemma_text_transitive(a: Seq<char>, b: Seq<char>, c: Seq<char>)
    requires
        text_before(a, b),
        text_before(b, c),
    ensures
        text_before(a, c),
    decreases a.len(),
{
    if a.len() > 0 && a[0] == b[0] && b[0] == c[0] {
        lemma_text_transitive(a.drop_first(), b.drop_first(), c.drop_first());
    }
}

/// A sorted list with one name more, unless it is there already.
pub open spec fn with_name(sorted: Seq<Seq<char>>, name: Seq<char>) -> Seq<Seq<char>>
    decreases sorted.len(),
{
    if sorted.len() == 0 {
        seq![name]
    } else if sorted.last() == name {
        sorted
    } else if text_before(sorted.last(), name) {
        sorted.push(name)
    } else {
        with_name(sorted.drop_last(), name).push(sorted.last())
    }
}

/// The distinct names of a list, in order.
pub open spec fn sorted_names(names: Seq<Seq<char>>) -> Seq<Seq<char>>
    decreases names.len(),
{
    if names.len() == 0 {
        Seq::empty()
    } else {
        with_name(sorted_names(names.drop_last()), names.last())
    }
}

/// The names strictly ascend.
pub open spec fn ascending(sorted: Seq<Seq<char>>) -> bool {
    forall|i: int, j: int| 0 <= i < j < sorted.len() ==> text_before(sorted[i], sorted[j])
}

proof fn lemma_with_name(sorted: Seq<Seq<char>>, name: Seq<char>)
    requires
        ascending(sorted),
    ensures
        ascending(with_name(sorted, name)),
        forall|n: Seq<char>| #[trigger]
            with_name(sorted, name).contains(n) <==> sorted.contains(n) || n == name,
    decreases sorted.len(),
{
    let r = with_name(sorted, name);
    if sorted.len() == 0 {
        assert(r[0] == name);
        assert forall|n: Seq<char>| #[trigger] r.contains(n) <==> sorted.contains(n) || n == name by {
            if n == name {
                assert(r[0] == n);
            }
        }
    } else if sorted.last() == name {
        assert(sorted[sorted.len() - 1] == name);
    } else if text_before(sorted.last(), name) {
        assert forall|i: int, j: int| 0 <= i < j < r.len() implies text_before(r[i], r[j]) by {
            if j == sorted.len() && i < sorted.len() - 1 {
                lemma_text_transitive(sorted[i], sorted.last(), name);
            }
        }
        assert forall|n: Seq<char>| #[trigger] r.contains(n) <==> sorted.contains(n) || n == name by {
            if sorted.contains(n) {
                let i = choose|i: int| 0 <= i < sorted.len() && sorted[i] == n;
                assert(r[i] == n);
            }
            if n == name {
                assert(r[sorted.len() as int] == n);
            }
        }
    } else {
        let head = sorted.drop_last();
        lemma_with_name(head, name);
        lemma_text_total(sorted.last(), name);
        let h = with_name(head, name);
        assert forall|i: int, j: int| 0 <= i < j < r.len() implies text_before(r[i], r[j]) by {
            if j == h.len() {
                assert(h.contains(h[i]));
                if head.contains(h[i]) {
                    let k = choose|k: int| 0 <= k < head.len() && head[k] == h[i];
                    assert(sorted[k] == h[i]);
                }
            }
        }
        assert forall|n: Seq<char>| #[trigger] r.contains(n) <==> sorted.contains(n) || n == name by {
            if r.contains(n) {
                let i = choose|i: int| 0 <= i < r.len() && r[i] == n;
                if i < h.len() {
                    assert(h[i] == n);
                    assert(h.contains(n));
                    if head.contains(n) {
                        let k = choose|k: int| 0 <= k < head.len() && head[k] == n;
                        assert(sorted[k] == n);
                    }
                } else {
                    assert(sorted[sorted.len() - 1] == n);
                }
            }
            if sorted.contains(n) {
                let k = choose|k: int| 0 <= k < sorted.len() && sorted[k] == n;
                if k < head.len() {
                    assert(head[k] == n);
                    assert(h.contains(n));
                    let i = choose|i: int| 0 <= i < h.len() && h[i] == n;
                    assert(r[i] == n);
                } else {
                    assert(r[h.len() as int] == n);
                }
            }
            if n == name {
                assert(h.contains(n));
                let i = choose|i: int| 0 <= i < h.len() && h[i] == n;
                assert(r[i] == n);
            }
        }
    }
}

/// The sorted list of names holds each name once, in order, and no other.
pub proof fn law_sorted_names(names: Seq<Seq<char>>)
    ensures
        ascending(sorted_names(names)),
        forall|n: Seq<char>| #[trigger]
            sorted_names(names).contains(n) <==> names.contains(n),
    decreases names.len(),
{
    if names.len() > 0 {
        law_sorted_names(names.drop_last());
        lemma_with_name(sorted_names(names.drop_last()), names.last());
        assert forall|n: Seq<char>| #[trigger] sorted_names(names).contains(n) <==> names.contains(n) by {
            if names.contains(n) {
                let i = choose|i: int| 0 <= i < names.len() && names[i] == n;
                if i < names.len() - 1 {
                    assert(names.drop_last()[i] == n);
                }
            }
            if names.drop_last().contains(n) {
                let i = choose|i: int| 0 <= i < names.len() - 1 && names.drop_last()[i] == n;
                assert(names[i] == n);
            }
            assert(names[names.len() - 1] == names.last());
        }
    }
}

/// Add a name to a sorted list, unless it is there already.
pub fn add_name(sorted: &mut Vec<String>, name: &str)
    ensures
        texts(final(sorted)@) == with_name(texts(old(sorted)@), name@),
{
    let mut at: usize = sorted.len();
    let ghost all = texts(sorted@);
    let ghost before = sorted@;
    assert(all.take(at as int) =~= all);
    assert(with_name(all, name@) =~= with_name(all.take(at as int), name@) + all.skip(at as int));
    while at > 0
        invariant
            at <= sorted@.len(),
            sorted@ == before,
            all == texts(before),
            with_name(all, name@) == with_name(all.take(at as int), name@) + all.skip(at as int),
        ensures
            at <= sorted@.len(),
            at > 0 ==> text_before(all[at - 1], name@) && all[at - 1] != name@,
            with_name(all, name@) == with_name(all.take(at as int), name@) + all.skip(at as int),
            sorted@ == before,
        decreases at,
    {
        if same_text(sorted[at - 1].as_str(), name) {
            assert(all.take(at as int).last() == name@);
            assert(all.take(at as int) + all.skip(at as int) =~= all);
            return ;
        }
        if text_less(sorted[at - 1].as_str(), name) {
            break;
        }
        proof {
            let t = all.take(at as int);
            assert(t.last() == all[at - 1]);
            assert(t.drop_last() =~= all.take(at - 1));
            assert(with_name(t, name@) == with_name(all.take(at - 1), name@).push(all[at - 1]));
            assert(with_name(all.take(at - 1), name@).push(all[at - 1]) + all.skip(at as int)
                =~= with_name(all.take(at - 1), name@) + all.skip(at - 1));
        }
        at = at - 1;
    }
    proof {
        let t = all.take(at as int);
        if at > 0 {
            assert(t.last() == all[at - 1]);
        }
        assert(with_name(t, name@) =~= t.push(name@));
    }
    sorted.insert(at, name.to_owned());
    assert(texts(sorted@) =~= all.take(at as int).push(name@) + all.skip(at as int));
}

} // verus!
