//! Maps from byte keys to counts.

use vstd::prelude::*;

use crate::bytes::{bytes_before, copy_bytes};
use crate::keymap::{
    has_key, keyed, keys_differ, lemma_entries_push, lemma_entry, map_of, number_of, KeyMap,
};
use crate::order::{
    bytes_less, is_listing, lemma_bytes_irreflexive, lemma_bytes_total, lemma_bytes_transitive,
    lemma_listing, listing, lists_range, ranked, strict_total, Ranking,
};
use crate::sums::{lemma_sum_empty, lemma_sum_insert, sum_over};

verus! {

/// The counts as numbers.
pub open spec fn as_counts(m: Map<Seq<u8>, u64>) -> Map<Seq<u8>, int> {
    Map::new(|k: Seq<u8>| m.contains_key(k), |k: Seq<u8>| m[k] as int)
}

/// The count of a key, zero if there is none.
pub open spec fn count_or_zero(m: Map<Seq<u8>, int>, k: Seq<u8>) -> int {
    if m.contains_key(k) {
        m[k]
    } else {
        0
    }
}

/// All counts less `d`; keys that would not keep a positive count are gone.
pub open spec fn decremented(m: Map<Seq<u8>, int>, d: int) -> Map<Seq<u8>, int> {
    Map::new(|k: Seq<u8>| m.contains_key(k) && m[k] > d, |k: Seq<u8>| m[k] - d)
}

/// Key by key the sum.
pub open spec fn summed(a: Map<Seq<u8>, int>, b: Map<Seq<u8>, int>) -> Map<Seq<u8>, int> {
    Map::new(
        |k: Seq<u8>| a.contains_key(k) || b.contains_key(k),
        |k: Seq<u8>| count_or_zero(a, k) + count_or_zero(b, k),
    )
}

/// All counts fit into 64 bits.
pub open spec fn counts_fit(m: Map<Seq<u8>, int>) -> bool {
    forall|k: Seq<u8>| #[trigger] m.contains_key(k) ==> 0 <= m[k] <= u64::MAX
}

/// The larger count first; among equal counts, keys in ascending order.
pub open spec fn count_order(m: Map<Seq<u8>, int>) -> spec_fn(Seq<u8>, Seq<u8>) -> bool {
    |a: Seq<u8>, b: Seq<u8>|
        if m[a] != m[b] {
            m[a] > m[b]
        } else {
            bytes_before(a, b)
        }
}

pub proof fn lemma_count_order(m: Map<Seq<u8>, int>)
    ensures
        strict_total(count_order(m)),
{
    let lt = count_order(m);
    assert forall|a: Seq<u8>| !#[trigger] lt(a, a) by {
        lemma_bytes_irreflexive(a);
    }
    assert forall|a: Seq<u8>, b: Seq<u8>| a != b implies #[trigger] lt(a, b) || lt(b, a) by {
        lemma_bytes_total(a, b);
    }
    assert forall|a: Seq<u8>, b: Seq<u8>, c: Seq<u8>| #[trigger] lt(a, b) && #[trigger] lt(
        b,
        c,
    ) implies lt(a, c) by {
        if m[a] == m[b] && m[b] == m[c] {
            lemma_bytes_transitive(a, b, c);
        }
    }
}

/// `r` is the front of the ranking of `m`: its `limit` first keys (all of
/// them, if there are fewer) with their counts.
pub open spec fn is_front(r: Seq<(Vec<u8>, u64)>, m: Map<Seq<u8>, int>, limit: int) -> bool {
    let s = listing(m.dom(), count_order(m));
    &&& is_listing(s, m.dom(), count_order(m))
    &&& r.len() == if limit < s.len() { limit } else { s.len() as int }
    &&& forall|j: int|
        0 <= j < r.len() ==> (#[trigger] r[j]).0@ == s[j] && r[j].1 as int == m[s[j]]
}

struct ByCount<'a> {
    map: &'a KeyMap<u64>,
}

impl<'a> Ranking for ByCount<'a> {
    closed spec fn size(&self) -> nat {
        self.map.list().len()
    }

    closed spec fn ahead(&self, i: int, j: int) -> bool {
        let a = self.map.list()[i];
        let b = self.map.list()[j];
        if a.1 != b.1 {
            a.1 > b.1
        } else {
            bytes_before(a.0@, b.0@)
        }
    }

    closed spec fn ranking_wf(&self) -> bool {
        keys_differ(self.map.list())
    }

    proof fn strict(&self) {
        let s = self.map.list();
        assert forall|i: int| 0 <= i < self.size() implies !#[trigger] self.ahead(i, i) by {
            lemma_bytes_irreflexive(s[i].0@);
        }
        assert forall|i: int, j: int|
            0 <= i < self.size() && 0 <= j < self.size() && i != j implies #[trigger] self.ahead(
            i,
            j,
        ) || self.ahead(j, i) by {
            lemma_bytes_total(s[i].0@, s[j].0@);
        }
        assert forall|i: int, j: int, k: int|
            0 <= i < self.size() && 0 <= j < self.size() && 0 <= k < self.size()
                && #[trigger] self.ahead(i, j) && #[trigger] self.ahead(j, k) implies self.ahead(
            i,
            k,
        ) by {
            if s[i].1 == s[j].1 && s[j].1 == s[k].1 {
                lemma_bytes_transitive(s[i].0@, s[j].0@, s[k].0@);
            }
        }
    }

    fn is_ahead(&self, i: usize, j: usize) -> (r: bool) {
        let a: u64 = *self.map.value(i);
        let b: u64 = *self.map.value(j);
        if a != b {
            a > b
        } else {
            bytes_less(self.map.key(i).as_slice(), self.map.key(j).as_slice())
        }
    }
}

/// The numbers of the entries by count, largest first.
pub fn by_count(map: &KeyMap<u64>) -> (r: Vec<usize>)
    requires
        map.wf(),
    ensures
        lists_range(r@, 0, map.list().len() as int),
        map.keys_of(r@) == listing(as_counts(map@).dom(), count_order(as_counts(map@))),
        is_listing(
            listing(as_counts(map@).dom(), count_order(as_counts(map@))),
            as_counts(map@).dom(),
            count_order(as_counts(map@)),
        ),
{
    let n: usize = map.len();
    let ranking = ByCount { map };
    proof {
        map.lemma_list();
    }
    let order = ranked(&ranking, n);
    proof {
        let m = as_counts(map@);
        let lt = count_order(m);
        let names = map.keys_of(order@);
        lemma_count_order(m);
        assert forall|i: int, j: int| 0 <= i < j < names.len() implies lt(
            #[trigger] names[i],
            #[trigger] names[j],
        ) by {
            assert(ranking.ahead(order@[i] as int, order@[j] as int));
            lemma_entry(map.list(), order@[i] as int);
            lemma_entry(map.list(), order@[j] as int);
        }
        map.lemma_same_keys(order@);
        assert(m.dom() =~= map@.dom());
        assert(is_listing(names, m.dom(), lt));
        lemma_listing(names, m.dom(), lt);
    }
    order
}

/// The first `limit` entries of the ranking.
pub fn front_of(map: &KeyMap<u64>, limit: usize) -> (r: Vec<(Vec<u8>, u64)>)
    requires
        map.wf(),
    ensures
        is_front(r@, as_counts(map@), limit as int),
{
    let order = by_count(map);
    let ghost m = as_counts(map@);
    let ghost s = listing(m.dom(), count_order(m));
    let mut out: Vec<(Vec<u8>, u64)> = Vec::new();
    let mut i: usize = 0;
    proof {
        map.lemma_list();
    }
    while i < limit && i < order.len()
        invariant
            keys_differ(map.list()),
            map@ == map_of(map.list()),
            m == as_counts(map@),
            s == map.keys_of(order@),
            lists_range(order@, 0, map.list().len() as int),
            i <= limit,
            i <= order.len(),
            out@.len() == i,
            forall|j: int|
                0 <= j < i ==> (#[trigger] out@[j]).0@ == s[j] && out@[j].1 as int == m[s[j]],
        decreases order.len() - i,
    {
        let p: usize = order[i];
        assert(p < map.list().len());
        proof {
            lemma_entry(map.list(), p as int);
        }
        out.push((copy_bytes(map.key(p).as_slice()), *map.value(p)));
        i += 1;
    }
    out
}

/// One more entry of a list.
pub proof fn lemma_list_step<V>(list: Seq<(Vec<u8>, V)>, i: int)
    requires
        keys_differ(list),
        0 <= i < list.len(),
    ensures
        keys_differ(list.take(i)),
        !map_of(list.take(i)).contains_key(list[i].0@),
        map_of(list.take(i + 1)) == map_of(list.take(i)).insert(list[i].0@, list[i].1),
{
    let a = list.take(i);
    assert forall|p: int, q: int| 0 <= p < a.len() && 0 <= q < a.len() && p != q implies (
    #[trigger] a[p]).0@ != (#[trigger] a[q]).0@ by {
        assert(list[p].0@ != list[q].0@);
    }
    if has_key(a, list[i].0@) {
        let p = number_of(a, list[i].0@);
        assert(keyed(a, list[i].0@, p));
        assert(list[p].0@ != list[i].0@);
    }
    lemma_entries_push(a, list[i]);
    assert(list.take(i + 1) =~= a.push(list[i]));
}

/// All counts less `d`, without the keys that would not keep any.
pub fn decrement(map: &KeyMap<u64>, d: u64) -> (r: KeyMap<u64>)
    requires
        map.wf(),
    ensures
        r.wf(),
        as_counts(r@) == decremented(as_counts(map@), d as int),
{
    let n: usize = map.len();
    let ghost list = map.list();
    let mut out: KeyMap<u64> = KeyMap::new();
    let mut i: usize = 0;
    proof {
        map.lemma_list();
        assert(as_counts(out@) =~= decremented(as_counts(map_of(list.take(0))), d as int)) by {
            assert forall|k: Seq<u8>| !has_key(list.take(0), k) by {
                if has_key(list.take(0), k) {
                    assert(keyed(list.take(0), k, number_of(list.take(0), k)));
                }
            }
        }
    }
    while i < n
        invariant
            n == list.len(),
            list == map.list(),
            keys_differ(list),
            out.wf(),
            i <= n,
            as_counts(out@) == decremented(as_counts(map_of(list.take(i as int))), d as int),
        decreases n - i,
    {
        let c: u64 = *map.value(i);
        let ghost part = map_of(list.take(i as int));
        let ghost key = list[i as int].0@;
        let ghost before = out@;
        proof {
            lemma_list_step(list, i as int);
            assert(!as_counts(before).contains_key(key));
        }
        if c > d {
            out.push(copy_bytes(map.key(i).as_slice()), c - d);
        }
        proof {
            let goal = decremented(as_counts(map_of(list.take(i + 1))), d as int);
            let known = decremented(as_counts(part), d as int);
            assert forall|k: Seq<u8>| as_counts(out@).contains_key(k) <==> goal.contains_key(k) by {
                assert(as_counts(before).contains_key(k) <==> known.contains_key(k));
            }
            assert forall|k: Seq<u8>| as_counts(out@).contains_key(k) implies as_counts(out@)[k]
                == goal[k] by {
                if k != key {
                    assert(known.contains_key(k));
                    assert(as_counts(before)[k] == known[k]);
                }
            }
            assert(as_counts(out@) =~= goal);
        }
        i += 1;
    }
    proof {
        assert(list.take(n as int) =~= list);
    }
    out
}

/// Add the counts of `other` to those of `map`.
pub fn add_counts(map: &mut KeyMap<u64>, other: &KeyMap<u64>)
    requires
        old(map).wf(),
        other.wf(),
        counts_fit(summed(as_counts(old(map)@), as_counts(other@))),
    ensures
        final(map).wf(),
        as_counts(final(map)@) == summed(as_counts(old(map)@), as_counts(other@)),
{
    let n: usize = other.len();
    let ghost list = other.list();
    let ghost start = as_counts(map@);
    let ghost goal = summed(start, as_counts(other@));
    let mut i: usize = 0;
    proof {
        other.lemma_list();
        assert forall|k: Seq<u8>| !has_key(list.take(0), k) by {
            if has_key(list.take(0), k) {
                assert(keyed(list.take(0), k, number_of(list.take(0), k)));
            }
        }
        assert(start =~= summed(start, as_counts(map_of(list.take(0)))));
    }
    while i < n
        invariant
            n == list.len(),
            list == other.list(),
            keys_differ(list),
            other@ == map_of(list),
            map.wf(),
            goal == summed(start, as_counts(other@)),
            counts_fit(goal),
            i <= n,
            as_counts(map@) == summed(start, as_counts(map_of(list.take(i as int)))),
        decreases n - i,
    {
        let c: u64 = *other.value(i);
        let ghost part = map_of(list.take(i as int));
        let ghost key = list[i as int].0@;
        let ghost before = map@;
        proof {
            lemma_list_step(list, i as int);
            lemma_entry(list, i as int);
            assert(goal.contains_key(key));
            assert(as_counts(before).contains_key(key) <==> start.contains_key(key));
            if start.contains_key(key) {
                assert(as_counts(before)[key] == start[key]);
            }
        }
        match map.find(other.key(i).as_slice()) {
            Some(at) => {
                let v: u64 = *map.value(at) + c;
                map.replace(at, v);
            },
            None => {
                map.push(copy_bytes(other.key(i).as_slice()), c);
            },
        }
        proof {
            let known = summed(start, as_counts(part));
            let next = summed(start, as_counts(map_of(list.take(i + 1))));
            assert forall|k: Seq<u8>| as_counts(map@).contains_key(k) <==> next.contains_key(k) by {
                assert(as_counts(before).contains_key(k) <==> known.contains_key(k));
            }
            assert forall|k: Seq<u8>| as_counts(map@).contains_key(k) implies as_counts(map@)[k]
                == next[k] by {
                if k != key {
                    assert(known.contains_key(k));
                    assert(as_counts(before)[k] == known[k]);
                }
            }
            assert(as_counts(map@) =~= next);
        }
        i += 1;
    }
    proof {
        assert(list.take(n as int) =~= list);
    }
}

/// What an entry takes in memory besides its key: the count and bookkeeping.
pub const ENTRY_OVERHEAD: usize = 40;

/// Bytes accounted to keys that take `each` bytes besides their length.
pub open spec fn key_memory(keys: Set<Seq<u8>>, each: int) -> int {
    sum_over(keys, |k: Seq<u8>| k.len() as int + each)
}

/// Bytes accounted to the entries of a map.
pub open spec fn entry_memory(keys: Set<Seq<u8>>) -> int {
    key_memory(keys, ENTRY_OVERHEAD as int)
}

/// Bytes accounted to the keys, or the largest word if they do not fit.
pub fn memory_of<V>(map: &KeyMap<V>, each: usize) -> (r: usize)
    requires
        map.wf(),
    ensures
        r == if key_memory(map@.dom(), each as int) <= usize::MAX {
            key_memory(map@.dom(), each as int)
        } else {
            usize::MAX as int
        },
{
    let n: usize = map.len();
    let ghost list = map.list();
    let ghost f = |k: Seq<u8>| k.len() as int + each;
    let mut acc: usize = 0;
    let mut i: usize = 0;
    proof {
        map.lemma_list();
        assert(map_of(list.take(0)).dom() =~= Set::empty()) by {
            assert forall|k: Seq<u8>| !has_key(list.take(0), k) by {
                if has_key(list.take(0), k) {
                    assert(keyed(list.take(0), k, number_of(list.take(0), k)));
                }
            }
        }
        lemma_sum_empty(f);
    }
    while i < n
        invariant
            n == list.len(),
            list == map.list(),
            keys_differ(list),
            f == (|k: Seq<u8>| k.len() as int + each),
            i <= n,
            map_of(list.take(i as int)).dom().finite(),
            acc == if sum_over(map_of(list.take(i as int)).dom(), f) <= usize::MAX {
                sum_over(map_of(list.take(i as int)).dom(), f)
            } else {
                usize::MAX as int
            },
        decreases n - i,
    {
        proof {
            lemma_list_step(list, i as int);
            let part = map_of(list.take(i as int)).dom();
            lemma_sum_insert(part, f, list[i as int].0@);
            assert(map_of(list.take(i + 1)).dom() =~= part.insert(list[i as int].0@));
        }
        acc = acc.saturating_add(map.key(i).len()).saturating_add(each);
        i += 1;
    }
    proof {
        assert(list.take(n as int) =~= list);
    }
    acc
}

} // verus!
