//! Maps from byte strings, found by a digest of the key.

use std::collections::HashMap;

use vstd::prelude::*;
use vstd::std_specs::hash::*;

use crate::bytes::{bytes_before, same_bytes};
use crate::hash::{hash64, hash_of};
use crate::order::{
    bytes_less, is_listing, key_order, lemma_bytes_irreflexive, lemma_bytes_total,
    lemma_bytes_transitive, lemma_key_order, lemma_listing, listing, lists_range, ranked, Ranking,
};

verus! {

/// A map from byte strings. Entries are numbered in the order in which their
/// keys came in.
#[derive(Debug, Clone)]
pub struct KeyMap<V> {
    entries: Vec<(Vec<u8>, V)>,
    index: HashMap<u64, Vec<usize>>,
}

spec fn listed(v: Seq<usize>, i: int) -> bool {
    exists|p: int| 0 <= p < v.len() && #[trigger] v[p] == i
}

/// The entry is found under the digest of its key.
spec fn findable<V>(index: Map<u64, Vec<usize>>, entries: Seq<(Vec<u8>, V)>, i: int) -> bool {
    let d = hash_of(entries[i].0@, 0);
    index.contains_key(d) && listed(index[d]@, i)
}

spec fn in_range(index: Map<u64, Vec<usize>>, n: nat, d: u64, p: int) -> bool {
    index[d]@[p] < n
}

/// Entry number `i` has this key.
pub open spec fn keyed<V>(entries: Seq<(Vec<u8>, V)>, k: Seq<u8>, i: int) -> bool {
    0 <= i < entries.len() && entries[i].0@ == k
}

pub open spec fn has_key<V>(entries: Seq<(Vec<u8>, V)>, k: Seq<u8>) -> bool {
    exists|i: int| #[trigger] keyed(entries, k, i)
}

pub open spec fn number_of<V>(entries: Seq<(Vec<u8>, V)>, k: Seq<u8>) -> int {
    choose|i: int| #[trigger] keyed(entries, k, i)
}

/// No key occurs twice.
pub open spec fn keys_differ<V>(entries: Seq<(Vec<u8>, V)>) -> bool {
    forall|i: int, j: int|
        0 <= i < entries.len() && 0 <= j < entries.len() && i != j ==> (#[trigger] entries[i]).0@
            != (#[trigger] entries[j]).0@
}

/// The map that a list of entries describes.
pub open spec fn map_of<V>(entries: Seq<(Vec<u8>, V)>) -> Map<Seq<u8>, V> {
    Map::new(|k: Seq<u8>| has_key(entries, k), |k: Seq<u8>| entries[number_of(entries, k)].1)
}

pub proof fn lemma_entry<V>(entries: Seq<(Vec<u8>, V)>, i: int)
    requires
        keys_differ(entries),
        0 <= i < entries.len(),
    ensures
        number_of(entries, entries[i].0@) == i,
        map_of(entries).contains_key(entries[i].0@),
        map_of(entries)[entries[i].0@] == entries[i].1,
{
    let k = entries[i].0@;
    assert(keyed(entries, k, i));
    let j = number_of(entries, k);
    assert(keyed(entries, k, j));
}

pub proof fn lemma_number<V>(entries: Seq<(Vec<u8>, V)>, k: Seq<u8>)
    requires
        map_of(entries).contains_key(k),
    ensures
        0 <= number_of(entries, k) < entries.len(),
        entries[number_of(entries, k)].0@ == k,
{
    assert(keyed(entries, k, number_of(entries, k)));
}

pub proof fn lemma_entries_push<V>(entries: Seq<(Vec<u8>, V)>, e: (Vec<u8>, V))
    requires
        keys_differ(entries),
        !has_key(entries, e.0@),
    ensures
        keys_differ(entries.push(e)),
        map_of(entries.push(e)) == map_of(entries).insert(e.0@, e.1),
{
    let t = entries.push(e);
    assert forall|i: int, j: int| 0 <= i < t.len() && 0 <= j < t.len() && i != j implies (
    #[trigger] t[i]).0@ != (#[trigger] t[j]).0@ by {
        if i == entries.len() {
            assert(!keyed(entries, e.0@, j));
        } else if j == entries.len() {
            assert(!keyed(entries, e.0@, i));
        } else {
            assert(entries[i].0@ != entries[j].0@);
        }
    }
    let m = map_of(entries).insert(e.0@, e.1);
    assert forall|k: Seq<u8>| map_of(t).contains_key(k) <==> m.contains_key(k) by {
        if has_key(t, k) {
            let i = number_of(t, k);
            assert(keyed(t, k, i));
            if i < entries.len() {
                assert(keyed(entries, k, i));
            }
        }
        if has_key(entries, k) {
            let i = number_of(entries, k);
            assert(keyed(entries, k, i));
            assert(keyed(t, k, i));
        }
        if k == e.0@ {
            assert(keyed(t, k, entries.len() as int));
        }
    }
    assert forall|k: Seq<u8>| map_of(t).contains_key(k) implies map_of(t)[k] == m[k] by {
        lemma_number(t, k);
        let i = number_of(t, k);
        if i < entries.len() {
            lemma_entry(entries, i);
            assert(!keyed(entries, e.0@, i));
        }
    }
    assert(map_of(t) =~= m);
}

pub proof fn lemma_entries_set<V>(entries: Seq<(Vec<u8>, V)>, i: int, key: Vec<u8>, v: V)
    requires
        keys_differ(entries),
        0 <= i < entries.len(),
        key@ == entries[i].0@,
    ensures
        keys_differ(entries.update(i, (key, v))),
        map_of(entries.update(i, (key, v))) == map_of(entries).insert(key@, v),
{
    let t = entries.update(i, (key, v));
    assert forall|a: int, b: int| 0 <= a < t.len() && 0 <= b < t.len() && a != b implies (
    #[trigger] t[a]).0@ != (#[trigger] t[b]).0@ by {
        assert(entries[a].0@ != entries[b].0@);
    }
    let m = map_of(entries).insert(key@, v);
    assert forall|k: Seq<u8>| map_of(t).contains_key(k) <==> m.contains_key(k) by {
        if has_key(t, k) {
            assert(keyed(entries, k, number_of(t, k)));
        }
        if has_key(entries, k) {
            assert(keyed(t, k, number_of(entries, k)));
        }
        if k == key@ {
            assert(keyed(t, k, i));
        }
    }
    assert forall|k: Seq<u8>| map_of(t).contains_key(k) implies map_of(t)[k] == m[k] by {
        lemma_number(t, k);
        let j = number_of(t, k);
        lemma_entry(entries, j);
        if j != i {
            assert(entries[i].0@ != entries[j].0@);
        }
    }
    assert(map_of(t) =~= m);
}

pub proof fn lemma_entries_len<V>(entries: Seq<(Vec<u8>, V)>)
    requires
        keys_differ(entries),
    ensures
        map_of(entries).dom().finite(),
        map_of(entries).dom().len() == entries.len(),
{
    let keys = entries.map_values(|e: (Vec<u8>, V)| e.0@);
    assert forall|i: int, j: int|
        0 <= i < keys.len() && 0 <= j < keys.len() && i != j implies keys[i] != keys[j] by {
        assert(entries[i].0@ != entries[j].0@);
    }
    keys.unique_seq_to_set();
    assert forall|k: Seq<u8>| map_of(entries).dom().contains(k) <==> keys.to_set().contains(k) by {
        if has_key(entries, k) {
            let i = number_of(entries, k);
            assert(keyed(entries, k, i));
            assert(keys[i] == k);
        }
        if keys.contains(k) {
            let i = choose|i: int| 0 <= i < keys.len() && keys[i] == k;
            assert(keyed(entries, k, i));
        }
    }
    assert(map_of(entries).dom() =~= keys.to_set());
}

impl<V> View for KeyMap<V> {
    type V = Map<Seq<u8>, V>;

    closed spec fn view(&self) -> Map<Seq<u8>, V> {
        map_of(self.entries@)
    }
}

impl<V> KeyMap<V> {
    /// The entries by number.
    pub closed spec fn list(&self) -> Seq<(Vec<u8>, V)> {
        self.entries@
    }

    /// The digests find every entry, and no key occurs twice.
    pub closed spec fn wf(&self) -> bool {
        &&& keys_differ(self.entries@)
        &&& forall|i: int|
            0 <= i < self.entries@.len() ==> #[trigger] findable(self.index@, self.entries@, i)
        &&& forall|d: u64, p: int|
            self.index@.contains_key(d) && 0 <= p < self.index@[d]@.len() ==> #[trigger] in_range(
                self.index@,
                self.entries@.len(),
                d,
                p,
            )
    }

    /// The map and its list of entries say the same.
    pub proof fn lemma_list(&self)
        requires
            self.wf(),
        ensures
            keys_differ(self.list()),
            self@ == map_of(self.list()),
            self@.dom().finite(),
            self@.dom().len() == self.list().len(),
    {
        lemma_entries_len(self.entries@);
    }

    pub fn new() -> (r: Self)
        ensures
            r.wf(),
            r@ == Map::<Seq<u8>, V>::empty(),
            r.list() == Seq::<(Vec<u8>, V)>::empty(),
    {
        broadcast use group_hash_axioms;

        let r = KeyMap { entries: Vec::new(), index: HashMap::new() };
        assert(r@ =~= Map::<Seq<u8>, V>::empty());
        r
    }

    pub fn len(&self) -> (r: usize)
        requires
            self.wf(),
        ensures
            r == self.list().len(),
            r == self@.dom().len(),
    {
        proof {
            self.lemma_list();
        }
        self.entries.len()
    }

    fn bucket(&self, digest: u64) -> (r: Option<&Vec<usize>>)
        ensures
            r is Some <==> self.index@.contains_key(digest),
            r matches Some(b) ==> *b == self.index@[digest],
    {
        broadcast use group_hash_axioms;

        self.index.get(&digest)
    }

    fn push_index(&mut self, digest: u64, i: usize)
        ensures
            final(self).entries == old(self).entries,
            forall|d: u64|
                d != digest ==> (#[trigger] final(self).index@.contains_key(d)
                    <==> old(self).index@.contains_key(d)),
            forall|d: u64|
                d != digest && old(self).index@.contains_key(d) ==> #[trigger] final(self).index@[d]
                    == old(self).index@[d],
            final(self).index@.contains_key(digest),
            final(self).index@[digest]@ == (if old(self).index@.contains_key(digest) {
                old(self).index@[digest]@
            } else {
                Seq::empty()
            }).push(i),
    {
        broadcast use group_hash_axioms;

        let mut bucket: Vec<usize> = match self.index.remove(&digest) {
            Some(b) => b,
            None => Vec::new(),
        };
        bucket.push(i);
        self.index.insert(digest, bucket);
    }

    /// The number of the entry of `key`.
    pub fn find(&self, key: &[u8]) -> (r: Option<usize>)
        requires
            self.wf(),
        ensures
            r is Some <==> self@.contains_key(key@),
            r matches Some(i) ==> i < self.list().len() && self.list()[i as int].0@ == key@
                && self@[key@] == self.list()[i as int].1,
    {
        let digest: u64 = hash64(key, 0);
        let bucket = match self.bucket(digest) {
            None => {
                assert forall|i: int| !#[trigger] keyed(self.entries@, key@, i) by {
                    if keyed(self.entries@, key@, i) {
                        assert(findable(self.index@, self.entries@, i));
                    }
                }
                return None;
            },
            Some(b) => b,
        };
        let mut p: usize = 0;
        while p < bucket.len()
            invariant
                self.wf(),
                digest == hash_of(key@, 0),
                self.index@.contains_key(digest),
                *bucket == self.index@[digest],
                p <= bucket.len(),
                forall|q: int|
                    0 <= q < p ==> self.entries@[(#[trigger] bucket@[q]) as int].0@ != key@,
            decreases bucket.len() - p,
        {
            assert(in_range(self.index@, self.entries@.len(), digest, p as int));
            let i: usize = bucket[p];
            if same_bytes(self.entries[i].0.as_slice(), key) {
                proof {
                    lemma_entry(self.entries@, i as int);
                }
                return Some(i);
            }
            p += 1;
        }
        assert forall|i: int| !#[trigger] keyed(self.entries@, key@, i) by {
            if keyed(self.entries@, key@, i) {
                assert(findable(self.index@, self.entries@, i));
                let q = choose|q: int| 0 <= q < bucket@.len() && #[trigger] bucket@[q] == i;
                assert(self.entries@[bucket@[q] as int].0@ != key@);
            }
        }
        None
    }

    pub fn contains(&self, key: &[u8]) -> (r: bool)
        requires
            self.wf(),
        ensures
            r == self@.contains_key(key@),
    {
        self.find(key).is_some()
    }

    pub fn get(&self, key: &[u8]) -> (r: Option<&V>)
        requires
            self.wf(),
        ensures
            r is Some <==> self@.contains_key(key@),
            r matches Some(v) ==> *v == self@[key@],
    {
        match self.find(key) {
            Some(i) => Some(&self.entries[i].1),
            None => None,
        }
    }

    /// The key of entry number `i`.
    pub fn key(&self, i: usize) -> (r: &Vec<u8>)
        requires
            i < self.list().len(),
        ensures
            *r == self.list()[i as int].0,
    {
        &self.entries[i].0
    }

    /// The value of entry number `i`.
    pub fn value(&self, i: usize) -> (r: &V)
        requires
            i < self.list().len(),
        ensures
            *r == self.list()[i as int].1,
    {
        &self.entries[i].1
    }

    /// Another value for entry number `i`; the old one is handed back.
    pub fn replace(&mut self, i: usize, v: V) -> (r: V)
        requires
            old(self).wf(),
            i < old(self).list().len(),
        ensures
            final(self).wf(),
            r == old(self).list()[i as int].1,
            final(self).list() == old(self).list().update(
                i as int,
                (old(self).list()[i as int].0, v),
            ),
            final(self)@ == old(self)@.insert(old(self).list()[i as int].0@, v),
    {
        let ghost before = *self;
        let ghost now = v;
        let mut other = v;
        core::mem::swap(&mut self.entries[i].1, &mut other);
        proof {
            let key = before.entries@[i as int].0;
            lemma_entries_set(before.entries@, i as int, key, now);
            assert(self.entries@ =~= before.entries@.update(i as int, (key, now)));
            assert forall|j: int| 0 <= j < self.entries@.len() implies #[trigger] findable(
                self.index@,
                self.entries@,
                j,
            ) by {
                assert(findable(before.index@, before.entries@, j));
            }
            assert forall|d: u64, p: int|
                self.index@.contains_key(d) && 0 <= p < self.index@[d]@.len() implies
                #[trigger] in_range(self.index@, self.entries@.len(), d, p) by {
                assert(in_range(before.index@, before.entries@.len(), d, p));
            }
        }
        other
    }

    /// Add a key that is not there yet.
    pub fn push(&mut self, key: Vec<u8>, v: V)
        requires
            old(self).wf(),
            !old(self)@.contains_key(key@),
        ensures
            final(self).wf(),
            final(self).list() == old(self).list().push((key, v)),
            final(self)@ == old(self)@.insert(key@, v),
    {
        let ghost before = *self;
        let n: usize = self.entries.len();
        let digest: u64 = hash64(key.as_slice(), 0);
        let ghost e = (key, v);
        self.entries.push((key, v));
        self.push_index(digest, n);
        proof {
            assert(!has_key(before.entries@, e.0@));
            lemma_entries_push(before.entries@, e);
            assert forall|j: int| 0 <= j < self.entries@.len() implies #[trigger] findable(
                self.index@,
                self.entries@,
                j,
            ) by {
                let d = hash_of(self.entries@[j].0@, 0);
                if j < n {
                    assert(findable(before.index@, before.entries@, j));
                    let b = before.index@[d]@;
                    let q = choose|q: int| 0 <= q < b.len() && #[trigger] b[q] == j;
                    assert(self.index@[d]@[q] == j);
                } else {
                    let b = self.index@[digest]@;
                    assert(b[b.len() - 1] == n);
                }
            }
            assert forall|d: u64, p: int|
                self.index@.contains_key(d) && 0 <= p < self.index@[d]@.len() implies
                #[trigger] in_range(self.index@, self.entries@.len(), d, p) by {
                if d == digest {
                    if p < self.index@[d]@.len() - 1 {
                        assert(in_range(before.index@, before.entries@.len(), d, p));
                    }
                } else {
                    assert(in_range(before.index@, before.entries@.len(), d, p));
                }
            }
        }
    }

    /// Set the value of a key, whether or not it is there.
    pub fn insert(&mut self, key: Vec<u8>, v: V)
        requires
            old(self).wf(),
        ensures
            final(self).wf(),
            final(self)@ == old(self)@.insert(key@, v),
            final(self)@.dom().len() <= old(self)@.dom().len() + 1,
    {
        proof {
            self.lemma_list();
        }
        match self.find(key.as_slice()) {
            Some(i) => {
                self.replace(i, v);
            },
            None => {
                self.push(key, v);
            },
        }
        proof {
            self.lemma_list();
        }
    }
}

/// Entries by key.
struct ByKey<'a, V> {
    entries: &'a Vec<(Vec<u8>, V)>,
}

impl<'a, V> Ranking for ByKey<'a, V> {
    closed spec fn size(&self) -> nat {
        self.entries@.len()
    }

    closed spec fn ahead(&self, i: int, j: int) -> bool {
        bytes_before(self.entries@[i].0@, self.entries@[j].0@)
    }

    closed spec fn ranking_wf(&self) -> bool {
        keys_differ(self.entries@)
    }

    proof fn strict(&self) {
        assert forall|i: int| 0 <= i < self.size() implies !#[trigger] self.ahead(i, i) by {
            lemma_bytes_irreflexive(self.entries@[i].0@);
        }
        assert forall|i: int, j: int|
            0 <= i < self.size() && 0 <= j < self.size() && i != j implies #[trigger] self.ahead(
            i,
            j,
        ) || self.ahead(j, i) by {
            lemma_bytes_total(self.entries@[i].0@, self.entries@[j].0@);
        }
        assert forall|i: int, j: int, k: int|
            0 <= i < self.size() && 0 <= j < self.size() && 0 <= k < self.size()
                && #[trigger] self.ahead(i, j) && #[trigger] self.ahead(j, k) implies self.ahead(
            i,
            k,
        ) by {
            lemma_bytes_transitive(
                self.entries@[i].0@,
                self.entries@[j].0@,
                self.entries@[k].0@,
            );
        }
    }

    fn is_ahead(&self, i: usize, j: usize) -> (r: bool) {
        bytes_less(self.entries[i].0.as_slice(), self.entries[j].0.as_slice())
    }
}

impl<V> KeyMap<V> {
    /// The keys of the entries with the given numbers.
    pub open spec fn keys_of(&self, numbers: Seq<usize>) -> Seq<Seq<u8>> {
        Seq::new(numbers.len(), |i: int| self.list()[numbers[i] as int].0@)
    }

    /// The numbers of all entries, by ascending key.
    pub fn ascending(&self) -> (r: Vec<usize>)
        requires
            self.wf(),
        ensures
            lists_range(r@, 0, self.list().len() as int),
            self.keys_of(r@) == listing(self@.dom(), key_order()),
            is_listing(listing(self@.dom(), key_order()), self@.dom(), key_order()),
    {
        let by_key = ByKey { entries: &self.entries };
        let order = ranked(&by_key, self.entries.len());
        proof {
            let names = self.keys_of(order@);
            lemma_key_order();
            let lt = key_order();
            assert forall|i: int, j: int| 0 <= i < j < names.len() implies lt(
                #[trigger] names[i],
                #[trigger] names[j],
            ) by {
                assert(by_key.ahead(order@[i] as int, order@[j] as int));
            }
            self.lemma_same_keys(order@);
            assert(is_listing(names, self@.dom(), lt));
            lemma_listing(names, self@.dom(), lt);
        }
        order
    }

    /// A listing of all numbers names every key.
    pub proof fn lemma_same_keys(&self, numbers: Seq<usize>)
        requires
            self.wf(),
            lists_range(numbers, 0, self.list().len() as int),
            self.list().len() <= usize::MAX,
        ensures
            forall|k: Seq<u8>| #[trigger]
                self@.dom().contains(k) <==> self.keys_of(numbers).contains(k),
    {
        let names = self.keys_of(numbers);
        assert forall|k: Seq<u8>| #[trigger] self@.dom().contains(k) <==> names.contains(k) by {
            if self@.contains_key(k) {
                lemma_number(self.entries@, k);
                let s = number_of(self.entries@, k);
                assert(numbers.contains(s as usize));
                let q = choose|q: int| 0 <= q < numbers.len() && numbers[q] == s as usize;
                assert(names[q] == k);
            }
            if names.contains(k) {
                let q = choose|q: int| 0 <= q < names.len() && names[q] == k;
                assert(numbers[q] < self.entries@.len());
                lemma_entry(self.entries@, numbers[q] as int);
            }
        }
    }
}

} // verus!
