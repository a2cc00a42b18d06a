//! Exact counter. Its memory is unbounded: it is never planned for production
//! queries and serves as ground truth for accuracy benchmarks and tests.

use vstd::prelude::*;
use vstd::string::*;

use crate::algos::counts::{
    add_counts, as_counts, count_or_zero, counts_fit, entry_memory, front_of, is_front, key_memory,
    lemma_list_step, memory_of, summed, ENTRY_OVERHEAD,
};
use crate::bytes::copy_bytes;
use crate::error::SketchError;
use crate::hash::{HashFamily, HashSpec, HASH_VERSION};
use crate::keymap::{has_key, keyed, keys_differ, lemma_entry, map_of, number_of, KeyMap};
use crate::sketch::{Compat, Sketch, SketchCompatibility};
use crate::sums::{lemma_sum_empty, lemma_sum_insert, sum_over};

verus! {

pub const ALGORITHM: &'static str = "exact";

#[derive(Debug, Clone)]
pub struct ExactCounter {
    counts: KeyMap<u64>,
    distinct: KeyMap<KeyMap<()>>,
    total_weight: u64,
    updates: u64,
}

/// The mathematical state of an [`ExactCounter`].
#[verifier::ext_equal]
pub ghost struct Exact {
    pub counts: Map<Seq<u8>, int>,
    /// The distinct items seen with each key.
    pub distinct: Map<Seq<u8>, Set<Seq<u8>>>,
    pub total: int,
    pub updates: int,
}

/// The items seen with a key.
pub open spec fn items_of(m: Map<Seq<u8>, Set<Seq<u8>>>, key: Seq<u8>) -> Set<Seq<u8>> {
    if m.contains_key(key) {
        m[key]
    } else {
        Set::empty()
    }
}

/// Key by key the union.
pub open spec fn united(
    a: Map<Seq<u8>, Set<Seq<u8>>>,
    b: Map<Seq<u8>, Set<Seq<u8>>>,
) -> Map<Seq<u8>, Set<Seq<u8>>> {
    Map::new(
        |k: Seq<u8>| a.contains_key(k) || b.contains_key(k),
        |k: Seq<u8>| items_of(a, k).union(items_of(b, k)),
    )
}

/// Bytes accounted to items besides their length.
pub const ITEM_OVERHEAD: usize = 32;

/// Bytes accounted to the distinct items and their keys.
pub open spec fn distinct_memory(m: Map<Seq<u8>, Set<Seq<u8>>>) -> int {
    sum_over(m.dom(), |k: Seq<u8>| k.len() as int + key_memory(m[k], ITEM_OVERHEAD as int))
}

impl Exact {
    pub open spec fn empty() -> Exact {
        Exact { counts: Map::empty(), distinct: Map::empty(), total: 0, updates: 0 }
    }

    pub open spec fn added(self, key: Seq<u8>, weight: int) -> Exact {
        Exact {
            counts: self.counts.insert(key, count_or_zero(self.counts, key) + weight),
            total: self.total + weight,
            updates: self.updates + 1,
            ..self
        }
    }

    pub open spec fn seen(self, key: Seq<u8>, item: Seq<u8>) -> Exact {
        Exact {
            distinct: self.distinct.insert(key, items_of(self.distinct, key).insert(item)),
            updates: self.updates + 1,
            ..self
        }
    }

    pub open spec fn merged(self, other: Exact) -> Exact {
        Exact {
            counts: summed(self.counts, other.counts),
            distinct: united(self.distinct, other.distinct),
            total: self.total + other.total,
            updates: self.updates + other.updates,
        }
    }

    pub open spec fn fits(self) -> bool {
        &&& counts_fit(self.counts)
        &&& 0 <= self.total <= u64::MAX
        &&& 0 <= self.updates <= u64::MAX
    }

    pub open spec fn memory(self) -> int {
        entry_memory(self.counts.dom()) + distinct_memory(self.distinct)
            + vstd::layout::size_of::<ExactCounter>()
    }
}

/// The items of every key.
pub open spec fn as_sets(m: Map<Seq<u8>, KeyMap<()>>) -> Map<Seq<u8>, Set<Seq<u8>>> {
    Map::new(|k: Seq<u8>| m.contains_key(k), |k: Seq<u8>| m[k]@.dom())
}

impl View for ExactCounter {
    type V = Exact;

    closed spec fn view(&self) -> Exact {
        Exact {
            counts: as_counts(self.counts@),
            distinct: as_sets(self.distinct@),
            total: self.total_weight as int,
            updates: self.updates as int,
        }
    }
}

/// All inner maps are well formed.
spec fn inner_wf(m: Map<Seq<u8>, KeyMap<()>>) -> bool {
    forall|k: Seq<u8>| #[trigger] m.contains_key(k) ==> m[k].wf()
}

/// The union of one item into the items of a key.
fn note_item(distinct: &mut KeyMap<KeyMap<()>>, key: &[u8], item: &[u8])
    requires
        old(distinct).wf(),
        inner_wf(old(distinct)@),
    ensures
        final(distinct).wf(),
        inner_wf(final(distinct)@),
        as_sets(final(distinct)@) == as_sets(old(distinct)@).insert(
            key@,
            items_of(as_sets(old(distinct)@), key@).insert(item@),
        ),
{
    let ghost before = distinct@;
    match distinct.find(key) {
        Some(i) => {
            let mut inner: KeyMap<()> = distinct.replace(i, KeyMap::new());
            let ghost mid = distinct@;
            inner.insert(copy_bytes(item), ());
            distinct.replace(i, inner);
            proof {
                assert(distinct@ =~= before.insert(key@, inner));
                assert(inner@.dom() =~= before[key@]@.dom().insert(item@));
            }
        },
        None => {
            let mut inner: KeyMap<()> = KeyMap::new();
            inner.insert(copy_bytes(item), ());
            distinct.push(copy_bytes(key), inner);
            assert(inner@.dom() =~= Set::empty().insert(item@));
        },
    }
    assert(as_sets(distinct@) =~= as_sets(before).insert(
        key@,
        items_of(as_sets(before), key@).insert(item@),
    ));
}

/// The union of some items into the items of a key, which is there afterwards
/// even without items.
fn note_items(distinct: &mut KeyMap<KeyMap<()>>, key: &[u8], items: &KeyMap<()>)
    requires
        old(distinct).wf(),
        inner_wf(old(distinct)@),
        items.wf(),
    ensures
        final(distinct).wf(),
        inner_wf(final(distinct)@),
        as_sets(final(distinct)@) == as_sets(old(distinct)@).insert(
            key@,
            items_of(as_sets(old(distinct)@), key@).union(items@.dom()),
        ),
{
    let ghost before = as_sets(distinct@);
    let ghost list = items.list();
    if !distinct.contains(key) {
        distinct.push(copy_bytes(key), KeyMap::new());
    }
    let n: usize = items.len();
    let mut i: usize = 0;
    proof {
        items.lemma_list();
        assert(map_of(list.take(0)).dom() =~= Set::empty()) by {
            assert forall|k: Seq<u8>| !has_key(list.take(0), k) by {
                if has_key(list.take(0), k) {
                    assert(keyed(list.take(0), k, number_of(list.take(0), k)));
                }
            }
        }
        assert(items_of(before, key@).union(map_of(list.take(0)).dom()) =~= items_of(before, key@));
        assert(as_sets(distinct@) =~= before.insert(
            key@,
            items_of(before, key@).union(map_of(list.take(0)).dom()),
        ));
    }
    while i < n
        invariant
            n == list.len(),
            list == items.list(),
            keys_differ(list),
            distinct.wf(),
            inner_wf(distinct@),
            i <= n,
            as_sets(distinct@) == before.insert(
                key@,
                items_of(before, key@).union(map_of(list.take(i as int)).dom()),
            ),
        decreases n - i,
    {
        let ghost mid = as_sets(distinct@);
        note_item(distinct, key, items.key(i).as_slice());
        proof {
            lemma_list_step(list, i as int);
            assert(items_of(before, key@).union(map_of(list.take(i + 1)).dom()) =~= mid[key@].insert(
                list[i as int].0@,
            ));
            assert(as_sets(distinct@) =~= before.insert(
                key@,
                items_of(before, key@).union(map_of(list.take(i + 1)).dom()),
            ));
        }
        i += 1;
    }
    assert(list.take(n as int) =~= list);
}

impl Default for ExactCounter {
    fn default() -> (r: Self)
        ensures
            r.wf(),
            r@ == Exact::empty(),
    {
        let r = ExactCounter {
            counts: KeyMap::new(),
            distinct: KeyMap::new(),
            total_weight: 0,
            updates: 0,
        };
        assert(r@ =~= Exact::empty());
        r
    }
}

impl ExactCounter {
    pub fn new() -> (r: Self)
        ensures
            r.wf(),
            r@ == Exact::empty(),
    {
        ExactCounter::default()
    }

    pub fn add(&mut self, key: &[u8], weight: u64)
        requires
            old(self).wf(),
            old(self)@.added(key@, weight as int).fits(),
        ensures
            final(self).wf(),
            final(self)@ == old(self)@.added(key@, weight as int),
    {
        let ghost start = self@;
        let ghost goal = start.added(key@, weight as int);
        assert(goal.total == start.total + weight && goal.updates == start.updates + 1);
        assert(goal.counts.contains_key(key@));
        self.total_weight = self.total_weight + weight;
        self.updates = self.updates + 1;
        match self.counts.find(key) {
            Some(i) => {
                let c: u64 = *self.counts.value(i);
                assert(start.counts[key@] == c);
                self.counts.replace(i, c + weight);
            },
            None => {
                self.counts.push(copy_bytes(key), weight);
            },
        }
        assert(self@.counts =~= goal.counts);
    }

    /// Ground truth for distinct-count queries.
    pub fn insert_distinct(&mut self, key: &[u8], item: &[u8])
        requires
            old(self).wf(),
            old(self)@.updates < u64::MAX,
        ensures
            final(self).wf(),
            final(self)@ == old(self)@.seen(key@, item@),
    {
        self.updates = self.updates + 1;
        note_item(&mut self.distinct, key, item);
    }

    pub fn get(&self, key: &[u8]) -> (r: u64)
        requires
            self.wf(),
        ensures
            r == count_or_zero(self@.counts, key@),
    {
        match self.counts.get(key) {
            Some(c) => *c,
            None => 0,
        }
    }

    pub fn distinct_count(&self, key: &[u8]) -> (r: u64)
        requires
            self.wf(),
        ensures
            r == items_of(self@.distinct, key@).len(),
    {
        match self.distinct.get(key) {
            Some(items) => items.len() as u64,
            None => 0,
        }
    }

    pub fn total_weight(&self) -> (r: u64)
        ensures
            r == self@.total,
    {
        self.total_weight
    }

    /// Keys by count, largest first, trimmed to `limit`.
    pub fn top_k(&self, limit: usize) -> (r: Vec<(Vec<u8>, u64)>)
        requires
            self.wf(),
        ensures
            is_front(r@, self@.counts, limit as int),
    {
        front_of(&self.counts, limit)
    }

    /// All counted keys, each once.
    pub fn keys(&self) -> (r: Vec<Vec<u8>>)
        requires
            self.wf(),
        ensures
            r@.len() == self@.counts.dom().len(),
            forall|i: int|
                0 <= i < r@.len() ==> self@.counts.contains_key((#[trigger] r@[i])@),
            forall|i: int, j: int|
                0 <= i < r@.len() && 0 <= j < r@.len() && i != j ==> (#[trigger] r@[i])@ != (
                #[trigger] r@[j])@,
    {
        let n: usize = self.counts.len();
        let ghost list = self.counts.list();
        let mut out: Vec<Vec<u8>> = Vec::new();
        let mut i: usize = 0;
        while i < n
            invariant
                n == list.len(),
                list == self.counts.list(),
                i <= n,
                out@.len() == i,
                forall|j: int| 0 <= j < i ==> (#[trigger] out@[j])@ == list[j].0@,
            decreases n - i,
        {
            out.push(copy_bytes(self.counts.key(i).as_slice()));
            i += 1;
        }
        proof {
            self.counts.lemma_list();
            assert(self@.counts.dom() =~= self.counts@.dom());
            assert forall|i: int| 0 <= i < out@.len() implies self@.counts.contains_key(
                (#[trigger] out@[i])@,
            ) by {
                lemma_entry(list, i);
            }
            assert forall|i: int, j: int|
                0 <= i < out@.len() && 0 <= j < out@.len() && i != j implies (#[trigger] out@[i])@
                != (#[trigger] out@[j])@ by {
                assert(list[i].0@ != list[j].0@);
            }
        }
        out
    }

    /// Bytes accounted to the distinct items, or the largest word.
    fn distinct_bytes(&self) -> (r: usize)
        requires
            self.wf(),
        ensures
            r == if distinct_memory(self@.distinct) <= usize::MAX {
                distinct_memory(self@.distinct)
            } else {
                usize::MAX as int
            },
    {
        let n: usize = self.distinct.len();
        let ghost list = self.distinct.list();
        let ghost m = self@.distinct;
        let ghost f = |k: Seq<u8>| k.len() as int + key_memory(m[k], ITEM_OVERHEAD as int);
        let mut acc: usize = 0;
        let mut i: usize = 0;
        proof {
            self.distinct.lemma_list();
            assert(map_of(list.take(0)).dom() =~= Set::empty()) by {
                assert forall|k: Seq<u8>| !has_key(list.take(0), k) by {
                    if has_key(list.take(0), k) {
                        assert(keyed(list.take(0), k, number_of(list.take(0), k)));
                    }
                }
            }
            lemma_sum_empty(f);
        }
        while i < n
            invariant
                self.wf(),
                n == list.len(),
                list == self.distinct.list(),
                keys_differ(list),
                self.distinct@ == map_of(list),
                m == self@.distinct,
                f == (|k: Seq<u8>| k.len() as int + key_memory(m[k], ITEM_OVERHEAD as int)),
                i <= n,
                map_of(list.take(i as int)).dom().finite(),
                acc == if sum_over(map_of(list.take(i as int)).dom(), f) <= usize::MAX {
                    sum_over(map_of(list.take(i as int)).dom(), f)
                } else {
                    usize::MAX as int
                },
            decreases n - i,
        {
            proof {
                lemma_list_step(list, i as int);
                lemma_entry(list, i as int);
                let key = list[i as int].0@;
                let part = map_of(list.take(i as int)).dom();
                lemma_sum_insert(part, f, key);
                assert(map_of(list.take(i + 1)).dom() =~= part.insert(key));
                assert(self.distinct@.contains_key(key));
                assert(m[key] == list[i as int].1@.dom());
            }
            let items: usize = memory_of(self.distinct.value(i), ITEM_OVERHEAD);
            acc = acc.saturating_add(self.distinct.key(i).len()).saturating_add(items);
            i += 1;
        }
        proof {
            assert(list.take(n as int) =~= list);
            assert(self.distinct@.dom() =~= m.dom());
        }
        acc
    }
}

impl Sketch for ExactCounter {
    closed spec fn wf(&self) -> bool {
        self.counts.wf() && self.distinct.wf() && inner_wf(self.distinct@)
    }

    /// All exact counters may merge.
    open spec fn compat(&self) -> Compat {
        Compat {
            algorithm: ALGORITHM@,
            version: 1,
            hash: HashSpec { family: HashFamily::Fsk1, seed: 0, version: HASH_VERSION },
            params_hash: 0,
        }
    }

    open spec fn update_fits(&self, key: Seq<u8>, value: u64) -> bool {
        self@.added(key, value as int).fits()
    }

    open spec fn is_updated(&self, key: Seq<u8>, value: u64, after: &Self) -> bool {
        after@ == self@.added(key, value as int)
    }

    open spec fn merge_fits(&self, other: &Self) -> bool {
        self@.merged(other@).fits()
    }

    open spec fn is_merged(&self, other: &Self, after: &Self) -> bool {
        after@ == self@.merged(other@)
    }

    open spec fn is_cleared(&self, after: &Self) -> bool {
        after@ == Exact::empty()
    }

    open spec fn updates(&self) -> u64 {
        self@.updates as u64
    }

    open spec fn memory_fits(&self) -> bool {
        self@.memory() <= usize::MAX
    }

    open spec fn is_memory(&self, bytes: usize) -> bool {
        bytes == self@.memory()
    }

    fn update(&mut self, key: &[u8], value: u64) {
        self.add(key, value);
    }

    fn merge_from(&mut self, other: &Self) -> (r: Result<(), SketchError>) {
        let ghost start = self@;
        let ghost goal = start.merged(other@);
        add_counts(&mut self.counts, &other.counts);
        let n: usize = other.distinct.len();
        let ghost list = other.distinct.list();
        let mut i: usize = 0;
        proof {
            other.distinct.lemma_list();
            assert(as_sets(map_of(list.take(0))) =~= Map::empty()) by {
                assert forall|k: Seq<u8>| !has_key(list.take(0), k) by {
                    if has_key(list.take(0), k) {
                        assert(keyed(list.take(0), k, number_of(list.take(0), k)));
                    }
                }
            }
            lemma_united_empty(start.distinct);
        }
        while i < n
            invariant
                other.wf(),
                n == list.len(),
                list == other.distinct.list(),
                keys_differ(list),
                other.distinct@ == map_of(list),
                self.wf(),
                i <= n,
                self@ == (Exact {
                    counts: goal.counts,
                    distinct: united(start.distinct, as_sets(map_of(list.take(i as int)))),
                    ..start
                }),
            decreases n - i,
        {
            let ghost part = as_sets(map_of(list.take(i as int)));
            let ghost key = list[i as int].0@;
            let ghost before = self@.distinct;
            proof {
                lemma_list_step(list, i as int);
                lemma_entry(list, i as int);
                assert(other.distinct@.contains_key(key));
            }
            note_items(
                &mut self.distinct,
                other.distinct.key(i).as_slice(),
                other.distinct.value(i),
            );
            proof {
                let next = as_sets(map_of(list.take(i + 1)));
                assert(next =~= part.insert(key, list[i as int].1@.dom()));
                lemma_united_insert(start.distinct, part, key, list[i as int].1@.dom());
            }
            i += 1;
        }
        assert(list.take(n as int) =~= list);
        self.total_weight = self.total_weight + other.total_weight;
        self.updates = self.updates + other.updates;
        assert(self@ =~= goal);
        Ok(())
    }

    fn memory_bytes(&self) -> (r: usize) {
        proof {
            self.counts.lemma_list();
            assert(self@.counts.dom() =~= self.counts@.dom());
            lemma_memory_nonnegative(self.counts@.dom(), ENTRY_OVERHEAD as int);
            self.distinct.lemma_list();
            assert(self@.distinct.dom() =~= self.distinct@.dom());
            assert forall|k: Seq<u8>| #[trigger] self@.distinct.dom().contains(k) implies 0 <= (
            |k: Seq<u8>| k.len() as int + key_memory(self@.distinct[k], ITEM_OVERHEAD as int))(k) by {
                assert(self.distinct@.contains_key(k));
                self.distinct@[k].lemma_list();
                lemma_memory_nonnegative(self@.distinct[k], ITEM_OVERHEAD as int);
            }
            crate::sums::lemma_sum_at_least(
                self@.distinct.dom(),
                |k: Seq<u8>| k.len() as int + key_memory(self@.distinct[k], ITEM_OVERHEAD as int),
                0,
            );
        }
        let counts: usize = memory_of(&self.counts, ENTRY_OVERHEAD);
        let distinct: usize = self.distinct_bytes();
        counts + distinct + core::mem::size_of::<Self>()
    }

    fn reset(&mut self) {
        self.counts = KeyMap::new();
        self.distinct = KeyMap::new();
        self.total_weight = 0;
        self.updates = 0;
        assert(self@ =~= Exact::empty());
    }

    fn update_count(&self) -> (r: u64) {
        self.updates
    }

    fn compatibility(&self) -> (r: SketchCompatibility) {
        SketchCompatibility {
            algorithm: ALGORITHM.to_owned(),
            version: 1,
            hash: HashSpec::new(0),
            params_hash: 0,
        }
    }
}

proof fn lemma_memory_nonnegative(keys: Set<Seq<u8>>, each: int)
    requires
        keys.finite(),
        each >= 0,
    ensures
        0 <= key_memory(keys, each),
{
    crate::sums::lemma_sum_at_least(keys, |k: Seq<u8>| k.len() as int + each, 0);
}

proof fn lemma_united_empty(a: Map<Seq<u8>, Set<Seq<u8>>>)
    ensures
        united(a, Map::empty()) == a,
{
    let e = Map::<Seq<u8>, Set<Seq<u8>>>::empty();
    assert forall|k: Seq<u8>| a.contains_key(k) implies united(a, e)[k] == a[k] by {
        assert(united(a, e)[k] =~= a[k]);
    }
    assert(united(a, e) =~= a);
}

proof fn lemma_united_insert(
    a: Map<Seq<u8>, Set<Seq<u8>>>,
    b: Map<Seq<u8>, Set<Seq<u8>>>,
    key: Seq<u8>,
    items: Set<Seq<u8>>,
)
    requires
        !b.contains_key(key),
    ensures
        united(a, b.insert(key, items)) == united(a, b).insert(
            key,
            items_of(united(a, b), key).union(items),
        ),
{
    let x = united(a, b.insert(key, items));
    let y = united(a, b).insert(key, items_of(united(a, b), key).union(items));
    assert(x[key] =~= y[key]);
    assert(x =~= y);
}

} // verus!
