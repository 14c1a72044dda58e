//! A counter from canonical k-mers (raw bytes) to occurrence counts, kept in
//! an FNV-hashed map.
use vstd::multiset::Multiset;
use vstd::prelude::*;

verus! {

broadcast use vstd::multiset::group_multiset_properties;

/// The hash map that holds the counts: each stored key maps to a count of at
/// least one, and an absent key counts zero.
#[verifier::external_body]
pub struct KmerTable {
    map: fnv::FnvHashMap<Vec<u8>, usize>,
}

/// The counts held in a table, as a multiset of keys.
pub uninterp spec fn table_counts(t: KmerTable) -> Multiset<Seq<u8>>;

/// Relies on `FnvHashMap::default` (std's `HashMap::default`): an empty map.
#[verifier::external_body]
fn table_new() -> (r: KmerTable)
    ensures
        table_counts(r) =~= Multiset::<Seq<u8>>::empty(),
{
    KmerTable { map: fnv::FnvHashMap::default() }
}

/// Relies on `HashMap::get`: the value stored under the key, if any.
#[verifier::external_body]
fn table_get(t: &KmerTable, key: &Vec<u8>) -> (r: Option<usize>)
    ensures
        r is None <==> table_counts(*t).count(key@) == 0,
        r matches Some(c) ==> c as nat == table_counts(*t).count(key@),
{
    t.map.get(key).copied()
}

/// Relies on `HashMap::insert`: afterwards the key maps to `v`, others are unchanged.
#[verifier::external_body]
fn table_insert(t: &mut KmerTable, key: Vec<u8>, v: usize)
    requires
        v > 0,
    ensures
        table_counts(*final(t)) == table_counts(*old(t)).update(key@, v as nat),
{
    t.map.insert(key, v);
}

/// Relies on `HashMap::iter`: each stored entry once, in some order.
#[verifier::external_body]
fn table_entries(t: &KmerTable) -> (r: Vec<(Vec<u8>, usize)>)
    ensures
        forall|i: int| 0 <= i < r@.len() ==> #[trigger] r@[i].1 > 0 && table_counts(*t).count(r@[i].0@) == r@[i].1 as nat,
        forall|i: int, j: int| 0 <= i < j < r@.len() ==> r@[i].0@ != r@[j].0@,
        forall|key: Seq<u8>| table_counts(*t).count(key) > 0 ==> exists|i: int| 0 <= i < r@.len() && r@[i].0@ == key,
{
    t.map.iter().map(|(k, v)| (k.clone(), *v)).collect()
}

/// Occurrence counts of canonical k-mers.
pub struct Counter {
    table: KmerTable,
    total: usize,
}

/// The keys of the first `n` entries of a list, as a set.
pub open spec fn keys_before(es: Seq<(Vec<u8>, usize)>, n: int) -> Set<Seq<u8>> {
    Set::new(|key: Seq<u8>| exists|i: int| 0 <= i < n && #[trigger] es[i].0@ == key)
}

/// The keys of a list of entries, as a set.
pub open spec fn entry_keys(es: Seq<(Vec<u8>, usize)>) -> Set<Seq<u8>> {
    keys_before(es, es.len() as int)
}

impl View for Counter {
    type V = Multiset<Seq<u8>>;

    closed spec fn view(&self) -> Multiset<Seq<u8>> {
        table_counts(self.table)
    }
}

impl Counter {
    /// The exec total always equals the number of occurrences counted.
    pub closed spec fn wf(&self) -> bool {
        self@.len() == self.total as nat
    }

    /// An empty counter.
    pub fn new() -> (r: Counter)
        ensures
            r.wf(),
            r@ =~= Multiset::empty(),
    {
        Counter { table: table_new(), total: 0 }
    }

    /// The number of occurrences counted, over all keys.
    pub fn total(&self) -> (r: usize)
        requires
            self.wf(),
        ensures
            r as nat == self@.len(),
    {
        self.total
    }

    /// How often `key` was counted.
    pub fn get(&self, key: &Vec<u8>) -> (r: usize)
        ensures
            r as nat == self@.count(key@),
    {
        match table_get(&self.table, key) {
            Some(c) => c,
            None => 0,
        }
    }

    /// Counts one more occurrence of `key`.
    pub fn increment(&mut self, key: Vec<u8>)
        requires
            old(self).wf(),
            old(self)@.len() < usize::MAX,
        ensures
            final(self).wf(),
            final(self)@ == old(self)@.insert(key@),
    {
        let c = self.get(&key);
        proof {
            let m = self@;
            assert(m.count(key@) <= m.len());
        }
        let ghost before = self@;
        let ghost kv = key@;
        table_insert(&mut self.table, key, c + 1);
        assert(self@ =~= before.insert(kv));
        self.total = self.total + 1;
    }

    /// The counted keys with their counts, each key once, in no particular order.
    pub fn entries(&self) -> (r: Vec<(Vec<u8>, usize)>)
        ensures
            forall|i: int| 0 <= i < r@.len() ==> #[trigger] r@[i].1 > 0 && self@.count(r@[i].0@) == r@[i].1 as nat,
            forall|i: int, j: int| 0 <= i < j < r@.len() ==> r@[i].0@ != r@[j].0@,
            entry_keys(r@) == self@.dom(),
    {
        let r = table_entries(&self.table);
        assert forall|key: Seq<u8>| entry_keys(r@).contains(key) <==> self@.dom().contains(key) by {
            if entry_keys(r@).contains(key) {
                let i = choose|i: int| 0 <= i < r@.len() && #[trigger] r@[i].0@ == key;
                assert(r@[i].1 > 0);
            }
            if self@.count(key) > 0 {
                let i = choose|i: int| 0 <= i < r@.len() && r@[i].0@ == key;
                assert(r@[i].0@ == key);
            }
        }
        assert(entry_keys(r@) =~= self@.dom());
        r
    }

    /// Adds every count of `other` into this counter: afterwards each key's
    /// count is the sum of its two counts.
    pub fn merge(&mut self, other: &Counter)
        requires
            old(self).wf(),
            other.wf(),
            old(self)@.len() + other@.len() <= usize::MAX,
        ensures
            final(self).wf(),
            final(self)@ == old(self)@.add(other@),
    {
        let ghost a0 = self@;
        let es = other.entries();
        let n = es.len();
        let mut i: usize = 0;
        while i < n
            invariant
                n == es@.len(),
                i <= n,
                a0.len() + other@.len() <= usize::MAX,
                self.total as nat == a0.len(),
                other.wf(),
                forall|j: int| 0 <= j < es@.len() ==> #[trigger] es@[j].1 > 0 && other@.count(es@[j].0@) == es@[j].1 as nat,
                forall|j: int, l: int| 0 <= j < l < es@.len() ==> es@[j].0@ != es@[l].0@,
                entry_keys(es@) == other@.dom(),
                forall|key: Seq<u8>| #[trigger] self@.count(key) == a0.count(key) + (if keys_before(es@, i as int).contains(key) { other@.count(key) } else { 0 }),
            decreases n - i,
        {
            let key = es[i].0.clone();
            let v = es[i].1;
            let ghost kv = es@[i as int].0@;
            assert(key@ == kv);
            let c = self.get(&key);
            assert(!keys_before(es@, i as int).contains(kv)) by {
                if keys_before(es@, i as int).contains(kv) {
                    let j = choose|j: int| 0 <= j < i && #[trigger] es@[j].0@ == kv;
                    assert(es@[j].0@ == kv);
                }
            }
            assert(c as nat == a0.count(kv));
            assert(a0.count(kv) <= a0.len());
            assert(other@.count(kv) <= other@.len());
            let ghost before = self@;
            table_insert(&mut self.table, key, c + v);
            assert forall|key: Seq<u8>| #[trigger] self@.count(key) == a0.count(key) + (if keys_before(es@, i + 1).contains(key) { other@.count(key) } else { 0 }) by {
                if keys_before(es@, i + 1).contains(key) && key != kv {
                    let j = choose|j: int| 0 <= j < i + 1 && #[trigger] es@[j].0@ == key;
                    assert(es@[j].0@ == key);
                }
                if keys_before(es@, i as int).contains(key) {
                    let j = choose|j: int| 0 <= j < i && #[trigger] es@[j].0@ == key;
                    assert(es@[j].0@ == key);
                }
                if key == kv {
                    assert(es@[i as int].0@ == key);
                }
            }
            i = i + 1;
        }
        assert forall|key: Seq<u8>| #[trigger] self@.count(key) == a0.add(other@).count(key) by {
            if other@.count(key) > 0 {
                assert(other@.dom().contains(key));
            }
        }
        assert(self@ =~= a0.add(other@));
        self.total = self.total + other.total;
    }
}

} // verus!
