//! Tables that give each distinct item one index, in the order in which the
//! items are first seen.

use crate::text;
use std::collections::HashMap;
use vstd::hash_map::StringHashMap;
use vstd::prelude::*;

verus! {

broadcast use vstd::std_specs::hash::group_hash_axioms;

/// The index of the first `item` in a table, or the length of the table.
pub open spec fn position<T>(table: Seq<T>, item: T) -> int
    decreases table.len(),
{
    if table.len() == 0 || table[0] == item {
        0
    } else {
        1 + position(table.drop_first(), item)
    }
}

/// A table after an item has been looked up: the item is appended unless it is
/// there.
pub open spec fn interned<T>(table: Seq<T>, item: T) -> Seq<T> {
    if position(table, item) < table.len() {
        table
    } else {
        table.push(item)
    }
}

/// What [`position`] finds: the first such item, and none before it.
pub proof fn lemma_position<T>(table: Seq<T>, item: T)
    ensures
        0 <= position(table, item) <= table.len(),
        position(table, item) < table.len() ==> table[position(table, item)] == item,
        forall|j: int| 0 <= j < position(table, item) ==> table[j] != item,
        position(table, item) < table.len() <==> table.contains(item),
    decreases table.len(),
{
    if table.len() > 0 && table[0] != item {
        let rest = table.drop_first();
        lemma_position(rest, item);
        assert forall|j: int| 0 <= j < position(table, item) implies table[j] != item by {
            if j > 0 {
                assert(rest[j - 1] == table[j]);
            }
        }
        if table.contains(item) {
            let j = choose|j: int| 0 <= j < table.len() && table[j] == item;
            assert(rest[j - 1] == item);
            assert(rest.contains(item));
        }
    }
    let p = position(table, item);
    if 0 <= p < table.len() {
        assert(table[p] == item);
    }
}

/// In a table without duplicates an item stands where [`position`] says.
pub proof fn lemma_position_unique<T>(table: Seq<T>, item: T, i: int)
    requires
        table.no_duplicates(),
        0 <= i < table.len(),
        table[i] == item,
    ensures
        position(table, item) == i,
{
    lemma_position(table, item);
}

/// Looking an item up gives it its index for good: the index is that of the
/// item, every other item keeps its own, and no item gets a second one.
pub proof fn lemma_interned<T>(table: Seq<T>, item: T)
    requires
        table.no_duplicates(),
    ensures
        interned(table, item).no_duplicates(),
        position(table, item) < interned(table, item).len(),
        interned(table, item)[position(table, item)] == item,
        position(interned(table, item), item) == position(table, item),
        table.is_prefix_of(interned(table, item)),
{
    lemma_position(table, item);
    let after = interned(table, item);
    lemma_position_unique(after, item, position(table, item));
}

// Strings

/// A table of strings.
pub struct StringTable {
    strings: Vec<String>,
    index: StringHashMap<usize>,
}

impl View for StringTable {
    type V = Seq<Seq<char>>;

    closed spec fn view(&self) -> Seq<Seq<char>> {
        text::strings(self.strings@)
    }
}

/// Whether an index has each string of a table at its place, and no other.
spec fn indexes(index: Map<Seq<char>, usize>, table: Seq<Seq<char>>) -> bool {
    &&& forall|i: int|
        0 <= i < table.len() ==> index.dom().contains(#[trigger] table[i]) && index[table[i]] == i
    &&& forall|s: Seq<char>| #[trigger]
        index.dom().contains(s) ==> index[s] < table.len() && table[index[s] as int] == s
}

impl StringTable {
    /// Whether the index has each string of the table at its place.
    pub closed spec fn well_formed(&self) -> bool {
        indexes(self.index@, self@)
    }

    /// A table without strings.
    pub fn new() -> (r: Self)
        ensures
            r.well_formed(),
            r@ == Seq::<Seq<char>>::empty(),
    {
        let r = StringTable { strings: Vec::new(), index: StringHashMap::new() };
        assert(r@ =~= Seq::<Seq<char>>::empty());
        r
    }

    /// How many strings there are.
    pub fn len(&self) -> (r: usize)
        ensures
            r == self@.len(),
    {
        self.strings.len()
    }

    /// The string at an index.
    pub fn get(&self, i: usize) -> (r: &String)
        requires
            i < self@.len(),
        ensures
            r@ == self@[i as int],
    {
        &self.strings[i]
    }

    /// The index of a string, which is added if it is not there.
    pub fn intern(&mut self, s: &str) -> (r: usize)
        requires
            old(self).well_formed(),
        ensures
            final(self).well_formed(),
            r == position(old(self)@, s@),
            r < final(self)@.len() <= usize::MAX,
            final(self)@ == interned(old(self)@, s@),
    {
        proof {
            lemma_position(self@, s@);
        }
        if let Some(i) = self.index.get(s) {
            proof {
                let p = position(self@, s@);
                assert(self@[*i as int] == s@);
                assert(self@[p] == s@);
                assert(self.strings.len() == self@.len());
            }
            return *i;
        }
        proof {
            let p = position(self@, s@);
            if p < self@.len() {
                assert(self.index@.dom().contains(self@[p]));
            }
        }
        let i: usize = self.strings.len();
        let ghost before = self@;
        let ghost index_before = self.index@;
        self.strings.push(s.to_string());
        self.index.insert(s.to_string(), i);
        proof {
            assert(self@ =~= before.push(s@));
            assert(self.strings.len() == self@.len());
            assert forall|k: int| 0 <= k < self@.len() implies self.index@.dom().contains(
                #[trigger] self@[k],
            ) && self.index@[self@[k]] == k by {
                if k < before.len() {
                    assert(self@[k] == before[k]);
                    assert(index_before.dom().contains(before[k]));
                }
            }
        }
        i
    }
}

// Keys

/// A table of keys, each a list of numbers. Keys are found again by a hash.
pub struct KeyTable {
    keys: Vec<Vec<u64>>,
    buckets: HashMap<u64, Vec<usize>>,
}

/// What a list of keys holds.
pub open spec fn key_lists(list: Seq<Vec<u64>>) -> Seq<Seq<u64>> {
    Seq::new(list.len(), |i: int| list[i]@)
}

impl View for KeyTable {
    type V = Seq<Seq<u64>>;

    closed spec fn view(&self) -> Seq<Seq<u64>> {
        key_lists(self.keys@)
    }
}

/// The hash of a key.
spec fn hash_of(key: Seq<u64>) -> u64
    decreases key.len(),
{
    if key.len() == 0 {
        7
    } else {
        hash_of(key.drop_last()).wrapping_mul(31).wrapping_add(key.last())
    }
}

fn hash(key: &[u64]) -> (r: u64)
    ensures
        r == hash_of(key@),
{
    let mut h: u64 = 7;
    for i in 0..key.len()
        invariant
            h == hash_of(key@.take(i as int)),
    {
        assert(key@.take(i + 1).drop_last() == key@.take(i as int));
        h = h.wrapping_mul(31).wrapping_add(key[i]);
    }
    assert(key@.take(key@.len() as int) == key@);
    h
}

fn same_key(a: &[u64], b: &[u64]) -> (r: bool)
    ensures
        r == (a@ == b@),
{
    if a.len() != b.len() {
        return false;
    }
    for i in 0..a.len()
        invariant
            a@.len() == b@.len(),
            forall|j: int| 0 <= j < i ==> a@[j] == b@[j],
    {
        if a[i] != b[i] {
            return false;
        }
    }
    assert(a@ =~= b@);
    true
}

/// Whether the bucket of each key of a table lists its place.
spec fn hashes(buckets: Map<u64, Vec<usize>>, table: Seq<Seq<u64>>) -> bool {
    forall|i: int|
        0 <= i < table.len() ==> buckets.dom().contains(hash_of(#[trigger] table[i]))
            && buckets[hash_of(table[i])]@.contains(i as usize)
}

/// Whether the buckets of a table list places in it.
spec fn in_range(buckets: Map<u64, Vec<usize>>, len: nat) -> bool {
    forall|h: u64, j: int| #[trigger]
        buckets.dom().contains(h) && 0 <= j < buckets[h]@.len() ==> #[trigger] buckets[h]@[j] < len
}

impl KeyTable {
    /// Whether each key is found in its bucket, and no key occurs twice.
    pub closed spec fn well_formed(&self) -> bool {
        &&& hashes(self.buckets@, self@)
        &&& in_range(self.buckets@, self@.len())
        &&& self@.no_duplicates()
    }

    /// A table without keys.
    pub fn new() -> (r: Self)
        ensures
            r.well_formed(),
            r@ == Seq::<Seq<u64>>::empty(),
    {
        let r = KeyTable { keys: Vec::new(), buckets: HashMap::new() };
        assert(r@ =~= Seq::<Seq<u64>>::empty());
        r
    }

    /// How many keys there are.
    pub fn len(&self) -> (r: usize)
        ensures
            r == self@.len(),
    {
        self.keys.len()
    }

    /// The key at an index.
    pub fn get(&self, i: usize) -> (r: &Vec<u64>)
        requires
            i < self@.len(),
        ensures
            r@ == self@[i as int],
    {
        &self.keys[i]
    }

    fn find(&self, key: &[u64]) -> (r: Option<usize>)
        requires
            self.well_formed(),
        ensures
            match r {
                Some(i) => i == position(self@, key@) && i < self@.len(),
                None => position(self@, key@) == self@.len(),
            },
    {
        proof {
            lemma_position(self@, key@);
        }
        let h: u64 = hash(key);
        match self.buckets.get(&h) {
            None => {
                proof {
                    let p = position(self@, key@);
                    if p < self@.len() {
                        assert(self.buckets@.dom().contains(hash_of(self@[p])));
                    }
                }
                None
            },
            Some(list) => {
                for j in 0..list.len()
                    invariant
                        self.well_formed(),
                        h == hash_of(key@),
                        self.buckets@.dom().contains(h),
                        *list == self.buckets@[h],
                        forall|k: int|
                            0 <= k < j ==> list@[k] < self@.len() && self@[list@[k] as int] != key@,
                {
                    let i: usize = list[j];
                    assert(self.buckets@[h]@[j as int] < self@.len());
                    if same_key(self.keys[i].as_slice(), key) {
                        proof {
                            assert(self@[i as int] == key@);
                            lemma_position_unique(self@, key@, i as int);
                        }
                        return Some(i);
                    }
                    assert(self@[i as int] == self.keys@[i as int]@);
                }
                proof {
                    let p = position(self@, key@);
                    if p < self@.len() {
                        assert(self.keys.len() == self@.len());
                        assert(self@[p] == key@);
                        assert(list@.contains(p as usize));
                        let k = choose|k: int| 0 <= k < list@.len() && list@[k] == p as usize;
                        assert(self@[list@[k] as int] != key@);
                    }
                }
                None
            },
        }
    }

    /// The index of a key, which is added if it is not there.
    pub fn intern(&mut self, key: Vec<u64>) -> (r: usize)
        requires
            old(self).well_formed(),
        ensures
            final(self).well_formed(),
            r == position(old(self)@, key@),
            r < final(self)@.len() <= usize::MAX,
            final(self)@ == interned(old(self)@, key@),
    {
        if let Some(i) = self.find(key.as_slice()) {
            assert(self.keys.len() == self@.len());
            return i;
        }
        let ghost before = self@;
        let ghost buckets_before = self.buckets@;
        proof {
            lemma_interned(before, key@);
        }
        let i: usize = self.keys.len();
        let h: u64 = hash(key.as_slice());
        let mut list: Vec<usize> = match self.buckets.remove(&h) {
            Some(list) => list,
            None => Vec::new(),
        };
        let ghost list_before = list@;
        list.push(i);
        self.buckets.insert(h, list);
        let ghost key_view = key@;
        self.keys.push(key);
        proof {
            assert(self@ =~= before.push(key_view));
            assert(self.keys.len() == self@.len());
            assert(list@[list_before.len() as int] == i);
            assert forall|k: int| 0 <= k < self@.len() implies self.buckets@.dom().contains(
                hash_of(#[trigger] self@[k]),
            ) && self.buckets@[hash_of(self@[k])]@.contains(k as usize) by {
                if k < before.len() {
                    assert(self@[k] == before[k]);
                    assert(buckets_before[hash_of(before[k])]@.contains(k as usize));
                    if hash_of(before[k]) == h {
                        let j = choose|j: int|
                            0 <= j < list_before.len() && list_before[j] == k as usize;
                        assert(list@[j] == k as usize);
                    }
                }
            }
            assert forall|g: u64, j: int| #[trigger]
                self.buckets@.dom().contains(g) && 0 <= j
                    < self.buckets@[g]@.len() implies #[trigger] self.buckets@[g]@[j]
                < self@.len() by {
                if g == h {
                    if j < list_before.len() {
                        assert(buckets_before[g]@[j] < before.len());
                    }
                } else {
                    assert(buckets_before.dom().contains(g));
                    assert(buckets_before[g]@[j] < before.len());
                }
            }
        }
        i
    }
}

} // verus!
