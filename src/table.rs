//! A fixed-capacity hash table with separate chaining.
//!
//! The table is viewed as a sequence of buckets, one per slot; each bucket is
//! the sequence of its `(key, value)` entries in insertion order.

use crate::fnv::{bucket_of, FnvHasher};
use vstd::prelude::*;
use vstd::utf8::encode_utf8;

verus! {

/// The number of buckets of a table made by `HashTable::new`.
pub const DEFAULT_CAPACITY: i64 = 1000;

/// The slot that `key` is routed to in a table of `capacity` buckets: the
/// FNV-1a bucket of its UTF-8 bytes.
pub open spec fn slot(key: Seq<char>, capacity: nat) -> int {
    bucket_of(encode_utf8(key), capacity) as int
}

/// The position of the first entry of `chain` whose key is `key`, or
/// `chain.len()` when there is none.
pub open spec fn first_key_index<T>(chain: Seq<(Seq<char>, T)>, key: Seq<char>) -> int
    decreases chain.len(),
{
    if chain.len() == 0 {
        0
    } else if chain[0].0 == key {
        0
    } else {
        1 + first_key_index(chain.drop_first(), key)
    }
}

/// The value of the first entry of `chain` with key `key`.
pub open spec fn chain_get<T>(chain: Seq<(Seq<char>, T)>, key: Seq<char>) -> Option<T> {
    let p = first_key_index(chain, key);
    if p < chain.len() {
        Some(chain[p].1)
    } else {
        None
    }
}

/// `chain` without its first entry with key `key`, if it has one.
pub open spec fn chain_remove<T>(chain: Seq<(Seq<char>, T)>, key: Seq<char>) -> Seq<(Seq<char>, T)> {
    let p = first_key_index(chain, key);
    if p < chain.len() {
        chain.remove(p)
    } else {
        chain
    }
}

/// The buckets after `(key, value)` is appended to the bucket of its slot.
pub open spec fn table_insert<T>(buckets: Seq<Seq<(Seq<char>, T)>>, key: Seq<char>, value: T) -> Seq<
    Seq<(Seq<char>, T)>,
> {
    let s = slot(key, buckets.len());
    buckets.update(s, buckets[s].push((key, value)))
}

/// The value that a lookup of `key` finds in `buckets`.
pub open spec fn table_get<T>(buckets: Seq<Seq<(Seq<char>, T)>>, key: Seq<char>) -> Option<T> {
    chain_get(buckets[slot(key, buckets.len())], key)
}

/// The buckets after the first entry with key `key` is taken out of its slot.
pub open spec fn table_remove<T>(buckets: Seq<Seq<(Seq<char>, T)>>, key: Seq<char>) -> Seq<
    Seq<(Seq<char>, T)>,
> {
    let s = slot(key, buckets.len());
    buckets.update(s, chain_remove(buckets[s], key))
}

/// The number of entries over all buckets.
pub open spec fn entry_count<T>(buckets: Seq<Seq<(Seq<char>, T)>>) -> nat
    decreases buckets.len(),
{
    if buckets.len() == 0 {
        0
    } else {
        entry_count(buckets.drop_last()) + buckets.last().len()
    }
}

/// Characterises `first_key_index` by the entries before it.
proof fn lemma_first_key_index<T>(chain: Seq<(Seq<char>, T)>, key: Seq<char>)
    ensures
        0 <= first_key_index(chain, key) <= chain.len(),
        forall|j: int| 0 <= j < first_key_index(chain, key) ==> chain[j].0 != key,
        first_key_index(chain, key) < chain.len() ==> chain[first_key_index(chain, key)].0 == key,
    decreases chain.len(),
{
    if chain.len() > 0 && chain[0].0 != key {
        lemma_first_key_index(chain.drop_first(), key);
        assert forall|j: int| 0 <= j < first_key_index(chain, key) implies chain[j].0 != key by {
            if j > 0 {
                assert(chain[j] == chain.drop_first()[j - 1]);
            }
        }
    }
}

/// An index whose key is `key` and with no such key before it is the first one.
proof fn lemma_first_key_index_at<T>(chain: Seq<(Seq<char>, T)>, key: Seq<char>, i: int)
    requires
        0 <= i <= chain.len(),
        i < chain.len() ==> chain[i].0 == key,
        forall|j: int| 0 <= j < i ==> chain[j].0 != key,
    ensures
        first_key_index(chain, key) == i,
{
    lemma_first_key_index(chain, key);
    let p = first_key_index(chain, key);
    if p < i {
        assert(chain[p].0 == key);
    } else if i < p {
        assert(chain[i].0 != key);
    }
}

/// Changing one bucket changes the count by the difference of its lengths.
proof fn lemma_entry_count_update<T>(
    buckets: Seq<Seq<(Seq<char>, T)>>,
    i: int,
    chain: Seq<(Seq<char>, T)>,
)
    requires
        0 <= i < buckets.len(),
    ensures
        entry_count(buckets.update(i, chain)) + buckets[i].len() == entry_count(buckets)
            + chain.len(),
    decreases buckets.len(),
{
    let u = buckets.update(i, chain);
    if i == buckets.len() - 1 {
        assert(u.drop_last() =~= buckets.drop_last());
    } else {
        lemma_entry_count_update(buckets.drop_last(), i, chain);
        assert(u.drop_last() =~= buckets.drop_last().update(i, chain));
    }
}

/// An entry: a key and its value.
#[derive(Debug, Clone)]
pub struct KeyValue<T> {
    key: String,
    value: T,
}

impl<T> View for KeyValue<T> {
    type V = (Seq<char>, T);

    closed spec fn view(&self) -> (Seq<char>, T) {
        (self.key@, self.value)
    }
}

impl<T> KeyValue<T> {
    /// The entry holding `value` under `key`.
    pub fn new(key: String, value: T) -> (r: Self)
        ensures
            r@ == (key@, value),
    {
        KeyValue { key, value }
    }
}

/// A bucket's entries as `(key, value)` pairs.
spec fn chain_view<T>(bucket: Seq<KeyValue<T>>) -> Seq<(Seq<char>, T)> {
    bucket.map_values(|e: KeyValue<T>| e@)
}

/// Every bucket of a table with `capacity` slots empty.
pub open spec fn empty_buckets<T>(capacity: nat) -> Seq<Seq<(Seq<char>, T)>> {
    Seq::new(capacity, |i: int| Seq::<(Seq<char>, T)>::empty())
}

/// Buckets that are all empty hold no entry.
proof fn lemma_entry_count_empty<T>(buckets: Seq<Seq<(Seq<char>, T)>>)
    requires
        forall|i: int| 0 <= i < buckets.len() ==> buckets[i].len() == 0,
    ensures
        entry_count(buckets) == 0,
    decreases buckets.len(),
{
    if buckets.len() > 0 {
        lemma_entry_count_empty(buckets.drop_last());
    }
}

/// The position of the first entry of `bucket` with key `key`, or its length.
fn find_key<T>(bucket: &Vec<KeyValue<T>>, key: &String) -> (r: usize)
    ensures
        r == first_key_index(chain_view(bucket@), key@),
{
    let ghost chain = chain_view(bucket@);
    let mut i: usize = 0;
    while i < bucket.len()
        invariant
            i <= bucket@.len(),
            chain == chain_view(bucket@),
            forall|j: int| 0 <= j < i ==> chain[j].0 != key@,
        decreases bucket@.len() - i,
    {
        if bucket[i].key == *key {
            proof {
                lemma_first_key_index_at(chain, key@, i as int);
            }
            return i;
        }
        i = i + 1;
    }
    proof {
        lemma_first_key_index_at(chain, key@, i as int);
    }
    i
}

/// A hash table from string keys to values of type `T`, with a fixed number
/// of buckets. Entries with equal keys are all kept; lookups find the
/// earliest one.
#[derive(Debug, Clone)]
pub struct HashTable<T> {
    max_size: i64,
    count: usize,
    buckets: Vec<Vec<KeyValue<T>>>,
}

impl<T> View for HashTable<T> {
    type V = Seq<Seq<(Seq<char>, T)>>;

    /// The buckets, one per slot, each in insertion order.
    closed spec fn view(&self) -> Seq<Seq<(Seq<char>, T)>> {
        self.buckets@.map_values(|b: Vec<KeyValue<T>>| chain_view(b@))
    }
}

impl<T> HashTable<T> {
    /// The table has at least one bucket, its counter matches its entries,
    /// and every entry sits in the bucket of its key's slot.
    pub closed spec fn wf(&self) -> bool {
        &&& self.max_size > 0
        &&& self.buckets@.len() == self.max_size
        &&& self.count == entry_count(self@)
        &&& forall|i: int, j: int|
            0 <= i < self@.len() && 0 <= j < self@[i].len() ==> slot(self@[i][j].0, self@.len())
                == i
    }

    /// A table of `capacity` empty buckets.
    fn allocate(capacity: i64) -> (r: Self)
        requires
            capacity > 0,
        ensures
            r.wf(),
            r@ == empty_buckets::<T>(capacity as nat),
            entry_count(r@) == 0,
    {
        let mut buckets: Vec<Vec<KeyValue<T>>> = Vec::new();
        let mut i: i64 = 0;
        while i < capacity
            invariant
                0 <= i <= capacity,
                buckets@.len() == i,
                forall|j: int| 0 <= j < i ==> buckets@[j]@.len() == 0,
            decreases capacity - i,
        {
            buckets.push(Vec::new());
            i = i + 1;
        }
        let r = HashTable { max_size: capacity, count: 0, buckets };
        proof {
            assert(r@ =~~= empty_buckets::<T>(capacity as nat));
            lemma_entry_count_empty(r@);
        }
        r
    }

    /// A table of `DEFAULT_CAPACITY` empty buckets.
    pub fn new() -> (r: Self)
        ensures
            r.wf(),
            r@ == empty_buckets::<T>(DEFAULT_CAPACITY as nat),
            entry_count(r@) == 0,
    {
        Self::allocate(DEFAULT_CAPACITY)
    }

    /// A table of `capacity` empty buckets; `None` when `capacity` is not
    /// positive.
    pub fn with_capacity(capacity: i64) -> (r: Option<Self>)
        ensures
            r is None <==> capacity <= 0,
            r matches Some(t) ==> t.wf() && t@ == empty_buckets::<T>(capacity as nat) && entry_count(
                t@,
            ) == 0,
    {
        if capacity <= 0 {
            None
        } else {
            Some(Self::allocate(capacity))
        }
    }

    /// The number of entries in the table.
    pub fn len(&self) -> (r: usize)
        requires
            self.wf(),
        ensures
            r == entry_count(self@),
    {
        self.count
    }

    /// Appends `(key, value)` to the bucket of the key's slot. An entry
    /// already stored under `key` is kept, and still found first. The entry
    /// count must stay within `usize`.
    pub fn insert(&mut self, key: String, value: T)
        requires
            old(self).wf(),
            entry_count(old(self)@) < usize::MAX,
        ensures
            final(self).wf(),
            final(self)@ == table_insert(old(self)@, key@, value),
            entry_count(final(self)@) == entry_count(old(self)@) + 1,
    {
        let hasher = FnvHasher::new();
        let hash = hasher.hash(key.as_str().as_bytes(), self.max_size);
        assert(hash < self.buckets.len());
        let ghost k = key@;
        let new_value = KeyValue::new(key, value);
        let h = hash as usize;
        self.buckets[h].push(new_value);
        self.count = self.count + 1;
        proof {
            let s = slot(k, old(self)@.len());
            assert(s == h);
            assert(self@[s] =~= old(self)@[s].push((k, value)));
            assert(self@ =~= old(self)@.update(s, old(self)@[s].push((k, value))));
            lemma_entry_count_update(old(self)@, s, old(self)@[s].push((k, value)));
        }
    }

    /// The value of the earliest entry stored under `key`, if any.
    pub fn get(&self, key: String) -> (r: Option<&T>)
        requires
            self.wf(),
        ensures
            match r {
                Some(v) => table_get(self@, key@) == Some(*v),
                None => table_get(self@, key@) is None,
            },
    {
        let hasher = FnvHasher::new();
        let hash = hasher.hash(key.as_str().as_bytes(), self.max_size);
        assert(hash < self.buckets.len());
        let bucket = &self.buckets[hash as usize];
        let i = find_key(bucket, &key);
        if i < bucket.len() {
            Some(&bucket[i].value)
        } else {
            None
        }
    }

    /// Takes out the earliest entry stored under `key`; does nothing when
    /// there is none.
    pub fn remove(&mut self, key: String)
        requires
            old(self).wf(),
        ensures
            final(self).wf(),
            final(self)@ == table_remove(old(self)@, key@),
            entry_count(final(self)@) == if table_get(old(self)@, key@) is Some {
                entry_count(old(self)@) - 1
            } else {
                entry_count(old(self)@) as int
            },
    {
        let hasher = FnvHasher::new();
        let hash = hasher.hash(key.as_str().as_bytes(), self.max_size);
        assert(hash < self.buckets.len());
        let h = hash as usize;
        let i = find_key(&self.buckets[h], &key);
        if i < self.buckets[h].len() {
            proof {
                lemma_entry_count_update(old(self)@, h as int, Seq::empty());
            }
            self.buckets[h].remove(i);
            self.count = self.count - 1;
            proof {
                let c = old(self)@[h as int];
                assert(self@[h as int] =~= c.remove(i as int));
                assert(self@ =~= old(self)@.update(h as int, c.remove(i as int)));
                lemma_entry_count_update(old(self)@, h as int, c.remove(i as int));
            }
        }
        proof {
            assert(self@ =~= table_remove(old(self)@, key@));
        }
    }
}

/// A lookup in a chain with one more entry at its end finds what it found
/// before, or else the new entry if that has the key.
proof fn lemma_chain_get_push<T>(chain: Seq<(Seq<char>, T)>, entry: (Seq<char>, T), key: Seq<char>)
    ensures
        chain_get(chain.push(entry), key) == if chain_get(chain, key) is Some {
            chain_get(chain, key)
        } else if entry.0 == key {
            Some(entry.1)
        } else {
            None::<T>
        },
{
    let longer = chain.push(entry);
    lemma_first_key_index(chain, key);
    let q = first_key_index(chain, key);
    if q < chain.len() || entry.0 == key {
        lemma_first_key_index_at(longer, key, q);
    } else {
        lemma_first_key_index_at(longer, key, longer.len() as int);
    }
}

/// Taking out an entry with another key leaves a lookup of `key` unchanged.
proof fn lemma_chain_get_remove_other<T>(chain: Seq<(Seq<char>, T)>, p: int, key: Seq<char>)
    requires
        0 <= p < chain.len(),
        chain[p].0 != key,
    ensures
        chain_get(chain.remove(p), key) == chain_get(chain, key),
{
    let shorter = chain.remove(p);
    lemma_first_key_index(chain, key);
    let q = first_key_index(chain, key);
    if q < p {
        lemma_first_key_index_at(shorter, key, q);
    } else {
        assert forall|j: int| 0 <= j < q - 1 implies shorter[j].0 != key by {
            if j >= p {
                assert(shorter[j] == chain[j + 1]);
            }
        }
        lemma_first_key_index_at(shorter, key, q - 1);
    }
}

/// Every entry of a well-formed table sits in the slot of its key, so the
/// slot that `get` and `remove` search for a key is the one that `insert`
/// put it in.
pub proof fn entries_in_home_slot<T>(t: &HashTable<T>)
    requires
        t.wf(),
    ensures
        t@.len() > 0,
        forall|i: int, j: int|
            0 <= i < t@.len() && 0 <= j < t@[i].len() ==> slot(#[trigger] t@[i][j].0, t@.len())
                == i,
{
}

/// Inserting and removing keep the number of slots, so a key is routed to
/// the same slot by every operation; an inserted entry ends the chain of its
/// key's slot.
pub proof fn routing_is_stable<T>(buckets: Seq<Seq<(Seq<char>, T)>>, key: Seq<char>, value: T)
    requires
        buckets.len() > 0,
    ensures
        table_insert(buckets, key, value).len() == buckets.len(),
        table_remove(buckets, key).len() == buckets.len(),
        table_insert(buckets, key, value)[slot(key, buckets.len())].last() == (key, value),
{
    crate::fnv::bucket_in_range(encode_utf8(key), buckets.len());
}

/// After inserting `(key, value)`, a lookup of `key` finds the earliest
/// entry under `key` that was already there, or else `value`; a lookup of
/// any other key finds what it found before.
pub proof fn get_after_insert<T>(
    buckets: Seq<Seq<(Seq<char>, T)>>,
    key: Seq<char>,
    value: T,
    other: Seq<char>,
)
    requires
        buckets.len() > 0,
    ensures
        table_get(table_insert(buckets, key, value), key) == if table_get(buckets, key) is Some {
            table_get(buckets, key)
        } else {
            Some(value)
        },
        other != key ==> table_get(table_insert(buckets, key, value), other) == table_get(
            buckets,
            other,
        ),
{
    let s = slot(key, buckets.len());
    crate::fnv::bucket_in_range(encode_utf8(key), buckets.len());
    crate::fnv::bucket_in_range(encode_utf8(other), buckets.len());
    lemma_chain_get_push(buckets[s], (key, value), key);
    lemma_chain_get_push(buckets[s], (key, value), other);
}

/// Removing a key that the table does not hold leaves every bucket as it was.
pub proof fn remove_absent_is_noop<T>(buckets: Seq<Seq<(Seq<char>, T)>>, key: Seq<char>)
    requires
        buckets.len() > 0,
        table_get(buckets, key) is None,
    ensures
        table_remove(buckets, key) == buckets,
{
    crate::fnv::bucket_in_range(encode_utf8(key), buckets.len());
    assert(table_remove(buckets, key) =~= buckets);
}

/// After the earliest entry under `key` is removed, a lookup of `key` finds
/// the next entry under `key` in its chain, and nothing if there is none; a
/// lookup of any other key finds what it found before.
pub proof fn get_after_remove<T>(buckets: Seq<Seq<(Seq<char>, T)>>, key: Seq<char>, other: Seq<char>)
    requires
        buckets.len() > 0,
        table_get(buckets, key) is Some,
    ensures
        ({
            let chain = buckets[slot(key, buckets.len())];
            let p = first_key_index(chain, key);
            table_get(table_remove(buckets, key), key) == chain_get(
                chain.subrange(p + 1, chain.len() as int),
                key,
            )
        }),
        other != key ==> table_get(table_remove(buckets, key), other) == table_get(
            buckets,
            other,
        ),
{
    let s = slot(key, buckets.len());
    crate::fnv::bucket_in_range(encode_utf8(key), buckets.len());
    crate::fnv::bucket_in_range(encode_utf8(other), buckets.len());
    let chain = buckets[s];
    lemma_first_key_index(chain, key);
    let p = first_key_index(chain, key);
    let shorter = chain.remove(p);
    let rest = chain.subrange(p + 1, chain.len() as int);
    lemma_first_key_index(rest, key);
    let q = first_key_index(rest, key);
    assert forall|j: int| 0 <= j < p + q implies shorter[j].0 != key by {
        if j >= p {
            assert(shorter[j] == rest[j - p]);
        }
    }
    if q < rest.len() {
        assert(shorter[p + q] == rest[q]);
    }
    lemma_first_key_index_at(shorter, key, p + q);
    if other != key {
        lemma_chain_get_remove_other(chain, p, other);
    }
}

} // verus!
