//! Process-internal hashing, and the lookup tables built on it.
//!
//! An FxHash-style word-at-a-time hasher used where hashes never leave the
//! process: the remote-write symbol table, the object lookups of service
//! discovery and the staleness tracker's series identities. It folds eight
//! bytes per multiply. Hash-flooding resistance is irrelevant for data the
//! agent scraped itself, and values may change between binary versions -
//! nothing persists them.

use crate::text::text_eq;
use std::collections::HashMap;
use vstd::prelude::*;
use vstd::string::*;
use vstd::utf8::*;

verus! {

broadcast use vstd::std_specs::hash::group_hash_axioms;

/// The multiplier of the hash.
pub const SEED: u64 = 0x517c_c1b7_2722_0a95;

/// One step of the hash: rotate left by five, mix in a word, multiply.
pub open spec fn fold_word(hash: u64, word: u64) -> u64 {
    vstd::wrapping::u64_specs::wrapping_mul(((hash << 5) | (hash >> 59)) ^ word, SEED)
}

/// The number that bytes stand for, least significant first.
pub open spec fn little_endian(s: Seq<u8>) -> nat
    decreases s.len(),
{
    if s.len() == 0 {
        0
    } else {
        s[0] as nat + 256 * little_endian(s.skip(1))
    }
}

/// The hash after the words of `bytes[i..]`: eight bytes each, the last one
/// short.
pub open spec fn fold_words(hash: u64, bytes: Seq<u8>, i: int) -> u64
    decreases bytes.len() - i,
{
    if i + 8 <= bytes.len() {
        fold_words(
            fold_word(hash, little_endian(bytes.subrange(i, i + 8)) as u64),
            bytes,
            i + 8,
        )
    } else if i < bytes.len() {
        fold_word(hash, little_endian(bytes.subrange(i, bytes.len() as int)) as u64)
    } else {
        hash
    }
}

/// The hash after a run of bytes: its words, then its length, so that
/// zero-padded tails stay distinct.
pub open spec fn fold_bytes(hash: u64, bytes: Seq<u8>) -> u64 {
    fold_word(fold_words(hash, bytes, 0), bytes.len() as u64)
}

/// The hasher's state.
#[derive(Debug)]
pub struct FxHasher {
    hash: u64,
}

impl View for FxHasher {
    type V = u64;

    closed spec fn view(&self) -> u64 {
        self.hash
    }
}

impl Default for FxHasher {
    fn default() -> (r: Self)
        ensures
            r@ == 0,
    {
        FxHasher { hash: 0 }
    }
}

/// A power of 256 bounds what that many bytes stand for.
proof fn lemma_little_endian_bound(s: Seq<u8>)
    requires
        s.len() <= 8,
    ensures
        s.len() == 0 ==> little_endian(s) == 0,
        s.len() == 1 ==> little_endian(s) < 0x100,
        s.len() == 2 ==> little_endian(s) < 0x1_0000,
        s.len() == 3 ==> little_endian(s) < 0x100_0000,
        s.len() == 4 ==> little_endian(s) < 0x1_0000_0000,
        s.len() == 5 ==> little_endian(s) < 0x100_0000_0000,
        s.len() == 6 ==> little_endian(s) < 0x1_0000_0000_0000,
        s.len() == 7 ==> little_endian(s) < 0x100_0000_0000_0000,
        little_endian(s) <= u64::MAX,
    decreases s.len(),
{
    if s.len() > 0 {
        lemma_little_endian_bound(s.skip(1));
    }
}

/// The word that `bytes[start..end]` stands for.
fn word_between(bytes: &[u8], start: usize, end: usize) -> (r: u64)
    requires
        start <= end <= bytes@.len(),
        end - start <= 8,
    ensures
        r == little_endian(bytes@.subrange(start as int, end as int)),
{
    let ghost all = bytes@.subrange(start as int, end as int);
    let mut r: u64 = 0;
    let mut i: usize = end;
    assert(all.skip(end - start) =~= Seq::<u8>::empty());
    while i > start
        invariant
            start <= i <= end <= bytes@.len(),
            end - start <= 8,
            all == bytes@.subrange(start as int, end as int),
            r == little_endian(all.skip(i - start)),
        decreases i - start,
    {
        i -= 1;
        proof {
            let rest = all.skip(i - start);
            assert(rest.skip(1) =~= all.skip(i + 1 - start));
            assert(rest[0] == bytes@[i as int]);
            lemma_little_endian_bound(rest);
        }
        r = bytes[i] as u64 + 256 * r;
    }
    assert(all.skip(0) =~= all);
    r
}

impl FxHasher {
    /// Mixes one word in.
    fn mix(&mut self, word: u64)
        ensures
            final(self)@ == fold_word(old(self)@, word),
    {
        self.hash = (((self.hash << 5) | (self.hash >> 59)) ^ word).wrapping_mul(SEED);
    }

    /// Mixes a run of bytes in.
    pub fn write(&mut self, bytes: &[u8])
        ensures
            final(self)@ == fold_bytes(old(self)@, bytes@),
    {
        let ghost start = self@;
        let mut i: usize = 0;
        while bytes.len() - i >= 8
            invariant
                i <= bytes@.len(),
                fold_words(start, bytes@, 0) == fold_words(self@, bytes@, i as int),
            decreases bytes@.len() - i,
        {
            let word: u64 = word_between(bytes, i, i + 8);
            self.mix(word);
            i += 8;
        }
        if i < bytes.len() {
            let word: u64 = word_between(bytes, i, bytes.len());
            self.mix(word);
        }
        self.mix(bytes.len() as u64);
    }

    /// The hash of what was mixed in.
    pub fn finish(&self) -> (r: u64)
        ensures
            r == self@,
    {
        self.hash
    }
}

/// The hash of a pair of texts.
#[verifier::opaque]
pub open spec fn pair_hash(key: (Seq<char>, Seq<char>)) -> u64 {
    fold_bytes(fold_bytes(0, encode_utf8(key.0)), encode_utf8(key.1))
}

/// Hashes a pair of texts.
pub fn hash_pair(first: &str, second: &str) -> (r: u64)
    ensures
        r == pair_hash((first@, second@)),
{
    let mut hasher = FxHasher::default();
    hasher.write(first.as_bytes());
    hasher.write(second.as_bytes());
    reveal(pair_hash);
    hasher.finish()
}

/// Values keyed by a pair of texts, such as an object's namespace and name.
#[derive(Debug)]
pub struct PairMap<T> {
    keys: Vec<(String, String)>,
    values: Vec<T>,
    buckets: HashMap<u64, Vec<usize>>,
}

/// The texts of a key.
pub open spec fn key_view(key: (String, String)) -> (Seq<char>, Seq<char>) {
    (key.0@, key.1@)
}

/// Whether the buckets lead to every key, and to nothing else.
#[verifier::opaque]
spec fn buckets_fit(keys: Seq<(String, String)>, buckets: Map<u64, Vec<usize>>) -> bool {
    &&& forall|i: int|
        #![trigger keys[i]]
        0 <= i < keys.len() ==> buckets.contains_key(pair_hash(key_view(keys[i])))
            && buckets[pair_hash(key_view(keys[i]))]@.contains(i as usize)
    &&& forall|h: u64, j: int|
        #![trigger buckets[h]@[j]]
        buckets.contains_key(h) && 0 <= j < buckets[h]@.len() ==> buckets[h]@[j] < keys.len()
}

/// The bucket of a key leads to it.
proof fn lemma_bucket_holds(keys: Seq<(String, String)>, buckets: Map<u64, Vec<usize>>, i: int)
    requires
        buckets_fit(keys, buckets),
        0 <= i < keys.len(),
    ensures
        buckets.contains_key(pair_hash(key_view(keys[i]))),
        buckets[pair_hash(key_view(keys[i]))]@.contains(i as usize),
{
    reveal(buckets_fit);
}

/// A bucket leads to keys only.
proof fn lemma_bucket_bound(
    keys: Seq<(String, String)>,
    buckets: Map<u64, Vec<usize>>,
    h: u64,
    j: int,
)
    requires
        buckets_fit(keys, buckets),
        buckets.contains_key(h),
        0 <= j < buckets[h]@.len(),
    ensures
        buckets[h]@[j] < keys.len(),
{
    reveal(buckets_fit);
}

/// A new key goes to the end of its bucket.
proof fn lemma_bucket_pushed(
    keys: Seq<(String, String)>,
    buckets: Map<u64, Vec<usize>>,
    key: (String, String),
    bucket: Vec<usize>,
)
    requires
        buckets_fit(keys, buckets),
        keys.len() <= usize::MAX,
        bucket@ == (if buckets.contains_key(pair_hash(key_view(key))) {
            buckets[pair_hash(key_view(key))]@
        } else {
            Seq::empty()
        }).push(keys.len() as usize),
    ensures
        buckets_fit(keys.push(key), buckets.insert(pair_hash(key_view(key)), bucket)),
{
    reveal(buckets_fit);
    let h = pair_hash(key_view(key));
    let keys1 = keys.push(key);
    let buckets1 = buckets.insert(h, bucket);
    let n = keys.len();
    assert forall|i: int| #![trigger keys1[i]] 0 <= i < keys1.len() implies buckets1.contains_key(
        pair_hash(key_view(keys1[i])),
    ) && buckets1[pair_hash(key_view(keys1[i]))]@.contains(i as usize) by {
        if i < n {
            assert(keys1[i] == keys[i]);
            let hi = pair_hash(key_view(keys[i]));
            assert(buckets[hi]@.contains(i as usize));
            if hi == h {
                let k = choose|k: int|
                    0 <= k < buckets[h]@.len() && buckets[h]@[k] == i as usize;
                assert(bucket@[k] == i as usize);
            }
        } else {
            assert(bucket@[bucket@.len() - 1] == n);
        }
    }
    assert forall|g: u64, j: int|
        #![trigger buckets1[g]@[j]]
        buckets1.contains_key(g) && 0 <= j < buckets1[g]@.len() implies buckets1[g]@[j]
        < keys1.len() by {
        if g == h {
            if j < bucket@.len() - 1 {
                assert(buckets[h]@[j] < keys.len());
            }
        } else {
            assert(buckets[g]@[j] < keys.len());
        }
    }
}

/// Whether no key occurs twice.
spec fn distinct_keys(keys: Seq<(String, String)>) -> bool {
    forall|i: int, j: int|
        #![trigger keys[i], keys[j]]
        0 <= i < j < keys.len() ==> key_view(keys[i]) != key_view(keys[j])
}

/// The position of a key, or the number of keys.
spec fn key_position(
    keys: Seq<(String, String)>,
    key: (Seq<char>, Seq<char>),
    i: int,
) -> int
    decreases keys.len() - i,
{
    if i >= keys.len() {
        keys.len() as int
    } else if key_view(keys[i]) == key {
        i
    } else {
        key_position(keys, key, i + 1)
    }
}

proof fn lemma_key_position(keys: Seq<(String, String)>, key: (Seq<char>, Seq<char>), i: int)
    requires
        0 <= i <= keys.len(),
    ensures
        i <= key_position(keys, key, i) <= keys.len(),
        key_position(keys, key, i) < keys.len() ==> key_view(keys[key_position(keys, key, i)])
            == key,
        forall|j: int| i <= j < key_position(keys, key, i) ==> key_view(#[trigger] keys[j]) != key,
    decreases keys.len() - i,
{
    if i < keys.len() && key_view(keys[i]) != key {
        lemma_key_position(keys, key, i + 1);
    }
}

proof fn lemma_key_at(keys: Seq<(String, String)>, i: int)
    requires
        distinct_keys(keys),
        0 <= i < keys.len(),
    ensures
        key_position(keys, key_view(keys[i]), 0) == i,
{
    lemma_key_position(keys, key_view(keys[i]), 0);
}

impl<T> View for PairMap<T> {
    type V = Map<(Seq<char>, Seq<char>), T>;

    closed spec fn view(&self) -> Map<(Seq<char>, Seq<char>), T> {
        Map::new(
            |k: (Seq<char>, Seq<char>)| key_position(self.keys@, k, 0) < self.keys@.len(),
            |k: (Seq<char>, Seq<char>)| self.values@[key_position(self.keys@, k, 0)],
        )
    }
}

impl<T> PairMap<T> {
    #[verifier::type_invariant]
    spec fn well_formed(&self) -> bool {
        &&& self.keys@.len() == self.values@.len()
        &&& distinct_keys(self.keys@)
        &&& buckets_fit(self.keys@, self.buckets@)
    }

    /// An empty table.
    pub fn new() -> (r: Self)
        ensures
            r@ == Map::<(Seq<char>, Seq<char>), T>::empty(),
    {
        let keys: Vec<(String, String)> = Vec::new();
        let buckets: HashMap<u64, Vec<usize>> = HashMap::new();
        assert(buckets_fit(keys@, buckets@)) by {
            reveal(buckets_fit);
        }
        let r = PairMap { keys, values: Vec::new(), buckets };
        assert(r@ =~= Map::<(Seq<char>, Seq<char>), T>::empty());
        r
    }

    /// The position of a key.
    fn find(&self, first: &str, second: &str) -> (r: Option<usize>)
        ensures
            match r {
                Some(i) => i < self.keys@.len() && i == key_position(
                    self.keys@,
                    (first@, second@),
                    0,
                ),
                None => key_position(self.keys@, (first@, second@), 0) == self.keys@.len(),
            },
    {
        proof {
            use_type_invariant(self);
            lemma_key_position(self.keys@, (first@, second@), 0);
        }
        let ghost key = (first@, second@);
        let ghost at = key_position(self.keys@, key, 0);
        let h: u64 = hash_pair(first, second);
        assert(self.keys@.len() <= usize::MAX) by {
            let n = self.keys.len();
        }
        proof {
            if at < self.keys@.len() {
                lemma_bucket_holds(self.keys@, self.buckets@, at);
            }
        }
        match self.buckets.get(&h) {
            None => None,
            Some(bucket) => {
                let mut j: usize = 0;
                while j < bucket.len()
                    invariant
                        j <= bucket@.len(),
                        key == (first@, second@),
                        self.buckets@.contains_key(h),
                        *bucket == self.buckets@[h],
                        buckets_fit(self.keys@, self.buckets@),
                        distinct_keys(self.keys@),
                        forall|k: int|
                            0 <= k < j ==> key_view(self.keys@[#[trigger] bucket@[k] as int]) != key,
                    decreases bucket@.len() - j,
                {
                    let i: usize = bucket[j];
                    proof {
                        lemma_bucket_bound(self.keys@, self.buckets@, h, j as int);
                    }
                    if text_eq(self.keys[i].0.as_str(), first) && text_eq(
                        self.keys[i].1.as_str(),
                        second,
                    ) {
                        proof {
                            lemma_key_at(self.keys@, i as int);
                        }
                        return Some(i);
                    }
                    j += 1;
                }
                proof {
                    if at < self.keys@.len() {
                        let k = choose|k: int|
                            0 <= k < bucket@.len() && bucket@[k] == at as usize;
                        assert(bucket@[k] == at as usize);
                    }
                }
                None
            },
        }
    }

    /// The value of a key.
    pub fn get(&self, first: &str, second: &str) -> (r: Option<&T>)
        ensures
            match r {
                Some(value) => self@.contains_key((first@, second@)) && *value == self@[(
                    first@,
                    second@,
                )],
                None => !self@.contains_key((first@, second@)),
            },
    {
        proof {
            use_type_invariant(self);
        }
        match self.find(first, second) {
            Some(i) => Some(&self.values[i]),
            None => None,
        }
    }

    /// Whether the table holds a key.
    pub fn contains_key(&self, first: &str, second: &str) -> (r: bool)
        ensures
            r == self@.contains_key((first@, second@)),
    {
        self.get(first, second).is_some()
    }

    /// The table with the value of a key set.
    pub fn with(self, first: String, second: String, value: T) -> (r: Self)
        ensures
            r@ == self@.insert((first@, second@), value),
    {
        proof {
            use_type_invariant(&self);
        }
        let ghost key = (first@, second@);
        let ghost before = self@;
        let found = self.find(first.as_str(), second.as_str());
        let PairMap { mut keys, mut values, mut buckets } = self;
        let ghost keys0 = keys@;
        let ghost values0 = values@;
        proof {
            lemma_key_position(keys0, key, 0);
        }
        match found {
            Some(i) => {
                values.set(i, value);
                let r = PairMap { keys, values, buckets };
                proof {
                    assert forall|k: (Seq<char>, Seq<char>)| #[trigger]
                        before.dom().contains(k) && k != key implies key_position(keys0, k, 0)
                        != i by {
                        lemma_key_position(keys0, k, 0);
                    }
                    let m = before.insert(key, value);
                    assert forall|k: (Seq<char>, Seq<char>)| #[trigger]
                        r@.dom().contains(k) == m.dom().contains(k) by {}
                    assert forall|k: (Seq<char>, Seq<char>)| #[trigger]
                        r@.dom().contains(k) implies #[trigger] r@[k] == m[k] by {
                        assert(before.dom().contains(k));
                        lemma_key_position(keys0, k, 0);
                    }
                    assert(r@ =~= m);
                }
                r
            },
            None => {
                let h: u64 = hash_pair(first.as_str(), second.as_str());
                let ghost buckets0 = buckets@;
                let n: usize = keys.len();
                let mut bucket: Vec<usize> = match buckets.remove(&h) {
                    Some(bucket) => bucket,
                    None => Vec::new(),
                };
                let ghost bucket0 = bucket@;
                bucket.push(n);
                buckets.insert(h, bucket);
                keys.push((first, second));
                values.push(value);
                proof {
                    lemma_bucket_pushed(keys0, buckets0, keys@[n as int], bucket);
                    assert(keys@ =~= keys0.push(keys@[n as int]));
                    assert(buckets@ =~= buckets0.insert(h, bucket));
                    assert forall|i: int, j: int|
                        #![trigger keys@[i], keys@[j]]
                        0 <= i < j < keys@.len() implies key_view(keys@[i]) != key_view(
                        keys@[j],
                    ) by {
                        assert(keys@[i] == keys0[i]);
                        if j < n {
                            assert(keys@[j] == keys0[j]);
                        }
                    }
                }
                let r = PairMap { keys, values, buckets };
                proof {
                    assert forall|k: (Seq<char>, Seq<char>)|
                        key_position(keys@, k, 0) == if k == key {
                            n as int
                        } else if #[trigger] key_position(keys0, k, 0) < n {
                            key_position(keys0, k, 0)
                        } else {
                            n + 1
                        } by {
                        lemma_key_position(keys0, k, 0);
                        lemma_key_position(keys@, k, 0);
                        let p = key_position(keys@, k, 0);
                        let q = key_position(keys0, k, 0);
                        if k == key {
                            lemma_key_at(keys@, n as int);
                        } else if q < n {
                            assert(keys@[q] == keys0[q]);
                            lemma_key_at(keys@, q);
                        } else if p < n {
                            assert(keys@[p] == keys0[p]);
                        }
                    }
                    let m = before.insert(key, value);
                    assert forall|k: (Seq<char>, Seq<char>)| #[trigger]
                        r@.dom().contains(k) == m.dom().contains(k) by {
                        lemma_key_position(keys0, k, 0);
                    }
                    assert forall|k: (Seq<char>, Seq<char>)| #[trigger]
                        r@.dom().contains(k) implies #[trigger] r@[k] == m[k] by {
                        lemma_key_position(keys0, k, 0);
                    }
                    assert(r@ =~= m);
                }
                r
            },
        }
    }
}

} // verus!
