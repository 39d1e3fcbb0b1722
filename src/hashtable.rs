use vstd::prelude::*;
use vstd::arithmetic::power2::{pow2, lemma_pow2_unfold, lemma_pow2_strictly_increases};
use vstd::wrapping::u64_specs;

use crate::sds::{bytes_eq, SDS};

verus! {

/// Multiplier of the seeded hash.
pub const HASH_MULTIPLIER: u64 = 1099511628211;
/// Exponent of the smallest slot count.
pub const MIN_EXP: u64 = 2;
/// Exponent of the largest slot count.
pub const MAX_EXP: u64 = 30;

/// Relies on rand::random: a value drawn from the thread-local generator, used
/// to seed the key hash. Nothing is assumed of the value.
#[verifier::external_body]
pub(crate) fn random_seed() -> (r: u64) {
    rand::random::<u64>()
}

/// How keys are hashed. The strategy is chosen when a table is made.
#[derive(Clone, Copy)]
pub enum KeyHasher {
    /// The first byte of the key, 0 for the empty key: predictable, for tests.
    FirstByte,
    /// A multiplicative hash over all the bytes, started from a seed.
    Seeded(u64),
}

/// The seeded hash of `key`.
#[verifier::opaque]
pub open spec fn seeded_hash(seed: u64, key: Seq<u8>) -> u64
    decreases key.len(),
{
    if key.len() == 0 {
        seed
    } else {
        u64_specs::wrapping_add(
            u64_specs::wrapping_mul(seeded_hash(seed, key.drop_last()), HASH_MULTIPLIER),
            (key.last() + 1) as u64,
        )
    }
}

/// The hash of `key` under strategy `h`.
pub open spec fn hash_of(h: KeyHasher, key: Seq<u8>) -> u64 {
    match h {
        KeyHasher::FirstByte => if key.len() == 0 {
            0
        } else {
            key[0] as u64
        },
        KeyHasher::Seeded(seed) => seeded_hash(seed, key),
    }
}

/// The slot of `key` in a table of `n` slots, `n` a power of two: the low bits of the hash.
pub open spec fn slot_of(h: KeyHasher, key: Seq<u8>, n: nat) -> int {
    (hash_of(h, key) & ((n - 1) as u64)) as int
}

impl KeyHasher {
    /// Hashes `key`.
    pub fn hash(&self, key: &[u8]) -> (r: u64)
        ensures
            r == hash_of(*self, key@),
    {
        match self {
            KeyHasher::FirstByte => {
                if key.len() == 0 {
                    0
                } else {
                    key[0] as u64
                }
            },
            KeyHasher::Seeded(seed) => {
                let mut h: u64 = *seed;
                let mut i: usize = 0;
                proof {
                    reveal(seeded_hash);
                    assert(key@.subrange(0, 0) =~= Seq::<u8>::empty());
                }
                while i < key.len()
                    invariant
                        i <= key@.len(),
                        h == seeded_hash(*seed, key@.subrange(0, i as int)),
                    decreases key@.len() - i,
                {
                    h = h.wrapping_mul(HASH_MULTIPLIER).wrapping_add(key[i] as u64 + 1);
                    proof {
                        reveal(seeded_hash);
                        assert(key@.subrange(0, i + 1).drop_last() =~= key@.subrange(0, i as int));
                    }
                    i = i + 1;
                }
                proof {
                    assert(key@.subrange(0, key@.len() as int) =~= key@);
                }
                h
            },
        }
    }
}

/// Position in `bucket` of the entry whose key is `key`.
fn find_in_bucket<V>(bucket: &Vec<(SDS, V)>, key: &[u8]) -> (r: Option<usize>)
    requires
        forall|j: int| 0 <= j < bucket@.len() ==> (#[trigger] bucket@[j]).0.wf(),
    ensures
        match r {
            Some(j) => j < bucket@.len() && bucket@[j as int].0@ == key@,
            None => forall|j: int| 0 <= j < bucket@.len() ==> (#[trigger] bucket@[j]).0@ != key@,
        },
{
    let mut j: usize = 0;
    while j < bucket.len()
        invariant
            j <= bucket@.len(),
            forall|i: int| 0 <= i < bucket@.len() ==> (#[trigger] bucket@[i]).0.wf(),
            forall|i: int| 0 <= i < j ==> (#[trigger] bucket@[i]).0@ != key@,
        decreases bucket@.len() - j,
    {
        if bytes_eq(bucket[j].0.value(), key) {
            return Some(j);
        }
        j = j + 1;
    }
    None
}

/// A table of slots, each holding a chain of (key, value) entries. A key's slot
/// is given by the low bits of its hash.
pub struct HashTable<V> {
    slots: Vec<Vec<(SDS, V)>>,
    cnt: u64,
    slot_cnt_exp: u64,
    hasher: KeyHasher,
    map: Ghost<Map<Seq<u8>, V>>,
}

impl<V> View for HashTable<V> {
    type V = Map<Seq<u8>, V>;

    closed spec fn view(&self) -> Map<Seq<u8>, V> {
        self.map@
    }
}

/// Whether `bucket` holds an entry whose key is `k`.
#[verifier::opaque]
pub open spec fn bucket_has<V>(bucket: Seq<(SDS, V)>, k: Seq<u8>) -> bool {
    exists|j: int| 0 <= j < bucket.len() && (#[trigger] bucket[j]).0@ == k
}

impl<V> HashTable<V> {
    #[verifier::opaque]
    /// Each entry sits in its key's slot and agrees with the map; keys are not
    /// repeated within a slot; each key of the map has an entry; `cnt` counts the keys.
    pub closed spec fn wf(&self) -> bool {
        &&& MIN_EXP <= self.slot_cnt_exp <= MAX_EXP
        &&& self.slots@.len() == pow2(self.slot_cnt_exp as nat)
        &&& self.map@.dom().finite()
        &&& self.cnt == self.map@.len()
        &&& forall|i: int, j: int|
            0 <= i < self.slots@.len() && 0 <= j < self.slots@[i]@.len() ==> {
                let e = #[trigger] self.slots@[i]@[j];
                &&& e.0.wf()
                &&& slot_of(self.hasher, e.0@, self.slots@.len()) == i
                &&& self.map@.contains_key(e.0@)
                &&& self.map@[e.0@] == e.1
            }
        &&& forall|i: int, j1: int, j2: int|
            0 <= i < self.slots@.len() && 0 <= j1 < self.slots@[i]@.len() && 0 <= j2 < self.slots@[i]@.len()
                && j1 != j2 ==> (#[trigger] self.slots@[i]@[j1]).0@ != (#[trigger] self.slots@[i]@[j2]).0@
        &&& forall|k: Seq<u8>|
            #[trigger] self.map@.contains_key(k) ==> bucket_has(
                self.slots@[slot_of(self.hasher, k, self.slots@.len())]@,
                k,
            )
    }

    /// Exponent of the slot count.
    pub closed spec fn spec_exp(&self) -> nat {
        self.slot_cnt_exp as nat
    }

    /// Number of slots.
    pub closed spec fn spec_slot_count(&self) -> nat {
        self.slots@.len()
    }

    /// The hashing strategy.
    pub closed spec fn spec_hasher(&self) -> KeyHasher {
        self.hasher
    }

    /// Number of entries in slot `i`.
    pub closed spec fn spec_slot_len(&self, i: int) -> nat {
        self.slots@[i]@.len()
    }

    pub proof fn lemma_wf_facts(&self)
        requires
            self.wf(),
        ensures
            self@.dom().finite(),
            4 <= self.spec_slot_count() <= pow2(MAX_EXP as nat),
            MIN_EXP <= self.spec_exp() <= MAX_EXP,
            self.spec_slot_count() == pow2(self.spec_exp()),
            pow2(MAX_EXP as nat) == 1073741824,
    {
        reveal(HashTable::wf);
        lemma_pow2_values();
        if self.slot_cnt_exp > MIN_EXP {
            lemma_pow2_strictly_increases(MIN_EXP as nat, self.slot_cnt_exp as nat);
        }
        if self.slot_cnt_exp < MAX_EXP {
            lemma_pow2_strictly_increases(self.slot_cnt_exp as nat, MAX_EXP as nat);
        }
    }

    proof fn lemma_cnt(&self)
        requires
            self.wf(),
        ensures
            self.cnt == self.map@.len(),
            self.map@.dom().finite(),
    {
        reveal(HashTable::wf);
    }

    /// A key's slot is a valid index.
    proof fn lemma_slot_bound(&self, k: Seq<u8>)
        requires
            self.wf(),
        ensures
            0 <= slot_of(self.hasher, k, self.slots@.len()) < self.slots@.len(),
    {
        self.lemma_wf_facts();
        let h = hash_of(self.hasher, k);
        let m = (self.slots@.len() - 1) as u64;
        assert(h & m <= m) by (bit_vector);
    }

    /// Slot of `key`.
    fn slot_index(&self, key: &SDS) -> (r: usize)
        requires
            self.wf(),
            key.wf(),
        ensures
            r == slot_of(self.hasher, key@, self.slots@.len()),
            r < self.slots@.len(),
    {
        proof {
            self.lemma_slot_bound(key@);
            self.lemma_wf_facts();
        }
        let h = self.hasher.hash(key.value());
        let m: u64 = (self.slots.len() - 1) as u64;
        (h & m) as usize
    }
}

impl<V> HashTable<V> {
    /// A table with no entries and the least power-of-two slot count, at least
    /// four, that is not below `size`.
    pub fn with_capacity_and_hasher(size: u64, hasher: KeyHasher) -> (r: Self)
        requires
            size <= pow2(MAX_EXP as nat),
        ensures
            r.wf(),
            r@ == Map::<Seq<u8>, V>::empty(),
            r.spec_hasher() == hasher,
            r.spec_slot_count() >= size,
            r.spec_slot_count() == 4 || 2 * size > r.spec_slot_count(),
    {
        proof {
            lemma_pow2_values();
        }
        let mut exp: u64 = MIN_EXP;
        let mut cap: u64 = 4;
        proof {
            lemma_pow2_strictly_increases(MIN_EXP as nat, MAX_EXP as nat);
        }
        while cap < size
            invariant
                MIN_EXP <= exp <= MAX_EXP,
                cap == pow2(exp as nat),
                cap <= pow2(MAX_EXP as nat),
                pow2(MAX_EXP as nat) == 1073741824,
                size <= pow2(MAX_EXP as nat),
                cap == 4 || 2 * size > cap,
            decreases MAX_EXP - exp,
        {
            proof {
                lemma_pow2_unfold((exp + 1) as nat);
                if exp + 1 < MAX_EXP {
                    lemma_pow2_strictly_increases((exp + 1) as nat, MAX_EXP as nat);
                }
            }
            exp = exp + 1;
            cap = cap * 2;
        }
        Self::with_exp(exp, hasher)
    }

    /// A table with no entries, sized as `with_capacity_and_hasher` does, whose
    /// keys are hashed from a random seed.
    pub fn with_capacity(size: u64) -> (r: Self)
        requires
            size <= pow2(MAX_EXP as nat),
        ensures
            r.wf(),
            r@ == Map::<Seq<u8>, V>::empty(),
            r.spec_hasher() is Seeded,
            r.spec_slot_count() >= size,
            r.spec_slot_count() == 4 || 2 * size > r.spec_slot_count(),
    {
        let seed = random_seed();
        Self::with_capacity_and_hasher(size, KeyHasher::Seeded(seed))
    }

    /// A table with no entries and `2^exp` slots.
    pub fn with_exp(exp: u64, hasher: KeyHasher) -> (r: Self)
        requires
            MIN_EXP <= exp <= MAX_EXP,
        ensures
            r.wf(),
            r@ == Map::<Seq<u8>, V>::empty(),
            r.spec_hasher() == hasher,
            r.spec_exp() == exp,
            r.spec_slot_count() == pow2(exp as nat),
    {
        proof {
            lemma_pow2_values();
            if exp < MAX_EXP {
                lemma_pow2_strictly_increases(exp as nat, MAX_EXP as nat);
            }
        }
        let cap: u64 = 1u64 << exp;
        proof {
            assert(cap == pow2(exp as nat)) by {
                vstd::bits::lemma_u64_shl_is_mul(1, exp);
            }
        }
        let mut slots: Vec<Vec<(SDS, V)>> = Vec::new();
        let mut i: u64 = 0;
        while i < cap
            invariant
                i <= cap,
                cap <= pow2(MAX_EXP as nat),
                slots@.len() == i,
                forall|j: int| 0 <= j < i ==> (#[trigger] slots@[j])@.len() == 0,
            decreases cap - i,
        {
            slots.push(Vec::new());
            i = i + 1;
        }
        let r = HashTable { slots, cnt: 0, slot_cnt_exp: exp, hasher, map: Ghost(Map::empty()) };
        proof {
            reveal(HashTable::wf);
            assert(r.map@.dom() =~= Set::<Seq<u8>>::empty());
        }
        r
    }

    /// Number of slots.
    pub fn slots_cnt(&self) -> (r: u64)
        requires
            self.wf(),
        ensures
            r == self.spec_slot_count(),
    {
        proof {
            self.lemma_wf_facts();
        }
        self.slots.len() as u64
    }

    /// Exponent of the slot count.
    pub fn slot_cnt_exp(&self) -> (r: u64)
        ensures
            r == self.spec_exp(),
    {
        self.slot_cnt_exp
    }

    /// Number of entries.
    pub fn count(&self) -> (r: u64)
        requires
            self.wf(),
        ensures
            r == self@.len(),
    {
        proof {
            self.lemma_cnt();
        }
        self.cnt
    }

    /// The hashing strategy.
    pub fn hasher(&self) -> (r: KeyHasher)
        ensures
            r == self.spec_hasher(),
    {
        self.hasher
    }

    /// Whether there are at least as many entries as slots.
    pub fn need_expand(&self) -> (r: bool)
        requires
            self.wf(),
        ensures
            r == (self@.len() >= self.spec_slot_count()),
    {
        proof {
            self.lemma_cnt();
        }
        self.cnt >= self.slots_cnt()
    }

    /// Whether slot `i` is empty.
    pub fn slot_is_empty(&self, i: usize) -> (r: bool)
        requires
            self.wf(),
            i < self.spec_slot_count(),
        ensures
            r == (self.spec_slot_len(i as int) == 0),
    {
        self.slots[i].len() == 0
    }

    /// The value stored under `key`.
    #[verifier::rlimit(100)]
    pub fn get(&self, key: &SDS) -> (r: Option<&V>)
        requires
            self.wf(),
            key.wf(),
        ensures
            r is Some <==> self@.contains_key(key@),
            r is Some ==> *(r->Some_0) == self@[key@],
    {
        let idx = self.slot_index(key);
        proof {
            self.lemma_slot_facts(idx as int);
        }
        let bucket = &self.slots[idx];
        match find_in_bucket(bucket, key.value()) {
            Some(j) => {
                proof {
                    assert(self.slots@[idx as int]@[j as int] == bucket@[j as int]);
                }
                Some(&bucket[j].1)
            },
            None => {
                proof {
                    if self.map@.contains_key(key@) {
                        assert(bucket_has(self.slots@[idx as int]@, key@));
                        reveal(bucket_has);
                    }
                }
                None
            },
        }
    }

    /// Stores `v` under `key`, returning the value it replaces.
    /// Stores `v` under `key`, returning the value it replaces.
    #[verifier::rlimit(100)]
    pub fn insert(&mut self, key: SDS, v: V) -> (r: Option<V>)
        requires
            old(self).wf(),
            key.wf(),
            old(self)@.len() < u64::MAX,
        ensures
            final(self).wf(),
            final(self)@ == old(self)@.insert(key@, v),
            old(self)@.contains_key(key@) ==> r == Some(old(self)@[key@]),
            !old(self)@.contains_key(key@) ==> r is None,
            final(self).spec_slot_count() == old(self).spec_slot_count(),
            final(self).spec_hasher() == old(self).spec_hasher(),
            final(self).spec_exp() == old(self).spec_exp(),
            forall|i: int|
                0 <= i < old(self).spec_slot_count() && i != slot_of(
                    old(self).spec_hasher(),
                    key@,
                    old(self).spec_slot_count(),
                ) ==> #[trigger] final(self).spec_slot_len(i) == old(self).spec_slot_len(i),
    {
        let ghost old_map = self.map@;
        let ghost k = key@;
        let idx = self.slot_index(&key);
        proof {
            self.lemma_slot_facts(idx as int);
        }
        let mut bucket: Vec<(SDS, V)> = Vec::new();
        std::mem::swap(&mut self.slots[idx], &mut bucket);
        let ghost b0 = bucket@;
        let found = find_in_bucket(&bucket, key.value());
        match found {
            Some(j) => {
                let (k0, old_v) = bucket.remove(j);
                bucket.insert(j, (k0, v));
                proof {
                    assert(bucket@ =~= b0.update(j as int, (k0, v)));
                    self.map = Ghost(old_map.insert(k, v));
                    assert(self.map@.dom() =~= old_map.dom());
                    assert forall|j1: int, j2: int|
                        0 <= j1 < bucket@.len() && 0 <= j2 < bucket@.len() && j1 != j2 implies (#[trigger] bucket@[j1]).0@
                        != (#[trigger] bucket@[j2]).0@ by {
                        assert(b0[j1].0@ != b0[j2].0@);
                    }
                    reveal(bucket_has);
                    assert forall|kk: Seq<u8>|
                        #[trigger] self.map@.contains_key(kk) && slot_of(self.hasher, kk, self.slots@.len()) == idx
                            implies bucket_has(bucket@, kk) by {
                        assert(bucket_has(b0, kk));
                        let jj = choose|jj: int| 0 <= jj < b0.len() && (#[trigger] b0[jj]).0@ == kk;
                        assert(bucket@[jj].0@ == kk);
                    }
                }
                let ghost b1 = bucket;
                std::mem::swap(&mut self.slots[idx], &mut bucket);
                proof {
                    assert(self.slots@ =~= old(self).slots@.update(idx as int, self.slots@[idx as int]));
                    self.lemma_replace_slot(old(self), idx as int, b1@);
                }
                Some(old_v)
            },
            None => {
                bucket.push((key, v));
                proof {
                    reveal(bucket_has);
                    if old_map.contains_key(k) {
                        assert(bucket_has(b0, k));
                    }
                    self.map = Ghost(old_map.insert(k, v));
                    assert forall|j1: int, j2: int|
                        0 <= j1 < bucket@.len() && 0 <= j2 < bucket@.len() && j1 != j2 implies (#[trigger] bucket@[j1]).0@
                        != (#[trigger] bucket@[j2]).0@ by {
                        if j1 < b0.len() && j2 < b0.len() {
                            assert(b0[j1].0@ != b0[j2].0@);
                        } else if j1 < b0.len() {
                            assert(b0[j1].0@ != k);
                        } else {
                            assert(b0[j2].0@ != k);
                        }
                    }
                    assert(bucket@[b0.len() as int].0@ == k);
                    reveal(bucket_has);
                    assert forall|kk: Seq<u8>|
                        #[trigger] self.map@.contains_key(kk) && slot_of(self.hasher, kk, self.slots@.len()) == idx
                            implies bucket_has(bucket@, kk) by {
                        if kk != k {
                            assert(bucket_has(b0, kk));
                            let jj = choose|jj: int| 0 <= jj < b0.len() && (#[trigger] b0[jj]).0@ == kk;
                            assert(bucket@[jj].0@ == kk);
                        }
                    }
                }
                let ghost b1 = bucket;
                std::mem::swap(&mut self.slots[idx], &mut bucket);
                self.cnt = self.cnt + 1;
                proof {
                    assert(self.slots@ =~= old(self).slots@.update(idx as int, self.slots@[idx as int]));
                    self.lemma_replace_slot(old(self), idx as int, b1@);
                }
                None
            },
        }
    }

    /// The facts that `wf` gives about one slot.
    proof fn lemma_slot_facts(&self, idx: int)
        requires
            self.wf(),
            0 <= idx < self.slots@.len(),
        ensures
            self.map@.dom().finite(),
            self.cnt == self.map@.len(),
            forall|j: int|
                0 <= j < self.slots@[idx]@.len() ==> {
                    let e = #[trigger] self.slots@[idx]@[j];
                    &&& e.0.wf()
                    &&& slot_of(self.hasher, e.0@, self.slots@.len()) == idx
                    &&& self.map@.contains_key(e.0@)
                    &&& self.map@[e.0@] == e.1
                },
            forall|j1: int, j2: int|
                0 <= j1 < self.slots@[idx]@.len() && 0 <= j2 < self.slots@[idx]@.len() && j1 != j2
                    ==> (#[trigger] self.slots@[idx]@[j1]).0@ != (#[trigger] self.slots@[idx]@[j2]).0@,
            forall|k: Seq<u8>|
                #[trigger] self.map@.contains_key(k) && slot_of(self.hasher, k, self.slots@.len()) == idx
                    ==> bucket_has(self.slots@[idx]@, k),
    {
        reveal(HashTable::wf);
    }

    /// Replacing the chain of slot `idx` by `b` keeps the table well formed when
    /// `b` and the new map agree and nothing changes outside that slot.
    #[verifier::rlimit(100)]
    proof fn lemma_replace_slot(&self, prev: &Self, idx: int, b: Seq<(SDS, V)>)
        requires
            prev.wf(),
            self.hasher == prev.hasher,
            self.slot_cnt_exp == prev.slot_cnt_exp,
            self.slots@.len() == prev.slots@.len(),
            0 <= idx < prev.slots@.len(),
            self.slots@ == prev.slots@.update(idx, self.slots@[idx]),
            self.slots@[idx]@ == b,
            self.map@.dom().finite(),
            self.cnt == self.map@.len(),
            forall|j: int|
                0 <= j < b.len() ==> {
                    let e = #[trigger] b[j];
                    &&& e.0.wf()
                    &&& slot_of(self.hasher, e.0@, self.slots@.len()) == idx
                    &&& self.map@.contains_key(e.0@)
                    &&& self.map@[e.0@] == e.1
                },
            forall|j1: int, j2: int|
                0 <= j1 < b.len() && 0 <= j2 < b.len() && j1 != j2 ==> (#[trigger] b[j1]).0@ != (#[trigger] b[j2]).0@,
            forall|k: Seq<u8>|
                slot_of(self.hasher, k, self.slots@.len()) != idx ==> (#[trigger] self.map@.contains_key(k)
                    == prev.map@.contains_key(k)),
            forall|k: Seq<u8>|
                slot_of(self.hasher, k, self.slots@.len()) != idx && #[trigger] self.map@.contains_key(k) ==> self.map@[k]
                    == prev.map@[k],
            forall|k: Seq<u8>|
                #[trigger] self.map@.contains_key(k) && slot_of(self.hasher, k, self.slots@.len()) == idx ==> bucket_has(b, k),
        ensures
            self.wf(),
    {
        reveal(HashTable::wf);
        assert forall|k2: Seq<u8>| #[trigger] self.map@.contains_key(k2) implies bucket_has(
            self.slots@[slot_of(self.hasher, k2, self.slots@.len())]@,
            k2,
        ) by {
            let i2 = slot_of(self.hasher, k2, self.slots@.len());
            prev.lemma_slot_bound(k2);
            if i2 != idx {
                assert(prev.map@.contains_key(k2));
                assert(self.slots@[i2] == prev.slots@[i2]);
            }
        }
        assert forall|i: int, j: int|
            0 <= i < self.slots@.len() && 0 <= j < self.slots@[i]@.len() implies {
                let e = #[trigger] self.slots@[i]@[j];
                &&& e.0.wf()
                &&& slot_of(self.hasher, e.0@, self.slots@.len()) == i
                &&& self.map@.contains_key(e.0@)
                &&& self.map@[e.0@] == e.1
            } by {
            if i != idx {
                assert(self.slots@[i] == prev.slots@[i]);
                let e = prev.slots@[i]@[j];
                assert(prev.map@.contains_key(e.0@));
                assert(slot_of(prev.hasher, e.0@, prev.slots@.len()) == i);
                assert(self.map@.contains_key(e.0@) == prev.map@.contains_key(e.0@));
                assert(self.map@.contains_key(e.0@));
                assert(self.map@[e.0@] == prev.map@[e.0@]);
            } else {
                assert(self.slots@[i]@[j] == b[j]);
            }
        }
        assert forall|i: int, j1: int, j2: int|
            0 <= i < self.slots@.len() && 0 <= j1 < self.slots@[i]@.len() && 0 <= j2 < self.slots@[i]@.len()
                && j1 != j2 implies (#[trigger] self.slots@[i]@[j1]).0@ != (#[trigger] self.slots@[i]@[j2]).0@ by {
            if i != idx {
                assert(self.slots@[i] == prev.slots@[i]);
            } else {
                assert(self.slots@[i]@[j1] == b[j1]);
                assert(self.slots@[i]@[j2] == b[j2]);
            }
        }
    }

    /// Removes `key`, returning its value.
    #[verifier::rlimit(100)]
    pub fn remove(&mut self, key: &SDS) -> (r: Option<V>)
        requires
            old(self).wf(),
            key.wf(),
        ensures
            final(self).wf(),
            final(self)@ == old(self)@.remove(key@),
            old(self)@.contains_key(key@) ==> r == Some(old(self)@[key@]),
            !old(self)@.contains_key(key@) ==> r is None,
            final(self).spec_slot_count() == old(self).spec_slot_count(),
            final(self).spec_hasher() == old(self).spec_hasher(),
            final(self).spec_exp() == old(self).spec_exp(),
            forall|i: int|
                0 <= i < old(self).spec_slot_count() ==> #[trigger] final(self).spec_slot_len(i) <= old(
                    self,
                ).spec_slot_len(i),
    {
        let ghost old_map = self.map@;
        let ghost k = key@;
        let idx = self.slot_index(key);
        proof {
            self.lemma_slot_facts(idx as int);
        }
        let found = find_in_bucket(&self.slots[idx], key.value());
        match found {
            Some(j) => {
                let mut bucket: Vec<(SDS, V)> = Vec::new();
                std::mem::swap(&mut self.slots[idx], &mut bucket);
                let ghost b0 = bucket@;
                let (_k0, old_v) = bucket.remove(j);
                proof {
                    self.map = Ghost(old_map.remove(k));
                    assert(old_map.contains_key(k));
                    assert forall|j1: int, j2: int|
                        0 <= j1 < bucket@.len() && 0 <= j2 < bucket@.len() && j1 != j2 implies (#[trigger] bucket@[j1]).0@
                        != (#[trigger] bucket@[j2]).0@ by {
                        let a = if j1 < j { j1 } else { j1 + 1 };
                        let c = if j2 < j { j2 } else { j2 + 1 };
                        assert(bucket@[j1] == b0[a]);
                        assert(bucket@[j2] == b0[c]);
                        assert(b0[a].0@ != b0[c].0@);
                    }
                    assert forall|jj: int| 0 <= jj < bucket@.len() implies (#[trigger] bucket@[jj]).0@ != k by {
                        let a = if jj < j { jj } else { jj + 1 };
                        assert(bucket@[jj] == b0[a]);
                        assert(b0[a].0@ != b0[j as int].0@);
                    }
                    reveal(bucket_has);
                    assert forall|kk: Seq<u8>|
                        #[trigger] self.map@.contains_key(kk) && slot_of(self.hasher, kk, self.slots@.len()) == idx
                            implies bucket_has(bucket@, kk) by {
                        assert(bucket_has(b0, kk));
                        let jj = choose|jj: int| 0 <= jj < b0.len() && (#[trigger] b0[jj]).0@ == kk;
                        assert(jj != j);
                        let a = if jj < j { jj } else { jj - 1 };
                        assert(bucket@[a] == b0[jj]);
                    }
                }
                let ghost b1 = bucket;
                std::mem::swap(&mut self.slots[idx], &mut bucket);
                self.cnt = self.cnt - 1;
                proof {
                    assert(self.slots@ =~= old(self).slots@.update(idx as int, self.slots@[idx as int]));
                    self.lemma_replace_slot(old(self), idx as int, b1@);
                }
                Some(old_v)
            },
            None => {
                proof {
                    reveal(bucket_has);
                    if old_map.contains_key(k) {
                        assert(bucket_has(self.slots@[idx as int]@, k));
                    }
                    assert(old_map.remove(k) =~= old_map);
                }
                None
            },
        }
    }
}

impl<V> HashTable<V> {
    /// Takes one entry out of slot `idx`, if it has any.
    #[verifier::rlimit(100)]
    pub fn pop_from_slot(&mut self, idx: usize) -> (r: Option<(SDS, V)>)
        requires
            old(self).wf(),
            idx < old(self).spec_slot_count(),
        ensures
            final(self).wf(),
            final(self).spec_slot_count() == old(self).spec_slot_count(),
            final(self).spec_hasher() == old(self).spec_hasher(),
            final(self).spec_exp() == old(self).spec_exp(),
            forall|i: int|
                0 <= i < old(self).spec_slot_count() && i != idx ==> #[trigger] final(self).spec_slot_len(i)
                    == old(self).spec_slot_len(i),
            old(self).spec_slot_len(idx as int) == 0 ==> r is None && final(self)@ == old(self)@
                && final(self).spec_slot_len(idx as int) == 0,
            old(self).spec_slot_len(idx as int) > 0 ==> r is Some && {
                let (k, v) = r->Some_0;
                &&& k.wf()
                &&& old(self)@.contains_key(k@)
                &&& old(self)@[k@] == v
                &&& final(self)@ == old(self)@.remove(k@)
                &&& final(self).spec_slot_len(idx as int) == old(self).spec_slot_len(idx as int) - 1
            },
    {
        proof {
            self.lemma_slot_facts(idx as int);
        }
        if self.slots[idx].len() == 0 {
            return None;
        }
        let ghost old_map = self.map@;
        let mut bucket: Vec<(SDS, V)> = Vec::new();
        std::mem::swap(&mut self.slots[idx], &mut bucket);
        let ghost b0 = bucket@;
        let e = bucket.pop().unwrap();
        let ghost k = e.0@;
        proof {
            assert(e == b0[b0.len() - 1]);
            self.map = Ghost(old_map.remove(k));
            reveal(bucket_has);
            assert forall|jj: int| 0 <= jj < bucket@.len() implies (#[trigger] bucket@[jj]).0@ != k by {
                assert(bucket@[jj] == b0[jj]);
                assert(b0[jj].0@ != b0[b0.len() - 1].0@);
            }
            assert forall|j1: int, j2: int|
                0 <= j1 < bucket@.len() && 0 <= j2 < bucket@.len() && j1 != j2 implies (#[trigger] bucket@[j1]).0@
                != (#[trigger] bucket@[j2]).0@ by {
                assert(bucket@[j1] == b0[j1]);
                assert(bucket@[j2] == b0[j2]);
            }
            assert forall|kk: Seq<u8>|
                #[trigger] self.map@.contains_key(kk) && slot_of(self.hasher, kk, self.slots@.len()) == idx implies bucket_has(
                bucket@,
                kk,
            ) by {
                assert(bucket_has(b0, kk));
                let jj = choose|jj: int| 0 <= jj < b0.len() && (#[trigger] b0[jj]).0@ == kk;
                assert(bucket@[jj] == b0[jj]);
            }
        }
        let ghost b1 = bucket;
        std::mem::swap(&mut self.slots[idx], &mut bucket);
        self.cnt = self.cnt - 1;
        proof {
            assert(self.slots@ =~= old(self).slots@.update(idx as int, self.slots@[idx as int]));
            self.lemma_replace_slot(old(self), idx as int, b1@);
        }
        Some(e)
    }

    /// A table whose slots are all empty has no entries.
    pub proof fn lemma_all_empty(&self)
        requires
            self.wf(),
            forall|i: int| 0 <= i < self.spec_slot_count() ==> #[trigger] self.spec_slot_len(i) == 0,
        ensures
            self@ == Map::<Seq<u8>, V>::empty(),
    {
        reveal(HashTable::wf);
        reveal(bucket_has);
        assert forall|k: Seq<u8>| !#[trigger] self.map@.contains_key(k) by {
            if self.map@.contains_key(k) {
                self.lemma_slot_bound(k);
                let i = slot_of(self.hasher, k, self.slots@.len());
                assert(self.spec_slot_len(i) == 0);
                assert(bucket_has(self.slots@[i]@, k));
            }
        }
        assert(self.map@ =~= Map::<Seq<u8>, V>::empty());
    }
}

proof fn lemma_pow2_values()
    ensures
        pow2(2) == 4,
        pow2(30) == 1073741824,
{
    vstd::arithmetic::power2::lemma2_to64();
}

} // verus!
