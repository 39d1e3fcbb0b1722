use vstd::prelude::*;
use vstd::arithmetic::power2::pow2;

use crate::hashtable::{random_seed, HashTable, KeyHasher, MAX_EXP, MIN_EXP};
use crate::sds::SDS;

verus! {

/// Slot count of a new dictionary.
pub const INITIAL_SLOTS: u64 = 4;
/// Empty slots that one unit of rehash budget may pass over.
pub const EMPTY_VISITS_PER_STEP: usize = 10;

/// A key-value map over byte-string keys, held in a main table and, while it
/// grows, a second table twice as large. Entries move from the main table to
/// the second one a few slots at a time, on each operation.
pub struct Dict<V> {
    main_table: HashTable<V>,
    back_table: Option<HashTable<V>>,
    rehash_idx: Option<usize>,
    hasher: KeyHasher,
}

impl<V> View for Dict<V> {
    type V = Map<Seq<u8>, V>;

    closed spec fn view(&self) -> Map<Seq<u8>, V> {
        match self.back_table {
            Some(b) => self.main_table@.union_prefer_right(b@),
            None => self.main_table@,
        }
    }
}

impl<V> Dict<V> {
    /// The tables agree with the migration state: a second table and a cursor
    /// exist together; the second table doubles the main one; no key is in both;
    /// every main slot below the cursor is empty.
    pub closed spec fn wf(&self) -> bool {
        &&& self.main_table.wf()
        &&& self.main_table.spec_hasher() == self.hasher
        &&& self.back_table is Some <==> self.rehash_idx is Some
        &&& match self.back_table {
            Some(b) => {
                let c = self.rehash_idx->Some_0;
                &&& b.wf()
                &&& b.spec_hasher() == self.hasher
                &&& b.spec_slot_count() == 2 * self.main_table.spec_slot_count()
                &&& self.main_table@.dom().disjoint(b@.dom())
                &&& c < self.main_table.spec_slot_count()
                &&& forall|i: int| 0 <= i < c ==> #[trigger] self.main_table.spec_slot_len(i) == 0
                &&& self.main_table@.len() + b@.len() <= u64::MAX
            },
            None => self.main_table@.len() <= u64::MAX,
        }
    }

    /// Whether entries are being moved to a larger table.
    pub closed spec fn spec_rehashing(&self) -> bool {
        self.rehash_idx is Some
    }

    /// The next main slot to move.
    pub closed spec fn spec_cursor(&self) -> nat {
        match self.rehash_idx {
            Some(c) => c as nat,
            None => 0,
        }
    }

    /// Slot count of the main table.
    pub closed spec fn spec_main_slots(&self) -> nat {
        self.main_table.spec_slot_count()
    }

    /// Exponent of the main table's slot count.
    pub closed spec fn spec_main_exp(&self) -> nat {
        self.main_table.spec_exp()
    }

    /// Slot count of the second table while migrating, 0 otherwise.
    pub closed spec fn spec_back_slots(&self) -> nat {
        match self.back_table {
            Some(b) => b.spec_slot_count(),
            None => 0,
        }
    }

    /// What a well-formed dictionary guarantees: a finite key set whose size
    /// fits a `u64`, a main table of `2^e` slots, and while migrating a cursor
    /// below the main slot count and a second table of twice its slots.
    pub proof fn lemma_wf_facts(&self)
        requires
            self.wf(),
        ensures
            self@.dom().finite(),
            self@.len() <= u64::MAX,
            MIN_EXP <= self.spec_main_exp() <= MAX_EXP,
            self.spec_main_slots() == pow2(self.spec_main_exp()),
            self.spec_rehashing() ==> self.spec_cursor() < self.spec_main_slots()
                && self.spec_back_slots() == 2 * self.spec_main_slots(),
            !self.spec_rehashing() ==> self.spec_back_slots() == 0,
    {
        self.lemma_len();
        self.main_table.lemma_wf_facts();
    }

    /// Entries of the dictionary, counted over both tables.
    proof fn lemma_len(&self)
        requires
            self.wf(),
        ensures
            self@.dom().finite(),
            self@.len() <= u64::MAX,
            self.back_table is Some ==> self@.len() == self.main_table@.len() + self.back_table->Some_0@.len(),
            self.back_table is None ==> self@.len() == self.main_table@.len(),
    {
        self.main_table.lemma_wf_facts();
        if let Some(b) = self.back_table {
            b.lemma_wf_facts();
            vstd::set_lib::lemma_set_disjoint_lens(self.main_table@.dom(), b@.dom());
            assert(self@.dom() =~= self.main_table@.dom() + b@.dom());
        }
    }

    /// An empty dictionary whose keys are hashed with `hasher`.
    pub fn new_with_hasher(hasher: KeyHasher) -> (r: Self)
        ensures
            r.wf(),
            r@ == Map::<Seq<u8>, V>::empty(),
            !r.spec_rehashing(),
            r.spec_main_slots() == INITIAL_SLOTS,
            r.spec_main_exp() == MIN_EXP,
    {
        proof {
            vstd::arithmetic::power2::lemma2_to64();
        }
        let main_table = HashTable::with_exp(MIN_EXP, hasher);
        Dict { main_table, back_table: None, rehash_idx: None, hasher }
    }

    /// An empty dictionary whose keys are hashed from a random seed.
    pub fn new() -> (r: Self)
        ensures
            r.wf(),
            r@ == Map::<Seq<u8>, V>::empty(),
            !r.spec_rehashing(),
            r.spec_main_slots() == INITIAL_SLOTS,
            r.spec_main_exp() == MIN_EXP,
    {
        let seed = random_seed();
        Self::new_with_hasher(KeyHasher::Seeded(seed))
    }

    /// Whether entries are being moved to a larger table.
    pub fn is_rehashing(&self) -> (r: bool)
        ensures
            r == self.spec_rehashing(),
    {
        self.rehash_idx.is_some()
    }

    /// Number of entries in both tables.
    pub fn value_cnt(&self) -> (r: u64)
        requires
            self.wf(),
        ensures
            r == self@.len(),
    {
        proof {
            self.lemma_len();
        }
        let main = self.main_table.count();
        match &self.back_table {
            Some(b) => main + b.count(),
            None => main,
        }
    }

    /// Slot count of the main table.
    pub fn main_slots(&self) -> (r: u64)
        requires
            self.wf(),
        ensures
            r == self.spec_main_slots(),
    {
        self.main_table.slots_cnt()
    }

    /// Allocates the second table, twice the size of the main one, and puts the
    /// cursor at slot 0.
    fn start_rehashing(&mut self)
        requires
            old(self).wf(),
            !old(self).spec_rehashing(),
            old(self).main_table.spec_exp() < MAX_EXP,
        ensures
            final(self).wf(),
            final(self)@ == old(self)@,
            final(self).spec_rehashing(),
            final(self).spec_cursor() == 0,
            final(self).spec_main_slots() == old(self).spec_main_slots(),
            final(self).spec_back_slots() == 2 * old(self).spec_main_slots(),
            final(self).spec_main_exp() == old(self).spec_main_exp(),
    {
        proof {
            self.main_table.lemma_wf_facts();
            vstd::arithmetic::power2::lemma_pow2_unfold(self.main_table.spec_exp() + 1);
        }
        let back = HashTable::with_exp(self.main_table.slot_cnt_exp() + 1, self.hasher);
        proof {
            assert(self.main_table@.union_prefer_right(back@) =~= self.main_table@);
        }
        self.back_table = Some(back);
        self.rehash_idx = Some(0);
    }
}

/// Between two states, a migration in progress either ended (the main table
/// is now the second table, of twice the slots) or moved its cursor forward over
/// the same main table.
pub open spec fn migration_advances<V>(a: Dict<V>, b: Dict<V>) -> bool {
    a.spec_rehashing() ==> (b.spec_main_slots() == 2 * a.spec_main_slots() || (b.spec_rehashing()
        && b.spec_main_slots() == a.spec_main_slots() && b.spec_cursor() > a.spec_cursor()))
}

/// Between two states over the same main table, a migration's cursor moved by
/// at most `EMPTY_VISITS_PER_STEP` slots: one operation visits a bounded number
/// of slots, whatever the size of the table.
pub open spec fn step_bounded<V>(a: Dict<V>, b: Dict<V>) -> bool {
    a.spec_rehashing() && b.spec_rehashing() && b.spec_main_slots() == a.spec_main_slots() ==> b.spec_cursor()
        <= a.spec_cursor() + EMPTY_VISITS_PER_STEP
}

/// Inserting `k` into `d` starts a migration: no migration is running, `k` is
/// a new key, the main table then holds as many entries as it has slots, and it
/// is below the largest size (`2^MAX_EXP` slots).
pub open spec fn starts_migration<V>(d: Dict<V>, k: Seq<u8>) -> bool {
    &&& !d.spec_rehashing()
    &&& !d@.contains_key(k)
    &&& d@.len() + 1 >= d.spec_main_slots()
    &&& d.spec_main_exp() < MAX_EXP
}

impl<V> Dict<V> {
    /// One bounded piece of migration: from the cursor on, passes over at most
    /// `EMPTY_VISITS_PER_STEP * budget` slots and moves the whole chain of at most
    /// `budget` non-empty ones. The migration ends exactly when the main table
    /// is empty or the cursor passes its last slot; the second table then becomes
    /// the main one. Returns the slots passed over, the non-empty slots among
    /// them, and the entries moved.
    #[verifier::rlimit(100)]
    fn try_rehash_step(&mut self, budget: usize) -> (r: (usize, usize, u64))
        requires
            old(self).wf(),
            1 <= budget <= 1024,
        ensures
            final(self).wf(),
            final(self)@ == old(self)@,
            migration_advances(*old(self), *final(self)),
            !old(self).spec_rehashing() ==> *final(self) == *old(self) && r == (0usize, 0usize, 0u64),
            old(self).spec_rehashing() ==> {
                let n = old(self).spec_main_slots();
                let c = old(self).spec_cursor();
                let m = old(self).spec_main_table()@.len();
                &&& 1 <= r.0 <= EMPTY_VISITS_PER_STEP * budget
                &&& r.1 <= budget
                &&& r.1 <= r.0
                &&& c + r.0 <= n
                &&& r.2 <= m
                &&& final(self).spec_rehashing() ==> {
                    &&& final(self).spec_main_slots() == n
                    &&& final(self).spec_cursor() == c + r.0
                    &&& c + r.0 < n
                    &&& r.2 < m
                    &&& final(self).spec_main_table()@.len() == m - r.2
                }
                &&& !final(self).spec_rehashing() ==> {
                    &&& c + r.0 == n || r.2 == m
                    &&& final(self).spec_main_slots() == 2 * n
                    &&& final(self).spec_back_table() is None
                }
            },
    {
        if self.rehash_idx.is_none() {
            return (0, 0, 0);
        }
        proof {
            self.lemma_len();
        }
        let ghost target = self@;
        let ghost mlen0 = self.main_table@.len();
        let ghost c0 = self.spec_cursor();
        let mut back = match self.back_table.take() {
            Some(b) => b,
            None => return (0, 0, 0),
        };
        let mut idx: usize = match self.rehash_idx {
            Some(c) => c,
            None => 0,
        };
        proof {
            self.main_table.lemma_wf_facts();
            back.lemma_wf_facts();
        }
        let n = self.main_table.slots_cnt() as usize;
        let max_visits = EMPTY_VISITS_PER_STEP * budget;
        let mut visited: usize = 0;
        let mut steps = budget;
        let mut moved: u64 = 0;
        while idx < n && visited < max_visits && steps > 0
            invariant
                self.main_table.wf(),
                back.wf(),
                self.main_table.spec_hasher() == self.hasher,
                back.spec_hasher() == self.hasher,
                n == self.main_table.spec_slot_count(),
                n == old(self).main_table.spec_slot_count(),
                back.spec_slot_count() == 2 * n,
                self.main_table@.dom().disjoint(back@.dom()),
                self.main_table@.union_prefer_right(back@) == target,
                self.main_table@.len() + back@.len() <= u64::MAX,
                idx <= n,
                idx == c0 + visited,
                visited <= max_visits,
                max_visits == EMPTY_VISITS_PER_STEP * budget,
                forall|i: int| 0 <= i < idx ==> #[trigger] self.main_table.spec_slot_len(i) == 0,
                self.back_table is None,
                self.rehash_idx == old(self).rehash_idx,
                1 <= budget <= 1024,
                steps <= budget,
                budget - steps <= visited,
                visited == 0 ==> steps == budget,
                self.main_table@.len() + moved == mlen0,
                mlen0 <= u64::MAX,
            decreases n - idx,
        {
            if !self.main_table.slot_is_empty(idx) {
                while !self.main_table.slot_is_empty(idx)
                    invariant
                        self.main_table.wf(),
                        back.wf(),
                        self.main_table.spec_hasher() == self.hasher,
                        back.spec_hasher() == self.hasher,
                        n == self.main_table.spec_slot_count(),
                        back.spec_slot_count() == 2 * n,
                        self.main_table@.dom().disjoint(back@.dom()),
                        self.main_table@.union_prefer_right(back@) == target,
                        self.main_table@.len() + back@.len() <= u64::MAX,
                        idx < n,
                        forall|i: int| 0 <= i < idx ==> #[trigger] self.main_table.spec_slot_len(i) == 0,
                        self.back_table is None,
                        self.rehash_idx == old(self).rehash_idx,
                        self.main_table@.len() + moved == mlen0,
                mlen0 <= u64::MAX,
                    decreases self.main_table.spec_slot_len(idx as int),
                {
                    let ghost m0 = self.main_table@;
                    let ghost b0 = back@;
                    let e = self.main_table.pop_from_slot(idx);
                    if let Some((k, v)) = e {
                        proof {
                            self.main_table.lemma_wf_facts();
                            back.lemma_wf_facts();
                            assert(!b0.contains_key(k@));
                            assert(m0.dom().remove(k@).len() == m0.dom().len() - 1);
                        }
                        proof {
                            assert(self.main_table@.dom() == m0.dom().remove(k@));
                        }
                        back.insert(k, v);
                        moved = moved + 1;
                        proof {
                            back.lemma_wf_facts();
                            assert(back@.dom() =~= b0.dom().insert(k@));
                            assert(b0.dom().insert(k@).len() == b0.dom().len() + 1);
                            assert(self.main_table@.union_prefer_right(back@) =~= target);
                            assert(self.main_table@.dom().disjoint(back@.dom()));
                        }
                    }
                }
                steps = steps - 1;
            }
            idx = idx + 1;
            visited = visited + 1;
        }
        proof {
            self.main_table.lemma_wf_facts();
            back.lemma_wf_facts();
        }
        if self.main_table.count() == 0 || idx >= n {
            proof {
                if idx >= n {
                    self.main_table.lemma_all_empty();
                }
                assert(self.main_table@.dom() =~= Set::<Seq<u8>>::empty());
                assert(self.main_table@.union_prefer_right(back@) =~= back@);
            }
            self.main_table = back;
            self.rehash_idx = None;
        } else {
            self.back_table = Some(back);
            self.rehash_idx = Some(idx);
        }
        (visited, budget - steps, moved)
    }

    /// Stores `v` under `key`, returning the value it replaces. Performs one
    /// migration step first; while migrating, the key goes to the larger table.
    /// A new key that brings the main table to as many entries as slots starts
    /// a migration.
    #[verifier::rlimit(100)]
    pub fn insert(&mut self, key: SDS, v: V) -> (r: Option<V>)
        requires
            old(self).wf(),
            key.wf(),
            old(self)@.len() < u64::MAX,
        ensures
            final(self).wf(),
            final(self)@ == old(self)@.insert(key@, v),
            old(self)@.contains_key(key@) ==> r == Some(old(self)@[key@]),
            !old(self)@.contains_key(key@) ==> r is None,
            migration_advances(*old(self), *final(self)),
            step_bounded(*old(self), *final(self)),
            starts_migration(*old(self), key@) ==> final(self).spec_rehashing() && final(self).spec_cursor() == 0
                && final(self).spec_main_slots() == old(self).spec_main_slots() && final(self).spec_back_slots() == 2
                * old(self).spec_main_slots(),
            !old(self).spec_rehashing() && !starts_migration(*old(self), key@) ==> !final(self).spec_rehashing()
                && final(self).spec_main_slots() == old(self).spec_main_slots() && final(self).spec_main_exp()
                == old(self).spec_main_exp(),
            starts_migration(*old(self), key@) ==> final(self).spec_main_exp() == old(self).spec_main_exp(),
            old(self).spec_rehashing() && final(self).spec_rehashing() && final(self).spec_main_slots() == old(
                self,
            ).spec_main_slots() ==> final(self).spec_back_table()->Some_0@.contains_key(key@)
                && !final(self).spec_main_table()@.contains_key(key@),
    {
        self.try_rehash_step(1);
        proof {
            self.lemma_len();
        }
        if self.rehash_idx.is_some() {
            let mut back = match self.back_table.take() {
                Some(b) => b,
                None => return None,
            };
            let ghost m0 = self.main_table@;
            let ghost b0 = back@;
            proof {
                self.main_table.lemma_wf_facts();
                back.lemma_wf_facts();
            }
            let old_in_main = self.main_table.remove(&key);
            proof {
                self.main_table.lemma_wf_facts();
            }
            let old = back.insert(key, v);
            proof {
                back.lemma_wf_facts();
                assert(self.main_table@.union_prefer_right(back@) =~= m0.union_prefer_right(b0).insert(key@, v));
                assert(self.main_table@.dom().disjoint(back@.dom()));
                if m0.contains_key(key@) {
                    assert(m0.dom().remove(key@).len() == m0.dom().len() - 1);
                    assert(back@.dom() == b0.dom().insert(key@));
                }
            }
            self.back_table = Some(back);
            if old.is_some() {
                old
            } else {
                old_in_main
            }
        } else {
            proof {
                self.main_table.lemma_wf_facts();
            }
            let ghost k = key@;
            let ghost m_before = self.main_table@;
            let replaced = self.main_table.insert(key, v);
            proof {
                self.main_table.lemma_wf_facts();
                if !old(self).spec_rehashing() {
                    assert(m_before == old(self)@);
                    if !m_before.contains_key(k) {
                        assert(self.main_table@.dom() =~= m_before.dom().insert(k));
                        assert(m_before.dom().insert(k).len() == m_before.dom().len() + 1);
                    }
                }
            }
            if replaced.is_none() && self.main_table.need_expand() && self.main_table.slot_cnt_exp() < MAX_EXP {
                self.start_rehashing();
            }
            replaced
        }
    }

    /// Removes `key`, returning its value. Performs one migration step first;
    /// while migrating, the larger table is looked at first.
    #[verifier::rlimit(100)]
    pub fn remove(&mut self, key: &SDS) -> (r: Option<V>)
        requires
            old(self).wf(),
            key.wf(),
        ensures
            final(self).wf(),
            final(self)@ == old(self)@.remove(key@),
            old(self)@.contains_key(key@) ==> r == Some(old(self)@[key@]),
            !old(self)@.contains_key(key@) ==> r is None,
            migration_advances(*old(self), *final(self)),
            step_bounded(*old(self), *final(self)),
    {
        self.try_rehash_step(1);
        proof {
            self.lemma_len();
            self.main_table.lemma_wf_facts();
        }
        let ghost m0 = self.main_table@;
        let mut back_hit: Option<V> = None;
        if let Some(mut back) = self.back_table.take() {
            let ghost b0 = back@;
            proof {
                back.lemma_wf_facts();
            }
            back_hit = back.remove(key);
            proof {
                back.lemma_wf_facts();
                if b0.contains_key(key@) {
                    assert(b0.dom().remove(key@).len() == b0.dom().len() - 1);
                }
                assert(m0.dom().disjoint(back@.dom()));
            }
            self.back_table = Some(back);
        }
        if back_hit.is_some() {
            proof {
                let b = self.back_table->Some_0;
                assert(!m0.contains_key(key@));
                assert(self@ =~= old(self)@.remove(key@));
            }
            return back_hit;
        }
        let r = self.main_table.remove(key);
        proof {
            self.main_table.lemma_wf_facts();
            if m0.contains_key(key@) {
                assert(m0.dom().remove(key@).len() == m0.dom().len() - 1);
            }
            assert(self@ =~= old(self)@.remove(key@));
        }
        r
    }

    /// The value stored under `key`, looked up in the larger table first.
    fn lookup(&self, key: &SDS) -> (r: Option<&V>)
        requires
            self.wf(),
            key.wf(),
        ensures
            r is Some <==> self@.contains_key(key@),
            r is Some ==> *(r->Some_0) == self@[key@],
    {
        match &self.back_table {
            Some(b) => match b.get(key) {
                Some(v) => Some(v),
                None => self.main_table.get(key),
            },
            None => self.main_table.get(key),
        }
    }

    /// The value stored under `key`. Performs one migration step first.
    pub fn get(&mut self, key: &SDS) -> (r: Option<&V>)
        requires
            old(self).wf(),
            key.wf(),
        ensures
            final(self).wf(),
            final(self)@ == old(self)@,
            r is Some <==> old(self)@.contains_key(key@),
            r is Some ==> *(r->Some_0) == old(self)@[key@],
            migration_advances(*old(self), *final(self)),
            step_bounded(*old(self), *final(self)),
    {
        self.try_rehash_step(1);
        self.lookup(key)
    }
}

impl<V> Dict<V> {
    /// While migrating, the cursor does not pass the end of the main table.
    pub proof fn lemma_cursor_bound(&self)
        requires
            self.wf(),
        ensures
            self.spec_rehashing() ==> self.spec_cursor() < self.spec_main_slots(),
    {
    }
}

proof fn lemma_migration_prefix<V>(ds: Seq<Dict<V>>, i: int)
    requires
        0 <= i < ds.len(),
        ds[0].spec_rehashing(),
        forall|j: int| 0 <= j < ds.len() - 1 ==> migration_advances(#[trigger] ds[j], ds[j + 1]),
        forall|j: int| 0 < j <= i ==> (#[trigger] ds[j].spec_main_slots()) != 2 * ds[0].spec_main_slots(),
    ensures
        ds[i].spec_rehashing(),
        ds[i].spec_main_slots() == ds[0].spec_main_slots(),
        ds[i].spec_cursor() >= ds[0].spec_cursor() + i,
    decreases i,
{
    if i > 0 {
        lemma_migration_prefix(ds, i - 1);
        assert(migration_advances(ds[i - 1], ds[i]));
        assert(ds[i].spec_main_slots() != 2 * ds[0].spec_main_slots());
    }
}

/// Once a migration has started over a main table of `n` slots, it ends within
/// `n` operations, leaving a main table of exactly `2 * n` slots: each operation
/// either ends it or moves its cursor forward by a slot or more, and the cursor
/// stays below `n` while it runs.
pub proof fn lemma_migration_ends<V>(ds: Seq<Dict<V>>)
    requires
        ds.len() > ds[0].spec_main_slots(),
        ds[0].spec_rehashing(),
        forall|i: int| 0 <= i < ds.len() ==> (#[trigger] ds[i]).wf(),
        forall|i: int| 0 <= i < ds.len() - 1 ==> migration_advances(#[trigger] ds[i], ds[i + 1]),
    ensures
        exists|i: int|
            0 < i <= ds[0].spec_main_slots() && #[trigger] ds[i].spec_main_slots() == 2 * ds[0].spec_main_slots(),
{
    let last = ds[0].spec_main_slots() as int;
    if forall|j: int| 0 < j <= last ==> (#[trigger] ds[j].spec_main_slots()) != 2 * ds[0].spec_main_slots() {
        lemma_migration_prefix(ds, last);
        ds[last].lemma_cursor_bound();
    } else {
        let j = choose|j: int| 0 < j <= last && (#[trigger] ds[j].spec_main_slots()) == 2 * ds[0].spec_main_slots();
        assert(0 < j <= last);
    }
}

/// After `insert(k, v)`, looking `k` up finds `v`, whether or not a migration
/// is in progress and whichever table the key sat in before.
pub proof fn lemma_get_after_insert<V>(before: Dict<V>, after: Dict<V>, k: Seq<u8>, v: V)
    requires
        after@ == before@.insert(k, v),
    ensures
        after@.contains_key(k),
        after@[k] == v,
{
}


impl<V> Dict<V> {
    /// The main table.
    pub closed spec fn spec_main_table(&self) -> HashTable<V> {
        self.main_table
    }

    /// The larger table that entries move to, while migrating.
    pub closed spec fn spec_back_table(&self) -> Option<HashTable<V>> {
        self.back_table
    }

    /// The main table.
    pub fn main_table(&self) -> (r: &HashTable<V>)
        requires
            self.wf(),
        ensures
            *r == self.spec_main_table(),
            r.wf(),
            r.spec_slot_count() == self.spec_main_slots(),
    {
        &self.main_table
    }

    /// The larger table that entries move to, while migrating.
    pub fn back_table(&self) -> (r: Option<&HashTable<V>>)
        requires
            self.wf(),
        ensures
            r is Some <==> self.spec_rehashing(),
            r is Some ==> *r->Some_0 == self.spec_back_table()->Some_0 && r->Some_0.wf()
                && r->Some_0.spec_slot_count() == 2 * self.spec_main_slots(),
    {
        self.back_table.as_ref()
    }
}

} // verus!
