//! A hash map keyed by content address.
//!
//! An address is already a digest, so its first eight bytes serve as the
//! hash. Entries whose addresses share those bytes live in one bucket.

use crate::id::Id;
use std::collections::HashMap;
use vstd::prelude::*;

verus! {

broadcast use vstd::std_specs::hash::group_hash_axioms;

/// Whether some entry of the bucket has the key `k`.
pub open spec fn holds<V>(b: Seq<(Id, V)>, k: Id) -> bool {
    exists|j: int| 0 <= j < b.len() && (#[trigger] b[j]).0 == k
}

/// The position of an entry with the key `k`, where there is one.
pub open spec fn slot_of<V>(b: Seq<(Id, V)>, k: Id) -> int {
    choose|j: int| 0 <= j < b.len() && (#[trigger] b[j]).0 == k
}

/// Every entry of the bucket has the prefix `p`, and no key occurs twice.
pub open spec fn bucket_ok<V>(b: Seq<(Id, V)>, p: u64) -> bool {
    &&& forall|j: int| 0 <= j < b.len() ==> (#[trigger] b[j]).0.spec_prefix() == p
    &&& forall|i: int, j: int|
        0 <= i < j < b.len() ==> (#[trigger] b[i]).0 != (#[trigger] b[j]).0
}

proof fn lemma_slot<V>(b: Seq<(Id, V)>, p: u64, k: Id, j: int)
    requires
        bucket_ok(b, p),
        0 <= j < b.len(),
        b[j].0 == k,
    ensures
        holds(b, k),
        slot_of(b, k) == j,
{
    let s = slot_of(b, k);
    assert(0 <= s < b.len() && b[s].0 == k);
    if s < j {
        assert(b[s].0 != b[j].0);
    } else if j < s {
        assert(b[j].0 != b[s].0);
    }
}

/// A map from addresses to values with expected constant-time lookup.
pub struct IdMap<V> {
    table: HashMap<u64, Vec<(Id, V)>>,
    keys: Vec<Id>,
}

impl<V> View for IdMap<V> {
    type V = Map<Id, V>;

    closed spec fn view(&self) -> Map<Id, V> {
        Map::new(
            |k: Id| holds(self.bucket(k), k),
            |k: Id| self.bucket(k)[slot_of(self.bucket(k), k)].1,
        )
    }
}

impl<V> IdMap<V> {
    /// The entries that share the first eight bytes of `k`.
    pub closed spec fn bucket(&self, k: Id) -> Seq<(Id, V)> {
        if self.table@.contains_key(k.spec_prefix()) {
            self.table@[k.spec_prefix()]@
        } else {
            Seq::empty()
        }
    }

    /// The invariant of the map.
    pub closed spec fn wf(&self) -> bool {
        &&& forall|p: u64| #[trigger]
            self.table@.contains_key(p) ==> bucket_ok(self.table@[p]@, p)
        &&& self.keys@.no_duplicates()
        &&& forall|k: Id| #[trigger] self.keys@.contains(k) <==> holds(self.bucket(k), k)
    }

    /// The keys in the order in which they were first inserted.
    pub closed spec fn spec_keys(&self) -> Seq<Id> {
        self.keys@
    }

    /// The keys are exactly the domain of the map, each listed once.
    pub proof fn lemma_keys(&self)
        requires
            self.wf(),
        ensures
            self.spec_keys().no_duplicates(),
            forall|k: Id| #[trigger] self.spec_keys().contains(k) <==> self@.contains_key(k),
            self@.dom() == self.spec_keys().to_set(),
            self@.dom().finite(),
            self@.dom().len() == self.spec_keys().len(),
    {
        assert forall|k: Id| #[trigger] self.spec_keys().contains(k) <==> self@.contains_key(
            k,
        ) by {}
        assert(self@.dom() =~= self.spec_keys().to_set());
        self.keys@.unique_seq_to_set();
    }

    /// An empty map.
    pub fn new() -> (m: IdMap<V>)
        ensures
            m.wf(),
            m@ == Map::<Id, V>::empty(),
            m.spec_keys() == Seq::<Id>::empty(),
    {
        let m = IdMap { table: HashMap::new(), keys: Vec::new() };
        assert(m@ =~= Map::<Id, V>::empty());
        m
    }

    /// The number of keys.
    pub fn len(&self) -> (n: usize)
        requires
            self.wf(),
        ensures
            n == self@.dom().len(),
            n == self.spec_keys().len(),
    {
        proof {
            self.lemma_keys();
        }
        self.keys.len()
    }

    /// The keys of the map, each once.
    pub fn keys(&self) -> (r: &Vec<Id>)
        requires
            self.wf(),
        ensures
            r@ == self.spec_keys(),
            r@.no_duplicates(),
            forall|k: Id| #[trigger] r@.contains(k) <==> self@.contains_key(k),
    {
        proof {
            self.lemma_keys();
        }
        &self.keys
    }

    /// The value stored under `id`.
    pub fn get(&self, id: &Id) -> (r: Option<&V>)
        requires
            self.wf(),
        ensures
            match r {
                Some(v) => self@.contains_key(*id) && self@[*id] == *v,
                None => !self@.contains_key(*id),
            },
    {
        let p = id.prefix();
        match self.table.get(&p) {
            None => None,
            Some(bucket) => {
                let mut j: usize = 0;
                while j < bucket.len()
                    invariant
                        j <= bucket.len(),
                        bucket_ok(bucket@, p),
                        bucket@ == self.bucket(*id),
                        forall|i: int| 0 <= i < j ==> (#[trigger] bucket@[i]).0 != *id,
                    decreases bucket.len() - j,
                {
                    if bucket[j].0.same(id) {
                        proof {
                            lemma_slot(bucket@, p, *id, j as int);
                        }
                        return Some(&bucket[j].1);
                    }
                    j += 1;
                }
                None
            },
        }
    }

    /// Whether a value is stored under `id`.
    pub fn contains(&self, id: &Id) -> (r: bool)
        requires
            self.wf(),
        ensures
            r == self@.contains_key(*id),
    {
        self.get(id).is_some()
    }

    /// Stores `value` under `id`, replacing what was there.
    pub fn insert(&mut self, id: Id, value: V)
        requires
            old(self).wf(),
        ensures
            final(self).wf(),
            final(self)@ == old(self)@.insert(id, value),
            final(self).spec_keys() == (if old(self)@.contains_key(id) {
                old(self).spec_keys()
            } else {
                old(self).spec_keys().push(id)
            }),
    {
        let p = id.prefix();
        let ghost before = *self;
        let mut bucket = match self.table.remove(&p) {
            Some(b) => b,
            None => Vec::new(),
        };
        let ghost old_bucket = bucket@;
        assert(old_bucket == before.bucket(id));
        assert(bucket_ok(old_bucket, p));
        let mut j: usize = 0;
        let mut found = false;
        while j < bucket.len()
            invariant_except_break
                !found,
                forall|i: int| 0 <= i < j ==> (#[trigger] bucket@[i]).0 != id,
            invariant
                j <= bucket.len(),
                bucket@ == old_bucket,
            ensures
                j <= bucket.len(),
                bucket@ == old_bucket,
                found ==> j < bucket.len() && bucket@[j as int].0 == id,
                !found ==> !holds(old_bucket, id),
            decreases bucket.len() - j,
        {
            if bucket[j].0.same(&id) {
                found = true;
                break ;
            }
            j += 1;
        }
        if found {
            proof {
                lemma_slot(old_bucket, p, id, j as int);
            }
            bucket.set(j, (id, value));
        } else {
            bucket.push((id, value));
            self.keys.push(id);
        }
        let ghost new_bucket = bucket@;
        self.table.insert(p, bucket);
        proof {
            let jj: int = if found {
                j as int
            } else {
                old_bucket.len() as int
            };
            assert(new_bucket[jj].0 == id);
            assert(bucket_ok(new_bucket, p)) by {
                assert forall|a: int, b: int| 0 <= a < b < new_bucket.len() implies (
                #[trigger] new_bucket[a]).0 != (#[trigger] new_bucket[b]).0 by {
                    if found {
                        if a == jj {
                            assert(old_bucket[a].0 != old_bucket[b].0);
                        } else if b == jj {
                            assert(old_bucket[a].0 != old_bucket[b].0);
                        } else {
                            assert(old_bucket[a].0 != old_bucket[b].0);
                        }
                    } else {
                        if b == jj {
                            assert(old_bucket[a].0 != id);
                        } else {
                            assert(old_bucket[a].0 != old_bucket[b].0);
                        }
                    }
                }
                assert forall|a: int| 0 <= a < new_bucket.len() implies (
                #[trigger] new_bucket[a]).0.spec_prefix() == p by {
                    if a != jj {
                        assert(old_bucket[a].0.spec_prefix() == p);
                    }
                }
            }
            lemma_slot(new_bucket, p, id, jj);
            assert forall|k: Id| k != id implies (holds(self.bucket(k), k) == holds(
                before.bucket(k),
                k,
            ) && (holds(before.bucket(k), k) ==> self.bucket(k)[slot_of(self.bucket(k), k)].1
                == before.bucket(k)[slot_of(before.bucket(k), k)].1)) by {
                if k.spec_prefix() == p {
                    assert(self.bucket(k) == new_bucket);
                    assert(before.bucket(k) == old_bucket);
                    if holds(old_bucket, k) {
                        let s = slot_of(old_bucket, k);
                        assert(new_bucket[s] == old_bucket[s]);
                        lemma_slot(new_bucket, p, k, s);
                    }
                    if holds(new_bucket, k) {
                        let s = slot_of(new_bucket, k);
                        assert(s != jj);
                        assert(old_bucket[s] == new_bucket[s]);
                        lemma_slot(old_bucket, p, k, s);
                    }
                } else {
                    assert(self.bucket(k) == before.bucket(k));
                }
            }
            assert(self@ =~= before@.insert(id, value));
            assert forall|q: u64| #[trigger] self.table@.contains_key(q) implies bucket_ok(
                self.table@[q]@,
                q,
            ) by {
                if q != p {
                    assert(before.table@.contains_key(q));
                }
            }
            assert forall|k: Id| #[trigger] self.keys@.contains(k) <==> holds(
                self.bucket(k),
                k,
            ) by {
                if found {
                    assert(before.keys@.contains(k) <==> holds(before.bucket(k), k));
                } else {
                    assert(before.keys@.contains(k) <==> holds(before.bucket(k), k));
                    if k == id {
                        assert(self.keys@[before.keys@.len() as int] == id);
                    } else {
                        if before.keys@.contains(k) {
                            let i = choose|i: int|
                                0 <= i < before.keys@.len() && before.keys@[i] == k;
                            assert(self.keys@[i] == k);
                        }
                        if self.keys@.contains(k) {
                            let i = choose|i: int| 0 <= i < self.keys@.len() && self.keys@[i] == k;
                            assert(before.keys@[i] == k);
                        }
                    }
                }
            }
            if !found {
                assert(!before.keys@.contains(id));
                assert(self.keys@.no_duplicates()) by {
                    assert forall|a: int, b: int|
                        0 <= a < self.keys@.len() && 0 <= b < self.keys@.len() && a
                            != b implies self.keys@[a] != self.keys@[b] by {
                        if a == before.keys@.len() {
                            assert(before.keys@.contains(before.keys@[b]));
                        } else if b == before.keys@.len() {
                            assert(before.keys@.contains(before.keys@[a]));
                        }
                    }
                }
            }
        }
    }
}

} // verus!
