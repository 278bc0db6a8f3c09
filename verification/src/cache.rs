//! The lookup cache: what each name was last resolved to.
//!
//! A name that is a key of the cache has been looked up; the value kept for
//! it is its resolved value, or `None` where the name is known to be absent.
//! A name that is no key has not been looked up yet.
//!
//! The names are kept in a hash map under a hash of their bytes, and the few
//! names that share a hash in a list of their own, each name once.

use std::collections::HashMap;
use vstd::prelude::*;
use vstd::std_specs::hash::*;
use crate::bytes::{copy_optional, optional, same_bytes};

verus! {

/// One remembered name with what it resolved to.
struct Entry {
    key: Vec<u8>,
    value: Option<Vec<u8>>,
}

/// Where the hash of a byte string starts from.
const BASIS: u64 = 0xcbf2_9ce4_8422_2325;

/// What the hash of a byte string is multiplied by after each byte.
const PRIME: u64 = 0x0000_0100_0000_01b3;

/// The hash of a byte string: each byte in turn is mixed in and the whole
/// multiplied, without regard to overflow.
spec fn hash_of(key: Seq<u8>) -> u64
    decreases key.len(),
{
    if key.len() == 0 {
        BASIS
    } else {
        (hash_of(key.drop_last()) ^ (key.last() as u64)).wrapping_mul(PRIME)
    }
}

/// Computes the hash of a byte string.
fn hash(key: &[u8]) -> (h: u64)
    ensures
        h == hash_of(key@),
{
    let mut h: u64 = BASIS;
    let mut i: usize = 0;
    while i < key.len()
        invariant
            i <= key@.len(),
            h == hash_of(key@.take(i as int)),
        decreases key@.len() - i,
    {
        assert(key@.take(i + 1).drop_last() =~= key@.take(i as int));
        h = (h ^ (key[i] as u64)).wrapping_mul(PRIME);
        i = i + 1;
    }
    assert(key@.take(i as int) =~= key@);
    h
}

/// Whether the entry at `at` is the one kept for `key`.
spec fn kept_at(entries: Seq<Entry>, key: Seq<u8>, at: int) -> bool {
    0 <= at < entries.len() && entries[at].key@ == key
}

/// No two entries are kept for the same key.
spec fn distinct(entries: Seq<Entry>) -> bool {
    forall|i: int, j: int|
        0 <= i < entries.len() && 0 <= j < entries.len() && i != j ==> #[trigger] entries[i].key@
            != #[trigger] entries[j].key@
}

/// Every entry is kept for a key with this hash.
spec fn housed(entries: Seq<Entry>, h: u64) -> bool {
    forall|i: int| 0 <= i < entries.len() ==> hash_of(#[trigger] entries[i].key@) == h
}

/// The mapping that a list of entries stands for.
spec fn mapping(entries: Seq<Entry>) -> Map<Seq<u8>, Option<Seq<u8>>> {
    Map::new(
        |key: Seq<u8>| exists|at: int| kept_at(entries, key, at),
        |key: Seq<u8>| optional(entries[choose|at: int| kept_at(entries, key, at)].value),
    )
}

/// Where keys are distinct, the entry found for a key is the one the mapping
/// speaks of.
proof fn lemma_mapping_at(entries: Seq<Entry>, at: int)
    requires
        distinct(entries),
        0 <= at < entries.len(),
    ensures
        mapping(entries).contains_key(entries[at].key@),
        mapping(entries)[entries[at].key@] == optional(entries[at].value),
{
    let key = entries[at].key@;
    assert(kept_at(entries, key, at));
    let chosen = choose|i: int| kept_at(entries, key, i);
    assert(kept_at(entries, key, chosen));
    assert(chosen == at);
}

/// Replacing the value of the entry kept for a key writes that key in the
/// mapping and keeps the keys distinct.
proof fn lemma_replaced(before: Seq<Entry>, after: Seq<Entry>, at: int)
    requires
        distinct(before),
        0 <= at < before.len(),
        after == before.update(at, after[at]),
        after[at].key@ == before[at].key@,
    ensures
        distinct(after),
        mapping(after) == mapping(before).insert(after[at].key@, optional(after[at].value)),
{
    let key = after[at].key@;
    assert forall|i: int, j: int|
        0 <= i < after.len() && 0 <= j < after.len() && i != j implies #[trigger] after[i].key@
        != #[trigger] after[j].key@ by {
        assert(after[i].key@ == before[i].key@);
        assert(after[j].key@ == before[j].key@);
    }
    let target = mapping(before).insert(key, optional(after[at].value));
    assert forall|k: Seq<u8>| mapping(after).contains_key(k) <==> target.contains_key(k) by {
        if mapping(after).contains_key(k) {
            let i = choose|i: int| kept_at(after, k, i);
            assert(kept_at(before, k, i));
        }
        if target.contains_key(k) && k != key {
            let i = choose|i: int| kept_at(before, k, i);
            assert(kept_at(after, k, i));
        }
        if k == key {
            assert(kept_at(after, k, at));
        }
    }
    assert forall|k: Seq<u8>| mapping(after).contains_key(k) implies mapping(after)[k]
        == target[k] by {
        let i = choose|i: int| kept_at(after, k, i);
        assert(kept_at(after, k, i));
        lemma_mapping_at(after, i);
        if k != key {
            assert(i != at);
            assert(kept_at(before, k, i));
            lemma_mapping_at(before, i);
        } else {
            assert(i == at);
        }
    }
    assert(mapping(after) =~= target);
}

/// Appending an entry for a key that no entry is kept for writes that key in
/// the mapping and keeps the keys distinct.
proof fn lemma_appended(before: Seq<Entry>, after: Seq<Entry>)
    requires
        distinct(before),
        after.len() == before.len() + 1,
        after.drop_last() == before,
        forall|j: int| 0 <= j < before.len() ==> before[j].key@ != after.last().key@,
    ensures
        distinct(after),
        mapping(after) == mapping(before).insert(after.last().key@, optional(after.last().value)),
{
    let last = after.len() - 1;
    let key = after[last].key@;
    assert forall|i: int| 0 <= i < before.len() implies after[i] == before[i] by {
        assert(after.drop_last()[i] == after[i]);
    }
    assert forall|i: int, j: int|
        0 <= i < after.len() && 0 <= j < after.len() && i != j implies #[trigger] after[i].key@
        != #[trigger] after[j].key@ by {
        if i < last && j < last {
            assert(before[i].key@ != before[j].key@);
        }
    }
    let target = mapping(before).insert(key, optional(after[last].value));
    assert forall|k: Seq<u8>| mapping(after).contains_key(k) <==> target.contains_key(k) by {
        if mapping(after).contains_key(k) && k != key {
            let i = choose|i: int| kept_at(after, k, i);
            assert(kept_at(before, k, i));
        }
        if target.contains_key(k) && k != key {
            let i = choose|i: int| kept_at(before, k, i);
            assert(kept_at(after, k, i));
        }
        if k == key {
            assert(kept_at(after, k, last));
        }
    }
    assert forall|k: Seq<u8>| mapping(after).contains_key(k) implies mapping(after)[k]
        == target[k] by {
        let i = choose|i: int| kept_at(after, k, i);
        assert(kept_at(after, k, i));
        lemma_mapping_at(after, i);
        if k != key {
            assert(kept_at(before, k, i));
            lemma_mapping_at(before, i);
        } else {
            assert(i == last);
        }
    }
    assert(mapping(after) =~= target);
}

/// What a list of entries keeps for `name`.
fn find(entries: &Vec<Entry>, name: &[u8]) -> (r: Option<Option<Vec<u8>>>)
    requires
        distinct(entries@),
    ensures
        r is Some == mapping(entries@).contains_key(name@),
        r matches Some(value) ==> optional(value) == mapping(entries@)[name@],
{
    let mut i: usize = 0;
    while i < entries.len()
        invariant
            i <= entries@.len(),
            distinct(entries@),
            forall|j: int| 0 <= j < i ==> entries@[j].key@ != name@,
        decreases entries@.len() - i,
    {
        if same_bytes(entries[i].key.as_slice(), name) {
            proof {
                lemma_mapping_at(entries@, i as int);
            }
            return Some(copy_optional(&entries[i].value));
        }
        i = i + 1;
    }
    assert(!mapping(entries@).contains_key(name@)) by {
        if exists|at: int| kept_at(entries@, name@, at) {
            let at = choose|at: int| kept_at(entries@, name@, at);
            assert(entries@[at].key@ != name@);
        }
    }
    None
}

/// Keeps `value` for `key` in a list of entries, in place of what was kept
/// for it before.
fn put(entries: &mut Vec<Entry>, key: Vec<u8>, value: Option<Vec<u8>>)
    requires
        distinct(old(entries)@),
    ensures
        distinct(final(entries)@),
        final(entries)@.len() > 0,
        mapping(final(entries)@) == mapping(old(entries)@).insert(key@, optional(value)),
        housed(old(entries)@, hash_of(key@)) ==> housed(final(entries)@, hash_of(key@)),
{
    let ghost before = entries@;
    let mut i: usize = 0;
    while i < entries.len()
        invariant
            i <= entries@.len(),
            entries@ == before,
            before == old(entries)@,
            distinct(before),
            forall|j: int| 0 <= j < i ==> entries@[j].key@ != key@,
        decreases entries@.len() - i,
    {
        if same_bytes(entries[i].key.as_slice(), key.as_slice()) {
            entries[i] = Entry { key, value };
            proof {
                lemma_replaced(before, entries@, i as int);
                assert forall|j: int| 0 <= j < entries@.len() implies #[trigger] entries@[j].key@
                    == before[j].key@ by {}
            }
            return;
        }
        i = i + 1;
    }
    entries.push(Entry { key, value });
    proof {
        assert(entries@.drop_last() =~= before);
        lemma_appended(before, entries@);
        assert forall|j: int| 0 <= j < before.len() implies entries@[j] == before[j] by {
            assert(entries@.drop_last()[j] == entries@[j]);
        }
    }
}

/// Every list holds an entry, holds no key twice, and holds keys of its own
/// hash only.
spec fn sound(buckets: Map<u64, Vec<Entry>>) -> bool {
    forall|h: u64| #[trigger]
        buckets.contains_key(h) ==> buckets[h]@.len() > 0 && distinct(buckets[h]@) && housed(
            buckets[h]@,
            h,
        )
}

/// The mapping that the lists stand for together.
spec fn held(buckets: Map<u64, Vec<Entry>>) -> Map<Seq<u8>, Option<Seq<u8>>> {
    Map::new(
        |key: Seq<u8>|
            buckets.contains_key(hash_of(key)) && mapping(buckets[hash_of(key)]@).contains_key(key),
        |key: Seq<u8>| mapping(buckets[hash_of(key)]@)[key],
    )
}

/// The mapping that the list under `h` stands for, if there is one.
spec fn housed_mapping(buckets: Map<u64, Vec<Entry>>, h: u64) -> Map<Seq<u8>, Option<Seq<u8>>> {
    if buckets.contains_key(h) {
        mapping(buckets[h]@)
    } else {
        Map::empty()
    }
}

/// Writing a key in the list under its hash writes it in the mapping that the
/// lists stand for together.
proof fn lemma_written(
    before: Map<u64, Vec<Entry>>,
    after: Map<u64, Vec<Entry>>,
    key: Seq<u8>,
    value: Option<Seq<u8>>,
)
    requires
        sound(before),
        after.dom() == before.dom().insert(hash_of(key)),
        forall|g: u64| g != hash_of(key) && before.contains_key(g) ==> after[g] == before[g],
        after[hash_of(key)]@.len() > 0,
        distinct(after[hash_of(key)]@),
        housed(after[hash_of(key)]@, hash_of(key)),
        mapping(after[hash_of(key)]@) == housed_mapping(before, hash_of(key)).insert(key, value),
    ensures
        sound(after),
        held(after) == held(before).insert(key, value),
{
    let h = hash_of(key);
    assert forall|g: u64| #[trigger] after.contains_key(g) implies after[g]@.len() > 0 && distinct(
        after[g]@,
    ) && housed(after[g]@, g) by {
        if g != h {
            assert(before.contains_key(g));
        }
    }
    let target = held(before).insert(key, value);
    assert forall|k: Seq<u8>| held(after).contains_key(k) <==> target.contains_key(k) by {
        if hash_of(k) != h {
            assert(after.contains_key(hash_of(k)) <==> before.contains_key(hash_of(k)));
        }
    }
    assert forall|k: Seq<u8>| held(after).contains_key(k) implies held(after)[k] == target[k] by {
        if hash_of(k) != h {
            assert(before.contains_key(hash_of(k)));
        }
    }
    assert(held(after) =~= target);
}

/// A mapping from byte-string names to optional byte-string values, each name
/// kept at most once.
pub struct Cache {
    buckets: HashMap<u64, Vec<Entry>>,
}

impl View for Cache {
    type V = Map<Seq<u8>, Option<Seq<u8>>>;

    closed spec fn view(&self) -> Map<Seq<u8>, Option<Seq<u8>>> {
        held(self.buckets@)
    }
}

impl Cache {
    #[verifier::type_invariant]
    spec fn well_formed(self) -> bool {
        sound(self.buckets@)
    }

    /// A cache that has seen no lookup.
    pub fn new() -> (cache: Cache)
        ensures
            cache@ == Map::<Seq<u8>, Option<Seq<u8>>>::empty(),
    {
        let cache = Cache { buckets: HashMap::new() };
        assert(cache@ =~= Map::<Seq<u8>, Option<Seq<u8>>>::empty());
        cache
    }

    /// Whether no name is cached.
    pub fn is_empty(&self) -> (r: bool)
        ensures
            r == (self@ == Map::<Seq<u8>, Option<Seq<u8>>>::empty()),
    {
        proof {
            use_type_invariant(self);
        }
        let r = self.buckets.is_empty();
        proof {
            if r {
                assert(self@ =~= Map::<Seq<u8>, Option<Seq<u8>>>::empty());
            } else {
                let h = choose|h: u64| self.buckets@.dom().contains(h);
                assert(self.buckets@.contains_key(h));
                let entries = self.buckets@[h]@;
                assert(hash_of(entries[0].key@) == h);
                lemma_mapping_at(entries, 0);
                assert(self@.contains_key(entries[0].key@));
            }
        }
        r
    }

    /// What is cached for `name`: `None` where the name has not been looked
    /// up, `Some(None)` where it is known to be absent, `Some(Some(value))`
    /// where it resolved to `value`.
    pub fn get(&self, name: &[u8]) -> (r: Option<Option<Vec<u8>>>)
        ensures
            r is Some == self@.contains_key(name@),
            r matches Some(value) ==> optional(value) == self@[name@],
    {
        broadcast use group_hash_axioms;

        proof {
            use_type_invariant(self);
        }
        let h = hash(name);
        match self.buckets.get(&h) {
            Some(entries) => find(entries, name),
            None => None,
        }
    }

    /// Caches `value` for `key`, in place of what was cached for it before.
    pub fn insert(&mut self, key: Vec<u8>, value: Option<Vec<u8>>)
        ensures
            final(self)@ == old(self)@.insert(key@, optional(value)),
    {
        broadcast use group_hash_axioms;

        proof {
            use_type_invariant(&*self);
        }
        let ghost name = key@;
        let ghost kept = optional(value);
        let h = hash(key.as_slice());
        let mut buckets: HashMap<u64, Vec<Entry>> = HashMap::new();
        core::mem::swap(&mut buckets, &mut self.buckets);
        let ghost before = buckets@;
        let mut entries = match buckets.remove(&h) {
            Some(entries) => entries,
            None => Vec::new(),
        };
        assert(mapping(entries@) =~= housed_mapping(before, h));
        put(&mut entries, key, value);
        buckets.insert(h, entries);
        proof {
            assert(buckets@.dom() =~= before.dom().insert(h));
            lemma_written(before, buckets@, name, kept);
        }
        self.buckets = buckets;
    }

    /// Forgets every cached name.
    pub fn clear(&mut self)
        ensures
            final(self)@ == Map::<Seq<u8>, Option<Seq<u8>>>::empty(),
    {
        self.buckets = HashMap::new();
        assert(self@ =~= Map::<Seq<u8>, Option<Seq<u8>>>::empty());
    }
}

} // verus!
