//! The map shared by the case-insensitive maps: entries are found by the folded bytes of
//! their keys.
use vstd::prelude::*;
use vstd::utf8::encode_utf8;
use crate::source::{ByteSource, TextSource};
use crate::ascii::{self, upper_bytes, uppercase_bytes};
use crate::unicode::{fold_chars, folded_utf8};
use crate::case_fold::CaseFold;

verus! {

/// Keys of a case-insensitive map: two keys are the same key exactly when their folded
/// bytes are equal.
pub trait FoldKey {
    /// The folded bytes of the key.
    spec fn key_bytes(&self) -> Seq<u8>;

    /// Computes the folded bytes of the key.
    fn folded_bytes(&self) -> (r: Vec<u8>)
        ensures
            r@ == self.key_bytes(),
    ;
}

impl<S: ByteSource> FoldKey for ascii::CaseFold<S> {
    open spec fn key_bytes(&self) -> Seq<u8> {
        upper_bytes(self@)
    }

    fn folded_bytes(&self) -> (r: Vec<u8>) {
        self.caseless_iter()
    }
}

impl<S: TextSource> FoldKey for CaseFold<S> {
    open spec fn key_bytes(&self) -> Seq<u8> {
        encode_utf8(fold_chars(self@))
    }

    fn folded_bytes(&self) -> (r: Vec<u8>) {
        folded_utf8(self.as_str())
    }
}

/// The entries of a map after `value` is inserted under `key`: a key with the same folded
/// bytes keeps its place and gets the new value, otherwise the pair is added.
pub open spec fn entries_after_insert<K: FoldKey, V>(
    m: Map<Seq<u8>, (K, V)>,
    key: K,
    value: V,
) -> Map<Seq<u8>, (K, V)> {
    if m.contains_key(key.key_bytes()) {
        m.insert(key.key_bytes(), (m[key.key_bytes()].0, value))
    } else {
        m.insert(key.key_bytes(), (key, value))
    }
}

/// The entries of a map after each pair is inserted in turn, each key wrapped by `wrap`.
pub open spec fn entries_after_inserts<K0, K: FoldKey, V>(
    m: Map<Seq<u8>, (K, V)>,
    pairs: Seq<(K0, V)>,
    wrap: spec_fn(K0) -> K,
) -> Map<Seq<u8>, (K, V)>
    decreases pairs.len(),
{
    if pairs.len() == 0 {
        m
    } else {
        entries_after_insert(
            entries_after_inserts(m, pairs.drop_last(), wrap),
            wrap(pairs.last().0),
            pairs.last().1,
        )
    }
}

/// A read after a write: after `value` is inserted under `key`, every key with the same
/// folded bytes finds `value` (under the key first inserted, when one was there), and every
/// other key finds what it found before.
pub proof fn law_get_after_insert<K: FoldKey, V>(
    m: Map<Seq<u8>, (K, V)>,
    key: K,
    value: V,
    q: Seq<u8>,
)
    ensures
        q == key.key_bytes() ==> {
            &&& entries_after_insert(m, key, value).contains_key(q)
            &&& entries_after_insert(m, key, value)[q].1 == value
            &&& entries_after_insert(m, key, value)[q].0 == (if m.contains_key(q) {
                m[q].0
            } else {
                key
            })
        },
        q != key.key_bytes() ==> {
            &&& entries_after_insert(m, key, value).contains_key(q) == m.contains_key(q)
            &&& m.contains_key(q) ==> entries_after_insert(m, key, value)[q] == m[q]
        },
{
}

/// A read after a removal: the removed key is gone and every other key finds what it found
/// before.
pub proof fn law_get_after_remove<K: FoldKey, V>(m: Map<Seq<u8>, (K, V)>, k: Seq<u8>, q: Seq<u8>)
    ensures
        !m.remove(k).contains_key(k),
        q != k ==> m.remove(k).contains_key(q) == m.contains_key(q),
        q != k && m.contains_key(q) ==> m.remove(k)[q] == m[q],
{
}

/// A `hashbrown::HashMap` from the folded bytes of a key to the position of its entry.
#[verifier::external_body]
pub struct FoldIndex {
    table: hashbrown::HashMap<Vec<u8>, usize>,
}

/// The pairs that a `FoldIndex` holds, each key taken by its bytes.
pub uninterp spec fn index_contents(index: FoldIndex) -> Map<Seq<u8>, usize>;

impl FoldIndex {
    /// Calls `hashbrown::HashMap::new`: the map holds nothing.
    #[verifier::external_body]
    fn new() -> (index: FoldIndex)
        ensures
            index_contents(index) =~= Map::empty(),
    {
        FoldIndex { table: hashbrown::HashMap::new() }
    }

    /// Calls `hashbrown::HashMap::try_reserve`: room for `additional` more entries is
    /// reserved when the table's size does not overflow and the allocator gives the memory;
    /// otherwise hashbrown returns an error (dropped here) instead of panicking. What the map
    /// holds does not change; what is reserved is not stated.
    #[verifier::external_body]
    fn try_reserve(&mut self, additional: usize)
        ensures
            index_contents(*final(self)) == index_contents(*old(self)),
    {
        let _ = self.table.try_reserve(additional);
    }

    /// Calls `hashbrown::HashMap::get` and copies out the position found. It does not
    /// unwind: hashing a byte slice and probing the table panic nowhere in hashbrown's source,
    /// and nothing is allocated.
    #[verifier::external_body]
    fn get(&self, key: &[u8]) -> (r: Option<usize>)
        ensures
            r == (if index_contents(*self).contains_key(key@) {
                Some(index_contents(*self)[key@])
            } else {
                None
            }),
        no_unwind
    {
        self.table.get(key).copied()
    }

    /// Calls `hashbrown::HashMap::insert`: the key now maps to `pos`, and the position it
    /// mapped to before, if any, is returned.
    #[verifier::external_body]
    fn insert(&mut self, key: Vec<u8>, pos: usize) -> (r: Option<usize>)
        ensures
            index_contents(*final(self)) == index_contents(*old(self)).insert(key@, pos),
            r == (if index_contents(*old(self)).contains_key(key@) {
                Some(index_contents(*old(self))[key@])
            } else {
                None
            }),
    {
        self.table.insert(key, pos)
    }

    /// Calls `hashbrown::HashMap::remove`: the key no longer maps to anything, and the
    /// position it mapped to, if any, is returned.
    #[verifier::external_body]
    fn remove(&mut self, key: &[u8]) -> (r: Option<usize>)
        ensures
            index_contents(*final(self)) == index_contents(*old(self)).remove(key@),
            r == (if index_contents(*old(self)).contains_key(key@) {
                Some(index_contents(*old(self))[key@])
            } else {
                None
            }),
    {
        self.table.remove(key)
    }
}

/// A map whose keys are told apart by their folded bytes. Entries sit in two parallel
/// lists; the index finds the position of a key's entry.
pub struct FoldMap<K, V> {
    index: FoldIndex,
    keys: Vec<K>,
    values: Vec<V>,
}

impl<K: FoldKey, V> FoldMap<K, V> {
    /// Where the entry of each folded key sits.
    pub closed spec fn slots(&self) -> Map<Seq<u8>, usize> {
        index_contents(self.index)
    }

    /// The index and the entry lists agree: each entry is found at its position under the
    /// folded bytes of its key, and the index holds nothing else.
    pub closed spec fn wf(&self) -> bool {
        &&& self.keys@.len() == self.values@.len()
        &&& forall|i: int|
            0 <= i < self.keys@.len() ==> {
                &&& self.slots().contains_key(#[trigger] self.keys@[i].key_bytes())
                &&& self.slots()[self.keys@[i].key_bytes()] == i
            }
        &&& forall|k: Seq<u8>|
            #[trigger] self.slots().contains_key(k) ==> {
                &&& self.slots()[k] < self.keys@.len()
                &&& self.keys@[self.slots()[k] as int].key_bytes() == k
            }
    }

    /// The number of entries.
    pub closed spec fn spec_len(&self) -> nat {
        self.keys@.len()
    }

    /// The entries: for the folded bytes of each key, the key as it was first inserted and
    /// its value.
    pub closed spec fn entries(&self) -> Map<Seq<u8>, (K, V)> {
        Map::new(
            |k: Seq<u8>| self.slots().contains_key(k),
            |k: Seq<u8>| (self.keys@[self.slots()[k] as int], self.values@[self.slots()[k] as int]),
        )
    }

    /// The number of entries is the number of folded keys the map holds.
    pub proof fn lemma_len_is_dom_len(&self)
        requires
            self.wf(),
        ensures
            self.entries().dom().finite(),
            self.entries().dom().len() == self.spec_len(),
    {
        let ks = self.keys@.map_values(|k: K| k.key_bytes());
        assert forall|i: int, j: int|
            0 <= i < ks.len() && 0 <= j < ks.len() && i != j implies ks[i] != ks[j] by {
            assert(self.slots()[self.keys@[i].key_bytes()] == i);
            assert(self.slots()[self.keys@[j].key_bytes()] == j);
        }
        assert(ks.no_duplicates());
        ks.unique_seq_to_set();
        vstd::seq_lib::seq_to_set_is_finite(ks);
        assert forall|k: Seq<u8>| #[trigger] self.entries().dom().contains(k) == ks.to_set().contains(k) by {
            if self.entries().dom().contains(k) {
                let p = self.slots()[k] as int;
                assert(ks[p] == k);
            }
            if ks.to_set().contains(k) {
                let i = choose|i: int| 0 <= i < ks.len() && ks[i] == k;
                assert(self.slots().contains_key(self.keys@[i].key_bytes()));
            }
        }
        assert(self.entries().dom() =~= ks.to_set());
    }

    /// An empty map.
    pub fn new() -> (r: Self)
        ensures
            r.wf(),
            r.entries() == Map::<Seq<u8>, (K, V)>::empty(),
            r.spec_len() == 0,
    {
        let r = FoldMap { index: FoldIndex::new(), keys: Vec::new(), values: Vec::new() };
        assert(r.entries() =~= Map::<Seq<u8>, (K, V)>::empty());
        r
    }

    /// An empty map with room reserved for `capacity` entries, as far as the table's size
    /// does not overflow and the allocator gives the memory.
    pub fn with_capacity(capacity: usize) -> (r: Self)
        ensures
            r.wf(),
            r.entries() == Map::<Seq<u8>, (K, V)>::empty(),
            r.spec_len() == 0,
    {
        let mut r = FoldMap { index: FoldIndex::new(), keys: Vec::new(), values: Vec::new() };
        r.index.try_reserve(capacity);
        let _ = r.keys.try_reserve(capacity);
        let _ = r.values.try_reserve(capacity);
        assert(r.entries() =~= Map::<Seq<u8>, (K, V)>::empty());
        r
    }

    /// The number of entries.
    pub fn len(&self) -> (r: usize)
        requires
            self.wf(),
        ensures
            r == self.spec_len(),
            r == self.entries().dom().len(),
    {
        proof {
            self.lemma_len_is_dom_len();
        }
        self.keys.len()
    }

    /// The position of the entry whose key folds to `key`.
    fn position(&self, key: &[u8]) -> (r: Option<usize>)
        requires
            self.wf(),
        ensures
            r == (if self.slots().contains_key(key@) {
                Some(self.slots()[key@])
            } else {
                None
            }),
            r matches Some(i) ==> i < self.spec_len(),
        no_unwind
    {
        let r = self.index.get(key);
        proof {
            if self.slots().contains_key(key@) {
                assert(self.slots()[key@] < self.keys@.len());
            }
        }
        r
    }

    /// The value of the entry whose key folds to `key`.
    pub fn get(&self, key: &[u8]) -> (r: Option<&V>)
        requires
            self.wf(),
        ensures
            r == (if self.entries().contains_key(key@) {
                Some(&self.entries()[key@].1)
            } else {
                None
            }),
    {
        match self.position(key) {
            Some(i) => Some(&self.values[i]),
            None => None,
        }
    }

    /// The key and value of the entry whose key folds to `key`.
    pub fn get_key_value(&self, key: &[u8]) -> (r: Option<(&K, &V)>)
        requires
            self.wf(),
        ensures
            r == (if self.entries().contains_key(key@) {
                Some((&self.entries()[key@].0, &self.entries()[key@].1))
            } else {
                None
            }),
    {
        match self.position(key) {
            Some(i) => Some((&self.keys[i], &self.values[i])),
            None => None,
        }
    }

    /// A mutable borrow of the value of the entry whose key folds to `key`; what is written
    /// through it becomes that entry's value.
    pub fn get_mut(&mut self, key: &[u8]) -> (r: Option<&mut V>)
        requires
            old(self).wf(),
        ensures
            final(self).wf(),
            final(self).spec_len() == old(self).spec_len(),
            r is Some == old(self).entries().contains_key(key@),
            r matches Some(v) ==> {
                &&& *v == old(self).entries()[key@].1
                &&& final(self).entries() == old(self).entries().insert(
                    key@,
                    (old(self).entries()[key@].0, *final(v)),
                )
            },
            r is None ==> final(self).entries() == old(self).entries(),
        no_unwind
    {
        match self.position(key) {
            Some(i) => Some(&mut self.values[i]),
            None => None,
        }
    }

    /// Whether some key folds to `key`.
    pub fn contains_key(&self, key: &[u8]) -> (r: bool)
        requires
            self.wf(),
        ensures
            r == self.entries().contains_key(key@),
    {
        self.position(key).is_some()
    }

    /// Whether no entry is there.
    pub fn is_empty(&self) -> (r: bool)
        requires
            self.wf(),
        ensures
            r == (self.spec_len() == 0),
            r == (self.entries() == Map::<Seq<u8>, (K, V)>::empty()),
    {
        if self.keys.len() == 0 {
            assert(self.entries() =~= Map::<Seq<u8>, (K, V)>::empty());
            true
        } else {
            assert(self.entries().contains_key(self.keys@[0].key_bytes()));
            false
        }
    }

    /// Borrows of each entry's key and value, every entry once, in no particular order.
    pub fn iter(&self) -> (r: Vec<(&K, &V)>)
        requires
            self.wf(),
        ensures
            r@.len() == self.spec_len(),
            forall|i: int|
                0 <= i < r@.len() ==> {
                    &&& self.entries().contains_key(#[trigger] r@[i].0.key_bytes())
                    &&& self.entries()[r@[i].0.key_bytes()] == (*r@[i].0, *r@[i].1)
                },
            forall|k: Seq<u8>|
                #[trigger] self.entries().contains_key(k) ==> exists|i: int|
                    0 <= i < r@.len() && r@[i].0.key_bytes() == k,
    {
        let mut r: Vec<(&K, &V)> = Vec::new();
        for i in 0..self.keys.len()
            invariant
                self.wf(),
                r@.len() == i,
                forall|j: int| 0 <= j < i ==> *(#[trigger] r@[j]).0 == self.keys@[j] && *r@[j].1 == self.values@[j],
        {
            r.push((&self.keys[i], &self.values[i]));
        }
        proof {
            assert forall|i: int| 0 <= i < r@.len() implies {
                &&& self.entries().contains_key(#[trigger] r@[i].0.key_bytes())
                &&& self.entries()[r@[i].0.key_bytes()] == (*r@[i].0, *r@[i].1)
            } by {
                assert(*r@[i].0 == self.keys@[i]);
                assert(self.slots()[self.keys@[i].key_bytes()] == i);
            }
            assert forall|k: Seq<u8>| #[trigger] self.entries().contains_key(k) implies exists|i: int|
                0 <= i < r@.len() && r@[i].0.key_bytes() == k by {
                let p = self.slots()[k] as int;
                assert(*r@[p].0 == self.keys@[p]);
            }
        }
        r
    }

    /// The keys and the values, in the same (unspecified) order: the entry of a key and the
    /// value at the same position are those of one entry, and every entry is there once.
    pub fn into_parts(self) -> (r: (Vec<K>, Vec<V>))
        requires
            self.wf(),
        ensures
            r.0@.len() == self.spec_len(),
            r.1@.len() == self.spec_len(),
            forall|i: int|
                0 <= i < r.0@.len() ==> {
                    &&& self.entries().contains_key(#[trigger] r.0@[i].key_bytes())
                    &&& self.entries()[r.0@[i].key_bytes()] == (r.0@[i], r.1@[i])
                },
            forall|k: Seq<u8>|
                #[trigger] self.entries().contains_key(k) ==> exists|i: int|
                    0 <= i < r.0@.len() && r.0@[i].key_bytes() == k,
            forall|i: int, j: int|
                0 <= i < j < r.0@.len() ==> r.0@[i].key_bytes() != r.0@[j].key_bytes(),
    {
        proof {
            assert forall|k: Seq<u8>| #[trigger] self.entries().contains_key(k) implies exists|i: int|
                0 <= i < self.keys@.len() && self.keys@[i].key_bytes() == k by {
                let p = self.slots()[k] as int;
                assert(self.keys@[p].key_bytes() == k);
            }
            assert forall|i: int, j: int|
                0 <= i < j < self.keys@.len() implies self.keys@[i].key_bytes()
                != self.keys@[j].key_bytes() by {
                assert(self.slots()[self.keys@[i].key_bytes()] == i);
                assert(self.slots()[self.keys@[j].key_bytes()] == j);
            }
        }
        (self.keys, self.values)
    }

    /// Inserts `value` under `key`. When a key with the same folded bytes is there, its value
    /// is replaced and returned, and the key already there stays.
    pub fn insert(&mut self, key: K, value: V) -> (r: Option<V>)
        requires
            old(self).wf(),
        ensures
            final(self).wf(),
            old(self).entries().contains_key(key.key_bytes()) ==> {
                &&& r == Some(old(self).entries()[key.key_bytes()].1)
                &&& final(self).entries() == old(self).entries().insert(
                    key.key_bytes(),
                    (old(self).entries()[key.key_bytes()].0, value),
                )
                &&& final(self).spec_len() == old(self).spec_len()
            },
            !old(self).entries().contains_key(key.key_bytes()) ==> {
                &&& r is None
                &&& final(self).entries() == old(self).entries().insert(
                    key.key_bytes(),
                    (key, value),
                )
                &&& final(self).spec_len() == old(self).spec_len() + 1
            },
    {
        let folded = key.folded_bytes();
        match self.position(folded.as_slice()) {
            Some(i) => {
                let ghost kb = key.key_bytes();
                let mut old_value = value;
                std::mem::swap(&mut self.values[i], &mut old_value);
                assert(self.entries() =~= old(self).entries().insert(
                    kb,
                    (old(self).entries()[kb].0, value),
                ));
                Some(old_value)
            },
            None => {
                let ghost kb = key.key_bytes();
                let pos = self.keys.len();
                self.keys.push(key);
                self.values.push(value);
                self.index.insert(folded, pos);
                assert forall|i: int| 0 <= i < self.keys@.len() implies {
                    &&& self.slots().contains_key(#[trigger] self.keys@[i].key_bytes())
                    &&& self.slots()[self.keys@[i].key_bytes()] == i
                } by {
                    if i < pos {
                        assert(self.keys@[i] == old(self).keys@[i]);
                    }
                }
                assert(self.entries() =~= old(self).entries().insert(kb, (key, value)));
                None
            },
        }
    }

    /// Removes the entry whose key folds to `key` and returns its key and value.
    pub fn remove_entry(&mut self, key: &[u8]) -> (r: Option<(K, V)>)
        requires
            old(self).wf(),
        ensures
            final(self).wf(),
            final(self).entries() == old(self).entries().remove(key@),
            r == (if old(self).entries().contains_key(key@) {
                Some(old(self).entries()[key@])
            } else {
                None
            }),
            final(self).spec_len() == old(self).spec_len() - (if old(self).entries().contains_key(
                key@,
            ) {
                1int
            } else {
                0int
            }),
    {
        proof {
            if self.slots().contains_key(key@) {
                assert(self.slots()[key@] < self.keys@.len());
            }
        }
        match self.index.remove(key) {
            None => {
                assert(self.entries() =~= old(self).entries().remove(key@));
                None
            },
            Some(i) => {
                let ghost old_keys = self.keys@;
                let ghost old_values = self.values@;
                let last = self.keys.len() - 1;
                let k = self.keys.swap_remove(i);
                let v = self.values.swap_remove(i);
                if i < last {
                    let moved = self.keys[i].folded_bytes();
                    self.index.insert(moved, i);
                }
                assert forall|j: int| 0 <= j < self.keys@.len() implies {
                    &&& self.slots().contains_key(#[trigger] self.keys@[j].key_bytes())
                    &&& self.slots()[self.keys@[j].key_bytes()] == j
                } by {
                    if j == i {
                        assert(self.keys@[j] == old_keys[last as int]);
                    } else {
                        assert(self.keys@[j] == old_keys[j]);
                        assert(old(self).slots()[old_keys[j].key_bytes()] == j);
                    }
                }
                assert forall|kk: Seq<u8>| #[trigger] self.slots().contains_key(kk) implies {
                    &&& self.slots()[kk] < self.keys@.len()
                    &&& self.keys@[self.slots()[kk] as int].key_bytes() == kk
                } by {
                    if i < last && kk == old_keys[last as int].key_bytes() {
                    } else {
                        let p = old(self).slots()[kk];
                        assert(p != i);
                        if p == last {
                            assert(old_keys[last as int].key_bytes() == kk);
                        }
                    }
                }
                assert(self.entries() =~= old(self).entries().remove(key@)) by {
                    assert forall|kk: Seq<u8>| #[trigger] self.entries().contains_key(kk) implies
                        self.entries()[kk] == old(self).entries().remove(key@)[kk] by {
                        let p = old(self).slots()[kk];
                        if i < last && kk == old_keys[last as int].key_bytes() {
                            assert(p == last);
                        }
                    }
                }
                Some((k, v))
            },
        }
    }
}

} // verus!
