//! A case-insensitive string that takes the ASCII path when it can.
use vstd::prelude::*;
use vstd::std_specs::cmp::PartialEqSpec;
use std::hash::DefaultHasher;
use vstd::utf8::{encode_utf8, is_ascii_chars};
use crate::source::TextSource;
use crate::hashing::{writes_view, write_all};
use crate::ascii;
use crate::unicode::{self, fold_chars, unicode_hash_chunks, folded_utf8};
use crate::map::{FoldKey, FoldMap, entries_after_insert, entries_after_inserts};
use crate::laws::{law_ascii_hash_agrees_with_unicode, law_ascii_eq_agrees_with_unicode};

verus! {

/// A string that compares, orders and hashes as its Unicode upper-case form. It records
/// whether the text is ASCII, and when it is (on both sides of a comparison) it works on
/// bytes, with the same results.
#[derive(Debug)]
pub struct CaseFold<S: TextSource> {
    inner: S,
    ascii: bool,
}

impl<S: TextSource> CaseFold<S> {
    /// The wrapped value.
    pub closed spec fn inner(self) -> S {
        self.inner
    }

    /// Whether the value was found to be ASCII when it was wrapped.
    pub closed spec fn ascii_flag(self) -> bool {
        self.ascii
    }

    /// Borrows the wrapped value.
    pub fn get_ref(&self) -> (r: &S)
        ensures
            *r == self.inner(),
    {
        &self.inner
    }
}

impl<S: TextSource> CaseFold<S> {
    /// The flag is the ASCII-ness of the text.
    #[verifier::type_invariant]
    spec fn flag_matches_text(self) -> bool {
        self.ascii == is_ascii_chars(self.inner.text_view())
    }
}

impl<S: TextSource> core::ops::Deref for CaseFold<S> {
    type Target = S;

    fn deref(&self) -> (r: &S)
        ensures
            *r == self.inner(),
    {
        &self.inner
    }
}

impl<S: TextSource> From<S> for CaseFold<S> {
    fn from(s: S) -> (r: Self) {
        CaseFold::new(s)
    }
}

impl<S: TextSource> vstd::std_specs::convert::FromSpecImpl<S> for CaseFold<S> {
    open spec fn obeys_from_spec() -> bool {
        true
    }

    open spec fn from_spec(s: S) -> Self {
        CaseFold::wrap(s)
    }
}

impl<S: TextSource> View for CaseFold<S> {
    type V = Seq<char>;

    open spec fn view(&self) -> Seq<char> {
        self.inner().text_view()
    }
}

impl<S: TextSource> CaseFold<S> {
    /// The wrapper around `s`, with the flag set to whether `s` is ASCII.
    pub closed spec fn wrap(s: S) -> Self {
        CaseFold { inner: s, ascii: is_ascii_chars(s.text_view()) }
    }

    /// What is wrapped is what was given, and the flag tells whether it is ASCII.
    pub broadcast proof fn lemma_wrap_inner(s: S)
        ensures
            #[trigger] Self::wrap(s).inner() == s,
            Self::wrap(s).ascii_flag() == is_ascii_chars(s.text_view()),
    {
    }

    /// Wraps `s`, noting whether it is ASCII.
    pub fn new(s: S) -> (r: Self)
        ensures
            r == Self::wrap(s),
            r.inner() == s,
            r.ascii_flag() == is_ascii_chars(s.text_view()),
    {
        let ascii = s.as_text().is_ascii();
        CaseFold { inner: s, ascii }
    }

    /// Whether the text is ASCII.
    pub fn is_ascii(&self) -> (r: bool)
        ensures
            r == is_ascii_chars(self@),
            r == self.ascii_flag(),
    {
        proof {
            use_type_invariant(self);
        }
        self.ascii
    }

    /// Borrows the text.
    pub fn as_str(&self) -> (r: &str)
        ensures
            r@ == self@,
    {
        self.inner.as_text()
    }

    /// The text seen by the ASCII wrapper.
    pub fn as_ascii(&self) -> (r: ascii::CaseFold<&str>)
        ensures
            r@ == encode_utf8(self@),
    {
        ascii::CaseFold::new(self.inner.as_text())
    }

    /// The text seen by the Unicode wrapper.
    pub fn as_unicode(&self) -> (r: unicode::CaseFold<&str>)
        ensures
            r@ == self@,
    {
        unicode::CaseFold::new(self.inner.as_text())
    }

    /// The writes that hashing hands to a hasher, before the terminator byte `0xff`: those
    /// of the Unicode wrapper, whichever path is taken.
    pub fn hash_chunks(&self) -> (r: Vec<Vec<u8>>)
        ensures
            writes_view(r@) == unicode_hash_chunks(self@),
            (r@.len() == 0) == (self@.len() == 0),
    {
        proof {
            unicode::lemma_encode_utf8_empty(self@);
        }
        proof {
            use_type_invariant(self);
        }
        if self.ascii {
            proof {
                law_ascii_hash_agrees_with_unicode(self@);
            }
            self.as_ascii().hash_chunks()
        } else {
            self.as_unicode().hash_chunks()
        }
    }

    /// Feeds the value to a `DefaultHasher`: its writes, then the terminator byte `0xff`,
    /// as the Unicode wrapper does.
    pub fn hash_into(&self, state: &mut DefaultHasher)
        ensures
            final(state)@ == old(state)@ + unicode_hash_chunks(self@) + seq![seq![0xffu8]],
    {
        proof {
            use_type_invariant(self);
        }
        if self.ascii {
            proof {
                law_ascii_hash_agrees_with_unicode(self@);
            }
            self.as_ascii().hash_into(state)
        } else {
            self.as_unicode().hash_into(state)
        }
    }
}

impl<'a> CaseFold<&'a str> {
    /// Wraps a string slice, noting whether it is ASCII.
    pub fn const_new(s: &'a str) -> (r: Self)
        ensures
            r.inner() == s,
            r.ascii_flag() == is_ascii_chars(s@),
    {
        CaseFold { inner: s, ascii: s.is_ascii() }
    }
}

impl CaseFold<String> {
    /// Wraps a string, noting whether it is ASCII.
    pub fn const_new(s: String) -> (r: Self)
        ensures
            r.inner() == s,
            r.ascii_flag() == is_ascii_chars(s@),
    {
        let ascii = s.as_str().is_ascii();
        CaseFold { inner: s, ascii }
    }
}

impl<'a> Clone for CaseFold<&'a str> {
    fn clone(&self) -> (r: Self)
        ensures
            r == *self,
    {
        *self
    }
}

impl<'a> Copy for CaseFold<&'a str> {

}

impl Clone for CaseFold<String> {
    fn clone(&self) -> (r: Self)
        ensures
            r@ == self@,
            r.ascii_flag() == self.ascii_flag(),
    {
        proof {
            use_type_invariant(self);
        }
        CaseFold { inner: self.inner.clone(), ascii: self.ascii }
    }
}

impl<S: TextSource, Rhs: TextSource> PartialEq<CaseFold<Rhs>> for CaseFold<S> {
    fn eq(&self, other: &CaseFold<Rhs>) -> (r: bool) {
        proof {
            use_type_invariant(self);
            use_type_invariant(other);
        }
        if self.ascii && other.ascii {
            proof {
                law_ascii_eq_agrees_with_unicode(self@, other@);
            }
            self.as_ascii() == other.as_ascii()
        } else {
            self.as_unicode() == other.as_unicode()
        }
    }
}

impl<S: TextSource, Rhs: TextSource> vstd::std_specs::cmp::PartialEqSpecImpl<CaseFold<Rhs>> for CaseFold<S> {
    open spec fn obeys_eq_spec() -> bool {
        true
    }

    open spec fn eq_spec(&self, other: &CaseFold<Rhs>) -> bool {
        fold_chars(self@) == fold_chars(other@)
    }
}

impl<S: TextSource> Eq for CaseFold<S> {

}

impl<S: TextSource> core::hash::Hash for CaseFold<S> {
    fn hash<H: core::hash::Hasher>(&self, state: &mut H) {
        let chunks = self.hash_chunks();
        write_all(state, &chunks);
    }
}

/// What tells keys apart in a map: the UTF-8 bytes of the folded form of the text.
pub open spec fn text_key(s: Seq<char>) -> Seq<u8> {
    encode_utf8(fold_chars(s))
}

/// An empty map.
impl<K: TextSource, V> Default for CaseFoldMap<K, V> {
    fn default() -> (r: Self)
        ensures
            r.wf(),
            r@ == Map::<Seq<u8>, (CaseFold<K>, V)>::empty(),
    {
        Self::new()
    }
}

/// A map whose keys compare, and are found, by their Unicode upper-case form.
pub struct CaseFoldMap<K: TextSource, V> {
    inner: FoldMap<CaseFold<K>, V>,
}

impl<K: TextSource, V> View for CaseFoldMap<K, V> {
    type V = Map<Seq<u8>, (CaseFold<K>, V)>;

    /// For the UTF-8 bytes of the folded form of each key: the key as first inserted, and its value.
    closed spec fn view(&self) -> Map<Seq<u8>, (CaseFold<K>, V)> {
        self.inner.entries()
    }
}

impl<K: TextSource, V> CaseFoldMap<K, V> {
    /// The map's parts agree with each other; every map a caller holds is so.
    #[verifier::type_invariant]
    spec fn inner_agrees(self) -> bool {
        self.inner.wf()
    }

    /// The map's parts agree with each other.
    pub closed spec fn wf(&self) -> bool {
        self.inner.wf()
    }

    /// The number of entries.
    pub closed spec fn spec_len(&self) -> nat {
        self.inner.spec_len()
    }

    /// The number of entries is the number of keys the map holds, told apart ignoring case.
    pub proof fn lemma_len_is_dom_len(&self)
        requires
            self.wf(),
        ensures
            self@.dom().finite(),
            self@.dom().len() == self.spec_len(),
    {
        self.inner.lemma_len_is_dom_len();
    }

    /// An empty map.
    pub fn new() -> (r: Self)
        ensures
            r.wf(),
            r@ == Map::<Seq<u8>, (CaseFold<K>, V)>::empty(),
            r.spec_len() == 0,
    {
        CaseFoldMap { inner: FoldMap::new() }
    }

    /// An empty map with room for `capacity` entries, as far as the table's size does not
    /// overflow and the allocator gives the memory.
    pub fn with_capacity(capacity: usize) -> (r: Self)
        ensures
            r.wf(),
            r@ == Map::<Seq<u8>, (CaseFold<K>, V)>::empty(),
            r.spec_len() == 0,
    {
        CaseFoldMap { inner: FoldMap::with_capacity(capacity) }
    }

    /// The number of entries.
    pub fn len(&self) -> (r: usize)
        ensures
            r == self.spec_len(),
            r == self@.dom().len(),
    {
        proof {
            use_type_invariant(self);
        }
        self.inner.len()
    }

    /// Whether the map is empty.
    pub fn is_empty(&self) -> (r: bool)
        ensures
            r == (self.spec_len() == 0),
            r == (self@ == Map::<Seq<u8>, (CaseFold<K>, V)>::empty()),
    {
        proof {
            use_type_invariant(self);
        }
        self.inner.is_empty()
    }

    /// The value stored under a key equal to `k` ignoring case.
    pub fn get<Q: TextSource>(&self, k: &Q) -> (r: Option<&V>)
        ensures
            r == (if self@.contains_key(text_key(k.text_view())) {
                Some(&self@[text_key(k.text_view())].1)
            } else {
                None
            }),
    {
        proof {
            use_type_invariant(self);
        }
        let folded = folded_utf8(k.as_text());
        self.inner.get(folded.as_slice())
    }

    /// The key and value stored under a key equal to `k` ignoring case.
    pub fn get_key_value<Q: TextSource>(&self, k: &Q) -> (r: Option<(&CaseFold<K>, &V)>)
        ensures
            r == (if self@.contains_key(text_key(k.text_view())) {
                Some((&self@[text_key(k.text_view())].0, &self@[text_key(k.text_view())].1))
            } else {
                None
            }),
    {
        proof {
            use_type_invariant(self);
        }
        let folded = folded_utf8(k.as_text());
        self.inner.get_key_value(folded.as_slice())
    }

    /// Whether a key equal to `k` ignoring case is there.
    pub fn contains_key<Q: TextSource>(&self, k: &Q) -> (r: bool)
        ensures
            r == self@.contains_key(text_key(k.text_view())),
    {
        proof {
            use_type_invariant(self);
        }
        let folded = folded_utf8(k.as_text());
        self.inner.contains_key(folded.as_slice())
    }

    /// Inserts `v` under `k`. When a key equal to `k` ignoring case is there, its value
    /// is replaced and returned, and the key already there stays.
    pub fn insert(&mut self, k: K, v: V) -> (r: Option<V>)
        ensures
            final(self).wf(),
            final(self)@ == entries_after_insert(old(self)@, CaseFold::wrap(k), v),
            r == (if old(self)@.contains_key(text_key(k.text_view())) {
                Some(old(self)@[text_key(k.text_view())].1)
            } else {
                None
            }),
            final(self).spec_len() == old(self).spec_len() + (if old(self)@.contains_key(
                text_key(k.text_view()),
            ) {
                0int
            } else {
                1int
            }),
    {
        proof {
            use_type_invariant(&*self);
        }
        proof {
            CaseFold::<K>::lemma_wrap_inner(k);
        }
        let mut inner = FoldMap::new();
        std::mem::swap(&mut inner, &mut self.inner);
        let r = inner.insert(CaseFold::new(k), v);
        self.inner = inner;
        r
    }

    /// A mutable borrow of the value stored under a key equal to `k` ignoring case; what
    /// is written through it becomes that entry's value.
    pub fn get_mut<Q: TextSource>(&mut self, k: &Q) -> (r: Option<&mut V>)
        ensures
            final(self).wf(),
            final(self).spec_len() == old(self).spec_len(),
            r is Some == old(self)@.contains_key(text_key(k.text_view())),
            r matches Some(x) ==> {
                &&& *x == old(self)@[text_key(k.text_view())].1
                &&& final(self)@ == old(self)@.insert(
                    text_key(k.text_view()),
                    (old(self)@[text_key(k.text_view())].0, *final(x)),
                )
            },
            r is None ==> final(self)@ == old(self)@,
    {
        proof {
            use_type_invariant(&*self);
        }
        let folded = folded_utf8(k.as_text());
        self.inner.get_mut(folded.as_slice())
    }

    /// Inserts each pair in turn.
    pub fn extend(&mut self, pairs: Vec<(K, V)>)
        ensures
            final(self).wf(),
            final(self)@ == entries_after_inserts(old(self)@, pairs@, |s: K| CaseFold::wrap(s)),
            final(self).spec_len() == final(self)@.dom().len(),
    {
        proof {
            use_type_invariant(&*self);
        }
        let ghost start = self@;
        let ghost all = pairs@;
        let ghost wrap = |s: K| CaseFold::<K>::wrap(s);
        for p in it: pairs.into_iter()
            invariant
                it.seq() == all,
                wrap == (|s: K| CaseFold::<K>::wrap(s)),
                self.wf(),
                self@ == entries_after_inserts(start, all.take(it.index()), wrap),
        {
            let ghost done = all.take(it.index());
            let (k, v) = p;
            proof {
                assert(wrap(k) == CaseFold::<K>::wrap(k));
            }
            self.insert(k, v);
            proof {
                let next = all.take(it.index() + 1);
                assert(next.drop_last() =~= done);
                assert(next.last() == (k, v));
                assert(entries_after_inserts(start, next, wrap) == entries_after_insert(
                    entries_after_inserts(start, done, wrap),
                    wrap(k),
                    v,
                ));
            }
        }
        assert(all.take(all.len() as int) =~= all);
        proof {
            self.lemma_len_is_dom_len();
        }
    }

    /// A map holding the pairs, inserted in turn.
    pub fn from_pairs(pairs: Vec<(K, V)>) -> (r: Self)
        ensures
            r.wf(),
            r@ == entries_after_inserts(
                Map::<Seq<u8>, (CaseFold<K>, V)>::empty(),
                pairs@,
                |s: K| CaseFold::wrap(s),
            ),
            r.spec_len() == r@.dom().len(),
    {
        let mut r = Self::new();
        r.extend(pairs);
        r
    }

    /// Removes the entry whose key equals `k` ignoring case and returns its value.
    pub fn remove<Q: TextSource>(&mut self, k: &Q) -> (r: Option<V>)
        ensures
            final(self).wf(),
            final(self)@ == old(self)@.remove(text_key(k.text_view())),
            r == (if old(self)@.contains_key(text_key(k.text_view())) {
                Some(old(self)@[text_key(k.text_view())].1)
            } else {
                None
            }),
            final(self).spec_len() == old(self).spec_len() - (if old(self)@.contains_key(
                text_key(k.text_view()),
            ) {
                1int
            } else {
                0int
            }),
    {
        proof {
            use_type_invariant(&*self);
        }
        match self.remove_entry(k) {
            Some((_, v)) => Some(v),
            None => None,
        }
    }

    /// Removes the entry whose key equals `k` ignoring case and returns its key and
    /// value.
    pub fn remove_entry<Q: TextSource>(&mut self, k: &Q) -> (r: Option<(CaseFold<K>, V)>)
        ensures
            final(self).wf(),
            final(self)@ == old(self)@.remove(text_key(k.text_view())),
            r == (if old(self)@.contains_key(text_key(k.text_view())) {
                Some(old(self)@[text_key(k.text_view())])
            } else {
                None
            }),
            final(self).spec_len() == old(self).spec_len() - (if old(self)@.contains_key(
                text_key(k.text_view()),
            ) {
                1int
            } else {
                0int
            }),
    {
        proof {
            use_type_invariant(&*self);
        }
        let folded = folded_utf8(k.as_text());
        let mut inner = FoldMap::new();
        std::mem::swap(&mut inner, &mut self.inner);
        let r = inner.remove_entry(folded.as_slice());
        self.inner = inner;
        r
    }

    /// Borrows of each entry's key and value, every entry once, in no particular order.
    pub fn iter(&self) -> (r: Vec<(&CaseFold<K>, &V)>)
        ensures
            r@.len() == self.spec_len(),
            forall|i: int|
                0 <= i < r@.len() ==> #[trigger] self@.contains_key(text_key(r@[i].0@))
                    && self@[text_key(r@[i].0@)] == (*r@[i].0, *r@[i].1),
            forall|b: Seq<u8>|
                #[trigger] self@.contains_key(b) ==> exists|i: int|
                    0 <= i < r@.len() && text_key(r@[i].0@) == b,
    {
        proof {
            use_type_invariant(self);
        }
        let r = self.inner.iter();
        proof {
            assert forall|i: int| 0 <= i < r@.len() implies #[trigger] self@.contains_key(
                text_key(r@[i].0@),
            ) && self@[text_key(r@[i].0@)] == (*r@[i].0, *r@[i].1) by {
                assert(r@[i].0.key_bytes() == text_key(r@[i].0@));
            }
            assert forall|b: Seq<u8>| #[trigger] self@.contains_key(b) implies exists|i: int|
                0 <= i < r@.len() && text_key(r@[i].0@) == b by {
                let i = choose|i: int| 0 <= i < r@.len() && r@[i].0.key_bytes() == b;
                assert(text_key(r@[i].0@) == b);
            }
        }
        r
    }

    /// The keys, each entry's once, in no particular order.
    pub fn into_keys(self) -> (r: Vec<CaseFold<K>>)
        ensures
            r@.len() == self.spec_len(),
            forall|i: int|
                0 <= i < r@.len() ==> #[trigger] self@.contains_key(text_key(r@[i]@))
                    && self@[text_key(r@[i]@)].0 == r@[i],
            forall|b: Seq<u8>|
                #[trigger] self@.contains_key(b) ==> exists|i: int|
                    0 <= i < r@.len() && text_key(r@[i]@) == b,
    {
        proof {
            use_type_invariant(&self);
        }
        let ghost m = self@;
        let (keys, values) = self.inner.into_parts();
        proof {
            assert forall|i: int| 0 <= i < keys@.len() implies #[trigger] m.contains_key(
                text_key(keys@[i]@),
            ) && m[text_key(keys@[i]@)].0 == keys@[i] by {
                assert(keys@[i].key_bytes() == text_key(keys@[i]@));
            }
            assert forall|b: Seq<u8>| #[trigger] m.contains_key(b) implies exists|i: int|
                0 <= i < keys@.len() && text_key(keys@[i]@) == b by {
                let i = choose|i: int| 0 <= i < keys@.len() && keys@[i].key_bytes() == b;
                assert(text_key(keys@[i]@) == b);
            }
        }
        keys
    }

    /// The values, each entry's once, in no particular order.
    pub fn into_values(self) -> (r: Vec<V>)
        ensures
            r@.len() == self.spec_len(),
            exists|keys: Seq<CaseFold<K>>|
                {
                    &&& keys.len() == r@.len()
                    &&& forall|i: int|
                        0 <= i < keys.len() ==> #[trigger] self@.contains_key(text_key(keys[i]@))
                            && self@[text_key(keys[i]@)] == (keys[i], r@[i])
                    &&& forall|b: Seq<u8>|
                        #[trigger] self@.contains_key(b) ==> exists|i: int|
                            0 <= i < keys.len() && text_key(keys[i]@) == b
                },
    {
        proof {
            use_type_invariant(&self);
        }
        let ghost m = self@;
        let (keys, values) = self.inner.into_parts();
        proof {
            assert forall|i: int| 0 <= i < keys@.len() implies #[trigger] m.contains_key(
                text_key(keys@[i]@),
            ) && m[text_key(keys@[i]@)] == (keys@[i], values@[i]) by {
                assert(keys@[i].key_bytes() == text_key(keys@[i]@));
            }
            assert forall|b: Seq<u8>| #[trigger] m.contains_key(b) implies exists|i: int|
                0 <= i < keys@.len() && text_key(keys@[i]@) == b by {
                let i = choose|i: int| 0 <= i < keys@.len() && keys@[i].key_bytes() == b;
                assert(text_key(keys@[i]@) == b);
            }
        }
        values
    }
}

/// Two maps are equal when they hold the same keys (ignoring case) with equal values.
impl<K: TextSource, V: PartialEq> PartialEq for CaseFoldMap<K, V> {
    fn eq(&self, other: &Self) -> (r: bool) {
        proof {
            use_type_invariant(self);
            use_type_invariant(other);
            self.lemma_len_is_dom_len();
            other.lemma_len_is_dom_len();
        }
        if self.len() != other.len() {
            return false;
        }
        let items = self.iter();
        let n = items.len();
        let ghost keys = items@.map_values(|p: (&CaseFold<K>, &V)| text_key(p.0@));
        for i in 0..n
            invariant
                n == items@.len(),
                keys == items@.map_values(|p: (&CaseFold<K>, &V)| text_key(p.0@)),
                forall|j: int| 0 <= j < n ==> #[trigger] self@.contains_key(keys[j]),
                forall|j: int|
                    #![trigger keys[j]]
                    0 <= j < i ==> {
                        &&& other@.contains_key(keys[j])
                        &&& V::obeys_eq_spec() ==> self@[keys[j]].1.eq_spec(&other@[keys[j]].1)
                    },
        {
            let key = items[i].0.get_ref();
            assert(keys[i as int] == text_key(key.text_view()));
            assert(self@.contains_key(keys[i as int]));
            match (self.get(key), other.get(key)) {
                (Some(v), Some(w)) => {
                    if !v.eq(w) {
                        return false;
                    }
                },
                _ => {
                    return false;
                },
            }
        }
        proof {
            assert(self@.dom().subset_of(other@.dom())) by {
                assert forall|b: Seq<u8>| self@.dom().contains(b) implies other@.dom().contains(
                    b,
                ) by {
                    assert(self@.contains_key(b));
                    let j = choose|j: int| 0 <= j < items@.len() && text_key(items@[j].0@) == b;
                    assert(keys[j] == b);
                    assert(other@.contains_key(keys[j]));
                }
            }
            vstd::set_lib::lemma_subset_equality(self@.dom(), other@.dom());
            assert forall|b: Seq<u8>| #[trigger] self@.contains_key(b) implies V::obeys_eq_spec()
                ==> self@[b].1.eq_spec(&other@[b].1) by {
                let j = choose|j: int| 0 <= j < items@.len() && text_key(items@[j].0@) == b;
                assert(keys[j] == b);
                assert(other@.contains_key(keys[j]));
            }
        }
        true
    }
}

impl<K: TextSource, V: PartialEq> vstd::std_specs::cmp::PartialEqSpecImpl for CaseFoldMap<K, V> {
    open spec fn obeys_eq_spec() -> bool {
        V::obeys_eq_spec()
    }

    open spec fn eq_spec(&self, other: &Self) -> bool {
        &&& self@.dom() == other@.dom()
        &&& forall|b: Seq<u8>| #[trigger]
            self@.contains_key(b) ==> self@[b].1.eq_spec(&other@[b].1)
    }
}

impl<K: TextSource, V: Eq> Eq for CaseFoldMap<K, V> {

}

} // verus!
