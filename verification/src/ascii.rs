//! Case-insensitive byte strings, folding ASCII letters only.
use vstd::prelude::*;
use vstd::std_specs::cmp::PartialEqSpec;
use std::hash::{DefaultHasher, Hasher};
use crate::HASH_BUF_SIZE;
use crate::order::lex_sign;
use crate::source::{ByteSource, TextSource};
use crate::hashing::{writes_view, write_all};
use crate::map::{FoldKey, FoldMap, entries_after_insert, entries_after_inserts};

verus! {

/// The ASCII upper-case form of a byte: `a`..=`z` become `A`..=`Z`, every other byte stays.
pub open spec fn upper_byte(b: u8) -> u8 {
    if 97 <= b && b <= 122 {
        (b - 32) as u8
    } else {
        b
    }
}

/// The ASCII upper-case form of each byte.
pub open spec fn upper_bytes(s: Seq<u8>) -> Seq<u8> {
    s.map_values(|b: u8| upper_byte(b))
}

/// Bytes as integers, for ordering.
pub open spec fn byte_ints(s: Seq<u8>) -> Seq<int> {
    s.map_values(|b: u8| b as int)
}

/// How a run of bytes is cut into hasher writes: bytes are gathered in a buffer that is
/// written out as soon as it holds `HASH_BUF_SIZE` bytes; what is left is written at the end.
pub open spec fn byte_chunks(s: Seq<u8>, acc: Seq<u8>) -> Seq<Seq<u8>>
    decreases s.len(),
{
    if s.len() == 0 {
        if acc.len() == 0 {
            seq![]
        } else {
            seq![acc]
        }
    } else {
        let next = acc.push(s[0]);
        if next.len() >= HASH_BUF_SIZE {
            seq![next] + byte_chunks(s.drop_first(), seq![])
        } else {
            byte_chunks(s.drop_first(), next)
        }
    }
}

/// Bytes cut into hasher writes give no write exactly when there are no bytes and nothing
/// is left over in the buffer.
pub proof fn lemma_byte_chunks_empty(s: Seq<u8>, acc: Seq<u8>)
    ensures
        (byte_chunks(s, acc).len() == 0) == (s.len() == 0 && acc.len() == 0),
    decreases s.len(),
{
    if s.len() > 0 {
        lemma_byte_chunks_empty(s.drop_first(), acc.push(s[0]));
    }
}

/// The writes that hashing a byte string hands to a hasher, before the terminator `0xff`.
pub open spec fn ascii_hash_chunks(b: Seq<u8>) -> Seq<Seq<u8>> {
    byte_chunks(upper_bytes(b), seq![])
}

/// The ASCII upper-case form of a byte.
pub fn to_ascii_uppercase(b: u8) -> (r: u8)
    ensures
        r == upper_byte(b),
{
    if 97 <= b && b <= 122 {
        b - 32
    } else {
        b
    }
}

/// The ASCII upper-case form of each byte of `a`.
pub fn uppercase_bytes(a: &[u8]) -> (r: Vec<u8>)
    ensures
        r@ == upper_bytes(a@),
{
    let mut r: Vec<u8> = Vec::new();
    for i in 0..a.len()
        invariant
            r@.len() == i,
            forall|j: int| 0 <= j < i ==> r@[j] == upper_byte(a@[j]),
    {
        r.push(to_ascii_uppercase(a[i]));
    }
    assert(r@ =~= upper_bytes(a@));
    r
}

/// Whether two byte strings are equal once ASCII letters are upper-cased.
pub fn eq_ignore_ascii_case(a: &[u8], b: &[u8]) -> (r: bool)
    ensures
        r == (upper_bytes(a@) == upper_bytes(b@)),
{
    if a.len() != b.len() {
        assert(upper_bytes(a@).len() != upper_bytes(b@).len());
        return false;
    }
    for i in 0..a.len()
        invariant
            a@.len() == b@.len(),
            forall|j: int| 0 <= j < i ==> upper_byte(a@[j]) == upper_byte(b@[j]),
    {
        if to_ascii_uppercase(a[i]) != to_ascii_uppercase(b[i]) {
            assert(upper_bytes(a@)[i as int] != upper_bytes(b@)[i as int]);
            return false;
        }
    }
    assert(upper_bytes(a@) =~= upper_bytes(b@));
    true
}

/// Cuts the ASCII upper-case form of `bytes` into the writes that hashing hands to a
/// hasher.
pub fn uppercase_chunks(bytes: &[u8]) -> (r: Vec<Vec<u8>>)
    ensures
        writes_view(r@) == ascii_hash_chunks(bytes@),
{
    let ghost up = upper_bytes(bytes@);
    let mut out: Vec<Vec<u8>> = Vec::new();
    let mut buf: Vec<u8> = Vec::new();
    let n = bytes.len();
    let mut i: usize = 0;
    assert(up.skip(0) =~= up);
    while i < n
        invariant
            n == bytes@.len(),
            i <= n,
            up == upper_bytes(bytes@),
            buf@.len() < HASH_BUF_SIZE,
            writes_view(out@) + byte_chunks(up.skip(i as int), buf@) == byte_chunks(up, seq![]),
        decreases n - i,
    {
        let ghost rest = up.skip(i as int);
        assert(rest.drop_first() =~= up.skip(i + 1));
        assert(rest[0] == upper_byte(bytes@[i as int]));
        let ghost before = writes_view(out@);
        buf.push(to_ascii_uppercase(bytes[i]));
        if buf.len() >= HASH_BUF_SIZE {
            let ghost full = buf@;
            out.push(buf);
            buf = Vec::new();
            assert(writes_view(out@) =~= before.push(full));
            assert(before + (seq![full] + byte_chunks(up.skip(i + 1), seq![])) =~= before.push(full)
                + byte_chunks(up.skip(i + 1), seq![]));
        }
        i += 1;
    }
    assert(up.skip(n as int) =~= Seq::<u8>::empty());
    if buf.len() != 0 {
        let ghost before = writes_view(out@);
        let ghost last = buf@;
        out.push(buf);
        assert(writes_view(out@) =~= before + seq![last]);
    } else {
        assert(writes_view(out@) =~= writes_view(out@) + Seq::<Seq<u8>>::empty());
    }
    out
}

/// Lexicographic comparison of two byte slices, as a sign (see `lex_sign`).
pub fn compare_byte_slices(a: &[u8], b: &[u8]) -> (r: i8)
    ensures
        r == lex_sign(byte_ints(a@), byte_ints(b@)),
{
    let n = a.len();
    let m = b.len();
    let mut i: usize = 0;
    assert(byte_ints(a@).skip(0) =~= byte_ints(a@));
    assert(byte_ints(b@).skip(0) =~= byte_ints(b@));
    while i < n && i < m
        invariant
            n == a@.len(),
            m == b@.len(),
            i <= n,
            i <= m,
            lex_sign(byte_ints(a@), byte_ints(b@)) == lex_sign(
                byte_ints(a@).skip(i as int),
                byte_ints(b@).skip(i as int),
            ),
        decreases n - i,
    {
        if a[i] < b[i] {
            return -1;
        }
        if a[i] > b[i] {
            return 1;
        }
        assert(byte_ints(a@).skip(i as int).drop_first() =~= byte_ints(a@).skip(i + 1));
        assert(byte_ints(b@).skip(i as int).drop_first() =~= byte_ints(b@).skip(i + 1));
        i += 1;
    }
    if i < m {
        -1
    } else if i < n {
        1
    } else {
        0
    }
}

/// A byte string (or string) that compares, orders and hashes as its ASCII upper-case form.
#[derive(Copy, Clone, Debug, Default)]
pub struct CaseFold<S>(S);

impl<S> CaseFold<S> {
    /// The wrapped value.
    pub closed spec fn inner(self) -> S {
        self.0
    }

    /// The wrapper around `s`.
    pub closed spec fn wrap(s: S) -> Self {
        CaseFold(s)
    }

    /// What is wrapped is what was given.
    pub broadcast proof fn lemma_wrap_inner(s: S)
        ensures
            #[trigger] Self::wrap(s).inner() == s,
    {
    }

    /// Wraps `s`.
    pub fn new(s: S) -> (r: Self)
        ensures
            r == Self::wrap(s),
            r.inner() == s,
    {
        CaseFold(s)
    }

    /// Unwraps the value.
    pub fn into_inner(self) -> (r: S)
        ensures
            r == self.inner(),
    {
        self.0
    }

    /// Borrows the wrapped value.
    pub fn get_ref(&self) -> (r: &S)
        ensures
            *r == self.inner(),
    {
        &self.0
    }

    /// Borrows the wrapped value mutably; what is written through the borrow is what the
    /// wrapper then holds.
    pub fn get_mut(&mut self) -> (r: &mut S)
        ensures
            *r == old(self).inner(),
            final(self).inner() == *final(r),
    {
        &mut self.0
    }
}

impl<S> core::ops::Deref for CaseFold<S> {
    type Target = S;

    fn deref(&self) -> (r: &S)
        ensures
            *r == self.inner(),
    {
        &self.0
    }
}

impl<S> From<S> for CaseFold<S> {
    fn from(s: S) -> (r: Self) {
        CaseFold::new(s)
    }
}

impl<S> vstd::std_specs::convert::FromSpecImpl<S> for CaseFold<S> {
    open spec fn obeys_from_spec() -> bool {
        true
    }

    open spec fn from_spec(s: S) -> Self {
        CaseFold::wrap(s)
    }
}

impl core::str::FromStr for CaseFold<String> {
    type Err = core::convert::Infallible;

    fn from_str(s: &str) -> (r: Result<Self, Self::Err>)
        ensures
            r matches Ok(c) && c.inner()@ == s@,
    {
        Ok(CaseFold::new(s.to_owned()))
    }
}

impl<S: ByteSource> View for CaseFold<S> {
    type V = Seq<u8>;

    open spec fn view(&self) -> Seq<u8> {
        self.inner().byte_view()
    }
}

impl<S: TextSource> CaseFold<S> {
    /// Borrows the wrapped text.
    pub fn as_str(&self) -> (r: &str)
        ensures
            r@ == self.inner().text_view(),
    {
        self.0.as_text()
    }
}

impl<S: ByteSource> CaseFold<S> {
    /// The bytes by which the value compares, orders and hashes: its ASCII upper-case form.
    pub fn caseless_iter(&self) -> (r: Vec<u8>)
        ensures
            r@ == upper_bytes(self@),
    {
        uppercase_bytes(self.0.as_byte_slice())
    }

    /// The writes that hashing hands to a hasher, before the terminator byte `0xff`.
    pub fn hash_chunks(&self) -> (r: Vec<Vec<u8>>)
        ensures
            writes_view(r@) == ascii_hash_chunks(self@),
            (r@.len() == 0) == (self@.len() == 0),
    {
        proof {
            lemma_byte_chunks_empty(upper_bytes(self@), seq![]);
        }
        uppercase_chunks(self.0.as_byte_slice())
    }

    /// Feeds the value to a `DefaultHasher`: its writes, then the terminator byte `0xff`.
    pub fn hash_into(&self, state: &mut DefaultHasher)
        ensures
            final(state)@ == old(state)@ + ascii_hash_chunks(self@) + seq![seq![0xffu8]],
    {
        let chunks = self.hash_chunks();
        let ghost start = state@;
        for i in 0..chunks.len()
            invariant
                state@ == start + writes_view(chunks@).take(i as int),
        {
            state.write(chunks[i].as_slice());
            assert(writes_view(chunks@).take(i + 1) =~= writes_view(chunks@).take(i as int).push(
                chunks@[i as int]@,
            ));
        }
        assert(writes_view(chunks@).take(chunks@.len() as int) =~= writes_view(chunks@));
        let term: Vec<u8> = vec![0xffu8];
        state.write(term.as_slice());
        assert(term@ =~= seq![0xffu8]);
    }
}

impl<S: ByteSource, Rhs: ByteSource> PartialEq<CaseFold<Rhs>> for CaseFold<S> {
    fn eq(&self, other: &CaseFold<Rhs>) -> (r: bool) {
        eq_ignore_ascii_case(self.0.as_byte_slice(), other.0.as_byte_slice())
    }
}

impl<S: ByteSource, Rhs: ByteSource> vstd::std_specs::cmp::PartialEqSpecImpl<CaseFold<Rhs>> for CaseFold<S> {
    open spec fn obeys_eq_spec() -> bool {
        true
    }

    open spec fn eq_spec(&self, other: &CaseFold<Rhs>) -> bool {
        upper_bytes(self@) == upper_bytes(other@)
    }
}

impl<S: ByteSource> Eq for CaseFold<S> {

}

impl<S: ByteSource> core::hash::Hash for CaseFold<S> {
    fn hash<H: core::hash::Hasher>(&self, state: &mut H) {
        let chunks = self.hash_chunks();
        write_all(state, &chunks);
    }
}

/// An empty map.
impl<K: ByteSource, V> Default for CaseFoldMap<K, V> {
    fn default() -> (r: Self)
        ensures
            r.wf(),
            r@ == Map::<Seq<u8>, (CaseFold<K>, V)>::empty(),
    {
        Self::new()
    }
}

/// A map whose keys compare, and are found, by their ASCII upper-case form.
pub struct CaseFoldMap<K: ByteSource, V> {
    inner: FoldMap<CaseFold<K>, V>,
}

impl<K: ByteSource, V> View for CaseFoldMap<K, V> {
    type V = Map<Seq<u8>, (CaseFold<K>, V)>;

    /// For the ASCII upper-case form of each key: the key as first inserted, and its value.
    closed spec fn view(&self) -> Map<Seq<u8>, (CaseFold<K>, V)> {
        self.inner.entries()
    }
}

impl<K: ByteSource, V> CaseFoldMap<K, V> {
    /// The map's parts agree with each other; every map a caller holds is so.
    #[verifier::type_invariant]
    spec fn inner_agrees(self) -> bool {
        self.inner.wf()
    }

    /// The map's parts agree with each other.
    pub closed spec fn wf(&self) -> bool {
        self.inner.wf()
    }

    /// The number of entries.
    pub closed spec fn spec_len(&self) -> nat {
        self.inner.spec_len()
    }

    /// The number of entries is the number of keys the map holds, told apart ignoring case.
    pub proof fn lemma_len_is_dom_len(&self)
        requires
            self.wf(),
        ensures
            self@.dom().finite(),
            self@.dom().len() == self.spec_len(),
    {
        self.inner.lemma_len_is_dom_len();
    }

    /// An empty map.
    pub fn new() -> (r: Self)
        ensures
            r.wf(),
            r@ == Map::<Seq<u8>, (CaseFold<K>, V)>::empty(),
            r.spec_len() == 0,
    {
        CaseFoldMap { inner: FoldMap::new() }
    }

    /// An empty map with room for `capacity` entries, as far as the table's size does not
    /// overflow and the allocator gives the memory.
    pub fn with_capacity(capacity: usize) -> (r: Self)
        ensures
            r.wf(),
            r@ == Map::<Seq<u8>, (CaseFold<K>, V)>::empty(),
            r.spec_len() == 0,
    {
        CaseFoldMap { inner: FoldMap::with_capacity(capacity) }
    }

    /// The number of entries.
    pub fn len(&self) -> (r: usize)
        ensures
            r == self.spec_len(),
            r == self@.dom().len(),
    {
        proof {
            use_type_invariant(self);
        }
        self.inner.len()
    }

    /// Whether the map is empty.
    pub fn is_empty(&self) -> (r: bool)
        ensures
            r == (self.spec_len() == 0),
            r == (self@ == Map::<Seq<u8>, (CaseFold<K>, V)>::empty()),
    {
        proof {
            use_type_invariant(self);
        }
        self.inner.is_empty()
    }

    /// The value stored under a key equal to `k` ignoring ASCII case.
    pub fn get<Q: ByteSource>(&self, k: &Q) -> (r: Option<&V>)
        ensures
            r == (if self@.contains_key(upper_bytes(k.byte_view())) {
                Some(&self@[upper_bytes(k.byte_view())].1)
            } else {
                None
            }),
    {
        proof {
            use_type_invariant(self);
        }
        let folded = uppercase_bytes(k.as_byte_slice());
        self.inner.get(folded.as_slice())
    }

    /// The key and value stored under a key equal to `k` ignoring ASCII case.
    pub fn get_key_value<Q: ByteSource>(&self, k: &Q) -> (r: Option<(&CaseFold<K>, &V)>)
        ensures
            r == (if self@.contains_key(upper_bytes(k.byte_view())) {
                Some((&self@[upper_bytes(k.byte_view())].0, &self@[upper_bytes(k.byte_view())].1))
            } else {
                None
            }),
    {
        proof {
            use_type_invariant(self);
        }
        let folded = uppercase_bytes(k.as_byte_slice());
        self.inner.get_key_value(folded.as_slice())
    }

    /// Whether a key equal to `k` ignoring ASCII case is there.
    pub fn contains_key<Q: ByteSource>(&self, k: &Q) -> (r: bool)
        ensures
            r == self@.contains_key(upper_bytes(k.byte_view())),
    {
        proof {
            use_type_invariant(self);
        }
        let folded = uppercase_bytes(k.as_byte_slice());
        self.inner.contains_key(folded.as_slice())
    }

    /// Inserts `v` under `k`. When a key equal to `k` ignoring ASCII case is there, its value
    /// is replaced and returned, and the key already there stays.
    pub fn insert(&mut self, k: K, v: V) -> (r: Option<V>)
        ensures
            final(self).wf(),
            final(self)@ == entries_after_insert(old(self)@, CaseFold::wrap(k), v),
            r == (if old(self)@.contains_key(upper_bytes(k.byte_view())) {
                Some(old(self)@[upper_bytes(k.byte_view())].1)
            } else {
                None
            }),
            final(self).spec_len() == old(self).spec_len() + (if old(self)@.contains_key(
                upper_bytes(k.byte_view()),
            ) {
                0int
            } else {
                1int
            }),
    {
        proof {
            use_type_invariant(&*self);
        }
        proof {
            CaseFold::<K>::lemma_wrap_inner(k);
        }
        let mut inner = FoldMap::new();
        std::mem::swap(&mut inner, &mut self.inner);
        let r = inner.insert(CaseFold::new(k), v);
        self.inner = inner;
        r
    }

    /// A mutable borrow of the value stored under a key equal to `k` ignoring ASCII case; what
    /// is written through it becomes that entry's value.
    pub fn get_mut<Q: ByteSource>(&mut self, k: &Q) -> (r: Option<&mut V>)
        ensures
            final(self).wf(),
            final(self).spec_len() == old(self).spec_len(),
            r is Some == old(self)@.contains_key(upper_bytes(k.byte_view())),
            r matches Some(x) ==> {
                &&& *x == old(self)@[upper_bytes(k.byte_view())].1
                &&& final(self)@ == old(self)@.insert(
                    upper_bytes(k.byte_view()),
                    (old(self)@[upper_bytes(k.byte_view())].0, *final(x)),
                )
            },
            r is None ==> final(self)@ == old(self)@,
    {
        proof {
            use_type_invariant(&*self);
        }
        let folded = uppercase_bytes(k.as_byte_slice());
        self.inner.get_mut(folded.as_slice())
    }

    /// Inserts each pair in turn.
    pub fn extend(&mut self, pairs: Vec<(K, V)>)
        ensures
            final(self).wf(),
            final(self)@ == entries_after_inserts(old(self)@, pairs@, |s: K| CaseFold::wrap(s)),
            final(self).spec_len() == final(self)@.dom().len(),
    {
        proof {
            use_type_invariant(&*self);
        }
        let ghost start = self@;
        let ghost all = pairs@;
        let ghost wrap = |s: K| CaseFold::<K>::wrap(s);
        for p in it: pairs.into_iter()
            invariant
                it.seq() == all,
                wrap == (|s: K| CaseFold::<K>::wrap(s)),
                self.wf(),
                self@ == entries_after_inserts(start, all.take(it.index()), wrap),
        {
            let ghost done = all.take(it.index());
            let (k, v) = p;
            proof {
                assert(wrap(k) == CaseFold::<K>::wrap(k));
            }
            self.insert(k, v);
            proof {
                let next = all.take(it.index() + 1);
                assert(next.drop_last() =~= done);
                assert(next.last() == (k, v));
                assert(entries_after_inserts(start, next, wrap) == entries_after_insert(
                    entries_after_inserts(start, done, wrap),
                    wrap(k),
                    v,
                ));
            }
        }
        assert(all.take(all.len() as int) =~= all);
        proof {
            self.lemma_len_is_dom_len();
        }
    }

    /// A map holding the pairs, inserted in turn.
    pub fn from_pairs(pairs: Vec<(K, V)>) -> (r: Self)
        ensures
            r.wf(),
            r@ == entries_after_inserts(
                Map::<Seq<u8>, (CaseFold<K>, V)>::empty(),
                pairs@,
                |s: K| CaseFold::wrap(s),
            ),
            r.spec_len() == r@.dom().len(),
    {
        let mut r = Self::new();
        r.extend(pairs);
        r
    }

    /// Removes the entry whose key equals `k` ignoring ASCII case and returns its value.
    pub fn remove<Q: ByteSource>(&mut self, k: &Q) -> (r: Option<V>)
        ensures
            final(self).wf(),
            final(self)@ == old(self)@.remove(upper_bytes(k.byte_view())),
            r == (if old(self)@.contains_key(upper_bytes(k.byte_view())) {
                Some(old(self)@[upper_bytes(k.byte_view())].1)
            } else {
                None
            }),
            final(self).spec_len() == old(self).spec_len() - (if old(self)@.contains_key(
                upper_bytes(k.byte_view()),
            ) {
                1int
            } else {
                0int
            }),
    {
        proof {
            use_type_invariant(&*self);
        }
        match self.remove_entry(k) {
            Some((_, v)) => Some(v),
            None => None,
        }
    }

    /// Removes the entry whose key equals `k` ignoring ASCII case and returns its key and
    /// value.
    pub fn remove_entry<Q: ByteSource>(&mut self, k: &Q) -> (r: Option<(CaseFold<K>, V)>)
        ensures
            final(self).wf(),
            final(self)@ == old(self)@.remove(upper_bytes(k.byte_view())),
            r == (if old(self)@.contains_key(upper_bytes(k.byte_view())) {
                Some(old(self)@[upper_bytes(k.byte_view())])
            } else {
                None
            }),
            final(self).spec_len() == old(self).spec_len() - (if old(self)@.contains_key(
                upper_bytes(k.byte_view()),
            ) {
                1int
            } else {
                0int
            }),
    {
        proof {
            use_type_invariant(&*self);
        }
        let folded = uppercase_bytes(k.as_byte_slice());
        let mut inner = FoldMap::new();
        std::mem::swap(&mut inner, &mut self.inner);
        let r = inner.remove_entry(folded.as_slice());
        self.inner = inner;
        r
    }

    /// Borrows of each entry's key and value, every entry once, in no particular order.
    pub fn iter(&self) -> (r: Vec<(&CaseFold<K>, &V)>)
        ensures
            r@.len() == self.spec_len(),
            forall|i: int|
                0 <= i < r@.len() ==> #[trigger] self@.contains_key(upper_bytes(r@[i].0@))
                    && self@[upper_bytes(r@[i].0@)] == (*r@[i].0, *r@[i].1),
            forall|b: Seq<u8>|
                #[trigger] self@.contains_key(b) ==> exists|i: int|
                    0 <= i < r@.len() && upper_bytes(r@[i].0@) == b,
    {
        proof {
            use_type_invariant(self);
        }
        let r = self.inner.iter();
        proof {
            assert forall|i: int| 0 <= i < r@.len() implies #[trigger] self@.contains_key(
                upper_bytes(r@[i].0@),
            ) && self@[upper_bytes(r@[i].0@)] == (*r@[i].0, *r@[i].1) by {
                assert(r@[i].0.key_bytes() == upper_bytes(r@[i].0@));
            }
            assert forall|b: Seq<u8>| #[trigger] self@.contains_key(b) implies exists|i: int|
                0 <= i < r@.len() && upper_bytes(r@[i].0@) == b by {
                let i = choose|i: int| 0 <= i < r@.len() && r@[i].0.key_bytes() == b;
                assert(upper_bytes(r@[i].0@) == b);
            }
        }
        r
    }

    /// The keys, each entry's once, in no particular order.
    pub fn into_keys(self) -> (r: Vec<CaseFold<K>>)
        ensures
            r@.len() == self.spec_len(),
            forall|i: int|
                0 <= i < r@.len() ==> #[trigger] self@.contains_key(upper_bytes(r@[i]@))
                    && self@[upper_bytes(r@[i]@)].0 == r@[i],
            forall|b: Seq<u8>|
                #[trigger] self@.contains_key(b) ==> exists|i: int|
                    0 <= i < r@.len() && upper_bytes(r@[i]@) == b,
    {
        proof {
            use_type_invariant(&self);
        }
        let ghost m = self@;
        let (keys, values) = self.inner.into_parts();
        proof {
            assert forall|i: int| 0 <= i < keys@.len() implies #[trigger] m.contains_key(
                upper_bytes(keys@[i]@),
            ) && m[upper_bytes(keys@[i]@)].0 == keys@[i] by {
                assert(keys@[i].key_bytes() == upper_bytes(keys@[i]@));
            }
            assert forall|b: Seq<u8>| #[trigger] m.contains_key(b) implies exists|i: int|
                0 <= i < keys@.len() && upper_bytes(keys@[i]@) == b by {
                let i = choose|i: int| 0 <= i < keys@.len() && keys@[i].key_bytes() == b;
                assert(upper_bytes(keys@[i]@) == b);
            }
        }
        keys
    }

    /// The values, each entry's once, in no particular order.
    pub fn into_values(self) -> (r: Vec<V>)
        ensures
            r@.len() == self.spec_len(),
            exists|keys: Seq<CaseFold<K>>|
                {
                    &&& keys.len() == r@.len()
                    &&& forall|i: int|
                        0 <= i < keys.len() ==> #[trigger] self@.contains_key(upper_bytes(keys[i]@))
                            && self@[upper_bytes(keys[i]@)] == (keys[i], r@[i])
                    &&& forall|b: Seq<u8>|
                        #[trigger] self@.contains_key(b) ==> exists|i: int|
                            0 <= i < keys.len() && upper_bytes(keys[i]@) == b
                },
    {
        proof {
            use_type_invariant(&self);
        }
        let ghost m = self@;
        let (keys, values) = self.inner.into_parts();
        proof {
            assert forall|i: int| 0 <= i < keys@.len() implies #[trigger] m.contains_key(
                upper_bytes(keys@[i]@),
            ) && m[upper_bytes(keys@[i]@)] == (keys@[i], values@[i]) by {
                assert(keys@[i].key_bytes() == upper_bytes(keys@[i]@));
            }
            assert forall|b: Seq<u8>| #[trigger] m.contains_key(b) implies exists|i: int|
                0 <= i < keys@.len() && upper_bytes(keys@[i]@) == b by {
                let i = choose|i: int| 0 <= i < keys@.len() && keys@[i].key_bytes() == b;
                assert(upper_bytes(keys@[i]@) == b);
            }
        }
        values
    }
}

/// Two maps are equal when they hold the same keys (ignoring case) with equal values.
impl<K: ByteSource, V: PartialEq> PartialEq for CaseFoldMap<K, V> {
    fn eq(&self, other: &Self) -> (r: bool) {
        proof {
            use_type_invariant(self);
            use_type_invariant(other);
            self.lemma_len_is_dom_len();
            other.lemma_len_is_dom_len();
        }
        if self.len() != other.len() {
            return false;
        }
        let items = self.iter();
        let n = items.len();
        let ghost keys = items@.map_values(|p: (&CaseFold<K>, &V)| upper_bytes(p.0@));
        for i in 0..n
            invariant
                n == items@.len(),
                keys == items@.map_values(|p: (&CaseFold<K>, &V)| upper_bytes(p.0@)),
                forall|j: int| 0 <= j < n ==> #[trigger] self@.contains_key(keys[j]),
                forall|j: int|
                    #![trigger keys[j]]
                    0 <= j < i ==> {
                        &&& other@.contains_key(keys[j])
                        &&& V::obeys_eq_spec() ==> self@[keys[j]].1.eq_spec(&other@[keys[j]].1)
                    },
        {
            let key = items[i].0.get_ref();
            assert(keys[i as int] == upper_bytes(key.byte_view()));
            assert(self@.contains_key(keys[i as int]));
            match (self.get(key), other.get(key)) {
                (Some(v), Some(w)) => {
                    if !v.eq(w) {
                        return false;
                    }
                },
                _ => {
                    return false;
                },
            }
        }
        proof {
            assert(self@.dom().subset_of(other@.dom())) by {
                assert forall|b: Seq<u8>| self@.dom().contains(b) implies other@.dom().contains(
                    b,
                ) by {
                    assert(self@.contains_key(b));
                    let j = choose|j: int| 0 <= j < items@.len() && upper_bytes(items@[j].0@) == b;
                    assert(keys[j] == b);
                    assert(other@.contains_key(keys[j]));
                }
            }
            vstd::set_lib::lemma_subset_equality(self@.dom(), other@.dom());
            assert forall|b: Seq<u8>| #[trigger] self@.contains_key(b) implies V::obeys_eq_spec()
                ==> self@[b].1.eq_spec(&other@[b].1) by {
                let j = choose|j: int| 0 <= j < items@.len() && upper_bytes(items@[j].0@) == b;
                assert(keys[j] == b);
                assert(other@.contains_key(keys[j]));
            }
        }
        true
    }
}

impl<K: ByteSource, V: PartialEq> vstd::std_specs::cmp::PartialEqSpecImpl for CaseFoldMap<K, V> {
    open spec fn obeys_eq_spec() -> bool {
        V::obeys_eq_spec()
    }

    open spec fn eq_spec(&self, other: &Self) -> bool {
        &&& self@.dom() == other@.dom()
        &&& forall|b: Seq<u8>| #[trigger]
            self@.contains_key(b) ==> self@[b].1.eq_spec(&other@[b].1)
    }
}

impl<K: ByteSource, V: Eq> Eq for CaseFoldMap<K, V> {

}

} // verus!
