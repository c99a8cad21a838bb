//! Case-insensitive strings, folding with the full Unicode upper-case mapping.
use vstd::prelude::*;
use std::hash::{DefaultHasher, Hasher};
use vstd::utf8::{encode_scalar, encode_utf8, char_is_scalar};
use crate::HASH_BUF_SIZE;
use crate::order::lex_sign;
use crate::source::TextSource;
use crate::hashing::{writes_view, write_all};

verus! {

/// What `char::to_uppercase` yields for a character outside ASCII: its Unicode upper-case
/// mapping, one or more characters (`ß` gives `SS`), read from the Unicode tables.
pub uninterp spec fn uppercase_beyond_ascii(c: char) -> Seq<char>;

/// The ASCII upper-case form of a character: `a`..=`z` become `A`..=`Z`, every other
/// character stays.
pub open spec fn ascii_upper_char(c: char) -> char {
    if 'a' <= c && c <= 'z' {
        ((c as u32) - 32) as char
    } else {
        c
    }
}

/// Whether a character is ASCII.
pub open spec fn is_ascii_char(c: char) -> bool {
    c <= '\u{7f}'
}

/// The Unicode upper-case mapping of a character: for an ASCII character its ASCII upper-case
/// form alone, beyond ASCII what the Unicode tables give.
pub open spec fn upper_chars(c: char) -> Seq<char> {
    if is_ascii_char(c) {
        seq![ascii_upper_char(c)]
    } else {
        uppercase_beyond_ascii(c)
    }
}

/// Calls `char::to_uppercase` and collects what it yields. The contract claims that an
/// ASCII character maps to its ASCII upper-case form alone, that any other character maps
/// to `uppercase_beyond_ascii(c)`, and that the result holds at least one character; the
/// Unicode tables themselves are not restated.
#[verifier::external_body]
fn char_to_uppercase(c: char) -> (r: Vec<char>)
    ensures
        is_ascii_char(c) ==> r@ == seq![ascii_upper_char(c)],
        !is_ascii_char(c) ==> r@ == uppercase_beyond_ascii(c),
        r@.len() >= 1,
{
    c.to_uppercase().collect()
}

/// The folded form of a text: each character replaced by its upper-case mapping.
pub open spec fn fold_chars(s: Seq<char>) -> Seq<char>
    decreases s.len(),
{
    if s.len() == 0 {
        seq![]
    } else {
        fold_chars(s.drop_last()) + upper_chars(s.last())
    }
}

/// Characters as integers (their scalar values), for ordering.
pub open spec fn char_ints(s: Seq<char>) -> Seq<int> {
    s.map_values(|c: char| c as int)
}

/// How folded characters are cut into hasher writes: the UTF-8 bytes of each character are
/// appended to a buffer that is written out once it holds at least `HASH_BUF_SIZE` bytes;
/// what is left is written at the end.
pub open spec fn utf8_chunks(cs: Seq<char>, acc: Seq<u8>) -> Seq<Seq<u8>>
    decreases cs.len(),
{
    if cs.len() == 0 {
        if acc.len() == 0 {
            seq![]
        } else {
            seq![acc]
        }
    } else {
        let next = acc + encode_scalar(cs[0] as u32);
        if next.len() >= HASH_BUF_SIZE {
            seq![next] + utf8_chunks(cs.drop_first(), seq![])
        } else {
            utf8_chunks(cs.drop_first(), next)
        }
    }
}

/// Characters cut into hasher writes give no write exactly when there are no characters
/// and nothing is left over in the buffer.
pub proof fn lemma_utf8_chunks_empty(cs: Seq<char>, acc: Seq<u8>)
    ensures
        (utf8_chunks(cs, acc).len() == 0) == (cs.len() == 0 && acc.len() == 0),
    decreases cs.len(),
{
    if cs.len() > 0 {
        let next = acc + encode_scalar(cs[0] as u32);
        assert(encode_scalar(cs[0] as u32).len() >= 1);
        assert(next.len() >= 1);
        lemma_utf8_chunks_empty(cs.drop_first(), next);
    }
}

/// The UTF-8 encoding of a text is empty exactly when the text is.
pub proof fn lemma_encode_utf8_empty(s: Seq<char>)
    ensures
        (encode_utf8(s).len() == 0) == (s.len() == 0),
{
    if s.len() > 0 {
        assert(encode_scalar(s[0] as u32).len() >= 1);
        assert(encode_utf8(s) == encode_scalar(s[0] as u32) + encode_utf8(s.drop_first()));
    }
}

/// The writes that hashing a text hands to a hasher, before the terminator `0xff`.
pub open spec fn unicode_hash_chunks(s: Seq<char>) -> Seq<Seq<u8>> {
    utf8_chunks(fold_chars(s), seq![])
}

/// The UTF-8 encoding of a character.
pub fn encode_char(c: char) -> (r: Vec<u8>)
    ensures
        r@ == encode_scalar(c as u32),
{
    proof {
        char_is_scalar(c);
    }
    let v = c as u32;
    let mut r: Vec<u8> = Vec::new();
    if v <= 0x7f {
        r.push((v & 0x7f) as u8);
    } else if v <= 0x7ff {
        r.push(0xC0 | ((v >> 6) & 0x1F) as u8);
        r.push(0x80 | (v & 0x3F) as u8);
    } else if v <= 0xffff {
        r.push(0xE0 | ((v >> 12) & 0x0F) as u8);
        r.push(0x80 | ((v >> 6) & 0x3F) as u8);
        r.push(0x80 | (v & 0x3F) as u8);
    } else {
        r.push(0xF0 | ((v >> 18) & 0x7) as u8);
        r.push(0x80 | ((v >> 12) & 0x3F) as u8);
        r.push(0x80 | ((v >> 6) & 0x3F) as u8);
        r.push(0x80 | (v & 0x3F) as u8);
    }
    assert(r@ =~= encode_scalar(v));
    r
}

/// Encoding a character sequence with one more character appends that character's bytes.
pub proof fn lemma_encode_utf8_push(a: Seq<char>, c: char)
    ensures
        encode_utf8(a.push(c)) == encode_utf8(a) + encode_scalar(c as u32),
    decreases a.len(),
{
    if a.len() == 0 {
        assert(a.push(c).drop_first() =~= Seq::<char>::empty());
        assert(a.push(c)[0] == c);
        assert(encode_utf8(a.push(c)) == encode_scalar(c as u32) + encode_utf8(
            Seq::<char>::empty(),
        ));
        assert(encode_utf8(a) =~= Seq::<u8>::empty());
        assert(encode_utf8(a.push(c)) =~= encode_utf8(a) + encode_scalar(c as u32));
    } else {
        lemma_encode_utf8_push(a.drop_first(), c);
        assert(a.push(c).drop_first() =~= a.drop_first().push(c));
        assert(a.push(c)[0] == a[0]);
        assert(encode_utf8(a.push(c)) == encode_scalar(a[0] as u32) + encode_utf8(
            a.drop_first().push(c),
        ));
        assert(encode_utf8(a) == encode_scalar(a[0] as u32) + encode_utf8(a.drop_first()));
        assert(encode_utf8(a.push(c)) =~= encode_utf8(a) + encode_scalar(c as u32));
    }
}

/// The UTF-8 encoding of a character sequence.
pub fn encode_chars(cs: &[char]) -> (r: Vec<u8>)
    ensures
        r@ == encode_utf8(cs@),
{
    let mut r: Vec<u8> = Vec::new();
    assert(cs@.take(0) =~= Seq::<char>::empty());
    for i in 0..cs.len()
        invariant
            r@ == encode_utf8(cs@.take(i as int)),
    {
        let mut enc = encode_char(cs[i]);
        proof {
            lemma_encode_utf8_push(cs@.take(i as int), cs@[i as int]);
            assert(cs@.take(i as int).push(cs@[i as int]) =~= cs@.take(i + 1));
        }
        r.append(&mut enc);
    }
    assert(cs@.take(cs@.len() as int) =~= cs@);
    r
}

/// The UTF-8 bytes of the folded form of a text: what tells keys apart in a map.
pub fn folded_utf8(s: &str) -> (r: Vec<u8>)
    ensures
        r@ == encode_utf8(fold_chars(s@)),
{
    let folded = fold_str(s);
    encode_chars(folded.as_slice())
}

/// The folded form of a text.
pub fn fold_str(s: &str) -> (r: Vec<char>)
    ensures
        r@ == fold_chars(s@),
        forall|i: int| 0 <= i < s@.len() ==> #[trigger] upper_chars(s@[i]).len() >= 1,
        r@.len() >= s@.len(),
{
    broadcast use vstd::string::group_string_axioms;

    let mut r: Vec<char> = Vec::new();
    assert(s@.take(0) =~= Seq::<char>::empty());
    for c in it: s.chars()
        invariant
            it.seq() == s@,
            r@ == fold_chars(s@.take(it.index())),
            forall|i: int| 0 <= i < it.index() ==> #[trigger] upper_chars(s@[i]).len() >= 1,
            r@.len() >= it.index(),
    {
        let ghost k = it.index();
        let mut up = char_to_uppercase(c);
        assert(s@.take(k + 1).drop_last() =~= s@.take(k));
        assert(s@.take(k + 1).last() == c);
        assert(upper_chars(c).len() >= 1);
        r.append(&mut up);
    }
    assert(s@.take(s@.len() as int) =~= s@);
    r
}

/// Whether two character slices are equal.
pub fn chars_eq(a: &[char], b: &[char]) -> (r: bool)
    ensures
        r == (a@ == b@),
{
    if a.len() != b.len() {
        return false;
    }
    for i in 0..a.len()
        invariant
            a@.len() == b@.len(),
            forall|j: int| 0 <= j < i ==> a@[j] == b@[j],
    {
        if a[i] != b[i] {
            return false;
        }
    }
    assert(a@ =~= b@);
    true
}

/// Cuts the UTF-8 bytes of `cs` into the writes that hashing hands to a hasher.
pub fn utf8_write_chunks(cs: &[char]) -> (r: Vec<Vec<u8>>)
    ensures
        writes_view(r@) == utf8_chunks(cs@, seq![]),
{
    let mut out: Vec<Vec<u8>> = Vec::new();
    let mut buf: Vec<u8> = Vec::new();
    let n = cs.len();
    let mut i: usize = 0;
    assert(cs@.skip(0) =~= cs@);
    while i < n
        invariant
            n == cs@.len(),
            i <= n,
            writes_view(out@) + utf8_chunks(cs@.skip(i as int), buf@) == utf8_chunks(cs@, seq![]),
        decreases n - i,
    {
        let ghost rest = cs@.skip(i as int);
        assert(rest.drop_first() =~= cs@.skip(i + 1));
        assert(rest[0] == cs@[i as int]);
        let ghost before = writes_view(out@);
        let mut enc = encode_char(cs[i]);
        buf.append(&mut enc);
        if buf.len() >= HASH_BUF_SIZE {
            let ghost full = buf@;
            out.push(buf);
            buf = Vec::new();
            assert(writes_view(out@) =~= before.push(full));
            assert(before + (seq![full] + utf8_chunks(cs@.skip(i + 1), seq![])) =~= before.push(full)
                + utf8_chunks(cs@.skip(i + 1), seq![]));
        }
        i += 1;
    }
    assert(cs@.skip(n as int) =~= Seq::<char>::empty());
    if buf.len() != 0 {
        let ghost before = writes_view(out@);
        let ghost last = buf@;
        out.push(buf);
        assert(writes_view(out@) =~= before + seq![last]);
    } else {
        assert(writes_view(out@) =~= writes_view(out@) + Seq::<Seq<u8>>::empty());
    }
    out
}

/// Lexicographic comparison of two char slices, as a sign (see `lex_sign`).
pub fn compare_char_slices(a: &[char], b: &[char]) -> (r: i8)
    ensures
        r == lex_sign(char_ints(a@), char_ints(b@)),
{
    let n = a.len();
    let m = b.len();
    let mut i: usize = 0;
    assert(char_ints(a@).skip(0) =~= char_ints(a@));
    assert(char_ints(b@).skip(0) =~= char_ints(b@));
    while i < n && i < m
        invariant
            n == a@.len(),
            m == b@.len(),
            i <= n,
            i <= m,
            lex_sign(char_ints(a@), char_ints(b@)) == lex_sign(
                char_ints(a@).skip(i as int),
                char_ints(b@).skip(i as int),
            ),
        decreases n - i,
    {
        if a[i] < b[i] {
            return -1;
        }
        if a[i] > b[i] {
            return 1;
        }
        assert(char_ints(a@).skip(i as int).drop_first() =~= char_ints(a@).skip(i + 1));
        assert(char_ints(b@).skip(i as int).drop_first() =~= char_ints(b@).skip(i + 1));
        i += 1;
    }
    if i < m {
        -1
    } else if i < n {
        1
    } else {
        0
    }
}

/// A string that compares, orders and hashes as its Unicode upper-case form.
#[derive(Copy, Clone, Debug, Default)]
pub struct CaseFold<S>(S);

impl<S> CaseFold<S> {
    /// The wrapped value.
    pub closed spec fn inner(self) -> S {
        self.0
    }

    /// The wrapper around `s`.
    pub closed spec fn wrap(s: S) -> Self {
        CaseFold(s)
    }

    /// What is wrapped is what was given.
    pub broadcast proof fn lemma_wrap_inner(s: S)
        ensures
            #[trigger] Self::wrap(s).inner() == s,
    {
    }

    /// Wraps `s`.
    pub fn new(s: S) -> (r: Self)
        ensures
            r == Self::wrap(s),
            r.inner() == s,
    {
        CaseFold(s)
    }

    /// Unwraps the value.
    pub fn into_inner(self) -> (r: S)
        ensures
            r == self.inner(),
    {
        self.0
    }

    /// Borrows the wrapped value.
    pub fn get_ref(&self) -> (r: &S)
        ensures
            *r == self.inner(),
    {
        &self.0
    }

    /// Borrows the wrapped value mutably; what is written through the borrow is what the
    /// wrapper then holds.
    pub fn get_mut(&mut self) -> (r: &mut S)
        ensures
            *r == old(self).inner(),
            final(self).inner() == *final(r),
    {
        &mut self.0
    }
}

impl<S> core::ops::Deref for CaseFold<S> {
    type Target = S;

    fn deref(&self) -> (r: &S)
        ensures
            *r == self.inner(),
    {
        &self.0
    }
}

impl<S> From<S> for CaseFold<S> {
    fn from(s: S) -> (r: Self) {
        CaseFold::new(s)
    }
}

impl<S> vstd::std_specs::convert::FromSpecImpl<S> for CaseFold<S> {
    open spec fn obeys_from_spec() -> bool {
        true
    }

    open spec fn from_spec(s: S) -> Self {
        CaseFold::wrap(s)
    }
}

impl core::str::FromStr for CaseFold<String> {
    type Err = core::convert::Infallible;

    fn from_str(s: &str) -> (r: Result<Self, Self::Err>)
        ensures
            r matches Ok(c) && c.inner()@ == s@,
    {
        Ok(CaseFold::new(s.to_owned()))
    }
}

impl<S: TextSource> View for CaseFold<S> {
    type V = Seq<char>;

    open spec fn view(&self) -> Seq<char> {
        self.inner().text_view()
    }
}

impl<S: TextSource> CaseFold<S> {
    /// Borrows the wrapped text.
    pub fn as_str(&self) -> (r: &str)
        ensures
            r@ == self@,
    {
        self.0.as_text()
    }

    /// The characters by which the value compares, orders and hashes: the upper-case
    /// mapping of each of its characters, in order.
    pub fn caseless_iter(&self) -> (r: Vec<char>)
        ensures
            r@ == fold_chars(self@),
            forall|i: int| 0 <= i < self@.len() ==> #[trigger] upper_chars(self@[i]).len() >= 1,
            r@.len() >= self@.len(),
    {
        fold_str(self.0.as_text())
    }

    /// The writes that hashing hands to a hasher, before the terminator byte `0xff`.
    pub fn hash_chunks(&self) -> (r: Vec<Vec<u8>>)
        ensures
            writes_view(r@) == unicode_hash_chunks(self@),
            (r@.len() == 0) == (self@.len() == 0),
    {
        let folded = self.caseless_iter();
        proof {
            lemma_utf8_chunks_empty(folded@, seq![]);
            if self@.len() == 0 {
                assert(folded@.len() == 0);
            }
        }
        utf8_write_chunks(folded.as_slice())
    }

    /// Feeds the value to a `DefaultHasher`: its writes, then the terminator byte `0xff`.
    pub fn hash_into(&self, state: &mut DefaultHasher)
        ensures
            final(state)@ == old(state)@ + unicode_hash_chunks(self@) + seq![seq![0xffu8]],
    {
        let chunks = self.hash_chunks();
        let ghost start = state@;
        for i in 0..chunks.len()
            invariant
                state@ == start + writes_view(chunks@).take(i as int),
        {
            state.write(chunks[i].as_slice());
            assert(writes_view(chunks@).take(i + 1) =~= writes_view(chunks@).take(i as int).push(
                chunks@[i as int]@,
            ));
        }
        assert(writes_view(chunks@).take(chunks@.len() as int) =~= writes_view(chunks@));
        let term: Vec<u8> = vec![0xffu8];
        state.write(term.as_slice());
        assert(term@ =~= seq![0xffu8]);
    }
}

impl<S: TextSource, Rhs: TextSource> PartialEq<CaseFold<Rhs>> for CaseFold<S> {
    fn eq(&self, other: &CaseFold<Rhs>) -> (r: bool) {
        let a = self.caseless_iter();
        let b = other.caseless_iter();
        chars_eq(a.as_slice(), b.as_slice())
    }
}

impl<S: TextSource, Rhs: TextSource> vstd::std_specs::cmp::PartialEqSpecImpl<CaseFold<Rhs>> for CaseFold<S> {
    open spec fn obeys_eq_spec() -> bool {
        true
    }

    open spec fn eq_spec(&self, other: &CaseFold<Rhs>) -> bool {
        fold_chars(self@) == fold_chars(other@)
    }
}

impl<S: TextSource> Eq for CaseFold<S> {

}

impl<S: TextSource> core::hash::Hash for CaseFold<S> {
    fn hash<H: core::hash::Hasher>(&self, state: &mut H) {
        let chunks = self.hash_chunks();
        write_all(state, &chunks);
    }
}

} // verus!
