//! Lexicographic order of folded contents.
use vstd::prelude::*;
use core::cmp::Ordering;
use vstd::std_specs::cmp::PartialOrdSpecImpl;
use crate::source::{ByteSource, TextSource};
use crate::ascii::{self, byte_ints, upper_bytes};
use crate::unicode::{self, char_ints, fold_chars};
use crate::case_fold::CaseFold;
use crate::laws::{lemma_ascii_fold_bytes, lemma_char_ints_injective, lemma_byte_ints_injective};
use vstd::utf8::encode_utf8;

verus! {

/// Lexicographic comparison of two integer sequences, as a sign: `-1` when `a` comes
/// first, `1` when `b` does, `0` when they are equal. The first difference decides, and a
/// proper prefix comes first.
pub open spec fn lex_sign(a: Seq<int>, b: Seq<int>) -> int
    decreases a.len(),
{
    if a.len() == 0 {
        if b.len() == 0 {
            0
        } else {
            -1
        }
    } else if b.len() == 0 {
        1
    } else if a[0] < b[0] {
        -1
    } else if a[0] > b[0] {
        1
    } else {
        lex_sign(a.drop_first(), b.drop_first())
    }
}

/// Two sequences compare equal exactly when they are the same sequence.
pub proof fn law_lex_equal(a: Seq<int>, b: Seq<int>)
    ensures
        (lex_sign(a, b) == 0) == (a == b),
    decreases a.len(),
{
    if a.len() > 0 && b.len() > 0 && a[0] == b[0] {
        law_lex_equal(a.drop_first(), b.drop_first());
        if a.drop_first() == b.drop_first() {
            assert forall|i: int| 0 <= i < a.len() implies a[i] == b[i] by {
                if i > 0 {
                    assert(a[i] == a.drop_first()[i - 1]);
                    assert(b[i] == b.drop_first()[i - 1]);
                }
            }
            assert(a =~= b);
        } else if a == b {
            assert(a.drop_first() =~= b.drop_first());
        }
    } else if a.len() == 0 && b.len() == 0 {
        assert(a =~= b);
    } else if a.len() > 0 && b.len() > 0 {
        assert(a[0] != b[0]);
    }
}

/// Swapping the two sides negates the sign.
pub proof fn law_lex_antisymmetric(a: Seq<int>, b: Seq<int>)
    ensures
        lex_sign(a, b) == -lex_sign(b, a),
    decreases a.len(),
{
    if a.len() > 0 && b.len() > 0 && a[0] == b[0] {
        law_lex_antisymmetric(a.drop_first(), b.drop_first());
    }
}

/// The order is transitive, and strictly so when one of the steps is strict.
pub proof fn law_lex_transitive(a: Seq<int>, b: Seq<int>, c: Seq<int>)
    requires
        lex_sign(a, b) <= 0,
        lex_sign(b, c) <= 0,
    ensures
        lex_sign(a, c) <= 0,
        lex_sign(a, b) < 0 || lex_sign(b, c) < 0 ==> lex_sign(a, c) < 0,
    decreases a.len(),
{
    if a.len() > 0 && b.len() > 0 && c.len() > 0 && a[0] == b[0] && b[0] == c[0] {
        law_lex_transitive(a.drop_first(), b.drop_first(), c.drop_first());
    }
}

/// The `Ordering` that a sign stands for.
pub open spec fn ordering_of(s: int) -> Ordering {
    if s < 0 {
        Ordering::Less
    } else if s > 0 {
        Ordering::Greater
    } else {
        Ordering::Equal
    }
}

/// The `Ordering` that a sign stands for.
pub fn sign_to_ordering(s: i8) -> (r: Ordering)
    ensures
        s < 0 ==> r == Ordering::Less,
        s > 0 ==> r == Ordering::Greater,
        s == 0 ==> r == Ordering::Equal,
{
    if s < 0 {
        Ordering::Less
    } else if s > 0 {
        Ordering::Greater
    } else {
        Ordering::Equal
    }
}

/// The order of two ASCII-folded byte strings.
pub open spec fn ascii_order(a: Seq<u8>, b: Seq<u8>) -> Ordering {
    ordering_of(lex_sign(byte_ints(upper_bytes(a)), byte_ints(upper_bytes(b))))
}

/// The order of two Unicode-folded texts.
pub open spec fn unicode_order(a: Seq<char>, b: Seq<char>) -> Ordering {
    ordering_of(lex_sign(char_ints(fold_chars(a)), char_ints(fold_chars(b))))
}

impl<S: ByteSource> ascii::CaseFold<S> {
    /// Compares the ASCII upper-case forms lexicographically.
    pub fn cmp(&self, other: &Self) -> (r: Ordering)
        ensures
            r == ascii_order(self@, other@),
    {
        let a = self.caseless_iter();
        let b = other.caseless_iter();
        sign_to_ordering(ascii::compare_byte_slices(a.as_slice(), b.as_slice()))
    }
}

impl<S: ByteSource, Rhs: ByteSource> PartialOrd<ascii::CaseFold<Rhs>> for ascii::CaseFold<S> {
    fn partial_cmp(&self, other: &ascii::CaseFold<Rhs>) -> (r: Option<Ordering>) {
        let a = self.caseless_iter();
        let b = other.caseless_iter();
        Some(sign_to_ordering(ascii::compare_byte_slices(a.as_slice(), b.as_slice())))
    }
}

impl<S: ByteSource, Rhs: ByteSource> PartialOrdSpecImpl<ascii::CaseFold<Rhs>> for ascii::CaseFold<S> {
    open spec fn obeys_partial_cmp_spec() -> bool {
        true
    }

    open spec fn partial_cmp_spec(&self, other: &ascii::CaseFold<Rhs>) -> Option<Ordering> {
        Some(ascii_order(self@, other@))
    }
}

impl<S: TextSource> unicode::CaseFold<S> {
    /// Compares the Unicode upper-case forms lexicographically.
    pub fn cmp(&self, other: &Self) -> (r: Ordering)
        ensures
            r == unicode_order(self@, other@),
    {
        let a = self.caseless_iter();
        let b = other.caseless_iter();
        sign_to_ordering(unicode::compare_char_slices(a.as_slice(), b.as_slice()))
    }
}

impl<S: TextSource, Rhs: TextSource> PartialOrd<unicode::CaseFold<Rhs>> for unicode::CaseFold<S> {
    fn partial_cmp(&self, other: &unicode::CaseFold<Rhs>) -> (r: Option<Ordering>) {
        let a = self.caseless_iter();
        let b = other.caseless_iter();
        Some(sign_to_ordering(unicode::compare_char_slices(a.as_slice(), b.as_slice())))
    }
}

impl<S: TextSource, Rhs: TextSource> PartialOrdSpecImpl<unicode::CaseFold<Rhs>> for unicode::CaseFold<S> {
    open spec fn obeys_partial_cmp_spec() -> bool {
        true
    }

    open spec fn partial_cmp_spec(&self, other: &unicode::CaseFold<Rhs>) -> Option<Ordering> {
        Some(unicode_order(self@, other@))
    }
}

impl<S: TextSource> CaseFold<S> {
    /// Compares the Unicode upper-case forms lexicographically, on bytes when both texts are
    /// ASCII.
    pub fn cmp(&self, other: &Self) -> (r: Ordering)
        ensures
            r == unicode_order(self@, other@),
    {
        if self.is_ascii() && other.is_ascii() {
            proof {
                law_ascii_order_agrees_with_unicode(self@, other@);
            }
            self.as_ascii().cmp(&other.as_ascii())
        } else {
            self.as_unicode().cmp(&other.as_unicode())
        }
    }
}

impl<S: TextSource, Rhs: TextSource> PartialOrd<CaseFold<Rhs>> for CaseFold<S> {
    fn partial_cmp(&self, other: &CaseFold<Rhs>) -> (r: Option<Ordering>) {
        if self.is_ascii() && other.is_ascii() {
            proof {
                law_ascii_order_agrees_with_unicode(self@, other@);
            }
            Some(self.as_ascii().cmp(&other.as_ascii()))
        } else {
            Some(self.as_unicode().cmp(&other.as_unicode()))
        }
    }
}

impl<S: TextSource, Rhs: TextSource> PartialOrdSpecImpl<CaseFold<Rhs>> for CaseFold<S> {
    open spec fn obeys_partial_cmp_spec() -> bool {
        true
    }

    open spec fn partial_cmp_spec(&self, other: &CaseFold<Rhs>) -> Option<Ordering> {
        Some(unicode_order(self@, other@))
    }
}

/// The Unicode order is a total order on folded forms: it says `Equal` exactly when the
/// folded forms are equal (when `==` holds), swapping the sides swaps `Less` and `Greater`,
/// and it is transitive.
pub proof fn law_unicode_order(a: Seq<char>, b: Seq<char>, c: Seq<char>)
    ensures
        (unicode_order(a, b) == Ordering::Equal) == (fold_chars(a) == fold_chars(b)),
        (unicode_order(a, b) == Ordering::Less) == (unicode_order(b, a) == Ordering::Greater),
        unicode_order(a, b) != Ordering::Greater && unicode_order(b, c) != Ordering::Greater
            ==> unicode_order(a, c) != Ordering::Greater,
        unicode_order(a, b) == Ordering::Less && unicode_order(b, c) == Ordering::Less
            ==> unicode_order(a, c) == Ordering::Less,
{
    let x = char_ints(fold_chars(a));
    let y = char_ints(fold_chars(b));
    let z = char_ints(fold_chars(c));
    law_lex_equal(x, y);
    lemma_char_ints_injective(fold_chars(a), fold_chars(b));
    law_lex_antisymmetric(x, y);
    if lex_sign(x, y) <= 0 && lex_sign(y, z) <= 0 {
        law_lex_transitive(x, y, z);
    }
}

/// The ASCII order is a total order on upper-case forms: it says `Equal` exactly when the
/// upper-case forms are equal (when `==` holds), swapping the sides swaps `Less` and
/// `Greater`, and it is transitive.
pub proof fn law_ascii_order(a: Seq<u8>, b: Seq<u8>, c: Seq<u8>)
    ensures
        (ascii_order(a, b) == Ordering::Equal) == (upper_bytes(a) == upper_bytes(b)),
        (ascii_order(a, b) == Ordering::Less) == (ascii_order(b, a) == Ordering::Greater),
        ascii_order(a, b) != Ordering::Greater && ascii_order(b, c) != Ordering::Greater
            ==> ascii_order(a, c) != Ordering::Greater,
        ascii_order(a, b) == Ordering::Less && ascii_order(b, c) == Ordering::Less
            ==> ascii_order(a, c) == Ordering::Less,
{
    let x = byte_ints(upper_bytes(a));
    let y = byte_ints(upper_bytes(b));
    let z = byte_ints(upper_bytes(c));
    law_lex_equal(x, y);
    lemma_byte_ints_injective(upper_bytes(a), upper_bytes(b));
    law_lex_antisymmetric(x, y);
    if lex_sign(x, y) <= 0 && lex_sign(y, z) <= 0 {
        law_lex_transitive(x, y, z);
    }
}

/// For ASCII texts, the ASCII order and the Unicode order agree.
pub proof fn law_ascii_order_agrees_with_unicode(s: Seq<char>, t: Seq<char>)
    requires
        vstd::utf8::is_ascii_chars(s),
        vstd::utf8::is_ascii_chars(t),
    ensures
        ascii_order(encode_utf8(s), encode_utf8(t)) == unicode_order(s, t),
{
    lemma_ascii_fold_bytes(s);
    lemma_ascii_fold_bytes(t);
}

} // verus!
