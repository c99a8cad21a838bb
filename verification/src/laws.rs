//! What holds across the wrappers.
use vstd::prelude::*;
use vstd::utf8::{encode_utf8, encode_scalar, is_ascii_chars, is_ascii_chars_encode_utf8};
use crate::ascii::{upper_byte, upper_bytes, byte_ints, byte_chunks, ascii_hash_chunks};
use std::hash::DefaultHasher;
use vstd::std_specs::hash::DefaultHasherAdditionalSpecFns;
use vstd::seq_lib::lemma_flatten_concat;
use vstd::utf8::encode_utf8_decode_utf8;
use crate::case_fold::text_key;
use crate::hashing::hash_stream;
use crate::unicode::{
    ascii_upper_char, is_ascii_char, upper_chars, fold_chars, char_ints, utf8_chunks,
    unicode_hash_chunks,
};

verus! {

/// The byte of an ASCII character.
pub open spec fn ascii_byte(c: char) -> u8 {
    c as u8
}

/// On an ASCII character, upper-casing its byte and upper-casing the character agree, and
/// the result is ASCII.
pub proof fn lemma_upper_ascii_char(c: char)
    requires
        is_ascii_char(c),
    ensures
        is_ascii_char(ascii_upper_char(c)),
        upper_byte(ascii_byte(c)) == ascii_byte(ascii_upper_char(c)),
        upper_byte(ascii_byte(c)) as int == ascii_upper_char(c) as int,
        ascii_byte(c) as int == c as int,
{
}

/// The bytes of ASCII characters.
pub open spec fn ascii_bytes(s: Seq<char>) -> Seq<u8> {
    s.map_values(|c: char| ascii_byte(c))
}

/// Folding ASCII text upper-cases each character on its own.
pub proof fn lemma_fold_ascii(s: Seq<char>)
    requires
        is_ascii_chars(s),
    ensures
        fold_chars(s) == s.map_values(|c: char| ascii_upper_char(c)),
    decreases s.len(),
{
    if s.len() > 0 {
        let t = s.drop_last();
        assert(is_ascii_chars(t)) by {
            assert forall|i: int| 0 <= i < t.len() implies '\0' <= #[trigger] t[i] <= '\u{7f}' by {
                assert(t[i] == s[i]);
            }
        }
        lemma_fold_ascii(t);
        assert(is_ascii_char(s.last()));
        assert(s.map_values(|c: char| ascii_upper_char(c)) =~= t.map_values(
            |c: char| ascii_upper_char(c),
        ) + seq![ascii_upper_char(s.last())]);
    }
}

/// For ASCII text, the ASCII upper-case form of its UTF-8 bytes is the byte form of its
/// folded characters, which are ASCII too.
pub proof fn lemma_ascii_fold_bytes(s: Seq<char>)
    requires
        is_ascii_chars(s),
    ensures
        is_ascii_chars(fold_chars(s)),
        upper_bytes(encode_utf8(s)) == ascii_bytes(fold_chars(s)),
        byte_ints(upper_bytes(encode_utf8(s))) == char_ints(fold_chars(s)),
{
    lemma_fold_ascii(s);
    is_ascii_chars_encode_utf8(s);
    let f = fold_chars(s);
    assert forall|i: int| 0 <= i < f.len() implies '\0' <= #[trigger] f[i] <= '\u{7f}' by {
        lemma_upper_ascii_char(s[i]);
    }
    assert forall|i: int| 0 <= i < f.len() implies #[trigger] upper_bytes(encode_utf8(s))[i]
        == ascii_bytes(f)[i] by {
        lemma_upper_ascii_char(s[i]);
    }
    assert(upper_bytes(encode_utf8(s)) =~= ascii_bytes(f));
    assert forall|i: int| 0 <= i < f.len() implies #[trigger] byte_ints(
        upper_bytes(encode_utf8(s)),
    )[i] == char_ints(f)[i] by {
        lemma_upper_ascii_char(s[i]);
    }
    assert(byte_ints(upper_bytes(encode_utf8(s))) =~= char_ints(f));
}

/// The UTF-8 encoding of an ASCII character is its byte.
pub proof fn lemma_encode_ascii_char(c: char)
    requires
        is_ascii_char(c),
    ensures
        encode_scalar(c as u32) == seq![ascii_byte(c)],
{
    let v = c as u32;
    assert(v <= 0x7f);
    assert((v & 0x7f) as u8 == v as u8) by (bit_vector)
        requires
            v <= 0x7f,
    ;
    assert(encode_scalar(v) =~= seq![ascii_byte(c)]);
}

/// On ASCII characters, cutting UTF-8 bytes into hasher writes is cutting their bytes.
pub proof fn lemma_utf8_chunks_ascii(cs: Seq<char>, acc: Seq<u8>)
    requires
        is_ascii_chars(cs),
    ensures
        utf8_chunks(cs, acc) == byte_chunks(ascii_bytes(cs), acc),
    decreases cs.len(),
{
    if cs.len() > 0 {
        let c = cs[0];
        let rest = cs.drop_first();
        assert(is_ascii_char(c));
        lemma_encode_ascii_char(c);
        let bs = ascii_bytes(cs);
        assert(bs.drop_first() =~= ascii_bytes(rest));
        assert(acc + encode_scalar(c as u32) =~= acc.push(bs[0]));
        assert(is_ascii_chars(rest)) by {
            assert forall|i: int| 0 <= i < rest.len() implies '\0' <= #[trigger] rest[i]
                <= '\u{7f}' by {
                assert(rest[i] == cs[i + 1]);
            }
        }
        lemma_utf8_chunks_ascii(rest, acc.push(bs[0]));
        lemma_utf8_chunks_ascii(rest, seq![]);
    }
}

/// For ASCII text, the ASCII wrapper and the Unicode wrapper hand a hasher the same writes.
pub proof fn law_ascii_hash_agrees_with_unicode(s: Seq<char>)
    requires
        is_ascii_chars(s),
    ensures
        ascii_hash_chunks(encode_utf8(s)) == unicode_hash_chunks(s),
{
    lemma_ascii_fold_bytes(s);
    lemma_utf8_chunks_ascii(fold_chars(s), seq![]);
}

/// For ASCII texts, ASCII equality and Unicode equality agree.
pub proof fn law_ascii_eq_agrees_with_unicode(s: Seq<char>, t: Seq<char>)
    requires
        is_ascii_chars(s),
        is_ascii_chars(t),
    ensures
        (upper_bytes(encode_utf8(s)) == upper_bytes(encode_utf8(t))) == (fold_chars(s)
            == fold_chars(t)),
{
    lemma_ascii_fold_bytes(s);
    lemma_ascii_fold_bytes(t);
    let fs = fold_chars(s);
    let ft = fold_chars(t);
    if ascii_bytes(fs) == ascii_bytes(ft) {
        assert(char_ints(fs) == char_ints(ft));
        assert forall|i: int| 0 <= i < fs.len() implies fs[i] == ft[i] by {
            assert(char_ints(fs)[i] == char_ints(ft)[i]);
        }
        assert(fs =~= ft);
    }
}

/// Sequences of integers standing for characters are the same exactly when the characters
/// are.
pub proof fn lemma_char_ints_injective(x: Seq<char>, y: Seq<char>)
    ensures
        (char_ints(x) == char_ints(y)) == (x == y),
{
    if char_ints(x) == char_ints(y) {
        assert(x.len() == char_ints(x).len() && y.len() == char_ints(y).len());
        assert forall|i: int| 0 <= i < x.len() implies x[i] == y[i] by {
            assert(char_ints(x)[i] == char_ints(y)[i]);
            assert(char_ints(x)[i] == x[i] as int);
            assert(char_ints(y)[i] == y[i] as int);
        }
        assert(x =~= y);
    }
}

/// Sequences of integers standing for bytes are the same exactly when the bytes are.
pub proof fn lemma_byte_ints_injective(x: Seq<u8>, y: Seq<u8>)
    ensures
        (byte_ints(x) == byte_ints(y)) == (x == y),
{
    if byte_ints(x) == byte_ints(y) {
        assert(x.len() == byte_ints(x).len() && y.len() == byte_ints(y).len());
        assert forall|i: int| 0 <= i < x.len() implies x[i] == y[i] by {
            assert(byte_ints(x)[i] == byte_ints(y)[i]);
            assert(byte_ints(x)[i] == x[i] as int);
            assert(byte_ints(y)[i] == y[i] as int);
        }
        assert(x =~= y);
    }
}

/// Cutting bytes into hasher writes loses and reorders nothing.
pub proof fn lemma_byte_chunks_flatten(s: Seq<u8>, acc: Seq<u8>)
    ensures
        byte_chunks(s, acc).flatten() == acc + s,
    decreases s.len(),
{
    if s.len() == 0 {
        if acc.len() > 0 {
            seq![acc].lemma_flatten_singleton();
        }
        assert(acc + s =~= acc);
    } else {
        let next = acc.push(s[0]);
        lemma_byte_chunks_flatten(s.drop_first(), next);
        lemma_byte_chunks_flatten(s.drop_first(), seq![]);
        let rest = byte_chunks(s.drop_first(), seq![]);
        assert((seq![next] + rest).drop_first() =~= rest);
        assert(next + s.drop_first() =~= acc + s);
        assert(Seq::<u8>::empty() + s.drop_first() =~= s.drop_first());
    }
}

/// Cutting UTF-8 bytes into hasher writes loses and reorders nothing.
pub proof fn lemma_utf8_chunks_flatten(cs: Seq<char>, acc: Seq<u8>)
    ensures
        utf8_chunks(cs, acc).flatten() == acc + encode_utf8(cs),
    decreases cs.len(),
{
    if cs.len() == 0 {
        if acc.len() > 0 {
            seq![acc].lemma_flatten_singleton();
        }
        assert(acc + encode_utf8(cs) =~= acc);
    } else {
        let next = acc + encode_scalar(cs[0] as u32);
        lemma_utf8_chunks_flatten(cs.drop_first(), next);
        lemma_utf8_chunks_flatten(cs.drop_first(), seq![]);
        let rest = utf8_chunks(cs.drop_first(), seq![]);
        assert((seq![next] + rest).drop_first() =~= rest);
        assert(next + encode_utf8(cs.drop_first()) =~= acc + encode_utf8(cs));
        assert(Seq::<u8>::empty() + encode_utf8(cs.drop_first()) =~= encode_utf8(cs.drop_first()));
    }
}

/// What a hasher receives for a value is its writes run together, then the terminator.
pub proof fn lemma_hash_stream(w: Seq<Seq<u8>>)
    ensures
        hash_stream(w) == w.flatten().push(0xffu8),
{
    lemma_flatten_concat(w, seq![seq![0xffu8]]);
    seq![seq![0xffu8]].lemma_flatten_singleton();
    assert(w.flatten() + seq![0xffu8] =~= w.flatten().push(0xffu8));
}

/// Whether a byte string holds the byte `0xff`.
pub open spec fn holds_ff(s: Seq<u8>) -> bool {
    exists|i: int| 0 <= i < s.len() && s[i] == 0xffu8
}

/// No byte of a UTF-8 encoded scalar is `0xff`.
pub proof fn lemma_encode_scalar_no_ff(v: u32)
    ensures
        !holds_ff(encode_scalar(v)),
{
    assert((v & 0x7f) as u8 != 0xffu8) by (bit_vector);
    assert((0xC0u8 | ((v >> 6) & 0x1F) as u8) != 0xffu8) by (bit_vector);
    assert((0xE0u8 | ((v >> 12) & 0x0F) as u8) != 0xffu8) by (bit_vector);
    assert((0xF0u8 | ((v >> 18) & 0x7) as u8) != 0xffu8) by (bit_vector);
    assert((0x80u8 | (v & 0x3F) as u8) != 0xffu8) by (bit_vector);
    assert((0x80u8 | ((v >> 6) & 0x3F) as u8) != 0xffu8) by (bit_vector);
    assert((0x80u8 | ((v >> 12) & 0x3F) as u8) != 0xffu8) by (bit_vector);
}

/// No byte of UTF-8 encoded text is `0xff`.
pub proof fn lemma_encode_utf8_no_ff(cs: Seq<char>)
    ensures
        !holds_ff(encode_utf8(cs)),
    decreases cs.len(),
{
    if cs.len() > 0 {
        let first = encode_scalar(cs[0] as u32);
        let rest = encode_utf8(cs.drop_first());
        lemma_encode_scalar_no_ff(cs[0] as u32);
        lemma_encode_utf8_no_ff(cs.drop_first());
        assert forall|i: int| 0 <= i < encode_utf8(cs).len() implies #[trigger] encode_utf8(
            cs,
        )[i] != 0xffu8 by {
            if i < first.len() {
                assert(encode_utf8(cs)[i] == first[i]);
            } else {
                assert(encode_utf8(cs)[i] == rest[i - first.len()]);
            }
        }
    }
}

/// When two streams each start with a run free of `0xff` closed by `0xff`, and are equal,
/// the runs are equal and so is what follows them.
pub proof fn lemma_split_at_terminator(u: Seq<u8>, x: Seq<u8>, v: Seq<u8>, y: Seq<u8>)
    requires
        !holds_ff(u),
        !holds_ff(v),
        u.push(0xffu8) + x == v.push(0xffu8) + y,
    ensures
        u == v,
        x == y,
{
    let l = u.push(0xffu8) + x;
    let r = v.push(0xffu8) + y;
    if u.len() < v.len() {
        assert(l[u.len() as int] == 0xffu8);
        assert(r[u.len() as int] == v[u.len() as int]);
    } else if v.len() < u.len() {
        assert(r[v.len() as int] == 0xffu8);
        assert(l[v.len() as int] == u[v.len() as int]);
    } else {
        assert forall|i: int| 0 <= i < u.len() implies u[i] == v[i] by {
            assert(l[i] == r[i]);
        }
        assert(u =~= v);
        assert(x =~= l.skip(u.len() as int + 1));
        assert(y =~= r.skip(v.len() as int + 1));
    }
}

/// Equal values hand a hasher the same writes: hashing respects the ASCII wrapper's `==`,
/// and so `DefaultHasher` gives them the same digest.
pub proof fn law_ascii_hash_respects_eq(a: Seq<u8>, b: Seq<u8>, h: Seq<Seq<u8>>)
    requires
        upper_bytes(a) == upper_bytes(b),
    ensures
        ascii_hash_chunks(a) == ascii_hash_chunks(b),
        DefaultHasher::spec_finish(h + ascii_hash_chunks(a) + seq![seq![0xffu8]])
            == DefaultHasher::spec_finish(h + ascii_hash_chunks(b) + seq![seq![0xffu8]]),
{
}

/// Equal values hand a hasher the same writes: hashing respects the Unicode wrapper's `==`
/// (and that of `CaseFold`, which has the same writes), and so `DefaultHasher` gives them
/// the same digest.
pub proof fn law_unicode_hash_respects_eq(a: Seq<char>, b: Seq<char>, h: Seq<Seq<u8>>)
    requires
        fold_chars(a) == fold_chars(b),
    ensures
        unicode_hash_chunks(a) == unicode_hash_chunks(b),
        DefaultHasher::spec_finish(h + unicode_hash_chunks(a) + seq![seq![0xffu8]])
            == DefaultHasher::spec_finish(h + unicode_hash_chunks(b) + seq![seq![0xffu8]]),
{
}

/// The byte stream that hashing a text hands a hasher is the UTF-8 encoding of its folded
/// form, then `0xff`.
pub proof fn lemma_unicode_stream(s: Seq<char>)
    ensures
        hash_stream(unicode_hash_chunks(s)) == encode_utf8(fold_chars(s)).push(0xffu8),
{
    lemma_hash_stream(unicode_hash_chunks(s));
    lemma_utf8_chunks_flatten(fold_chars(s), seq![]);
    assert(Seq::<u8>::empty() + encode_utf8(fold_chars(s)) =~= encode_utf8(fold_chars(s)));
}

/// The byte stream that hashing a byte string hands a hasher is its ASCII upper-case form,
/// then `0xff`.
pub proof fn lemma_ascii_stream(b: Seq<u8>)
    ensures
        hash_stream(ascii_hash_chunks(b)) == upper_bytes(b).push(0xffu8),
{
    lemma_hash_stream(ascii_hash_chunks(b));
    lemma_byte_chunks_flatten(upper_bytes(b), seq![]);
    assert(Seq::<u8>::empty() + upper_bytes(b) =~= upper_bytes(b));
}

/// Hashing texts one after another is unambiguous: when the streams for `a` then `b` equal
/// those for `c` then `d`, `a` equals `c` and `b` equals `d` (ignoring case).
pub proof fn law_unicode_hash_prefix_free(a: Seq<char>, b: Seq<char>, c: Seq<char>, d: Seq<char>)
    requires
        hash_stream(unicode_hash_chunks(a)) + hash_stream(unicode_hash_chunks(b)) == hash_stream(
            unicode_hash_chunks(c),
        ) + hash_stream(unicode_hash_chunks(d)),
    ensures
        fold_chars(a) == fold_chars(c),
        fold_chars(b) == fold_chars(d),
{
    lemma_unicode_stream(a);
    lemma_unicode_stream(b);
    lemma_unicode_stream(c);
    lemma_unicode_stream(d);
    let ea = encode_utf8(fold_chars(a));
    let eb = encode_utf8(fold_chars(b));
    let ec = encode_utf8(fold_chars(c));
    let ed = encode_utf8(fold_chars(d));
    lemma_encode_utf8_no_ff(fold_chars(a));
    lemma_encode_utf8_no_ff(fold_chars(c));
    lemma_split_at_terminator(ea, eb.push(0xffu8), ec, ed.push(0xffu8));
    assert(eb =~= eb.push(0xffu8).drop_last());
    assert(ed =~= ed.push(0xffu8).drop_last());
    encode_utf8_decode_utf8(fold_chars(a));
    encode_utf8_decode_utf8(fold_chars(b));
    encode_utf8_decode_utf8(fold_chars(c));
    encode_utf8_decode_utf8(fold_chars(d));
}

/// Hashing byte strings one after another is unambiguous as long as the first of each pair
/// holds no `0xff` (text never does): when the streams for `a` then `b` equal those for `c`
/// then `d`, `a` equals `c` and `b` equals `d` (ignoring ASCII case).
pub proof fn law_ascii_hash_prefix_free(a: Seq<u8>, b: Seq<u8>, c: Seq<u8>, d: Seq<u8>)
    requires
        !holds_ff(a),
        !holds_ff(c),
        hash_stream(ascii_hash_chunks(a)) + hash_stream(ascii_hash_chunks(b)) == hash_stream(
            ascii_hash_chunks(c),
        ) + hash_stream(ascii_hash_chunks(d)),
    ensures
        upper_bytes(a) == upper_bytes(c),
        upper_bytes(b) == upper_bytes(d),
{
    lemma_ascii_stream(a);
    lemma_ascii_stream(b);
    lemma_ascii_stream(c);
    lemma_ascii_stream(d);
    assert(!holds_ff(upper_bytes(a))) by {
        if holds_ff(upper_bytes(a)) {
            let i = choose|i: int| 0 <= i < upper_bytes(a).len() && upper_bytes(a)[i] == 0xffu8;
            assert(a[i] == 0xffu8);
        }
    }
    assert(!holds_ff(upper_bytes(c))) by {
        if holds_ff(upper_bytes(c)) {
            let i = choose|i: int| 0 <= i < upper_bytes(c).len() && upper_bytes(c)[i] == 0xffu8;
            assert(c[i] == 0xffu8);
        }
    }
    let ub = upper_bytes(b);
    let ud = upper_bytes(d);
    lemma_split_at_terminator(upper_bytes(a), ub.push(0xffu8), upper_bytes(c), ud.push(0xffu8));
    assert(ub =~= ub.push(0xffu8).drop_last());
    assert(ud =~= ud.push(0xffu8).drop_last());
}

/// Two texts share an entry of a `CaseFoldMap` exactly when they are equal ignoring case:
/// the UTF-8 bytes of folded forms are equal exactly when the folded forms are.
pub proof fn law_text_key_matches_eq(a: Seq<char>, b: Seq<char>)
    ensures
        (text_key(a) == text_key(b)) == (fold_chars(a) == fold_chars(b)),
{
    encode_utf8_decode_utf8(fold_chars(a));
    encode_utf8_decode_utf8(fold_chars(b));
}

} // verus!
