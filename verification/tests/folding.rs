use casefold::ascii::{self, eq_ignore_ascii_case, to_ascii_uppercase, uppercase_bytes};
use casefold::order::sign_to_ordering;
use casefold::unicode::{self, chars_eq, encode_char, encode_chars, fold_str, folded_utf8};
use casefold::CaseFold;
use std::cmp::Ordering;
use std::hash::DefaultHasher;
use std::hash::Hasher;

#[test]
fn ascii_uppercase_bytes() {
    assert_eq!(to_ascii_uppercase(b'a'), b'A');
    assert_eq!(to_ascii_uppercase(b'z'), b'Z');
    assert_eq!(to_ascii_uppercase(b'A'), b'A');
    assert_eq!(to_ascii_uppercase(b'{'), b'{');
    assert_eq!(to_ascii_uppercase(0xe9), 0xe9);
    assert_eq!(uppercase_bytes(b"hello, World!"), b"HELLO, WORLD!".to_vec());
}

#[test]
fn ascii_eq_ignore_case() {
    assert!(eq_ignore_ascii_case(b"Hello", b"hELLO"));
    assert!(!eq_ignore_ascii_case(b"Hello", b"hELLO!"));
    assert!(!eq_ignore_ascii_case(b"Hello", b"Hellp"));
    assert!(eq_ignore_ascii_case(b"", b""));
    assert!(!eq_ignore_ascii_case("é".as_bytes(), "É".as_bytes()));
}

#[test]
fn ascii_bytes_wrapper() {
    let a = ascii::CaseFold::new(b"abc".to_vec());
    let b = ascii::CaseFold::new(b"ABC".to_vec());
    assert_eq!(a, b);
    assert_eq!(a.cmp(&b), Ordering::Equal);
    assert_eq!(a.caseless_iter(), b"ABC".to_vec());
    let c = ascii::CaseFold::new(&b"abd"[..]);
    assert_eq!(
        ascii::CaseFold::new(&b"ABC"[..]).cmp(&c),
        Ordering::Less
    );
    assert_eq!(c.cmp(&ascii::CaseFold::new(&b"AB"[..])), Ordering::Greater);
}

#[test]
fn ascii_hash_chunks_cut_every_sixteen_bytes() {
    let s = ascii::CaseFold::new("abcdefghijklmnopqrst");
    let chunks = s.hash_chunks();
    assert_eq!(chunks.len(), 2);
    assert_eq!(chunks[0], b"ABCDEFGHIJKLMNOP".to_vec());
    assert_eq!(chunks[1], b"QRST".to_vec());
    assert!(ascii::CaseFold::new("").hash_chunks().is_empty());
    let exact = ascii::CaseFold::new("0123456789abcdef").hash_chunks();
    assert_eq!(exact.len(), 1);
    assert_eq!(exact[0], b"0123456789ABCDEF".to_vec());
}

#[test]
fn unicode_folding() {
    assert_eq!(fold_str("Maße"), vec!['M', 'A', 'S', 'S', 'E']);
    assert_eq!(fold_str("ς"), vec!['Σ']);
    assert_eq!(fold_str(""), Vec::<char>::new());
    assert!(chars_eq(&['a', 'b'], &['a', 'b']));
    assert!(!chars_eq(&['a', 'b'], &['a']));
    assert!(!chars_eq(&['a', 'b'], &['a', 'c']));
}

#[test]
fn utf8_encoding() {
    assert_eq!(encode_char('a'), vec![0x61]);
    assert_eq!(encode_char('ß'), vec![0xc3, 0x9f]);
    assert_eq!(encode_char('€'), vec![0xe2, 0x82, 0xac]);
    assert_eq!(encode_char('𝄞'), vec![0xf0, 0x9d, 0x84, 0x9e]);
    assert_eq!(encode_chars(&['a', 'ß']), "aß".as_bytes().to_vec());
    assert_eq!(folded_utf8("straße"), "STRASSE".as_bytes().to_vec());
}

#[test]
fn unicode_hash_chunks_cut_after_sixteen_bytes() {
    let s = unicode::CaseFold::new("ßßßßßßßßß");
    let chunks = s.hash_chunks();
    assert_eq!(chunks.len(), 2);
    assert_eq!(chunks[0], "SSSSSSSS".repeat(2).as_bytes().to_vec());
    assert_eq!(chunks[1], b"SS".to_vec());
    let t = unicode::CaseFold::new("aaaaaaaaaaaaaaa€");
    let chunks = t.hash_chunks();
    assert_eq!(chunks.len(), 1);
    assert_eq!(chunks[0], "AAAAAAAAAAAAAAA€".as_bytes().to_vec());
}

#[test]
fn orders() {
    assert_eq!(sign_to_ordering(-1), Ordering::Less);
    assert_eq!(sign_to_ordering(0), Ordering::Equal);
    assert_eq!(sign_to_ordering(1), Ordering::Greater);
    assert_eq!(
        unicode::CaseFold::new("maße").cmp(&unicode::CaseFold::new("MASSE")),
        Ordering::Equal
    );
    assert_eq!(
        unicode::CaseFold::new("masse").cmp(&unicode::CaseFold::new("MASSF")),
        Ordering::Less
    );
    assert_eq!(CaseFold::new("ab").cmp(&CaseFold::new("A")), Ordering::Greater);
    assert_eq!(CaseFold::new("ß").cmp(&CaseFold::new("ss")), Ordering::Equal);
    assert!(CaseFold::new("b") > CaseFold::new("A"));
}

#[test]
fn case_fold_paths_agree() {
    let ascii_text = "Hello, World";
    assert!(CaseFold::new(ascii_text).is_ascii());
    assert_eq!(
        CaseFold::new(ascii_text).hash_chunks(),
        unicode::CaseFold::new(ascii_text).hash_chunks()
    );
    assert_eq!(
        ascii::CaseFold::new(ascii_text).hash_chunks(),
        unicode::CaseFold::new(ascii_text).hash_chunks()
    );
    assert_eq!(CaseFold::new("ABC"), CaseFold::new("abc"));
    assert_eq!(CaseFold::new("ABC"), CaseFold::new("abç".replace('ç', "c").as_str()));
    assert_ne!(CaseFold::new("abc"), CaseFold::new("abç"));
    assert_eq!(CaseFold::<&str>::const_new("ß"), CaseFold::new("SS"));
    assert_eq!(
        CaseFold::<String>::const_new("Ǆ".to_string()),
        CaseFold::new("ǆ".to_string())
    );
}

#[test]
fn hash_into_default_hasher() {
    let mut a = DefaultHasher::new();
    CaseFold::new("Maße").hash_into(&mut a);
    let mut b = DefaultHasher::new();
    unicode::CaseFold::new("MASSE").hash_into(&mut b);
    assert_eq!(a.finish(), b.finish());
    let mut c = DefaultHasher::new();
    ascii::CaseFold::new("fOO").hash_into(&mut c);
    let mut d = DefaultHasher::new();
    CaseFold::new("Foo").hash_into(&mut d);
    assert_eq!(c.finish(), d.finish());
}

#[test]
fn wrappers_give_back_their_contents() {
    let s = CaseFold::new(String::from("Text"));
    assert_eq!(s.as_str(), "Text");
    assert_eq!(s.as_ascii().as_str(), "Text");
    assert_eq!(s.as_unicode().as_str(), "Text");
    assert_eq!(s.clone().as_str(), "Text");
    let u = unicode::CaseFold::new("x");
    assert_eq!(u.into_inner(), "x");
    let a = ascii::CaseFold::new("y");
    assert_eq!(*a.get_ref(), "y");
}

#[test]
fn wrappers_from_values() {
    let a: ascii::CaseFold<&str> = "Abc".into();
    assert_eq!(a, ascii::CaseFold::new("aBC"));
    let u: unicode::CaseFold<String> = String::from("Groß").into();
    assert_eq!(u, unicode::CaseFold::new(String::from("GROSS")));
    let c: CaseFold<&str> = CaseFold::from("x");
    assert!(c.is_ascii());
}

#[test]
fn wrappers_deref_to_contents() {
    let a = ascii::CaseFold::new("abc");
    assert_eq!(a.len(), 3);
    let u = unicode::CaseFold::new(String::from("Groß"));
    assert_eq!(u.chars().count(), 4);
    let c = CaseFold::new("xyz");
    assert!(c.starts_with("xy"));
}

#[test]
fn wrappers_can_be_changed_in_place() {
    let mut a = ascii::CaseFold::new(String::from("abc"));
    a.get_mut().push('D');
    assert_eq!(a, ascii::CaseFold::new(String::from("ABCd")));
    let mut u = unicode::CaseFold::new(String::from("gro"));
    u.get_mut().push('ß');
    assert_eq!(u, unicode::CaseFold::new(String::from("GROSS")));
}

#[test]
fn wrappers_compare_across_inner_types() {
    assert_eq!(ascii::CaseFold::new("abc"), ascii::CaseFold::new(String::from("ABC")));
    assert_eq!(ascii::CaseFold::new("abc"), ascii::CaseFold::new(b"ABC".to_vec()));
    assert!(ascii::CaseFold::new("abc") < ascii::CaseFold::new(String::from("ABD")));
    assert_eq!(unicode::CaseFold::new("Maße"), unicode::CaseFold::new(String::from("MASSE")));
    assert!(unicode::CaseFold::new("a") < unicode::CaseFold::new(String::from("B")));
    assert_eq!(CaseFold::new("Maße"), CaseFold::new(String::from("masse")));
    assert_ne!(CaseFold::new("Maße"), CaseFold::new(String::from("mase")));
    assert!(CaseFold::new("A") < CaseFold::new(String::from("b")));
    assert!(CaseFold::new(String::from("ß")) > CaseFold::new("sr"));
}

#[test]
fn hashing_writes_nothing_only_for_empty_text() {
    assert!(ascii::CaseFold::new("").hash_chunks().is_empty());
    assert!(unicode::CaseFold::new("").hash_chunks().is_empty());
    assert!(CaseFold::new("").hash_chunks().is_empty());
    assert_eq!(ascii::CaseFold::new("a").hash_chunks().len(), 1);
    assert_eq!(unicode::CaseFold::new("ß").hash_chunks().len(), 1);
    assert_eq!(CaseFold::new("é").hash_chunks().len(), 1);
}

#[test]
fn folding_never_shrinks_the_text() {
    let s = unicode::CaseFold::new("ﬃ ß é");
    assert!(s.caseless_iter().len() >= "ﬃ ß é".chars().count());
    assert_eq!(s.caseless_iter().into_iter().collect::<String>(), "ﬃ ß é".to_uppercase());
}

#[test]
fn wrappers_parse_from_str() {
    let a: ascii::CaseFold<String> = "Hello".parse().unwrap();
    assert_eq!(a.get_ref(), "Hello");
    assert_eq!(a, ascii::CaseFold::new("HELLO"));
    let u: unicode::CaseFold<String> = "Straße".parse().unwrap();
    assert_eq!(u, unicode::CaseFold::new("STRASSE"));
}
