use casefold::{ascii, unicode, CaseFold};
use std::hash::{DefaultHasher, Hash, Hasher};

const ENCODE_ASCII: &str =
    "abcdefghijklmnopqrstuvwxyzabcdefghijklmnopqrstuvwxyzabcdefghijklmnopqrstuvwxyz";

const ENCODE_UTF8: &str =
    "abcdefghijklmnopqrstuvwxyzabcdefghijklmnopqrstuvwxyzabcdefghijklmnopqrstuvwxyß";

fn hash<T: Hash>(t: &T) -> u64 {
    let mut s = DefaultHasher::new();
    t.hash(&mut s);
    s.finish()
}

#[test]
fn case_fold_eq() {
    assert_eq!(CaseFold::new("Maße"), CaseFold::new("MASSE"));
    assert_eq!(CaseFold::new("στιγμας"), CaseFold::new("στιγμασ"));
    assert_ne!(CaseFold::new("στιγμας"), CaseFold::new("στιγμαα"));
}

#[test]
fn case_fold_cmp() {
    assert!(CaseFold::new("a") < CaseFold::new("B"));
    assert!(CaseFold::new("A") < CaseFold::new("b"));
}

#[test]
fn case_fold_hash_eq() {
    assert_eq!(hash(&CaseFold::new("Maße")), hash(&CaseFold::new("MASSE")));
    assert_ne!(hash(&CaseFold::new("Maße")), hash(&CaseFold::new("MASE")));
}

#[test]
fn case_fold_hash_prefix_free() {
    assert_ne!(
        hash(&(CaseFold::new("foo"), CaseFold::new("bar"))),
        hash(&(CaseFold::new("foob"), CaseFold::new("ar")))
    );
}

#[test]
fn is_ascii() {
    assert!(CaseFold::new("fOObaR").is_ascii());
    assert!(!CaseFold::new("Maße").is_ascii());
}

#[test]
fn hash_ascii_consistency() {
    assert_eq!(
        hash(&ascii::CaseFold::new(ENCODE_ASCII)),
        hash(&unicode::CaseFold::new(ENCODE_ASCII))
    );
}

#[test]
fn hash_across_ascii() {
    assert_eq!(
        hash(&CaseFold::new(ENCODE_ASCII)),
        hash(&ascii::CaseFold::new(ENCODE_ASCII))
    );
}

#[test]
fn hash_across_unicode() {
    assert_eq!(
        hash(&CaseFold::new(ENCODE_UTF8)),
        hash(&unicode::CaseFold::new(ENCODE_UTF8))
    );
}
