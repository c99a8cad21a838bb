use casefold::unicode::CaseFold;
use std::hash::{DefaultHasher, Hash, Hasher};

const ENCODE: &str =
    "abcdefghijklmnopqrstuvwxyzabcdefghijklmnopqrstuvwxyzabcdefghijklmnopqrstuvwxyz";

fn hash<T: Hash>(t: &T) -> u64 {
    let mut s = DefaultHasher::new();
    t.hash(&mut s);
    s.finish()
}

#[derive(Default)]
struct MockHasher {
    inner: Vec<u8>,
}

impl MockHasher {
    fn as_str(&self) -> &str {
        std::str::from_utf8(&self.inner).unwrap()
    }
}

impl Hasher for MockHasher {
    fn write(&mut self, bytes: &[u8]) {
        self.inner.extend_from_slice(bytes);
    }

    fn write_u8(&mut self, _: u8) {}

    fn finish(&self) -> u64 {
        0
    }
}

#[test]
fn unicode_eq() {
    assert_eq!(CaseFold::new("Maße"), CaseFold::new("MASSE"));
    assert_eq!(CaseFold::new("στιγμας"), CaseFold::new("στιγμασ"));
    assert_ne!(CaseFold::new("στιγμας"), CaseFold::new("στιγμαα"));
}

#[test]
fn unicode_cmp() {
    assert!(CaseFold::new("a") < CaseFold::new("B"));
    assert!(CaseFold::new("A") < CaseFold::new("b"));
}

#[test]
fn unicode_hash_eq() {
    assert_eq!(hash(&CaseFold::new("Maße")), hash(&CaseFold::new("MASSE")));
    assert_ne!(hash(&CaseFold::new("Maße")), hash(&CaseFold::new("MASE")));
}

#[test]
fn unicode_hash_prefix_free() {
    assert_ne!(
        hash(&(CaseFold::new("foo"), CaseFold::new("bar"))),
        hash(&(CaseFold::new("foob"), CaseFold::new("ar")))
    );
}

#[test]
fn unicode_encode() {
    let mut hasher = MockHasher::default();
    CaseFold::new(ENCODE).hash(&mut hasher);
    assert_eq!(hasher.as_str(), ENCODE.to_ascii_uppercase());
}
