use casefold::ascii::CaseFold;
use std::hash::{DefaultHasher, Hash, Hasher};

const ENCODE: &str =
    "abcdefghijklmnopqrstuvwxyzabcdefghijklmnopqrstuvwxyzabcdefghijklmnopqrstuvwxyz";

fn hash<T: Hash>(t: &T) -> u64 {
    let mut s = DefaultHasher::new();
    t.hash(&mut s);
    s.finish()
}

#[derive(Default)]
struct MockHasher {
    inner: Vec<u8>,
}

impl MockHasher {
    fn as_str(&self) -> &str {
        std::str::from_utf8(&self.inner).unwrap()
    }
}

impl Hasher for MockHasher {
    fn write(&mut self, bytes: &[u8]) {
        self.inner.extend_from_slice(bytes);
    }

    fn write_u8(&mut self, _: u8) {}

    fn finish(&self) -> u64 {
        0
    }
}

#[test]
fn ascii_eq() {
    assert_eq!(CaseFold::new("fOObAr"), CaseFold::new("FOOBAR"));
    assert_eq!(CaseFold::new("fOObAr"), CaseFold::new("foobar"));
    assert_ne!(CaseFold::new("fOObAr"), CaseFold::new("fOObAra"));
}

#[test]
fn ascii_cmp() {
    assert!(CaseFold::new("a") < CaseFold::new("B"));
    assert!(CaseFold::new("A") < CaseFold::new("b"));
}

#[test]
fn ascii_hash_eq() {
    assert_eq!(
        hash(&CaseFold::new("fOObAr")),
        hash(&CaseFold::new("FOOBAR"))
    );
    assert_ne!(
        hash(&CaseFold::new("fOObAr")),
        hash(&CaseFold::new("fOObAa"))
    );
}

#[test]
fn ascii_hash_prefix_free() {
    assert_ne!(
        hash(&(CaseFold::new("foo"), CaseFold::new("bar"))),
        hash(&(CaseFold::new("foob"), CaseFold::new("ar")))
    );
}

#[test]
fn ascii_encode() {
    let mut hasher = MockHasher::default();
    CaseFold::new(ENCODE).hash(&mut hasher);
    assert_eq!(hasher.as_str(), ENCODE.to_ascii_uppercase());
}
