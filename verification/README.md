# casefold

Case-insensitive strings and maps, each function with a proved contract.

- `ascii::CaseFold<S>` wraps bytes or text and compares, orders and hashes them after
  ASCII upper-casing.
- `unicode::CaseFold<S>` wraps text and does the same on the full Unicode upper-case
  mapping (`ß` and `SS` are equal).
- `CaseFold<S>` notes whether its text is ASCII and takes the byte path when both sides are;
  its results are proved to be those of the Unicode wrapper.
- `ascii::CaseFoldMap<K, V>` and `CaseFoldMap<K, V>` are maps whose keys are found ignoring
  case; entries are located through a `hashbrown` table keyed by the folded bytes.

Layout of `src/`:

- `source.rs`: the traits by which the wrappers read bytes and text.
- `ascii.rs`, `unicode.rs`, `case_fold.rs`: the wrappers, their specifications and maps.
- `order.rs`: lexicographic order and the `PartialOrd` implementations.
- `hashing.rs`: how writes reach a hasher.
- `map.rs`: the shared map and the trusted `hashbrown` index.
- `laws.rs`: properties that span functions (the ASCII and Unicode paths agree, hashing
  respects equality and is unambiguous, map keys match equality).
