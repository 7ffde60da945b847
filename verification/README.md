# lockless_map

A hash map split into a fixed number of buckets. Each bucket (`GuardCell`)
holds a guard flag and a list of key/value pairs, newest first; a key lives in
the bucket chosen by its xxHash value modulo the number of buckets.

- `src/hasher.rs`: the 64-bit xxHash finaliser (`xxhash`), the `HashKey`
  trait that presents a key as 64-bit words, and `generic_xxhash`, which
  combines the hashes of a key's words.
- `src/concurent_map.rs`: `GuardCell` and `LocklessMap`, with a ghost map as
  the view of the map, the well-formedness invariant tying the buckets to
  that view, and proof functions for the laws the map keeps.
- `src/dataset.rs`: datasets of keys and random 30-character alphanumeric
  values, drawn with `rand`.
- `app/lib.rs`: printing of maps and datasets.

Mutating operations take `&mut self`: exclusive access comes from the borrow
checker, and each bucket's guard is taken and released around every change.
