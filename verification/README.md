# bmw_util (static hash table)

A hash table and a hash set with a fixed number of slots, whose records are
stored in chains of fixed-size slabs, written in Verus and verified.

* `src/slabs.rs` — the slab allocator, which reuses released slabs.
* `src/bytes.rs` — big-endian integer encodings.
* `src/layout.rs` — how a record (link, key, value) is laid out over slabs,
  and the proof that reading it back gives what was written.
* `src/static_hash.rs` — the table over byte keys and values: linear
  probing, insertion (a new record is written on new slabs as the newest;
  a held key's old record is then unlinked and its slabs released), writes
  into a stored value, lookup, chain reading; its invariant and contracts.
* `src/ser.rs` — the `Serializable` trait and its impls for integers.
* `src/table.rs` — typed tables and sets, their builders and the iterator.
* `src/laws.rs` — properties that span operations (read your write,
  capacity, other keys unaffected through any run of inserts, one record
  per key, what a whole walk returns, slot and slab accounting).
* `app/` — the `hash_perf` program, the memory-counting allocator and the
  configurations with a floating-point load factor.
