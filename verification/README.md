# sparse_map

A sparse map with stable generational keys, for workloads with frequent
insertions and removals, written in Verus and verified.

Values live in slots. Removing a value frees its slot for reuse, and reusing a
slot bumps its generation, so a key to a removed value never reaches the value
stored later in the same slot. `take` checks a value out while keeping its
slot reserved for `restore`; `scope` and `insert_with_key` hand the map to a
closure while a slot is reserved.

Layout:

- `src/model.rs`: the mathematical model of a map (`SparseMapModel`): the
  value and generation of each slot and the free list, with the operations
  stated as functions on it.
- `src/key.rs`: `Key`, an (index, generation) pair, and its text form.
- `src/storage.rs`: the buffers behind a map and their invariant.
- `src/map.rs`: `SparseMap` and `Drain`, each operation's contract given over
  the model.
- `src/laws.rs`: properties that span several operations, proved on the model.
- `src/history.rs`: properties over whole histories of calls: what each step
  does to the live and reserved keys, removed keys staying dead, new keys never
  repeating an issued one, and `len` counting the live keys; `Step` and `run`
  spell out whole histories, over which a removed key stays dead and no key is
  handed out twice.
- `app/`: serde records of the map and of keys, and `Display` for keys.
