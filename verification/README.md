# myrustchain

A small ledger replicated by a PBFT round (pre-prepare, prepare, commit), written
in Verus.

- `src/` is the verified library: accounts and blocks (`ledger`), block hashing
  (`utils`), the PBFT message handling of a node (`consensus`), and the engine's
  proposal and commit steps (`engine`). SHA-256 comes from the `sha2` crate and
  the clock from `std::time`, each behind one trusted function.
- `app/` is the network program: TCP servers, bincode framing of messages, random
  transactions and the round loop.
- `tests/` runs the library on concrete values.
