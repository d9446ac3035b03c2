# inline_table

An editable TOML inline table (`{ key = value, ... }`), written in Verus.
The table keeps its entries in order, together with the whitespace around
each key and value, and its operations carry contracts that Verus proves.

The entries live in a `linked_hash_map::LinkedHashMap`; the only code that
touches it is `src/pairs.rs`, whose functions are trusted: each states what
the corresponding `LinkedHashMap` method does to the ordered sequence of
entries, and the rest of the library is verified against those statements.

Layout:

- `src/inline_table.rs`: the table, its operations and their contracts;
- `src/entry.rs`: in-place access to one key (`entry`, `or_insert`, ...);
- `src/table.rs`: the model of the entries (`Entries`, `lookup`, ...);
- `src/wf.rs`: well-formedness of tables and nested tables;
- `src/sort.rs`, `src/order.rs`: sorting entries by the bytes of their keys;
- `src/laws.rs`: properties that relate several operations, and the
  broadcast group `group_with_decor` (what changing whitespace keeps);
- `src/key.rs`, `src/value.rs`, `src/repr.rs`: keys, values, whitespace;
- `tests/`: tests run against the compiled library.
