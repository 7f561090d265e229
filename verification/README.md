# buscame_db

Storage layer of the Buscame request service, verified with Verus.

- `src/cbor.rs`: the CBOR text items keys are made of, and the trusted calls
  into `serde_cbor` that encode and decode single data items.
- `src/frame.rs`: splitting a CBOR array into the encodings of its elements.
- `src/key.rs`: `Key`, its byte layout (`serialize`) and decoding
  (`deserialize`, `from_items`).
- `src/key_laws.rs`: decoding the bytes of a key gives it back; scan prefixes.
- `src/store.rs`: the database over a `sled` tree, transactions, and the scan
  decisions.
- `src/records.rs`: records with plain fields.
- `app/lib.rs`: typed access with the serde encodings of the records.
