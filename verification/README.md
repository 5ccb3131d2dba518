# mbn

Verified core of the `mbn` instrument and symbol-map types.

- `src/symbols.rs`: `Vendors` (reading a vendor from its name in any case, and
  its stored name) and `Instrument` (construction, and its first and last
  available dates as `time::OffsetDateTime`).
- `src/symbol_map.rs`: `SymbolMap`, a map from instrument ids to tickers, with
  lookup, merge, and the binary encoding (`serialize`, `deserialize`,
  `is_readable`).
- `src/wire.rs`: the byte layout of a symbol map as spec functions, and the
  proof that reading back an encoding gives the map.
- `src/text.rs`: string helpers around `str::to_lowercase` and
  `String::from_utf8`.
- `src/error.rs`: the library's error type, and the `io::Error` built for bad text.
- `app/lib.rs`: the serde/sqlx copy of `Instrument`, the Python class copy of
  `SymbolMap`, and a symbol-map reader that panics on a buffer cut short.

Not part of this crate: a C binding layer (`CRecordEncoder`,
`CRecordDecoder`, `ToRecordRef`, `RecordData` and the `extern "C"` functions).
It is raw-pointer and file plumbing over the record types, encoder and decoder
of the project's own `mbn` modules (`records`, `record_ref`, `record_enum`,
`enums`, `encode`, `decode`), which this crate does not include.
