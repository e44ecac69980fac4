# russcan

A scanner for many literals at once. It loads a serialized database (the
bytecode of a pattern compiler, version 5.4.12, block mode) and reports every
literal of it that stands in a block of bytes. Databases and blocks come from
outside and are not trusted: a database is either refused with an error or
scanned without a panic.

## What is in it

- `src/serialized.rs`, `src/crc32c.rs`: the serialized form and its checksum.
- `src/rose.rs`, `src/nfa.rs`: the header of the bytecode; what a literal scan
  cannot run is refused.
- `src/hwlm/`: the literal engines FDR, Teddy and Noodle. `zones.rs` cuts a
  block, `confirm.rs` confirms candidates, `flood.rs` follows runs of one byte.
- `src/literal/`: the programs of literals, their tests, and the memory of a
  scan.
- `src/scan/`: `Database::load` and `Database::scan_block`, and the literals
  that are replayed with a delay.
- `src/simd/`: vectors of 16 bytes, their masks, and the byte searches
  (shufti, truffle, vermicelli).
- `src/corpus.rs`, `src/fuzz.rs`: corpora, record lines and mutations.
- `app/`: the command line, and vector backends with machine instructions.

## What is proved

Every function of `src/` is verified. Contracts are stated over spec functions
on sequences: what a table has to hold to be accepted (`fdr_fault`,
`teddy_fault`, `load_fault`), which hits a block has (`fdr_scan`, `teddy_scan`,
`nood_scan`), what a program does (`program`), and where a scan ends
(`scan_end`). Properties that span functions are public proof functions in
`src/hwlm/` (`laws.rs`, `hits.rs`, `finds.rs`, `causes.rs`), `src/literal/`
(`laws.rs`, `history.rs`) and `src/scan/laws.rs`, and next to the checksum, the
serialized form and the byte searches.

One thing is taken on trust: the address of a block (`address` in
`src/hwlm/fdr.rs`), of which nothing is claimed. Probes for runs of one byte
read whole words at addresses that are multiples of eight, so in blocks of 256
bytes and more the way a run is followed can depend on where the block lies.
