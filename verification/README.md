# kv_store

A read-optimized key-value store over an immutable, baked storage file, with
its file format, lookups, baking, request handling and load generation
verified with Verus.

- `src/lib.rs`: protocol types (request and response frames, opcodes,
  statuses, errors) and the storage file's header and index entry layouts.
- `src/codec.rs`: fixed-width integer encodings in either byte order, with
  their round-trip lemmas.
- `src/checksum.rs`: CRC32 through `crc32fast`.
- `src/storage.rs`: opening a borrowed file image such as a memory mapping
  (header checks) and binary-search lookups with value checksum verification.
- `src/bake.rs`: parsing `key,value` text and compiling entries into a file
  image, with the proofs that a baked file opens and gives back its values.
- `src/server.rs`: the response to each request frame, batching, and resuming
  partially written response batches.
- `src/bench.rs`: the benchmark clients' key sequence and request batches.
- `app/`: the programs around the library: the Unix-socket server, the baker
  (`bake <input_file>`) and the benchmark (`bench`).
