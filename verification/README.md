# lz4

LZ4 compression with its correctness stated and proved in Verus.

## What is proved

- **Block format** (`src/block`): `spec.rs` says what a compressed block
  means (`lz4_decode`: literals and matches, against an optional dictionary).
  The decoders return exactly that meaning or the error it calls for; the
  encoders (one-shot, destination-sized, streaming with a dictionary or a
  history) produce blocks that decode back to their input, never longer than
  `compress_bound`. The block itself is stated exactly: `compress.rs`
  specifies the match search, the backward extension, the match lengths and
  the sequences (`search_spec`, `chain_spec`, `block_spec`), so the output
  bytes are a function of the input, the table and the acceleration. With a
  limited output the compressors succeed exactly when the encoder's room
  checks pass (`block_fits`), and leave the bytes past the block alone; in
  fill mode the block and the input it covers are those of `fill_block`.
  `lemmas.rs` holds the laws that tie them together.
- **Frame format** (`src/frame`): `format.rs` says what bytes read as a frame
  (`read_frame`: header, blocks, end mark, optional checksums). The frame
  writers produce frames that read back to the content given, with or without
  checksum verification; the readers return the content of any frame that
  reads, and refuse a frame with an unknown magic number, a corrupt header
  checksum, or a block or content checksum that does not match. Each
  compressed block of a frame is the block encoder's output for its chunk,
  stored raw exactly when compression does not shrink it. The decoder may be
  fed a frame in pieces: once the input so far completes the frame, the
  result is that of the whole frame, and while it is in the block stage the
  content delivered plus what later input delivers is the frame's content.
  Checksums are computed by `xxhash-rust`, the one crate called from outside.
- **In-memory frame files** (`src/file.rs`): a writer whose output reads back
  to what was written, and a reader that hands the content out piece by piece.
- **Command line** (`src/cli`): `parse_model.rs` states what each word of the
  command line does; `parse_args_from` returns exactly the state, or the
  error, that the model gives.
- **Benchmark support** (`src/bench`): block splitting, memory budget, level
  ranges, compression strategies whose blocks decode against their
  dictionary, the self-calibrating loop count, and the XXH64 round-trip
  check.

## Layout

- `src/`: the verified library.
- `app/`: the `lz4` program around it: files, standard streams, printing and
  timing.
- `tests/`: tests of the library on concrete values.

Verify with Verus on `src/lib.rs` (with the `xxhash-rust` crate as an
external dependency).
