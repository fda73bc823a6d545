# pklib

Compression and decompression in the format of the PKWare Data Compression Library, with proofs.

- `src/explode` decompresses. `ExplodeReader` takes a stream piece by piece and gives its plain text
  back; `model` says what it does as a function on mathematical values, `pieces` shows that it does
  not matter how the input is cut, and `calls` what a whole sequence of calls delivers.
- `src/implode` holds the state of a compressor: its code tables, the table of byte pairs by hash,
  and the search for repetitions. `laws` says what they guarantee together.
- `src/codes.rs`, `src/code_words.rs` and `src/tables.rs` hold the codes of the format; they are
  shown to be complete and prefix-free.
- `src/roundtrip.rs` shows that what is written with the compressor's tables is what the
  decompressor reads.
- `app` puts the reader behind `std::io::Read` and computes compression statistics.
