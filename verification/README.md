# miniz_oxide (deflate compressor core)

A deflate/zlib compressor written in Verus: executable Rust whose behaviour is
stated in `requires`/`ensures` contracts and proved.

## Layout

- `src/flags.rs` — compression flags, flush modes, status codes, and the flags
  computed from zip-style parameters.
- `src/adler.rs` — the Adler-32 checksum.
- `src/bits.rs`, `src/bytes.rs` — the bit writer (its view is the sequence of bits
  written so far) and byte helpers.
- `src/lz.rs`, `src/record.rs` — the LZ code buffer of a block and how literals and
  matches are recorded; the decoding model of LZ codes.
- `src/dict.rs` — the ring buffer of recent input and the hash-chain match finder.
- `src/radix.rs`, `src/huffman.rs` — sorting symbols, minimum-redundancy code lengths,
  length limiting, canonical code assignment.
- `src/prefix.rs` — canonical codes whose lengths fit the code space are prefix codes.
- `src/codes.rs`, `src/encode.rs`, `src/block.rs` — symbols of LZ codes, block
  headers (fixed and dynamic) and the encoding of a block's codes.
- `src/emit.rs` — writing a block (compressed or stored) and the end of a flush.
- `src/compressor.rs` — the streaming compressor: state, output sinks, the fast and
  the normal (lazy matching) parsers, and `compress` / `compress_to_output`.
- `app/` — the C-callable form of the output callback.
- `tests/` — executable tests, including round trips through a small inflater.

## What is proved

- The codes recorded for the current block decode, after the input before the block,
  to exactly the input the block covers; every call appends exactly the input it took.
- Each block the compressor writes into its own output buffer is either the block's
  codes under canonical Huffman codes (whose lengths fit the code space, so that they
  form prefix codes, and which give every recorded symbol a code), preceded by its
  header, or the block's input stored. A block is stored only where raw blocks are
  forced, or where static blocks are not forced and the block covers more than 32 bytes
  still in the window. A dynamic header sends the fewest literal/length and distance
  lengths, code-length codes of at most 7 bits, and run-length tokens that expand to
  exactly the code lengths.
- Every match recorded obeys the rules that limit matches: none where raw blocks are
  forced or where the flags allow no probes and no runs, at least six bytes long where
  short matches are filtered out, at distance 1 where only runs are matched, and never
  three bytes long at a distance of 8192 or more.
- With greedy parsing no lazy match is left pending. The fast compressor takes the match
  of at least four bytes that its single hash probe offers.
- The match search returns the given values when it finds nothing better, never returns
  anything but a real match in the window, and takes a longer match at the first entry
  of the hash chain.
- The radix sort of symbols is a stable sort by key; length limiting leaves the code
  space filled exactly where the folded codes fill it; a more frequent symbol never gets
  a longer code than a less frequent one.
- A flush that leaves no output pending has put every byte of input into a block; a
  `Finish` that leaves no output pending returns `Done`; a `Full` flush clears the hash
  chains.
- The Adler-32 of the input taken is kept; the status codes follow the flush rules; an
  output function that fails is one that may answer false, and it is handed exactly the
  bytes of the block.
- `compress` writes into the caller's buffer exactly the bytes it hands out in the call,
  up to the position it reports, and leaves the rest of the buffer as it was; a refused
  call leaves the buffer untouched. A flush other than `NoFlush` that leaves no output
  pending ends with a block written for that flush.
- Not proved: that the bytes handed out, across calls, are the blocks written, and so
  that the output inflates to the input. The tests check that on concrete inputs.
