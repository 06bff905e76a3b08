# zopfli_rs

A DEFLATE compressor in the manner of Zopfli (exhaustive LZ77 parsing and block
splitting), with gzip and zlib containers, written in Verus.

- `src/` is the verified library: symbols and codes, the bit writer, hashing and the
  longest-match search, the match cache, LZ77 parsing (greedy and, for the fixed tree,
  optimal), Huffman code lengths (plain and length-limited), block splitting, the block
  writers, the DEFLATE stream, and the gzip/zlib containers. `inflate`,
  `inflate_dynamic` and `inflate_stream` hold a DEFLATE reader written as spec functions
  (stored, fixed-tree and dynamic-tree blocks) and the proofs that what the writers
  produce reads back: each block, and the whole stream that `deflate` writes, whatever
  block types it picks.
- `app/` holds the command line program, the C interface, and the optimal parser with
  the statistical (floating point) cost model, which hands its parse to the library; the
  library checks it before writing it.
- `tests/` run the library, among them round trips through an independent decoder.
