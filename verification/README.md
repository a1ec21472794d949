# ziftsieve

Literal extraction from compressed data without full decompression, with
its behaviour stated in contracts and proved by Verus.

- `bloom::hash`: the FNV-1a hashes and double hashing of the Bloom filter.
- `snappy`: Snappy framed streams; literals of uncompressed chunks and the
  decompressed bytes of compressed chunks, grouped into blocks.
- `gzip`: gzip members and their DEFLATE blocks; stored bytes and the literal
  symbols of Huffman-coded blocks, one block per DEFLATE block.
- `zstd`: Zstd frames and blocks; raw and RLE blocks, and the literals
  sections of compressed blocks with their FSE and Huffman decoders.

Each extractor is specified by a spec function over the input bytes
(`extract_spec`, `gzip_extract_spec`, `zstd_extract_spec`) that its
`ensures` matches exactly, errors included.
