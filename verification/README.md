# piadazip

A file archiver built on LZSS and Huffman coding, with its
formats and algorithms verified by Verus.

## Layout

- `src/lzss.rs`: LZSS tokens, the hash-chain match finder, the encoder and the
  decoder; the encoder's output is stated exactly and decodes to its input.
- `src/huffman.rs`: byte frequencies, the Huffman code table, its serialised
  form, the decoding trie, the coder and decoder, and the round-trip law.
- `src/compress.rs`: the compressed blob (15-byte header, then stored bytes,
  LZSS, or LZSS followed by Huffman) and its round-trip law.
- `src/crc32.rs`: CRC-32 (IEEE) over a byte slice.
- `src/archive.rs`: the `.piadina` archive: entry headers, the index, building an
  archive from files, unpacking one blob with its CRC check, the integrity test,
  and the law that an archive built from files gives those files back.
- `src/format_v2.rs`: the older RLE + Huffman format and its archives, which can
  still be listed, summarised and extracted.
- `src/update.rs`: the decisions of the self-update (tag parsing, version
  comparison, release asset names).
- `app/`: the command line, file and process I/O.
- `tests/`: tests of the library on concrete values.
