# gw2_dat_tool

Reading and patching Guild Wars 2's `Gw2.dat` archive, with the data
formats verified in Verus.

`src/` is the verified library:

- `inflate`, `huffman`, `bitstream`: the archive's Huffman/LZ77 decompressor,
  specified by the spec function `inflate`.
- `deflate`, `lz77`, `codebuild`, `codes`, `bitwriter`, `canonical`,
  `roundtrip`: the compressor; `compress_gw2` is proved to produce streams
  that `inflate` reads back as the input.
- `afnt`: the `AFNT` font table and the RLE glyph streams; `patch`: the glyph
  encoder, exact-size filler glyphs and padded atlases, and the font-table
  patches; `strs`: string tables; `text`: translation templates; `dat`: the
  archive header, file table and ATOC; `output`: the files the patch
  commands write.

The byte formats are stated as spec functions over `Seq<u8>`, and the laws
that tie them together (what a decoder gives back of what an encoder wrote)
are public proof functions next to them.

`app/` is the command-line tool: argument handling, file I/O, and glyph
rasterization with fontdue.
