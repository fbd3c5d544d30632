//! Reading and writing the pieces of Guild Wars 2's `Gw2.dat` archive:
//! the custom Huffman/LZ77 compression, the `AFNT` font table, RLE glyph
//! streams, `strs` string tables and the archive's header and file table.

pub mod bytes;
pub mod error;
pub mod bitstream;
pub mod huffman;
pub mod inflate;
pub mod bitwriter;
pub mod canonical;
pub mod deflate;
pub mod lz77;
pub mod codes;
pub mod codebuild;
pub mod roundtrip;
pub mod afnt;
pub mod dat;
pub mod patch;
pub mod strs;
pub mod text;
pub mod output;
