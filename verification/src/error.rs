//! Why reading or decoding GW2 data failed.

use vstd::prelude::*;

verus! {

/// The reasons the library's parsers and decoders give up.
#[derive(Debug, Clone, Copy, PartialEq, Eq, Structural)]
pub enum Gw2Error {
    /// A compressed entry shorter than its 12-byte minimum.
    DataTooShort,
    /// A compressed entry announcing an output of 0 bytes or over 256 MiB.
    BadOutputSize,
    /// A code table announcing more symbols than its alphabet has.
    TooManySymbols,
    /// Bits that match no code of the current code table.
    NoCode,
    /// A length symbol outside the length alphabet.
    BadLengthSymbol,
    /// An offset symbol outside the offset alphabet.
    BadOffsetSymbol,
    /// A back-reference reaching before the start of the output.
    OffsetBeyondOutput,
    /// A font table without the `PF` signature (or under 12 bytes).
    NotPf,
    /// A `PF` file whose chunk is not `AFNT`.
    NotAfnt,
    /// An `AFNT` chunk too short for its header.
    AfntTooShort,
    /// A font descriptor reaching past the end of the chunk.
    DescriptorOutOfBounds,
    /// A glyph stream ending inside a glyph header.
    GlyphStreamTruncated,
    /// A glyph stream ending inside a glyph's pixel data.
    RleUnderflow,
    /// A pixel run of length zero or longer than the pixels left.
    RleAdvance,
    /// A glyph stream ending inside a run length.
    RunCountUnderflow,
    /// A string table without the `strs` signature.
    NotStrs,
    /// An archive without the `AN\x1a` signature.
    BadDatMagic,
    /// A file table without the `Mft\x1a` signature.
    BadMftMagic,
    /// Bytes too short for the structure read from them.
    Truncated,
    /// A font index past the end of the font table.
    FontIndexOutOfRange,
    /// A reference that would point before the field holding it.
    ReferenceBeforeField,
    /// A self-relative pointer too large for its 32-bit field.
    PointerTooLarge,
    /// No number of filler glyphs pads an atlas to the size wanted.
    CannotPad,
    /// A string-table entry whose size runs past the end of the table.
    EntryPastEnd,
}

} // verus!
