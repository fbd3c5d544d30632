//! GW2 fonts: the `PF`/`AFNT` font table, and the RLE glyph streams its
//! descriptors point to.

use vstd::prelude::*;
use crate::bytes::le16;
use crate::bytes::le32;
use crate::bytes::read_le16;
use crate::bytes::read_le32;
use crate::error::Gw2Error;

verus! {

// ---------------------------------------------------------------------------
// Glyph ranges

/// How many glyph ranges a font descriptor has.
pub const GLYPH_RANGE_COUNT: usize = 13;

/// The code point ranges of the font descriptors' glyph files, in order:
/// each from its first code point up to (not including) its end.
pub open spec fn glyph_ranges() -> Seq<(u32, u32)> {
    seq![
        (0x00021u32, 0x0007Fu32),
        (0x000A1, 0x000FF),
        (0x00100, 0x00180),
        (0x00391, 0x00460),
        (0x02010, 0x0266B),
        (0x03000, 0x03020),
        (0x03041, 0x03100),
        (0x03105, 0x0312A),
        (0x03131, 0x0318F),
        (0x0AC00, 0x0D7A4),
        (0x04E00, 0x09FA6),
        (0x0F900, 0x0FA6B),
        (0x0FF01, 0x0FFE7),
    ]
}

/// Range `i` of `glyph_ranges()`.
pub fn glyph_range(i: usize) -> (r: (u32, u32))
    requires
        i < GLYPH_RANGE_COUNT,
    ensures
        r == glyph_ranges()[i as int],
        r.0 < r.1,
{
    let ranges: [(u32, u32); 13] = [
        (0x00021, 0x0007F),
        (0x000A1, 0x000FF),
        (0x00100, 0x00180),
        (0x00391, 0x00460),
        (0x02010, 0x0266B),
        (0x03000, 0x03020),
        (0x03041, 0x03100),
        (0x03105, 0x0312A),
        (0x03131, 0x0318F),
        (0x0AC00, 0x0D7A4),
        (0x04E00, 0x09FA6),
        (0x0F900, 0x0FA6B),
        (0x0FF01, 0x0FFE7),
    ];
    proof {
        assert(ranges@ =~= glyph_ranges());
    }
    ranges[i]
}

/// The names of the glyph ranges, in the order of `glyph_ranges()`.
pub open spec fn glyph_range_names() -> Seq<Seq<char>> {
    seq![
        "Basic Latin"@,
        "Latin-1 Supplement"@,
        "Latin Extended-A"@,
        "Greek/Coptic/Cyrillic"@,
        "Symbols"@,
        "CJK Symbols/Punct"@,
        "Hiragana"@,
        "Bopomofo"@,
        "Hangul Compat Jamo"@,
        "Hangul Syllables"@,
        "CJK Unified Ideographs"@,
        "CJK Compat Ideographs"@,
        "Halfwidth/Fullwidth"@,
    ]
}

/// The name of range `i` of `glyph_ranges()`.
pub fn glyph_range_name(i: usize) -> (r: &'static str)
    requires
        i < GLYPH_RANGE_COUNT,
    ensures
        r@ == glyph_range_names()[i as int],
{
    let names: [&'static str; 13] = [
        "Basic Latin",
        "Latin-1 Supplement",
        "Latin Extended-A",
        "Greek/Coptic/Cyrillic",
        "Symbols",
        "CJK Symbols/Punct",
        "Hiragana",
        "Bopomofo",
        "Hangul Compat Jamo",
        "Hangul Syllables",
        "CJK Unified Ideographs",
        "CJK Compat Ideographs",
        "Halfwidth/Fullwidth",
    ];
    proof {
        assert(names@.map_values(|n: &'static str| n@) =~= glyph_range_names());
    }
    names[i]
}

// ---------------------------------------------------------------------------
// The font table

/// One font of an `AFNT` table: its cell extents and, for each glyph range,
/// the file id of its glyph file (0: the font has no glyphs there).
pub struct FontDescriptor {
    pub extents_x: u8,
    pub extents_y: u8,
    pub file_ids: [u32; 13],
}

/// `a - b`, or 0 where `b` is larger.
pub open spec fn sat_sub(a: int, b: int) -> int {
    if a > b { a - b } else { 0 }
}

/// The file id named by the `ANetFileReference` (three `u16`s) at `d[at..]`.
pub open spec fn reference_id(d: Seq<u8>, at: int) -> int {
    0xFF00 * sat_sub(le16(d, at + 2), 0x100) + sat_sub(le16(d, at), 0x100) + 1
}

/// Glyph range `y` of the descriptor at `d[fd..]`: its self-relative
/// pointer, followed to a 6-byte reference inside `d` (0 for a null or
/// dangling pointer).
pub open spec fn font_file_id(d: Seq<u8>, fd: int, y: int) -> u32 {
    let field = fd + 16 + 4 * y;
    let ptr = le32(d, field);
    if ptr == 0 || field + ptr + 6 > d.len() {
        0
    } else {
        reference_id(d, field + ptr) as u32
    }
}

/// Where the `AFNT` chunk's data starts: after the 12-byte `PF` header and
/// the chunk header, whose size is the `u16` at byte 22.
pub open spec fn afnt_data_start(data: Seq<u8>) -> int {
    12 + le16(data, 22)
}

/// The `AFNT` chunk's data.
pub open spec fn afnt_chunk(data: Seq<u8>) -> Seq<u8> {
    data.subrange(afnt_data_start(data), data.len() as int)
}

/// Where the descriptor array starts in the chunk: the pointer at `d[4..8]`
/// is relative to itself.
pub open spec fn font_array_start(d: Seq<u8>) -> int {
    4 + le32(d, 4)
}

/// The bytes start with the `PF` signature (and hold a 12-byte header).
pub open spec fn is_pf(data: Seq<u8>) -> bool {
    data.len() >= 12 && data[0] == 0x50u8 && data[1] == 0x46u8
}

/// The `PF` file's chunk is an `AFNT` chunk.
pub open spec fn is_afnt_chunk(data: Seq<u8>) -> bool {
    data[8] == 0x41u8 && data[9] == 0x46u8 && data[10] == 0x4Eu8 && data[11] == 0x54u8
}

/// A font table whose chunk header lies inside it.
pub open spec fn afnt_header_ok(data: Seq<u8>) -> bool {
    is_pf(data) && is_afnt_chunk(data) ==> data.len() >= 24 && afnt_data_start(data) <= data.len()
}

/// The fonts of an `AFNT` table as (extents x, extents y, file ids), or why
/// the table cannot be read.
pub open spec fn afnt_fonts(data: Seq<u8>) -> Result<Seq<(u8, u8, Seq<u32>)>, Gw2Error> {
    if !is_pf(data) {
        Err(Gw2Error::NotPf)
    } else if !is_afnt_chunk(data) {
        Err(Gw2Error::NotAfnt)
    } else {
        let d = afnt_chunk(data);
        if d.len() < 8 {
            Err(Gw2Error::AfntTooShort)
        } else {
            let n = le32(d, 0);
            let fa = font_array_start(d);
            if n > 0 && fa + 68 * n > d.len() {
                Err(Gw2Error::DescriptorOutOfBounds)
            } else {
                Ok(Seq::new(n as nat, |i: int| {
                    let fd = fa + 68 * i;
                    (d[fd + 14], d[fd + 15], Seq::new(13, |y: int| font_file_id(d, fd, y)))
                }))
            }
        }
    }
}

/// A descriptor as (extents x, extents y, file ids).
pub open spec fn font_view(f: FontDescriptor) -> (u8, u8, Seq<u32>) {
    (f.extents_x, f.extents_y, f.file_ids@)
}

/// The file id of glyph range `y` of the descriptor at `base + fd`.
fn read_file_id(data: &[u8], base: usize, fd: u64, y: u64) -> (r: u32)
    requires
        base <= data.len(),
        y < 13,
        fd + 68 <= data.len() - base,
    ensures
        r == font_file_id(data@.subrange(base as int, data.len() as int), fd as int, y as int),
{
    let ghost d = data@.subrange(base as int, data.len() as int);
    let dlen = (data.len() - base) as u64;
    let field = fd + 16 + 4 * y;
    let ptr = read_le32(data, base + field as usize);
    proof {
        assert(le32(data@, base + field) == le32(d, field as int));
    }
    if ptr == 0 {
        return 0;
    }
    let room = dlen - field;
    if ptr as u64 > room || room - (ptr as u64) < 6 {
        return 0;
    }
    let at = field + ptr as u64;
    let p0 = read_le16(data, base + at as usize);
    let p1 = read_le16(data, base + at as usize + 2);
    proof {
        assert(le16(data@, base + at) == le16(d, at as int));
        assert(le16(data@, base + at + 2) == le16(d, at + 2));
    }
    let hi: u32 = if p1 > 0x100 { (p1 - 0x100) as u32 } else { 0 };
    let lo: u32 = if p0 > 0x100 { (p0 - 0x100) as u32 } else { 0 };
    0xFF00 * hi + lo + 1
}

/// Reads the fonts of a `PF`/`AFNT` font table: after the `PF` header and
/// the chunk header come the font count and a self-relative pointer to the
/// 68-byte font descriptors.
pub fn parse_afnt(data: &[u8]) -> (r: Result<Vec<FontDescriptor>, Gw2Error>)
    requires
        afnt_header_ok(data@),
    ensures
        match afnt_fonts(data@) {
            Ok(fonts) => r is Ok && r->Ok_0@.map_values(|f: FontDescriptor| font_view(f)) == fonts,
            Err(e) => r == Err::<Vec<FontDescriptor>, Gw2Error>(e),
        },
{
    if data.len() < 12 || data[0] != 0x50 || data[1] != 0x46 {
        return Err(Gw2Error::NotPf);
    }
    if !(data[8] == 0x41 && data[9] == 0x46 && data[10] == 0x4E && data[11] == 0x54) {
        return Err(Gw2Error::NotAfnt);
    }
    let chunk_header_size = read_le16(data, 22) as usize;
    let data_start = 12 + chunk_header_size;
    let ghost d = data@.subrange(data_start as int, data.len() as int);
    proof {
        assert(d == afnt_chunk(data@));
    }
    let dlen = data.len() - data_start;
    if dlen < 8 {
        return Err(Gw2Error::AfntTooShort);
    }
    let font_count = read_le32(data, data_start);
    let array_ptr = read_le32(data, data_start + 4);
    proof {
        assert(le32(data@, data_start as int) == le32(d, 0));
        assert(le32(data@, data_start + 4) == le32(d, 4));
    }
    let array_start = 4 + array_ptr as u64;
    let mut fonts: Vec<FontDescriptor> = Vec::new();
    let mut i: u32 = 0;
    while i < font_count
        invariant
            is_pf(data@),
            is_afnt_chunk(data@),
            d == afnt_chunk(data@),
            data_start <= data.len(),
            dlen == data.len() - data_start,
            dlen >= 8,
            d == data@.subrange(data_start as int, data.len() as int),
            font_count == le32(d, 0),
            array_start == font_array_start(d),
            i <= font_count,
            fonts.len() == i,
            i == 0 || array_start + 68 * i <= dlen,
            forall|j: int| 0 <= j < i ==> {
                let fd = array_start + 68 * j;
                font_view(#[trigger] fonts@[j]) == (d[fd + 14], d[fd + 15], Seq::new(13, |y: int| font_file_id(d, fd, y)))
            },
        decreases font_count - i,
    {
        let fd = array_start + (i as u64) * 68;
        if fd + 68 > dlen as u64 {
            proof {
                assert(array_start + 68 * font_count > dlen) by (nonlinear_arith)
                    requires
                        fd == array_start + i * 68,
                        fd + 68 > dlen,
                        i < font_count,
                ;
                assert(is_pf(data@) && is_afnt_chunk(data@));
                assert(d == afnt_chunk(data@));
                assert(d.len() == dlen);
                assert(afnt_fonts(data@) == Err::<Seq<(u8, u8, Seq<u32>)>, Gw2Error>(Gw2Error::DescriptorOutOfBounds));
            }
            return Err(Gw2Error::DescriptorOutOfBounds);
        }
        let extents_x = data[data_start + fd as usize + 14];
        let extents_y = data[data_start + fd as usize + 15];
        let mut file_ids = [0u32; 13];
        let mut y: u64 = 0;
        while y < 13
            invariant
                data_start <= data.len(),
                dlen == data.len() - data_start,
                d == data@.subrange(data_start as int, data.len() as int),
                fd + 68 <= dlen,
                y <= 13,
                file_ids@.len() == 13,
                forall|k: int| 0 <= k < y ==> file_ids@[k] == font_file_id(d, fd as int, k),
            decreases 13 - y,
        {
            let v = read_file_id(data, data_start, fd, y);
            file_ids[y as usize] = v;
            y += 1;
        }
        let ghost before = fonts@;
        fonts.push(FontDescriptor { extents_x, extents_y, file_ids });
        proof {
            assert(file_ids@ =~= Seq::new(13, |k: int| font_file_id(d, fd as int, k)));
            assert(fonts@[i as int] == FontDescriptor { extents_x, extents_y, file_ids });
            assert(fd == array_start + 68 * i);
        }
        i += 1;
    }
    proof {
        let n = font_count as int;
        assert(fonts@.map_values(|f: FontDescriptor| font_view(f)) =~= Seq::new(n as nat, |i: int| {
            let fd = array_start + 68 * i;
            (d[fd + 14], d[fd + 15], Seq::new(13, |y: int| font_file_id(d, fd, y)))
        }));
    }
    Ok(fonts)
}


// ---------------------------------------------------------------------------
// Glyph streams

/// A decoded glyph: its code point, size, vertical offset in the cell, and
/// its alpha pixels, row by row.
pub struct Glyph {
    pub codepoint: u32,
    pub width: u32,
    pub height: u32,
    pub y_offset: u8,
    pub pixels: Vec<u8>,
}

/// A glyph as (code point, width, height, y offset, pixels).
pub open spec fn glyph_view(g: Glyph) -> (u32, u32, u32, u8, Seq<u8>) {
    (g.codepoint, g.width, g.height, g.y_offset, g.pixels@)
}

/// A run length read from `pos`: `acc` plus each byte up to and including
/// the first one that is not 255, and the position after it.
pub open spec fn run_count(data: Seq<u8>, pos: nat, acc: nat) -> Result<(nat, nat), Gw2Error>
    decreases data.len() - pos,
{
    if pos >= data.len() {
        Err(Gw2Error::RunCountUnderflow)
    } else if data[pos as int] != 255 {
        Ok(((acc + data[pos as int]) as nat, pos + 1))
    } else {
        run_count(data, pos + 1, acc + 255)
    }
}

/// One step of a glyph's pixel stream of RLE type `t` at `pos`, the
/// previous run's byte being `rep`: the byte, how many pixels get it, and
/// the position after the step.  Types 0 and 255 alternate runs of 0 and
/// 255; any other type has literal bytes (1 to 254) and runs of 0 or 255.
pub open spec fn rle_step(data: Seq<u8>, pos: nat, t: u8, rep: u8) -> Result<(u8, nat, nat), Gw2Error> {
    if t != 0 && t != 255 {
        if pos >= data.len() {
            Err(Gw2Error::RleUnderflow)
        } else {
            let v = data[pos as int];
            if v != 0 && v != 255 {
                Ok((v, 1, pos + 1))
            } else {
                match run_count(data, pos + 1, 1) {
                    Ok((a, p)) => Ok((v, a, p)),
                    Err(e) => Err(e),
                }
            }
        }
    } else {
        match run_count(data, pos, 1) {
            Ok((a, p)) => Ok(((255 - rep) as u8, a, p)),
            Err(e) => Err(e),
        }
    }
}

/// The byte a type-0 or type-255 stream flips from at its first run.
pub open spec fn first_rep(t: u8) -> u8 {
    if t == 0 || t == 255 { (255 - t) as u8 } else { 0 }
}

/// Decoding `left` more pixels after `acc`: the pixels and the position
/// after them, or why the stream is bad.
pub open spec fn rle_decode(data: Seq<u8>, pos: nat, left: nat, t: u8, rep: u8, acc: Seq<u8>) -> Result<(Seq<u8>, nat), Gw2Error>
    decreases left,
{
    if left == 0 {
        Ok((acc, pos))
    } else {
        match rle_step(data, pos, t, rep) {
            Err(e) => Err(e),
            Ok((v, a, p)) => if a == 0 || a > left {
                Err(Gw2Error::RleAdvance)
            } else {
                rle_decode(data, p, (left - a) as nat, t, v, acc + Seq::new(a, |i: int| v))
            },
        }
    }
}

/// Decoding the glyphs for code points `cp` up to `end` from `pos`, after
/// the glyphs `acc`: each a 4-byte header (y offset, width - 1, height - 1,
/// RLE type) and its pixel stream.
pub open spec fn glyph_decode(data: Seq<u8>, pos: nat, cp: nat, end: nat, acc: Seq<(u32, u32, u32, u8, Seq<u8>)>) -> Result<(Seq<(u32, u32, u32, u8, Seq<u8>)>, nat), Gw2Error>
    decreases end - cp,
{
    if cp >= end {
        Ok((acc, pos))
    } else if pos + 4 > data.len() {
        Err(Gw2Error::GlyphStreamTruncated)
    } else {
        let w = data[pos + 1int] + 1;
        let h = data[pos + 2int] + 1;
        let t = data[pos + 3int];
        match rle_decode(data, pos + 4, (w * h) as nat, t, first_rep(t), seq![]) {
            Err(e) => Err(e),
            Ok((px, p)) => glyph_decode(data, p, cp + 1, end, acc.push((cp as u32, w as u32, h as u32, data[pos as int], px))),
        }
    }
}

/// The largest stream length whose run lengths still fit in a `u64`.
pub open spec fn stream_len_ok(data: Seq<u8>) -> bool {
    data.len() <= 0xFFFF_FFFF_FFFF
}

/// Reads a run length at `*pos`: 1 plus each byte up to and including the
/// first one that is not 255.
pub fn count_run(data: &[u8], pos: &mut usize) -> (r: Result<u64, Gw2Error>)
    requires
        stream_len_ok(data@),
    ensures
        match run_count(data@, *old(pos) as nat, 1) {
            Ok((a, p)) => r is Ok && r->Ok_0 as nat == a && *final(pos) == p,
            Err(e) => r == Err::<u64, Gw2Error>(e),
        },
        r is Ok ==> 1 <= r->Ok_0,
{
    let mut advance: u64 = 1;
    let ghost p0 = *pos as nat;
    loop
        invariant
            stream_len_ok(data@),
            p0 == *old(pos),
            *pos >= p0,
            advance == 1 + 255 * (*pos - p0),
            *pos <= data.len() || *pos == p0,
            run_count(data@, p0, 1) == run_count(data@, *pos as nat, advance as nat),
        decreases data.len() - *pos,
    {
        if *pos >= data.len() {
            return Err(Gw2Error::RunCountUnderflow);
        }
        let b = data[*pos];
        *pos += 1;
        if b != 255 {
            return Ok(advance + b as u64);
        }
        advance += 255;
    }
}

/// Decodes `unpacked` pixels of RLE type `rle_type` from `*pos`.
pub fn decode_rle(data: &[u8], pos: &mut usize, unpacked: usize, rle_type: u8) -> (r: Result<Vec<u8>, Gw2Error>)
    requires
        stream_len_ok(data@),
    ensures
        match rle_decode(data@, *old(pos) as nat, unpacked as nat, rle_type, first_rep(rle_type), seq![]) {
            Ok((px, p)) => r is Ok && r->Ok_0@ == px && *final(pos) == p,
            Err(e) => r == Err::<Vec<u8>, Gw2Error>(e),
        },
{
    let mut out: Vec<u8> = vec![0u8; unpacked];
    let ghost target = rle_decode(data@, *pos as nat, unpacked as nat, rle_type, first_rep(rle_type), seq![]);
    let mut image_pos: usize = 0;
    let mut left = unpacked;
    let mut repeated_byte: u8 = if rle_type == 0 || rle_type == 255 { 255 - rle_type } else { 0 };
    proof {
        assert(out@.take(0) =~= Seq::<u8>::empty());
    }
    while left > 0
        invariant
            stream_len_ok(data@),
            target == rle_decode(data@, *old(pos) as nat, unpacked as nat, rle_type, first_rep(rle_type), seq![]),
            out.len() == unpacked,
            image_pos + left == unpacked,
            target == rle_decode(data@, *pos as nat, left as nat, rle_type, repeated_byte, out@.take(image_pos as int)),
        decreases left,
    {
        let ghost p0 = *pos as nat;
        let ghost rep0 = repeated_byte;
        let advance: u64;
        if rle_type != 0 && rle_type != 255 {
            if *pos >= data.len() {
                return Err(Gw2Error::RleUnderflow);
            }
            repeated_byte = data[*pos];
            *pos += 1;
            if repeated_byte != 0 && repeated_byte != 255 {
                advance = 1;
            } else {
                match count_run(data, pos) {
                    Ok(a) => {
                        advance = a;
                    },
                    Err(e) => {
                        return Err(e);
                    },
                }
            }
        } else {
            repeated_byte = 255 - repeated_byte;
            match count_run(data, pos) {
                Ok(a) => {
                    advance = a;
                },
                Err(e) => {
                    return Err(e);
                },
            }
        }
        proof {
            assert(rle_step(data@, p0, rle_type, rep0) == Ok::<(u8, nat, nat), Gw2Error>((repeated_byte, advance as nat, *pos as nat)));
        }
        if advance == 0 || advance > left as u64 {
            return Err(Gw2Error::RleAdvance);
        }
        let adv = advance as usize;
        let ghost before = out@.take(image_pos as int);
        let mut k: usize = 0;
        while k < adv
            invariant
                k <= adv,
                image_pos + adv <= unpacked,
                out.len() == unpacked,
                out@.take(image_pos as int) == before,
                forall|j: int| image_pos <= j < image_pos + k ==> out@[j] == repeated_byte,
            decreases adv - k,
        {
            out.set(image_pos + k, repeated_byte);
            k += 1;
        }
        proof {
            assert(out@.take((image_pos + adv) as int) =~= before + Seq::new(adv as nat, |i: int| repeated_byte));
        }
        image_pos += adv;
        left -= adv;
    }
    proof {
        assert(out@.take(image_pos as int) =~= out@);
    }
    Ok(out)
}

/// Decodes the glyphs for the code points `range_start..range_end` from a
/// glyph file: one after another, each a 4-byte header and its pixels.
pub fn decode_glyph_file(data: &[u8], range_start: u32, range_end: u32) -> (r: Result<Vec<Glyph>, Gw2Error>)
    requires
        range_start <= range_end,
        stream_len_ok(data@),
    ensures
        match glyph_decode(data@, 0, range_start as nat, range_end as nat, seq![]) {
            Ok((gs, p)) => r is Ok && r->Ok_0@.map_values(|g: Glyph| glyph_view(g)) == gs,
            Err(e) => r == Err::<Vec<Glyph>, Gw2Error>(e),
        },
{
    let mut glyphs: Vec<Glyph> = Vec::new();
    let mut pos: usize = 0;
    let mut cp = range_start;
    let ghost target = glyph_decode(data@, 0, range_start as nat, range_end as nat, seq![]);
    proof {
        assert(glyphs@.map_values(|g: Glyph| glyph_view(g)) =~= Seq::<(u32, u32, u32, u8, Seq<u8>)>::empty());
    }
    while cp < range_end
        invariant
            stream_len_ok(data@),
            target == glyph_decode(data@, 0, range_start as nat, range_end as nat, seq![]),
            range_start <= cp <= range_end,
            target == glyph_decode(data@, pos as nat, cp as nat, range_end as nat, glyphs@.map_values(|g: Glyph| glyph_view(g))),
        decreases range_end - cp,
    {
        if data.len() < 4 || pos > data.len() - 4 {
            return Err(Gw2Error::GlyphStreamTruncated);
        }
        let y_offset = data[pos];
        let width = data[pos + 1] as u32 + 1;
        let height = data[pos + 2] as u32 + 1;
        let rle_type = data[pos + 3];
        let ghost p0 = pos as nat;
        pos += 4;
        proof {
            assert(width * height <= 65536) by (nonlinear_arith)
                requires
                    1 <= width <= 256,
                    1 <= height <= 256,
            ;
        }
        let num_pixels = (width * height) as usize;
        let pixels = match decode_rle(data, &mut pos, num_pixels, rle_type) {
            Ok(px) => px,
            Err(e) => {
                return Err(e);
            },
        };
        let ghost before = glyphs@.map_values(|g: Glyph| glyph_view(g));
        let g = Glyph { codepoint: cp, width, height, y_offset, pixels };
        proof {
            assert(glyph_view(g) == (cp, width, height, y_offset, pixels@));
        }
        glyphs.push(g);
        proof {
            assert(glyphs@.map_values(|g: Glyph| glyph_view(g)) =~= before.push((cp, width, height, y_offset, pixels@)));
        }
        cp += 1;
    }
    Ok(glyphs)
}


/// Where a decoding result stops, if it succeeds.
pub open spec fn end_of<A>(r: Result<(A, nat), Gw2Error>) -> Option<nat> {
    match r {
        Ok((_, p)) => Some(p),
        Err(_) => None,
    }
}

/// Where a pixel stream stops does not depend on the byte values decoded.
pub proof fn lemma_rle_end(data: Seq<u8>, pos: nat, left: nat, t: u8, rep1: u8, rep2: u8, acc1: Seq<u8>, acc2: Seq<u8>)
    ensures
        end_of(rle_decode(data, pos, left, t, rep1, acc1)) == end_of(rle_decode(data, pos, left, t, rep2, acc2)),
    decreases left,
{
    if left > 0 {
        match rle_step(data, pos, t, rep1) {
            Err(_) => {},
            Ok((v1, a, p)) => {
                let (v2, a2, p2) = rle_step(data, pos, t, rep2).unwrap();
                if !(a == 0 || a > left) {
                    lemma_rle_end(data, p, (left - a) as nat, t, v1, v2, acc1 + Seq::new(a, |i: int| v1), acc2 + Seq::new(a, |i: int| v2));
                }
            },
        }
    }
}

/// Nor does where a glyph stream stops depend on the code points or the
/// glyphs decoded before.
pub proof fn lemma_glyph_end(
    data: Seq<u8>,
    pos: nat,
    cp1: nat,
    end1: nat,
    cp2: nat,
    end2: nat,
    acc1: Seq<(u32, u32, u32, u8, Seq<u8>)>,
    acc2: Seq<(u32, u32, u32, u8, Seq<u8>)>,
)
    requires
        end1 - cp1 == end2 - cp2,
    ensures
        end_of(glyph_decode(data, pos, cp1, end1, acc1)) == end_of(glyph_decode(data, pos, cp2, end2, acc2)),
    decreases end1 - cp1,
{
    if cp1 < end1 && pos + 4 <= data.len() {
        let w = data[pos + 1int] + 1;
        let h = data[pos + 2int] + 1;
        let t = data[pos + 3int];
        match rle_decode(data, pos + 4, (w * h) as nat, t, first_rep(t), seq![]) {
            Err(_) => {},
            Ok((px, p)) => {
                lemma_glyph_end(
                    data,
                    p,
                    cp1 + 1,
                    end1,
                    cp2 + 1,
                    end2,
                    acc1.push((cp1 as u32, w as u32, h as u32, data[pos as int], px)),
                    acc2.push((cp2 as u32, w as u32, h as u32, data[pos as int], px)),
                );
            },
        }
    }
}

/// Two byte sequences that agree below `q`.
pub open spec fn agree_below(d1: Seq<u8>, d2: Seq<u8>, q: nat) -> bool {
    &&& q <= d1.len()
    &&& q <= d2.len()
    &&& forall|i: int| 0 <= i < q ==> d1[i] == d2[i]
}

/// A run length read from `d1` reads the same from bytes agreeing with `d1`
/// up to where it ends, and it ends after `pos`, inside `d1`.
pub proof fn lemma_run_count_agree(d1: Seq<u8>, d2: Seq<u8>, pos: nat, acc: nat, q: nat)
    requires
        run_count(d1, pos, acc) is Ok,
    ensures
        run_count(d1, pos, acc) matches Ok((a, p)) && pos < p <= d1.len(),
        run_count(d1, pos, acc) matches Ok((a, p)) && (p <= q && agree_below(d1, d2, q) ==> run_count(d2, pos, acc)
            == run_count(d1, pos, acc)),
    decreases d1.len() - pos,
{
    if pos < d1.len() && d1[pos as int] == 255 {
        lemma_run_count_agree(d1, d2, pos + 1, acc + 255, q);
    }
}

/// The same for one step of a pixel stream.
pub proof fn lemma_rle_step_agree(d1: Seq<u8>, d2: Seq<u8>, pos: nat, t: u8, rep: u8, q: nat)
    requires
        rle_step(d1, pos, t, rep) is Ok,
    ensures
        rle_step(d1, pos, t, rep) matches Ok((v, a, p)) && pos < p <= d1.len(),
        rle_step(d1, pos, t, rep) matches Ok((v, a, p)) && (p <= q && agree_below(d1, d2, q) ==> rle_step(d2, pos, t, rep)
            == rle_step(d1, pos, t, rep)),
{
    if t != 0 && t != 255 {
        let v = d1[pos as int];
        if !(v != 0 && v != 255) {
            lemma_run_count_agree(d1, d2, pos + 1, 1, q);
        }
    } else {
        lemma_run_count_agree(d1, d2, pos, 1, q);
    }
}

/// The same for a glyph's pixels.
pub proof fn lemma_rle_decode_agree(d1: Seq<u8>, d2: Seq<u8>, pos: nat, left: nat, t: u8, rep: u8, acc: Seq<u8>, q: nat)
    requires
        rle_decode(d1, pos, left, t, rep, acc) is Ok,
        pos <= d1.len(),
    ensures
        rle_decode(d1, pos, left, t, rep, acc) matches Ok((px, p)) && pos <= p <= d1.len(),
        rle_decode(d1, pos, left, t, rep, acc) matches Ok((px, p)) && (p <= q && agree_below(d1, d2, q) ==> rle_decode(
            d2,
            pos,
            left,
            t,
            rep,
            acc,
        ) == rle_decode(d1, pos, left, t, rep, acc)),
    decreases left,
{
    if left > 0 {
        lemma_rle_step_agree(d1, d2, pos, t, rep, q);
        let (v, a, p1) = rle_step(d1, pos, t, rep).unwrap();
        lemma_rle_decode_agree(d1, d2, p1, (left - a) as nat, t, v, acc + Seq::new(a, |i: int| v), q);
    }
}

/// The same for a run of glyphs.
pub proof fn lemma_glyph_decode_agree(
    d1: Seq<u8>,
    d2: Seq<u8>,
    pos: nat,
    cp: nat,
    end: nat,
    acc: Seq<(u32, u32, u32, u8, Seq<u8>)>,
    q: nat,
)
    requires
        glyph_decode(d1, pos, cp, end, acc) is Ok,
        pos <= d1.len(),
    ensures
        glyph_decode(d1, pos, cp, end, acc) matches Ok((gs, p)) && pos <= p <= d1.len(),
        glyph_decode(d1, pos, cp, end, acc) matches Ok((gs, p)) && (p <= q && agree_below(d1, d2, q) ==> glyph_decode(
            d2,
            pos,
            cp,
            end,
            acc,
        ) == glyph_decode(d1, pos, cp, end, acc)),
    decreases end - cp,
{
    if cp < end {
        let w = d1[pos + 1int] + 1;
        let h = d1[pos + 2int] + 1;
        let t = d1[pos + 3int];
        lemma_rle_decode_agree(d1, d2, pos + 4, (w * h) as nat, t, first_rep(t), seq![], q);
        let (px, p1) = rle_decode(d1, pos + 4, (w * h) as nat, t, first_rep(t), seq![]).unwrap();
        lemma_glyph_decode_agree(d1, d2, p1, cp + 1, end, acc.push((cp as u32, w as u32, h as u32, d1[pos as int], px)), q);
        if agree_below(d1, d2, q) {
            let (gs, p) = glyph_decode(d1, pos, cp, end, acc).unwrap();
            if p <= q {
                assert(d2[pos + 1int] == d1[pos + 1int]);
                assert(d2[pos + 2int] == d1[pos + 2int]);
                assert(d2[pos + 3int] == d1[pos + 3int]);
                assert(d2[pos as int] == d1[pos as int]);
            }
        }
    }
}

/// Decoding one glyph more continues from where the first ones end.
pub proof fn lemma_glyph_decode_next(d: Seq<u8>, pos: nat, cp: nat, end: nat, acc: Seq<(u32, u32, u32, u8, Seq<u8>)>)
    requires
        cp <= end,
        glyph_decode(d, pos, cp, end, acc) is Ok,
    ensures
        ({
            let (gs, p) = glyph_decode(d, pos, cp, end, acc).unwrap();
            end_of(glyph_decode(d, pos, cp, end + 1, acc)) == end_of(glyph_decode(d, p, end, end + 1, gs))
        }),
    decreases end - cp,
{
    if cp < end {
        let w = d[pos + 1int] + 1;
        let h = d[pos + 2int] + 1;
        let t = d[pos + 3int];
        let (px, p1) = rle_decode(d, pos + 4, (w * h) as nat, t, first_rep(t), seq![]).unwrap();
        lemma_glyph_decode_next(d, p1, cp + 1, end, acc.push((cp as u32, w as u32, h as u32, d[pos as int], px)));
    }
}

/// Where walking `count` glyphs ends, the bytes up to there alone walk to
/// the same end: the glyphs take exactly those bytes.
pub proof fn lemma_walk_prefix(data: Seq<u8>, count: nat)
    requires
        end_of(glyph_decode(data, 0, 0, count, seq![])) is Some,
    ensures
        ({
            let p = end_of(glyph_decode(data, 0, 0, count, seq![]))->Some_0;
            &&& p <= data.len()
            &&& end_of(glyph_decode(data.take(p as int), 0, 0, count, seq![])) == Some(p)
        }),
{
    lemma_glyph_decode_agree(data, data, 0, 0, count, seq![], 0);
    let p = end_of(glyph_decode(data, 0, 0, count, seq![]))->Some_0;
    lemma_glyph_decode_agree(data, data.take(p as int), 0, 0, count, seq![], p);
}

/// Walking glyphs succeeds, and ends at the same byte, whatever code
/// points they are read for: the game's walk and the decoder agree.
pub proof fn lemma_walk_matches_decode(data: Seq<u8>, s: nat, count: nat)
    ensures
        end_of(glyph_decode(data, 0, s, s + count, seq![])) == end_of(glyph_decode(data, 0, 0, count, seq![])),
{
    lemma_glyph_end(data, 0, s, s + count, 0, count, seq![], seq![]);
}

/// Walks `count` glyphs of a glyph stream the way the game does and gives
/// the number of bytes they take, or `None` where the stream is bad.
pub fn walk_consumed(data: &[u8], count: usize) -> (r: Option<usize>)
    requires
        stream_len_ok(data@),
    ensures
        match r {
            Some(p) => end_of(glyph_decode(data@, 0, 0, count as nat, seq![])) == Some(p as nat),
            None => end_of(glyph_decode(data@, 0, 0, count as nat, seq![])) is None,
        },
{
    let ghost target = end_of(glyph_decode(data@, 0, 0, count as nat, seq![]));
    let mut pos: usize = 0;
    let mut k: usize = 0;
    while k < count
        invariant
            stream_len_ok(data@),
            target == end_of(glyph_decode(data@, 0, 0, count as nat, seq![])),
            k <= count,
            target == end_of(glyph_decode(data@, pos as nat, k as nat, count as nat, seq![])),
        decreases count - k,
    {
        if data.len() < 4 || pos > data.len() - 4 {
            return None;
        }
        let w = data[pos + 1] as usize + 1;
        let h = data[pos + 2] as usize + 1;
        let rle_type = data[pos + 3];
        let ghost p0 = pos as nat;
        pos += 4;
        proof {
            assert(w * h <= 65536) by (nonlinear_arith)
                requires
                    1 <= w <= 256,
                    1 <= h <= 256,
            ;
        }
        let mut remaining = w * h;
        let ghost stream = end_of(rle_decode(data@, p0 + 4, (w * h) as nat, rle_type, first_rep(rle_type), seq![]));
        proof {
            lemma_rle_end(data@, p0 + 4, (w * h) as nat, rle_type, first_rep(rle_type), 0, seq![], seq![]);
            assert(stream is None ==> target is None);
        }
        while remaining > 0
            invariant
                stream_len_ok(data@),
                stream == end_of(rle_decode(data@, pos as nat, remaining as nat, rle_type, 0, seq![])),
                stream == end_of(rle_decode(data@, p0 + 4, (w * h) as nat, rle_type, first_rep(rle_type), seq![])),
                stream is None ==> target is None,
                target == end_of(glyph_decode(data@, 0, 0, count as nat, seq![])),
                target == end_of(glyph_decode(data@, p0, k as nat, count as nat, seq![])),
                p0 + 4 <= data.len(),
                k < count,
                w == data@[p0 + 1int] + 1,
                h == data@[p0 + 2int] + 1,
                rle_type == data@[p0 + 3int],
            decreases remaining,
        {
            let ghost q0 = pos as nat;
            let adv: u64;
            if rle_type == 0 || rle_type == 255 {
                match count_run(data, &mut pos) {
                    Ok(a) => {
                        adv = a;
                    },
                    Err(_) => {
                        return None;
                    },
                }
            } else {
                if pos >= data.len() {
                    return None;
                }
                let v = data[pos];
                pos += 1;
                if v != 0 && v != 255 {
                    adv = 1;
                } else {
                    match count_run(data, &mut pos) {
                        Ok(a) => {
                            adv = a;
                        },
                        Err(_) => {
                            return None;
                        },
                    }
                }
            }
            let ghost (v, a, q) = rle_step(data@, q0, rle_type, 0).unwrap();
            proof {
                assert(rle_step(data@, q0, rle_type, 0) is Ok);
                assert(a == adv && q == pos);
            }
            if adv > remaining as u64 {
                return None;
            }
            proof {
                lemma_rle_end(data@, pos as nat, (remaining - adv) as nat, rle_type, v, 0, Seq::new(a, |i: int| v), seq![]);
            }
            remaining -= adv as usize;
        }
        proof {
            let px = rle_decode(data@, p0 + 4, (w * h) as nat, rle_type, first_rep(rle_type), seq![]).unwrap().0;
            lemma_glyph_end(
                data@,
                pos as nat,
                (k + 1) as nat,
                count as nat,
                (k + 1) as nat,
                count as nat,
                seq![].push((k as u32, w as u32, h as u32, data@[p0 as int], px)),
                seq![],
            );
        }
        k += 1;
    }
    Some(pos)
}


// ---------------------------------------------------------------------------
// Atlases

/// The PNG file the `image` crate writes for a `width` x `height` 8-bit
/// grayscale image with the pixels `pixels` (row by row), if it writes one.
pub uninterp spec fn png_gray(width: u32, height: u32, pixels: Seq<u8>) -> Option<Seq<u8>>;

/// Encodes a grayscale image as PNG with the `image` crate:
/// `GrayImage::from_raw`, then `write_to` an in-memory buffer as
/// `ImageFormat::Png`.  The contract claims only that the bytes are the
/// crate's PNG for these pixels (`None` where the crate reports an error).
#[verifier::external_body]
fn encode_gray_png(width: u32, height: u32, pixels: Vec<u8>) -> (r: Option<Vec<u8>>)
    requires
        pixels.len() == width * height,
    ensures
        match r {
            Some(b) => png_gray(width, height, pixels@) == Some(b@),
            None => png_gray(width, height, pixels@) is None,
        },
{
    let img = image::GrayImage::from_raw(width, height, pixels)?;
    let mut buf: Vec<u8> = Vec::new();
    match img.write_to(&mut std::io::Cursor::new(&mut buf), image::ImageFormat::Png) {
        Ok(()) => Some(buf),
        Err(_) => None,
    }
}

/// Pixel `(x, y)` of the atlas with `cols` cells of `cell_w` x `cell_h` per
/// row: the pixel of the glyph in that cell (cells hold glyphs in order),
/// or 0 outside every glyph.
pub open spec fn atlas_pixel(gs: Seq<(u32, u32, u32, u8, Seq<u8>)>, cell_w: nat, cell_h: nat, cols: nat, x: nat, y: nat) -> u8 {
    let i = (y / cell_h) * cols + x / cell_w;
    let px = x % cell_w;
    let py = y % cell_h;
    if i < gs.len() && px < gs[i as int].1 && py < gs[i as int].2 {
        let src = py * gs[i as int].1 + px;
        if src < gs[i as int].4.len() { gs[i as int].4[src as int] } else { 0 }
    } else {
        0
    }
}

/// The atlas's pixels, row by row.
pub open spec fn atlas_pixels(gs: Seq<(u32, u32, u32, u8, Seq<u8>)>, cell_w: nat, cell_h: nat, cols: nat, width: nat, height: nat) -> Seq<u8> {
    Seq::new(width * height, |j: int| atlas_pixel(gs, cell_w, cell_h, cols, (j % width as int) as nat, (j / width as int) as nat))
}

/// The atlas of `glyphs` in a grid of `cols` cells per row, each
/// `cell_w` x `cell_h` (a glyph larger than its cell is cut): the atlas's
/// width, height and PNG bytes (`None` where the PNG encoder fails).
pub fn glyphs_to_png_atlas(glyphs: &[Glyph], cell_w: u32, cell_h: u32, cols: u32) -> (r: Option<(u32, u32, Vec<u8>)>)
    requires
        cols > 0,
        cell_w > 0,
        cell_h > 0,
        glyphs.len() + cols <= u32::MAX,
        cols * cell_w <= u32::MAX,
        ((glyphs.len() + cols - 1) / (cols as int)) * cell_h <= u32::MAX,
        (cols * cell_w) * (((glyphs.len() + cols - 1) / (cols as int)) * cell_h) <= usize::MAX,
    ensures
        ({
            let rows = (glyphs.len() + cols - 1) / (cols as int);
            let w = (cols * cell_w) as u32;
            let h = (rows * cell_h) as u32;
            let px = atlas_pixels(glyphs@.map_values(|g: Glyph| glyph_view(g)), cell_w as nat, cell_h as nat, cols as nat, w as nat, h as nat);
            match r {
                Some((rw, rh, b)) => rw == w && rh == h && png_gray(w, h, px) == Some(b@),
                None => png_gray(w, h, px) is None,
            }
        }),
{
    let ghost gs = glyphs@.map_values(|g: Glyph| glyph_view(g));
    let n = glyphs.len() as u32;
    proof {
        assert(n == glyphs.len());
    }
    let rows = (n + cols - 1) / cols;
    let atlas_w = cols * cell_w;
    let atlas_h = rows * cell_h;
    let mut atlas: Vec<u8> = Vec::new();
    let mut y: u32 = 0;
    while y < atlas_h
        invariant
            gs == glyphs@.map_values(|g: Glyph| glyph_view(g)),
            cols > 0,
            cell_w > 0,
            cell_h > 0,
            y <= atlas_h,
            atlas_w * atlas_h <= usize::MAX,
            atlas.len() == y * atlas_w,
            forall|j: int| 0 <= j < atlas.len() ==> #[trigger] atlas@[j] == atlas_pixel(gs, cell_w as nat, cell_h as nat, cols as nat, (j % atlas_w as int) as nat, (j / atlas_w as int) as nat),
        decreases atlas_h - y,
    {
        let mut x: u32 = 0;
        while x < atlas_w
            invariant
                gs == glyphs@.map_values(|g: Glyph| glyph_view(g)),
                cols > 0,
                cell_w > 0,
                cell_h > 0,
                y < atlas_h,
                x <= atlas_w,
                atlas_w * atlas_h <= usize::MAX,
                atlas.len() == y * atlas_w + x,
                forall|j: int| 0 <= j < atlas.len() ==> #[trigger] atlas@[j] == atlas_pixel(gs, cell_w as nat, cell_h as nat, cols as nat, (j % atlas_w as int) as nat, (j / atlas_w as int) as nat),
            decreases atlas_w - x,
        {
            let a = (y / cell_h) as u64;
            let b = cols as u64;
            proof {
                assert(a * b <= 0xFFFF_FFFE_0000_0001) by (nonlinear_arith)
                    requires
                        a <= 0xFFFF_FFFF,
                        b <= 0xFFFF_FFFF,
                ;
            }
            let i = a * b + (x / cell_w) as u64;
            let px = x % cell_w;
            let py = y % cell_h;
            let mut v: u8 = 0;
            if i < glyphs.len() as u64 {
                let g = &glyphs[i as usize];
                if px < g.width && py < g.height {
                    let c = py as u64;
                    let d = g.width as u64;
                    proof {
                        assert(c * d <= 0xFFFF_FFFE_0000_0001) by (nonlinear_arith)
                            requires
                                c <= 0xFFFF_FFFF,
                                d <= 0xFFFF_FFFF,
                        ;
                    }
                    let src = c * d + px as u64;
                    if src < g.pixels.len() as u64 {
                        v = g.pixels[src as usize];
                    }
                }
            }
            proof {
                let j = y * atlas_w + x;
                assert(j < atlas_w * atlas_h) by (nonlinear_arith)
                    requires
                        j == y * atlas_w + x,
                        x < atlas_w,
                        y < atlas_h,
                ;
                vstd::arithmetic::div_mod::lemma_fundamental_div_mod_converse(j as int, atlas_w as int, y as int, x as int);
                assert(v == atlas_pixel(gs, cell_w as nat, cell_h as nat, cols as nat, x as nat, y as nat));
            }
            atlas.push(v);
            x += 1;
        }
        proof {
            assert((y + 1) * atlas_w == y * atlas_w + atlas_w) by (nonlinear_arith);
        }
        y += 1;
    }
    proof {
        assert(atlas_h * atlas_w == atlas_w * atlas_h) by (nonlinear_arith);
        assert(atlas@ =~= atlas_pixels(gs, cell_w as nat, cell_h as nat, cols as nat, atlas_w as nat, atlas_h as nat));
    }
    match encode_gray_png(atlas_w, atlas_h, atlas) {
        Some(png) => Some((atlas_w, atlas_h, png)),
        None => None,
    }
}

} // verus!
