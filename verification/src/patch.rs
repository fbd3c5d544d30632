//! Writing GW2 glyph files and file references: the RLE glyph encoder,
//! filler glyphs of an exact size, and file-table helpers.

use vstd::prelude::*;
use crate::dat::MftEntry;
use crate::error::Gw2Error;
use crate::afnt::run_count;
use crate::afnt::rle_decode;
use crate::afnt::rle_step;
use crate::afnt::glyph_decode;
use crate::afnt::first_rep;
use crate::afnt::sat_sub;
use crate::afnt::afnt_chunk;
use crate::afnt::afnt_data_start;
use crate::afnt::afnt_fonts;
use crate::afnt::font_file_id;
use crate::afnt::is_afnt_chunk;
use crate::afnt::is_pf;
use crate::afnt::reference_id;
use crate::bytes::le16;
use crate::bytes::le32;

verus! {

// ---------------------------------------------------------------------------
// Glyph encoding

/// A glyph to encode: its vertical offset in the cell, its size, and its
/// grayscale pixels row by row (0 black, 255 white).
pub struct EncodedGlyph {
    pub y_offset: u8,
    pub width: u32,
    pub height: u32,
    pub pixels: Vec<u8>,
}

/// A run length `n` (at least 1) as stored: one 255 byte per 255 beyond the
/// first pixel, then the rest.
pub open spec fn run_length_bytes(n: nat) -> Seq<u8> {
    Seq::new(((n - 1) / 255) as nat, |i: int| 255u8).push(((n - 1) % 255) as u8)
}

/// How many pixels from `i` on (before `n`) equal `v`.
pub open spec fn run_of(px: Seq<u8>, i: nat, n: nat, v: u8) -> nat
    decreases n - i,
{
    if i < n && i < px.len() && px[i as int] == v {
        1 + run_of(px, i + 1, n, v)
    } else {
        0
    }
}

/// The type-1 pixel stream for pixels `i..n`, after the bytes `acc`: each
/// run of 0 or 255 as the byte and its run length, each other pixel as itself.
pub open spec fn pixel_stream(px: Seq<u8>, i: nat, n: nat, acc: Seq<u8>) -> Seq<u8>
    decreases n - i,
{
    if i >= n || i >= px.len() {
        acc
    } else {
        let v = px[i as int];
        if v == 0 || v == 255 {
            let r = run_of(px, i, n, v);
            if r == 0 || i + r > n {
                acc
            } else {
                pixel_stream(px, i + r, n, acc.push(v) + run_length_bytes(r))
            }
        } else {
            pixel_stream(px, i + 1, n, acc.push(v))
        }
    }
}

/// All pixels equal the first.
pub open spec fn all_same(px: Seq<u8>) -> bool {
    forall|i: int| 0 <= i < px.len() ==> #[trigger] px[i] == px[0]
}

/// A glyph that is all black or all white: stored as its type alone.
pub open spec fn is_uniform(px: Seq<u8>) -> bool {
    px.len() > 0 && all_same(px) && (px[0] == 0 || px[0] == 255)
}

/// A dimension as stored: capped at 255, less one (0 stays 0).
pub open spec fn dim_byte(d: u32) -> u8 {
    let m = if d < 255 { d } else { 255 };
    if m > 0 { (m - 1) as u8 } else { 0 }
}

/// A glyph as stored: y offset, width - 1, height - 1, then type 0 or 255
/// for an all-black or all-white glyph, else type 1 and its pixel stream.
pub open spec fn glyph_bytes(y: u8, w: u32, h: u32, px: Seq<u8>) -> Seq<u8> {
    let hdr = seq![y, dim_byte(w), dim_byte(h)];
    if is_uniform(px) {
        hdr.push(px[0])
    } else {
        hdr.push(1u8) + pixel_stream(px, 0, (w * h) as nat, seq![])
    }
}

/// A glyph the encoder accepts: its pixel count fits a `u32`, and the
/// pixels are all there unless the glyph is stored as its type alone.
pub open spec fn glyph_encodable(g: EncodedGlyph) -> bool {
    &&& g.width * g.height <= u32::MAX
    &&& (is_uniform(g.pixels@) || g.pixels.len() >= g.width * g.height)
}

/// The glyphs `gs` stored one after another.
pub open spec fn glyph_file_bytes(gs: Seq<EncodedGlyph>) -> Seq<u8>
    decreases gs.len(),
{
    if gs.len() == 0 {
        seq![]
    } else {
        let g = gs.last();
        glyph_file_bytes(gs.drop_last()) + glyph_bytes(g.y_offset, g.width, g.height, g.pixels@)
    }
}

/// Appends a run length (at least 1) to `out`.
pub fn encode_run_length(out: &mut Vec<u8>, n: usize)
    requires
        n >= 1,
    ensures
        final(out)@ == old(out)@ + run_length_bytes(n as nat),
{
    let ghost start = out@;
    let mut remaining = n - 1;
    let mut k: usize = 0;
    while remaining >= 255
        invariant
            remaining + 255 * k == n - 1,
            out@ == start + Seq::new(k as nat, |i: int| 255u8),
        decreases remaining,
    {
        out.push(255);
        remaining -= 255;
        proof {
            assert(out@ =~= start + Seq::new((k + 1) as nat, |i: int| 255u8));
        }
        k += 1;
    }
    out.push(remaining as u8);
    proof {
        assert((n - 1) / 255 == k && (n - 1) % 255 == remaining) by {
            vstd::arithmetic::div_mod::lemma_fundamental_div_mod_converse((n - 1) as int, 255, k as int, remaining as int);
        }
        assert(out@ =~= start + run_length_bytes(n as nat));
    }
}

/// Whether all pixels equal the first (true for no pixels).
pub fn pixels_all_same(pixels: &Vec<u8>) -> (r: bool)
    ensures
        r == all_same(pixels@),
{
    let mut i: usize = 1;
    while i < pixels.len()
        invariant
            1 <= i,
            forall|j: int| 0 <= j < i && j < pixels.len() ==> #[trigger] pixels@[j] == pixels@[0],
        decreases pixels.len() - i,
    {
        if pixels[i - 1] != pixels[i] {
            return false;
        }
        i += 1;
    }
    true
}

/// Appends one glyph, stored as `glyph_bytes` says.
pub fn encode_single_glyph(out: &mut Vec<u8>, g: &EncodedGlyph)
    requires
        glyph_encodable(*g),
    ensures
        final(out)@ == old(out)@ + glyph_bytes(g.y_offset, g.width, g.height, g.pixels@),
{
    let ghost start = out@;
    let w: u8 = if g.width < 255 { g.width as u8 } else { 255 };
    let h: u8 = if g.height < 255 { g.height as u8 } else { 255 };
    out.push(g.y_offset);
    out.push(if w > 0 { w - 1 } else { 0 });
    out.push(if h > 0 { h - 1 } else { 0 });
    let pixels = &g.pixels;
    let num_pixels = (g.width * g.height) as usize;
    let all = pixels_all_same(pixels);
    if all && pixels.len() > 0 {
        let val = pixels[0];
        if val == 0 {
            out.push(0);
            proof {
                assert(out@ =~= start + glyph_bytes(g.y_offset, g.width, g.height, g.pixels@));
            }
            return;
        } else if val == 255 {
            out.push(255);
            proof {
                assert(out@ =~= start + glyph_bytes(g.y_offset, g.width, g.height, g.pixels@));
            }
            return;
        }
    }
    out.push(1);
    let ghost hdr = out@;
    let ghost px = pixels@;
    let ghost n = num_pixels as nat;
    proof {
        assert(hdr =~= start + seq![g.y_offset, dim_byte(g.width), dim_byte(g.height)].push(1u8));
        assert(hdr + pixel_stream(px, 0, n, seq![]) == start + glyph_bytes(g.y_offset, g.width, g.height, px)) by {
            assert(!is_uniform(px));
        }
        assert(out@.subrange(hdr.len() as int, out@.len() as int) =~= Seq::<u8>::empty());
        assert(out@.subrange(0, hdr.len() as int) =~= hdr);
    }
    let mut i: usize = 0;
    while i < num_pixels
        invariant
            i <= num_pixels,
            num_pixels <= pixels.len(),
            px == pixels@,
            n == num_pixels,
            hdr + pixel_stream(px, 0, n, seq![]) == hdr + pixel_stream(px, i as nat, n, out@.subrange(hdr.len() as int, out@.len() as int)),
            out@.subrange(0, hdr.len() as int) == hdr,
            hdr.len() <= out@.len(),
        decreases num_pixels - i,
    {
        let val = pixels[i];
        let ghost acc = out@.subrange(hdr.len() as int, out@.len() as int);
        if val == 0 || val == 255 {
            let start_i = i;
            while i < num_pixels && pixels[i] == val
                invariant
                    start_i <= i <= num_pixels,
                    num_pixels <= pixels.len(),
                    px == pixels@,
                    run_of(px, start_i as nat, n, val) == (i - start_i) + run_of(px, i as nat, n, val),
                    n == num_pixels,
                decreases num_pixels - i,
            {
                i += 1;
            }
            let run = i - start_i;
            proof {
                assert(run_of(px, i as nat, n, val) == 0);
            }
            out.push(val);
            encode_run_length(out, run);
            proof {
                assert(out@.subrange(hdr.len() as int, out@.len() as int) =~= acc.push(val) + run_length_bytes(run as nat));
                assert(out@.subrange(0, hdr.len() as int) =~= hdr);
            }
        } else {
            out.push(val);
            i += 1;
            proof {
                assert(out@.subrange(hdr.len() as int, out@.len() as int) =~= acc.push(val));
                assert(out@.subrange(0, hdr.len() as int) =~= hdr);
            }
        }
    }
    proof {
        let acc = out@.subrange(hdr.len() as int, out@.len() as int);
        assert(pixel_stream(px, i as nat, n, acc) == acc);
        assert(out@ =~= hdr + acc);
    }
}

/// The first `n` glyphs stored one after another.
fn encode_glyph_prefix(glyphs: &[EncodedGlyph], n: usize) -> (r: Vec<u8>)
    requires
        n <= glyphs.len(),
        forall|i: int| 0 <= i < n ==> glyph_encodable(#[trigger] glyphs@[i]),
    ensures
        r@ == glyph_file_bytes(glyphs@.take(n as int)),
{
    let mut out: Vec<u8> = Vec::new();
    let mut i: usize = 0;
    proof {
        assert(glyphs@.take(0) =~= Seq::<EncodedGlyph>::empty());
    }
    while i < n
        invariant
            i <= n <= glyphs.len(),
            forall|k: int| 0 <= k < n ==> glyph_encodable(#[trigger] glyphs@[k]),
            out@ == glyph_file_bytes(glyphs@.take(i as int)),
        decreases n - i,
    {
        encode_single_glyph(&mut out, &glyphs[i]);
        proof {
            assert(glyphs@.take(i + 1).drop_last() =~= glyphs@.take(i as int));
        }
        i += 1;
    }
    out
}

/// The glyphs stored one after another, as a glyph file.
pub fn encode_glyph_file(glyphs: &[EncodedGlyph]) -> (r: Vec<u8>)
    requires
        forall|i: int| 0 <= i < glyphs.len() ==> glyph_encodable(#[trigger] glyphs@[i]),
    ensures
        r@ == glyph_file_bytes(glyphs@),
{
    proof {
        assert(glyphs@.take(glyphs.len() as int) =~= glyphs@);
    }
    encode_glyph_prefix(glyphs, glyphs.len())
}

/// An empty glyph: one black pixel.
pub open spec fn is_empty_glyph(g: EncodedGlyph) -> bool {
    &&& g.y_offset == 0
    &&& g.width == 1
    &&& g.height == 1
    &&& g.pixels@ == seq![0u8]
}

/// Pads `glyphs` with empty glyphs up to `count` glyphs, so that a range of
/// `count` code points reading the file finds a glyph for each.
pub fn pad_with_empty_glyphs(glyphs: &mut Vec<EncodedGlyph>, count: usize)
    ensures
        final(glyphs)@.len() == if old(glyphs)@.len() < count { count as nat } else { old(glyphs)@.len() },
        forall|i: int| 0 <= i < old(glyphs)@.len() ==> final(glyphs)@[i] == old(glyphs)@[i],
        forall|i: int| old(glyphs)@.len() <= i < final(glyphs)@.len() ==> is_empty_glyph(#[trigger] final(glyphs)@[i]),
{
    let ghost before = glyphs@;
    while glyphs.len() < count
        invariant
            before.len() <= glyphs@.len(),
            glyphs@.len() <= count || glyphs@.len() == before.len(),
            forall|i: int| 0 <= i < before.len() ==> glyphs@[i] == before[i],
            forall|i: int| before.len() <= i < glyphs@.len() ==> is_empty_glyph(#[trigger] glyphs@[i]),
        decreases count - glyphs.len(),
    {
        let pixels: Vec<u8> = vec![0u8];
        proof {
            assert(pixels@ =~= seq![0u8]);
        }
        glyphs.push(EncodedGlyph { y_offset: 0, width: 1, height: 1, pixels });
    }
}

// ---------------------------------------------------------------------------
// Filler glyphs

/// The first `w` from `lo` to `hi` that divides `p`.
pub open spec fn first_divisor(p: nat, lo: nat, hi: nat) -> Option<nat>
    decreases hi + 1 - lo,
{
    if lo > hi || lo == 0 {
        None
    } else if p % lo == 0 {
        Some(lo)
    } else {
        first_divisor(p, lo + 1, hi)
    }
}

/// The shape of a filler glyph with `lits` literal pixels: trying trailing
/// runs of 1 to 255 pixels in turn, the first pixel count up to 65536 with a
/// width and height of at most 256 each, as (width, height, run).
pub open spec fn filler_shape(lits: nat, run: nat) -> Option<(nat, nat, nat)>
    decreases 256 - run,
{
    if run == 0 || run > 255 {
        None
    } else {
        let p = lits + run;
        if p > 256 * 256 {
            None
        } else {
            let lo = if (p + 255) / 256 > 1 { (p + 255) / 256 } else { 1 };
            let hi = if p < 256 { p } else { 256 };
            match first_divisor(p, lo as nat, hi as nat) {
                Some(w) => Some((w, p / w, run)),
                None => filler_shape(lits, run + 1),
            }
        }
    }
}

/// A filler glyph of `target` bytes with the shape `(w, h, run)`: y offset
/// 0, its size, type 1, `target - 6` literal pixels of 0x80, then a run of
/// `run` black pixels.
pub open spec fn filler_bytes(target: nat, w: nat, h: nat, run: nat) -> Seq<u8> {
    seq![0u8, (w - 1) as u8, (h - 1) as u8, 1u8] + Seq::new((target - 6) as nat, |i: int| 0x80u8) + seq![0u8, (run - 1) as u8]
}

proof fn lemma_first_divisor(p: nat, lo: nat, hi: nat)
    ensures
        first_divisor(p, lo, hi) matches Some(w) ==> lo <= w <= hi && w > 0 && p % w == 0,
    decreases hi + 1 - lo,
{
    if !(lo > hi || lo == 0) && p % lo != 0 {
        lemma_first_divisor(p, lo + 1, hi);
    }
}

/// A found shape has a width and height of 1 to 256 covering the pixels.
pub proof fn lemma_filler_shape(lits: nat, run: nat)
    ensures
        filler_shape(lits, run) matches Some((w, h, r)) ==> {
            &&& 1 <= w <= 256
            &&& 1 <= h <= 256
            &&& 1 <= r <= 255
            &&& w * h == lits + r
        },
    decreases 256 - run,
{
    if !(run == 0 || run > 255) {
        let p = lits + run;
        if p <= 256 * 256 {
            let lo = if (p + 255) / 256 > 1 { (p + 255) / 256 } else { 1 };
            let hi = if p < 256 { p } else { 256 };
            lemma_first_divisor(p, lo as nat, hi as nat);
            match first_divisor(p, lo as nat, hi as nat) {
                Some(w) => {
                    let h = p / w;
                    vstd::arithmetic::div_mod::lemma_fundamental_div_mod(p as int, w as int);
                    assert(w * h == p);
                    assert(h <= 256) by (nonlinear_arith)
                        requires
                            w * h == p,
                            w >= (p + 255) / 256,
                            w >= 1,
                            p <= 65536,
                    ;
                    assert(h >= 1) by (nonlinear_arith)
                        requires
                            w * h == p,
                            p >= 1,
                            w >= 1,
                    ;
                },
                None => {
                    lemma_filler_shape(lits, run + 1);
                },
            }
        }
    }
}

/// Searches for the filler shape `filler_shape(lits, 1)`; `(0, 0, 0)` where
/// there is none.
fn find_filler_shape(lits: usize) -> (r: (usize, usize, usize))
    ensures
        match filler_shape(lits as nat, 1) {
            Some((w, h, run)) => r == (w as usize, h as usize, run as usize),
            None => r.0 == 0,
        },
{
    let mut run_pixels: usize = 1;
    while run_pixels <= 255
        invariant
            1 <= run_pixels <= 256,
            filler_shape(lits as nat, 1) == filler_shape(lits as nat, run_pixels as nat),
        decreases 256 - run_pixels,
    {
        if lits > 65536 - run_pixels {
            return (0, 0, 0);
        }
        let p = lits + run_pixels;
        let start = if (p + 255) / 256 > 1 { (p + 255) / 256 } else { 1 };
        let hi = if p < 256 { p } else { 256 };
        let mut w = start;
        while w <= hi
            invariant
                start <= w <= hi + 1,
                start >= 1,
                hi <= 256,
                first_divisor(p as nat, start as nat, hi as nat) == first_divisor(p as nat, w as nat, hi as nat),
                1 <= run_pixels <= 255,
                p == lits + run_pixels,
                p <= 65536,
                start == (if (p + 255) / 256 > 1 { (p + 255) / 256 } else { 1 }),
                hi == (if p < 256 { p } else { 256 }),
                filler_shape(lits as nat, 1) == filler_shape(lits as nat, run_pixels as nat),
            decreases hi + 1 - w,
        {
            if p % w == 0 {
                return (w, p / w, run_pixels);
            }
            w += 1;
        }
        run_pixels += 1;
    }
    (0, 0, 0)
}

/// A type-1 filler glyph of exactly `target` bytes (at least 6): literal
/// pixels and one trailing black run, its size chosen to fit the pixel count.
pub fn make_filler_glyph(target: usize) -> (r: Vec<u8>)
    requires
        target >= 6,
        filler_shape((target - 6) as nat, 1) is Some,
    ensures
        ({
            let (w, h, run) = filler_shape((target - 6) as nat, 1).unwrap();
            r@ == filler_bytes(target as nat, w, h, run)
        }),
        r.len() == target,
{
    let stream = target - 4;
    let lits = stream - 2;
    let (rw, rh, rrun) = find_filler_shape(lits);
    proof {
        lemma_filler_shape(lits as nat, 1);
    }
    let mut out: Vec<u8> = Vec::new();
    out.push(0);
    out.push((rw - 1) as u8);
    out.push((rh - 1) as u8);
    out.push(1);
    let mut k: usize = 0;
    while k < lits
        invariant
            k <= lits,
            out@ == seq![0u8, (rw - 1) as u8, (rh - 1) as u8, 1u8] + Seq::new(k as nat, |i: int| 0x80u8),
        decreases lits - k,
    {
        out.push(0x80);
        proof {
            assert(out@ =~= seq![0u8, (rw - 1) as u8, (rh - 1) as u8, 1u8] + Seq::new((k + 1) as nat, |i: int| 0x80u8));
        }
        k += 1;
    }
    out.push(0);
    out.push((rrun - 1) as u8);
    proof {
        assert(out@ =~= filler_bytes(target as nat, rw as nat, rh as nat, rrun as nat));
    }
    out
}

/// The bytes of an uncompressed entry: the data as it is.
pub fn wrap_uncompressed(data: &[u8]) -> (r: Vec<u8>)
    ensures
        r@ == data@,
{
    let mut out: Vec<u8> = Vec::new();
    let mut i: usize = 0;
    while i < data.len()
        invariant
            i <= data.len(),
            out@ == data@.take(i as int),
        decreases data.len() - i,
    {
        out.push(data[i]);
        proof {
            assert(out@ =~= data@.take(i + 1));
        }
        i += 1;
    }
    proof {
        assert(data@.take(data.len() as int) =~= data@);
    }
    out
}

// ---------------------------------------------------------------------------
// File table helpers

/// A file-table slot no file uses: offset and size 0.
pub open spec fn slot_free(e: MftEntry) -> bool {
    e.offset == 0 && e.size == 0
}

/// The first free file-table slot.
pub fn find_free_mft_slot(entries: &[MftEntry]) -> (r: Option<usize>)
    ensures
        match r {
            Some(i) => i < entries.len() && slot_free(entries@[i as int])
                && forall|j: int| 0 <= j < i ==> !slot_free(#[trigger] entries@[j]),
            None => forall|j: int| 0 <= j < entries.len() ==> !slot_free(#[trigger] entries@[j]),
        },
{
    let mut i: usize = 0;
    while i < entries.len()
        invariant
            i <= entries.len(),
            forall|j: int| 0 <= j < i ==> !slot_free(#[trigger] entries@[j]),
        decreases entries.len() - i,
    {
        if entries[i].offset == 0 && entries[i].size == 0 {
            return Some(i);
        }
        i += 1;
    }
    None
}

/// The `ANetFileReference` parts of a file id (from 1): with `id = file_id - 1`,
/// `[id % 0xFF00 + 0x100, id / 0xFF00 + 0x100, 0]`, each cut to 16 bits.
pub open spec fn reference_parts(file_id: nat) -> Seq<u16> {
    let id = (file_id - 1) as nat;
    seq![((id % 0xFF00) + 0x100) as u16, ((id / 0xFF00) + 0x100) as u16, 0u16]
}

/// The `ANetFileReference` naming `file_id`.
pub fn file_id_to_reference(file_id: u32) -> (r: [u16; 3])
    requires
        file_id >= 1,
    ensures
        r@ == reference_parts(file_id as nat),
{
    let id = file_id - 1;
    let p1 = (id / 0xFF00 + 0x100) as u16;
    let p0 = (id % 0xFF00 + 0x100) as u16;
    let r = [p0, p1, 0x0000];
    proof {
        assert(r@ =~= reference_parts(file_id as nat));
    }
    r
}


// ---------------------------------------------------------------------------
// Padding an atlas to an exact size

/// The largest filler glyph the padding uses.
pub const MAX_FILLER: usize = 65000;

proof fn lemma_first_divisor_found(p: nat, lo: nat, hi: nat, d: nat)
    requires
        1 <= lo <= d <= hi,
        p % d == 0,
    ensures
        first_divisor(p, lo, hi) is Some,
    decreases d - lo,
{
    if p % lo != 0 {
        lemma_first_divisor_found(p, lo + 1, hi, d);
    }
}

proof fn lemma_filler_shape_reaches(lits: nat, run: nat, target_run: nat)
    requires
        1 <= run <= target_run <= 255,
        lits + 255 <= 65536,
        filler_shape(lits, target_run) is Some,
    ensures
        filler_shape(lits, run) is Some,
    decreases target_run - run,
{
    if run < target_run {
        lemma_filler_shape_reaches(lits, run + 1, target_run);
    }
}

/// A filler glyph of 6 to 65000 bytes always has a shape: among the
/// trailing runs of 1 to 255 pixels, one makes the pixel count a multiple
/// of 255 that a width of 255 divides.
pub proof fn lemma_filler_exists(target: nat)
    requires
        6 <= target <= MAX_FILLER,
    ensures
        filler_shape((target - 6) as nat, 1) is Some,
{
    let lits = (target - 6) as nat;
    let r = (255 - lits % 255) as nat;
    assert(1 <= r <= 255);
    let p = lits + r;
    assert(p % 255 == 0) by {
        vstd::arithmetic::div_mod::lemma_fundamental_div_mod(lits as int, 255);
        vstd::arithmetic::div_mod::lemma_mod_multiples_vanish((lits / 255 + 1) as int, 0, 255);
        assert(p == 255 * (lits / 255 + 1));
    }
    let k = p / 255;
    vstd::arithmetic::div_mod::lemma_fundamental_div_mod(p as int, 255);
    assert(p == 255 * k);
    assert(1 <= k <= 255);
    let lo = if (p + 255) / 256 > 1 { (p + 255) / 256 } else { 1 };
    let hi = if p < 256 { p } else { 256 };
    assert((p + 255) / 256 <= k) by {
        let a = (p + 255) as int;
        vstd::arithmetic::div_mod::lemma_fundamental_div_mod(a, 256);
        let q = a / 256;
        assert(256 * q <= a);
        assert(a < 256 * (k + 1));
        assert(q <= k) by (nonlinear_arith)
            requires
                256 * q <= a,
                a < 256 * (k + 1),
        ;
    }
    assert(lo <= 255);
    assert(hi >= 255);
    lemma_first_divisor_found(p, lo as nat, hi as nat, 255);
    assert(filler_shape(lits, r) is Some);
    lemma_filler_shape_reaches(lits, 1, r);
}

/// The filler glyph of `t` bytes.
pub open spec fn filler_of(t: nat) -> Seq<u8> {
    let (w, h, run) = filler_shape((t - 6) as nat, 1).unwrap();
    filler_bytes(t, w, h, run)
}

/// `rem` filler glyphs of `need` bytes in all: each but the last as large as
/// allowed while leaving 6 bytes for each one after it.
pub open spec fn fillers(need: nat, rem: nat) -> Seq<u8>
    decreases rem,
{
    if rem == 0 {
        seq![]
    } else {
        let this: nat = if rem == 1 {
            need
        } else if MAX_FILLER < need - 6 * (rem - 1) {
            MAX_FILLER as nat
        } else {
            (need - 6 * (rem - 1)) as nat
        };
        filler_of(this) + fillers((need - this) as nat, (rem - 1) as nat)
    }
}

/// The smallest number of fillers, from `nfill` up to `count - 1`, that pads
/// the first `count - nfill` glyphs to `gen` bytes.
pub open spec fn pad_search(gs: Seq<EncodedGlyph>, count: nat, gen: nat, nfill: nat) -> Option<nat>
    decreases count - nfill,
{
    if nfill >= count {
        None
    } else {
        let pre = glyph_file_bytes(gs.take(count - nfill)).len();
        if pre + 6 * nfill > gen || gen - pre > MAX_FILLER * nfill {
            pad_search(gs, count, gen, nfill + 1)
        } else {
            Some(nfill)
        }
    }
}

/// Keeping the first `count - k` glyphs leaves room for `k` fillers (each
/// of 6 to `MAX_FILLER` bytes) to make up exactly `gen` bytes.
pub open spec fn room_for_fillers(gs: Seq<EncodedGlyph>, count: nat, gen: nat, k: nat) -> bool {
    let pre = glyph_file_bytes(gs.take(count - k)).len();
    &&& 1 <= k < count
    &&& pre <= gen
    &&& 6 * k <= gen - pre <= MAX_FILLER * k
}

/// The padding drops as few real glyphs as it can: the search from one
/// filler up gives the least number of fillers that has room, and gives
/// none exactly when no number from 1 to `count - 1` has.
pub proof fn lemma_pad_search_least(gs: Seq<EncodedGlyph>, count: nat, gen: nat)
    ensures
        pad_search(gs, count, gen, 1) matches Some(nf) ==> {
            &&& room_for_fillers(gs, count, gen, nf)
            &&& forall|k: nat| 1 <= k < nf ==> !#[trigger] room_for_fillers(gs, count, gen, k)
        },
        pad_search(gs, count, gen, 1) is None <==> forall|k: nat| 1 <= k < count ==> !#[trigger] room_for_fillers(gs, count, gen, k),
{
    lemma_pad_search_from(gs, count, gen, 1);
}

proof fn lemma_pad_search_from(gs: Seq<EncodedGlyph>, count: nat, gen: nat, nfill: nat)
    requires
        1 <= nfill,
    ensures
        pad_search(gs, count, gen, nfill) matches Some(nf) ==> {
            &&& nfill <= nf
            &&& room_for_fillers(gs, count, gen, nf)
            &&& forall|k: nat| nfill <= k < nf ==> !#[trigger] room_for_fillers(gs, count, gen, k)
        },
        pad_search(gs, count, gen, nfill) is None <==> forall|k: nat| nfill <= k < count ==> !#[trigger] room_for_fillers(gs, count, gen, k),
    decreases count - nfill,
{
    if nfill < count {
        let pre = glyph_file_bytes(gs.take(count - nfill)).len();
        if pre + 6 * nfill > gen || gen - pre > MAX_FILLER * nfill {
            lemma_pad_search_from(gs, count, gen, nfill + 1);
            assert(!room_for_fillers(gs, count, gen, nfill));
            if pad_search(gs, count, gen, nfill) is None {
                assert forall|k: nat| nfill <= k < count implies !#[trigger] room_for_fillers(gs, count, gen, k) by {
                    if k > nfill {
                        assert(nfill + 1 <= k);
                    }
                }
            }
        } else {
            assert(room_for_fillers(gs, count, gen, nfill));
        }
    }
}

/// Appends `nfill` fillers of `need` bytes in all.
fn push_fillers(out: &mut Vec<u8>, need: usize, nfill: usize)
    requires
        6 * nfill <= need <= MAX_FILLER * nfill,
    ensures
        final(out)@ == old(out)@ + fillers(need as nat, nfill as nat),
    decreases nfill,
{
    if nfill == 0 {
        proof {
            assert(old(out)@ + fillers(need as nat, 0) =~= old(out)@);
        }
        return;
    }
    let rem = nfill;
    let this: usize = if rem == 1 {
        need
    } else if MAX_FILLER < need - 6 * (rem - 1) {
        MAX_FILLER
    } else {
        need - 6 * (rem - 1)
    };
    proof {
        lemma_filler_exists(this as nat);
    }
    let mut f = make_filler_glyph(this);
    let ghost before = out@;
    out.append(&mut f);
    push_fillers(out, need - this, rem - 1);
    proof {
        assert(final(out)@ =~= before + fillers(need as nat, nfill as nat));
    }
}

/// A glyph file for `glyph_count` glyphs that is exactly `gen_size` bytes:
/// all the glyphs if they fill it exactly; `None` if they are too large;
/// else the first glyphs and as few filler glyphs as pad it
/// (`pad_search`), or `CannotPad` if no number does.
pub fn build_padded_atlas(glyphs: &[EncodedGlyph], glyph_count: usize, gen_size: usize) -> (r: Result<Option<Vec<u8>>, Gw2Error>)
    requires
        forall|i: int| 0 <= i < glyphs.len() ==> glyph_encodable(#[trigger] glyphs@[i]),
        glyph_count <= glyphs.len() + 1,
        glyph_count <= 0x1_0000_0000,
    ensures
        ({
            let full = glyph_file_bytes(glyphs@);
            if full.len() == gen_size {
                r matches Ok(Some(a)) && a@ == full
            } else if full.len() > gen_size {
                r matches Ok(None)
            } else {
                match pad_search(glyphs@, glyph_count as nat, gen_size as nat, 1) {
                    None => r == Err::<Option<Vec<u8>>, Gw2Error>(Gw2Error::CannotPad),
                    Some(nf) => {
                        let pre = glyph_file_bytes(glyphs@.take(glyph_count - nf));
                        r matches Ok(Some(a)) && a@ == pre + fillers((gen_size - pre.len()) as nat, nf)
                    },
                }
            }
        }),
        r matches Ok(Some(a)) ==> a.len() == gen_size,
        glyph_file_bytes(glyphs@).len() < gen_size ==> (r is Err <==> forall|k: nat|
            1 <= k < glyph_count ==> !#[trigger] room_for_fillers(glyphs@, glyph_count as nat, gen_size as nat, k)),
        glyph_file_bytes(glyphs@).len() < gen_size && r is Ok ==> exists|nf: nat| {
            let pre = glyph_file_bytes(glyphs@.take(glyph_count - nf));
            &&& #[trigger] room_for_fillers(glyphs@, glyph_count as nat, gen_size as nat, nf)
            &&& (forall|k: nat| 1 <= k < nf ==> !#[trigger] room_for_fillers(glyphs@, glyph_count as nat, gen_size as nat, k))
            &&& r matches Ok(Some(a)) && a@ == pre + fillers((gen_size - pre.len()) as nat, nf)
        },
{
    proof {
        lemma_pad_search_least(glyphs@, glyph_count as nat, gen_size as nat);
        if let Some(nf) = pad_search(glyphs@, glyph_count as nat, gen_size as nat, 1) {
            assert(room_for_fillers(glyphs@, glyph_count as nat, gen_size as nat, nf));
        }
    }
    let real_full = encode_glyph_file(glyphs);
    if real_full.len() == gen_size {
        return Ok(Some(real_full));
    } else if real_full.len() > gen_size {
        return Ok(None);
    }
    let mut nfill: usize = 1;
    loop
        invariant
            forall|i: int| 0 <= i < glyphs.len() ==> glyph_encodable(#[trigger] glyphs@[i]),
            glyph_count <= glyphs.len() + 1,
            glyph_count <= 0x1_0000_0000,
            1 <= nfill,
            glyph_file_bytes(glyphs@).len() < gen_size,
            pad_search(glyphs@, glyph_count as nat, gen_size as nat, 1) == pad_search(glyphs@, glyph_count as nat, gen_size as nat, nfill as nat),
            pad_search(glyphs@, glyph_count as nat, gen_size as nat, 1) matches Some(nf) ==> {
                &&& room_for_fillers(glyphs@, glyph_count as nat, gen_size as nat, nf)
                &&& forall|k: nat| 1 <= k < nf ==> !#[trigger] room_for_fillers(glyphs@, glyph_count as nat, gen_size as nat, k)
            },
            pad_search(glyphs@, glyph_count as nat, gen_size as nat, 1) is None <==> forall|k: nat|
                1 <= k < glyph_count ==> !#[trigger] room_for_fillers(glyphs@, glyph_count as nat, gen_size as nat, k),
        decreases glyph_count - nfill,
    {
        if nfill >= glyph_count {
            return Err(Gw2Error::CannotPad);
        }
        let real_count = glyph_count - nfill;
        let prefix = encode_glyph_prefix(glyphs, real_count);
        if prefix.len() > gen_size || 6 * (nfill as u64) > (gen_size - prefix.len()) as u64 {
            nfill += 1;
            continue;
        }
        let total = gen_size - prefix.len();
        if total as u64 > (MAX_FILLER as u64) * (nfill as u64) {
            nfill += 1;
            continue;
        }
        let mut a = prefix;
        let ghost pre = a@;
        push_fillers(&mut a, total, nfill);
        proof {
            lemma_fillers_len(total as nat, nfill as nat);
        }
        return Ok(Some(a));
    }
}

/// The fillers take exactly the bytes they are given.
pub proof fn lemma_fillers_len(need: nat, rem: nat)
    requires
        6 * rem <= need <= MAX_FILLER * rem,
    ensures
        fillers(need, rem).len() == need,
    decreases rem,
{
    if rem > 0 {
        let this: nat = if rem == 1 {
            need
        } else if MAX_FILLER < need - 6 * (rem - 1) {
            MAX_FILLER as nat
        } else {
            (need - 6 * (rem - 1)) as nat
        };
        lemma_filler_exists(this);
        lemma_filler_shape((this - 6) as nat, 1);
        lemma_fillers_len((need - this) as nat, (rem - 1) as nat);
    }
}

// ---------------------------------------------------------------------------
// Patching the font table

/// `data` with the little-endian `u32` `v` written at `at`.
pub open spec fn with_u32(data: Seq<u8>, at: int, v: u32) -> Seq<u8> {
    data.update(at, (v % 256) as u8).update(at + 1, ((v / 256) % 256) as u8).update(at + 2, ((v / 65536) % 256) as u8).update(
        at + 3,
        (v / 16777216) as u8,
    )
}

/// Writes the little-endian `u32` `v` at `data[at..at + 4]`.
fn put_u32(data: &mut Vec<u8>, at: usize, v: u32)
    requires
        at + 4 <= old(data).len(),
    ensures
        final(data)@ == with_u32(old(data)@, at as int, v),
{
    data.set(at, (v % 256) as u8);
    data.set(at + 1, ((v / 256) % 256) as u8);
    data.set(at + 2, ((v / 65536) % 256) as u8);
    data.set(at + 3, (v / 16777216) as u8);
}

/// Where `fileNames[3]` of font `font_idx` lies in a font table with a
/// 16-byte chunk header and the descriptors right after the 12-byte chunk
/// data header.
pub open spec fn cyrillic_field(font_idx: nat) -> nat {
    28 + 12 + 68 * font_idx + 16 + 3 * 4
}

/// Points `fileNames[3]` of font `font_idx` at the reference `ptr_val`
/// bytes on (the table's size is unchanged).
pub fn patch_afnt_inplace(afnt_data: &[u8], font_idx: usize, ptr_val: u32) -> (r: Result<Vec<u8>, Gw2Error>)
    requires
        cyrillic_field(font_idx as nat) + 4 <= afnt_data.len(),
    ensures
        r matches Ok(v) && v@ == with_u32(afnt_data@, cyrillic_field(font_idx as nat) as int, ptr_val),
{
    let field_pos = 28 + 12 + font_idx * 68 + 16 + 3 * 4;
    let mut new_data = wrap_uncompressed(afnt_data);
    put_u32(&mut new_data, field_pos, ptr_val);
    Ok(new_data)
}

/// The patched table: `fileNames[3]` of the font points at a new
/// `ANetFileReference` appended at the end, and the chunk size field
/// (bytes 16..20) counts the 6 new bytes.
pub open spec fn cyrillic_patched(data: Seq<u8>, font_idx: nat, file_id: nat) -> Seq<u8> {
    let f = cyrillic_field(font_idx);
    let ptr = (data.len() - f) as u32;
    let parts = reference_parts(file_id);
    let grown = with_u32(data, f as int, ptr) + seq![
        (parts[0] % 256) as u8,
        (parts[0] / 256) as u8,
        (parts[1] % 256) as u8,
        (parts[1] / 256) as u8,
        (parts[2] % 256) as u8,
        (parts[2] / 256) as u8,
    ];
    with_u32(grown, 16, (grown.len() - 20) as u32)
}

/// Appends a reference to `new_file_id` to the font table and points
/// `fileNames[3]` of font `font_idx` at it.
pub fn patch_afnt_cyrillic(afnt_data: &[u8], font_idx: usize, new_file_id: u32) -> (r: Result<Vec<u8>, Gw2Error>)
    requires
        afnt_data.len() >= 28,
        new_file_id >= 1,
        afnt_data.len() >= cyrillic_field(font_idx as nat) ==> cyrillic_field(font_idx as nat) + 4 <= afnt_data.len(),
        afnt_data.len() + 6 <= usize::MAX,
    ensures
        afnt_data.len() < cyrillic_field(font_idx as nat) ==> r == Err::<Vec<u8>, Gw2Error>(Gw2Error::ReferenceBeforeField),
        afnt_data.len() >= cyrillic_field(font_idx as nat) && afnt_data.len() - cyrillic_field(font_idx as nat) > u32::MAX
            ==> r == Err::<Vec<u8>, Gw2Error>(Gw2Error::PointerTooLarge),
        afnt_data.len() >= cyrillic_field(font_idx as nat) && afnt_data.len() - cyrillic_field(font_idx as nat) <= u32::MAX
            ==> (r matches Ok(v) && v@ == cyrillic_patched(afnt_data@, font_idx as nat, new_file_id as nat)),
{
    let data_start: usize = 12 + 16;
    let d_len = afnt_data.len() - data_start;
    let ref_bytes = file_id_to_reference(new_file_id);
    if d_len < 40 || font_idx > (d_len - 40) / 68 {
        proof {
            if d_len >= 40 {
                let x = (d_len - 40) as int;
                vstd::arithmetic::div_mod::lemma_fundamental_div_mod(x, 68);
                assert(x < 68 * font_idx) by (nonlinear_arith)
                    requires
                        font_idx > x / 68,
                        x == 68 * (x / 68) + x % 68,
                        x % 68 < 68,
                ;
            }
        }
        return Err(Gw2Error::ReferenceBeforeField);
    }
    let off = 12 + font_idx * 68 + 16 + 3 * 4;
    if off > d_len {
        return Err(Gw2Error::ReferenceBeforeField);
    }
    let ptr_val = d_len - off;
    if ptr_val > u32::MAX as usize {
        return Err(Gw2Error::PointerTooLarge);
    }
    let mut new_data = wrap_uncompressed(afnt_data);
    let field_pos = data_start + off;
    put_u32(&mut new_data, field_pos, ptr_val as u32);
    new_data.push((ref_bytes[0] % 256) as u8);
    new_data.push((ref_bytes[0] / 256) as u8);
    new_data.push((ref_bytes[1] % 256) as u8);
    new_data.push((ref_bytes[1] / 256) as u8);
    new_data.push((ref_bytes[2] % 256) as u8);
    new_data.push((ref_bytes[2] / 256) as u8);
    let new_chunk_data_size = (new_data.len() - 12 - 8) as u32;
    put_u32(&mut new_data, 0x10, new_chunk_data_size);
    proof {
        assert(new_data@ =~= cyrillic_patched(afnt_data@, font_idx as nat, new_file_id as nat));
    }
    Ok(new_data)
}

// ---------------------------------------------------------------------------
// File-table records

/// A stored file-table entry for an uncompressed file of `size` bytes at
/// `offset`: offset, size, then zero flags, counter and checksum.
pub open spec fn mft_record(offset: u64, size: u32) -> Seq<u8> {
    Seq::new(8, |i: int| ((offset as int / pow256(i)) % 256) as u8)
        + Seq::new(4, |i: int| ((size as int / pow256(i)) % 256) as u8)
        + Seq::new(12, |i: int| 0u8)
}

proof fn lemma_pow256_pos(i: int)
    ensures
        pow256(i) >= 1,
    decreases i,
{
    if i > 0 {
        lemma_pow256_pos(i - 1);
    }
}

/// `256^i` for the byte positions of a little-endian number.
pub open spec fn pow256(i: int) -> int
    decreases i,
{
    if i <= 0 { 1 } else { 256 * pow256(i - 1) }
}

/// The 24 bytes of `mft_record(offset, size)`.
pub fn mft_entry_record(offset: u64, size: u32) -> (r: Vec<u8>)
    ensures
        r@ == mft_record(offset, size),
{
    let mut out: Vec<u8> = Vec::new();
    let mut v = offset;
    let mut i: usize = 0;
    while i < 8
        invariant
            i <= 8,
            v as int == offset as int / pow256(i as int),
            out@ == Seq::new(i as nat, |k: int| ((offset as int / pow256(k)) % 256) as u8),
        decreases 8 - i,
    {
        out.push((v % 256) as u8);
        proof {
            assert(pow256(i + 1) == 256 * pow256(i as int));
            lemma_pow256_pos(i as int);
            vstd::arithmetic::div_mod::lemma_div_denominator(offset as int, pow256(i as int), 256);
            assert(out@ =~= Seq::new((i + 1) as nat, |k: int| ((offset as int / pow256(k)) % 256) as u8));
        }
        v = v / 256;
        i += 1;
    }
    let ghost first = out@;
    let mut s = size;
    let mut j: usize = 0;
    while j < 4
        invariant
            j <= 4,
            s as int == size as int / pow256(j as int),
            out@ == first + Seq::new(j as nat, |k: int| ((size as int / pow256(k)) % 256) as u8),
        decreases 4 - j,
    {
        out.push((s % 256) as u8);
        proof {
            assert(pow256(j + 1) == 256 * pow256(j as int));
            lemma_pow256_pos(j as int);
            vstd::arithmetic::div_mod::lemma_div_denominator(size as int, pow256(j as int), 256);
            assert(out@ =~= first + Seq::new((j + 1) as nat, |k: int| ((size as int / pow256(k)) % 256) as u8));
        }
        s = s / 256;
        j += 1;
    }
    let ghost second = out@;
    let mut z: usize = 0;
    while z < 12
        invariant
            z <= 12,
            out@ == second + Seq::new(z as nat, |k: int| 0u8),
        decreases 12 - z,
    {
        out.push(0);
        proof {
            assert(out@ =~= second + Seq::new((z + 1) as nat, |k: int| 0u8));
        }
        z += 1;
    }
    out
}

/// The first ATOC record, at a multiple of 8, whose id and index are both
/// zero: its byte position.
pub fn find_free_atoc_record(atoc: &[u8]) -> (r: Option<usize>)
    ensures
        match r {
            Some(p) => p % 8 == 0 && p + 8 <= atoc.len() && crate::bytes::le32(atoc@, p as int) == 0
                && crate::bytes::le32(atoc@, p + 4) == 0 && forall|q: int| 0 <= q < p && q % 8 == 0 ==> !(
                #[trigger] crate::bytes::le32(atoc@, q) == 0 && crate::bytes::le32(atoc@, q + 4) == 0),
            None => forall|q: int| 0 <= q && q + 8 <= atoc.len() && q % 8 == 0 ==> !(
                #[trigger] crate::bytes::le32(atoc@, q) == 0 && crate::bytes::le32(atoc@, q + 4) == 0),
        },
{
    let mut pos: usize = 0;
    while atoc.len() >= 8 && pos <= atoc.len() - 8
        invariant
            pos % 8 == 0,
            forall|q: int| 0 <= q < pos && q % 8 == 0 ==> !(#[trigger] crate::bytes::le32(atoc@, q) == 0 && crate::bytes::le32(atoc@, q + 4) == 0),
        decreases atoc.len() - pos,
    {
        let id = crate::bytes::read_le32(atoc, pos);
        let mft = crate::bytes::read_le32(atoc, pos + 4);
        if id == 0 && mft == 0 {
            return Some(pos);
        }
        pos += 8;
    }
    None
}

/// The largest file id of `ids`, or 0 for none.
pub fn max_file_id(ids: &[u32]) -> (r: u32)
    ensures
        forall|i: int| 0 <= i < ids.len() ==> ids@[i] <= r,
        ids.len() == 0 ==> r == 0,
        ids.len() > 0 ==> exists|i: int| 0 <= i < ids.len() && ids@[i] == r,
{
    let mut best: u32 = 0;
    let mut i: usize = 0;
    while i < ids.len()
        invariant
            i <= ids.len(),
            forall|k: int| 0 <= k < i ==> ids@[k] <= best,
            i == 0 ==> best == 0,
            i > 0 ==> exists|k: int| 0 <= k < i && ids@[k] == best,
        decreases ids.len() - i,
    {
        if i == 0 || ids[i] > best {
            best = ids[i];
        }
        i += 1;
    }
    best
}


// ---------------------------------------------------------------------------
// Laws

proof fn lemma_run_bytes(s: Seq<u8>, pos: nat, k: nat, r: u8, acc: nat)
    requires
        pos + k < s.len(),
        forall|i: int| pos <= i < pos + k ==> s[i] == 255,
        s[(pos + k) as int] == r,
        r != 255,
    ensures
        run_count(s, pos, acc) == Ok::<(nat, nat), Gw2Error>(((acc + 255 * k + r) as nat, pos + k + 1)),
    decreases k,
{
    if k > 0 {
        lemma_run_bytes(s, pos + 1, (k - 1) as nat, r, acc + 255);
    }
}

/// A run length as the encoder writes it reads back as itself, wherever it
/// stands and whatever follows it.
pub proof fn lemma_run_length_roundtrip(pre: Seq<u8>, n: nat, rest: Seq<u8>)
    requires
        n >= 1,
    ensures
        run_count(pre + run_length_bytes(n) + rest, pre.len(), 1)
            == Ok::<(nat, nat), Gw2Error>((n, pre.len() + run_length_bytes(n).len())),
{
    let q = ((n - 1) / 255) as nat;
    let r = ((n - 1) % 255) as u8;
    let b = run_length_bytes(n);
    let s = pre + b + rest;
    let p = pre.len();
    assert(s[(p + q) as int] == b[q as int]);
    assert(s[(p + q) as int] == r);
    assert forall|i: int| p <= i < p + q implies s[i] == 255 by {
        assert(s[i] == b[i - p]);
    }
    lemma_run_bytes(s, p, q, r, 1);
    vstd::arithmetic::div_mod::lemma_fundamental_div_mod((n - 1) as int, 255);
}

/// In a type-0 or type-255 pixel stream every step is one run length in the
/// same code as the literal runs of other types, and it flips the byte.
pub proof fn lemma_alternating_step(pre: Seq<u8>, n: nat, rest: Seq<u8>, t: u8, rep: u8)
    requires
        n >= 1,
        t == 0 || t == 255,
    ensures
        rle_step(pre + run_length_bytes(n) + rest, pre.len(), t, rep)
            == Ok::<(u8, nat, nat), Gw2Error>(((255 - rep) as u8, n, pre.len() + run_length_bytes(n).len())),
{
    lemma_run_length_roundtrip(pre, n, rest);
}

/// The run lengths `runs`, each as stored, one after another.
pub open spec fn runs_bytes(runs: Seq<nat>) -> Seq<u8>
    decreases runs.len(),
{
    if runs.len() == 0 {
        seq![]
    } else {
        run_length_bytes(runs[0]) + runs_bytes(runs.drop_first())
    }
}

/// The pixels of alternating runs, the first of the byte `v`.
pub open spec fn runs_pixels(runs: Seq<nat>, v: u8) -> Seq<u8>
    decreases runs.len(),
{
    if runs.len() == 0 {
        seq![]
    } else {
        Seq::new(runs[0], |i: int| v) + runs_pixels(runs.drop_first(), (255 - v) as u8)
    }
}

/// How many pixels the runs cover.
pub open spec fn runs_total(runs: Seq<nat>) -> nat
    decreases runs.len(),
{
    if runs.len() == 0 {
        0
    } else {
        runs[0] + runs_total(runs.drop_first())
    }
}

/// A type-0 or type-255 pixel stream of alternating runs, each of any
/// length (also past 255), decodes back to exactly those runs and ends
/// right after their bytes.
pub proof fn lemma_alternating_runs_roundtrip(pre: Seq<u8>, runs: Seq<nat>, rest: Seq<u8>, t: u8, rep: u8, acc: Seq<u8>)
    requires
        t == 0 || t == 255,
        forall|i: int| 0 <= i < runs.len() ==> #[trigger] runs[i] >= 1,
    ensures
        rle_decode(pre + runs_bytes(runs) + rest, pre.len(), runs_total(runs), t, rep, acc)
            == Ok::<(Seq<u8>, nat), Gw2Error>((acc + runs_pixels(runs, (255 - rep) as u8), pre.len() + runs_bytes(runs).len())),
    decreases runs.len(),
{
    let data = pre + runs_bytes(runs) + rest;
    if runs.len() == 0 {
        assert(acc + runs_pixels(runs, (255 - rep) as u8) =~= acc);
    } else {
        let n = runs[0];
        let tail = runs.drop_first();
        let b = run_length_bytes(n);
        let v = (255 - rep) as u8;
        assert(forall|i: int| 0 <= i < tail.len() ==> #[trigger] tail[i] == runs[i + 1]);
        assert(data =~= pre + b + (runs_bytes(tail) + rest));
        lemma_alternating_step(pre, n, runs_bytes(tail) + rest, t, rep);
        let pre2 = pre + b;
        assert(data =~= pre2 + runs_bytes(tail) + rest);
        let acc2 = acc + Seq::new(n, |i: int| v);
        lemma_alternating_runs_roundtrip(pre2, tail, rest, t, v, acc2);
        assert((255 - v) as u8 == rep);
        assert(acc2 + runs_pixels(tail, rep) =~= acc + runs_pixels(runs, v));
    }
}

/// A file reference made from a file id reads back as that id, for every
/// id whose parts fit in 16 bits.
pub proof fn lemma_file_id_roundtrip(file_id: nat)
    requires
        1 <= file_id <= 0xFF00 * 0xFF00,
    ensures
        ({
            let parts = reference_parts(file_id);
            0xFF00 * sat_sub(parts[1] as int, 0x100) + sat_sub(parts[0] as int, 0x100) + 1 == file_id
        }),
{
    let id = (file_id - 1) as nat;
    vstd::arithmetic::div_mod::lemma_fundamental_div_mod(id as int, 0xFF00);
    assert(id / 0xFF00 < 0xFF00) by {
        vstd::arithmetic::div_mod::lemma_div_is_ordered(id as int, (0xFF00 * 0xFF00 - 1) as int, 0xFF00);
    }
}


/// The bytes `b` hold `x` from `pos` on.
pub open spec fn holds_bytes(b: Seq<u8>, pos: nat, x: Seq<u8>) -> bool {
    &&& pos + x.len() <= b.len()
    &&& b.subrange(pos as int, (pos + x.len()) as int) == x
}

proof fn lemma_holds_split(b: Seq<u8>, pos: nat, x: Seq<u8>, y: Seq<u8>)
    requires
        holds_bytes(b, pos, x + y),
    ensures
        holds_bytes(b, pos, x),
        holds_bytes(b, pos + x.len(), y),
{
    assert(b.subrange(pos as int, (pos + x.len()) as int) =~= (x + y).subrange(0, x.len() as int));
    assert((x + y).subrange(0, x.len() as int) =~= x);
    assert(b.subrange((pos + x.len()) as int, (pos + x.len() + y.len()) as int) =~= (x + y).subrange(x.len() as int, (x.len() + y.len()) as int));
    assert((x + y).subrange(x.len() as int, (x.len() + y.len()) as int) =~= y);
}

/// A stored run length reads back wherever it stands.
proof fn lemma_run_length_at(b: Seq<u8>, pos: nat, n: nat)
    requires
        n >= 1,
        holds_bytes(b, pos, run_length_bytes(n)),
    ensures
        run_count(b, pos, 1) == Ok::<(nat, nat), Gw2Error>((n, pos + run_length_bytes(n).len())),
{
    let q = ((n - 1) / 255) as nat;
    let r = ((n - 1) % 255) as u8;
    let x = run_length_bytes(n);
    assert(b[(pos + q) as int] == x[q as int]);
    assert forall|i: int| pos <= i < pos + q implies b[i] == 255 by {
        assert(b[i] == x[i - pos]);
    }
    lemma_run_bytes(b, pos, q, r, 1);
    vstd::arithmetic::div_mod::lemma_fundamental_div_mod((n - 1) as int, 255);
}

/// A run is no longer than the pixels that remain.
pub proof fn lemma_run_of(px: Seq<u8>, i: nat, n: nat, v: u8)
    ensures
        i <= n ==> run_of(px, i, n, v) <= n - i,
    decreases n - i,
{
    if i < n && i < px.len() && px[i as int] == v {
        lemma_run_of(px, i + 1, n, v);
    }
}

/// A run counts equal pixels only.
pub proof fn lemma_run_of_at(px: Seq<u8>, i: nat, n: nat, v: u8, j: int)
    requires
        i <= j < i + run_of(px, i, n, v),
    ensures
        j < px.len() && px[j] == v,
    decreases j - i,
{
    if j > i {
        lemma_run_of_at(px, i + 1, n, v, j);
    }
}

/// A byte of what `b` holds at `pos`.
proof fn lemma_holds_index(b: Seq<u8>, pos: nat, x: Seq<u8>, k: int)
    requires
        holds_bytes(b, pos, x),
        0 <= k < x.len(),
    ensures
        b[pos + k] == x[k],
{
    assert(b.subrange(pos as int, (pos + x.len()) as int)[k] == b[pos + k]);
}

/// The accumulated bytes stay in front of the rest of the stream.
pub proof fn lemma_pixel_stream_acc(px: Seq<u8>, i: nat, n: nat, acc: Seq<u8>)
    ensures
        pixel_stream(px, i, n, acc) == acc + pixel_stream(px, i, n, seq![]),
    decreases n - i,
{
    if !(i >= n || i >= px.len()) {
        let v = px[i as int];
        if v == 0 || v == 255 {
            let r = run_of(px, i, n, v);
            if !(r == 0 || i + r > n) {
                lemma_pixel_stream_acc(px, i + r, n, acc.push(v) + run_length_bytes(r));
                lemma_pixel_stream_acc(px, i + r, n, seq![v] + run_length_bytes(r));
                assert(acc.push(v) + run_length_bytes(r) =~= acc + (seq![v] + run_length_bytes(r)));
                assert(seq![].push(v) =~= seq![v]);
            }
        } else {
            lemma_pixel_stream_acc(px, i + 1, n, acc.push(v));
            lemma_pixel_stream_acc(px, i + 1, n, seq![v]);
            assert(seq![].push(v) =~= seq![v]);
        }
    }
}

/// A type-1 pixel stream decodes back to the pixels it was written from.
pub proof fn lemma_pixel_stream_decode(b: Seq<u8>, pos: nat, px: Seq<u8>, i: nat, n: nat, rep: u8)
    requires
        px.len() == n,
        i <= n,
        holds_bytes(b, pos, pixel_stream(px, i, n, seq![])),
    ensures
        rle_decode(b, pos, (n - i) as nat, 1, rep, px.take(i as int)) == Ok::<(Seq<u8>, nat), Gw2Error>(
            (px, pos + pixel_stream(px, i, n, seq![]).len()),
        ),
    decreases n - i,
{
    if i == n {
        assert(px.take(i as int) =~= px);
    } else {
        let v = px[i as int];
        let s = pixel_stream(px, i, n, seq![]);
        if v == 0 || v == 255 {
            let r = run_of(px, i, n, v);
            lemma_run_of(px, i, n, v);
            lemma_run_of(px, i + 1, n, v);
            assert(r >= 1);
            let head = seq![v] + run_length_bytes(r);
            lemma_pixel_stream_acc(px, i + r, n, seq![].push(v) + run_length_bytes(r));
            assert(seq![].push(v) =~= seq![v]);
            let rest = pixel_stream(px, i + r, n, seq![]);
            assert(s == head + rest);
            lemma_holds_split(b, pos, head, rest);
            lemma_holds_split(b, pos, seq![v], run_length_bytes(r));
            lemma_holds_index(b, pos, seq![v], 0);
            assert(b[pos as int] == v);
            lemma_run_length_at(b, pos + 1, r);
            assert(rle_step(b, pos, 1, rep) == Ok::<(u8, nat, nat), Gw2Error>((v, r, pos + 1 + run_length_bytes(r).len())));
            assert forall|j: int| i <= j < i + r implies px[j] == v by {
                lemma_run_of_at(px, i, n, v, j);
            }
            assert(px.take(i as int) + Seq::new(r, |k: int| v) =~= px.take((i + r) as int));
            lemma_pixel_stream_decode(b, pos + head.len(), px, i + r, n, v);
        } else {
            lemma_pixel_stream_acc(px, i + 1, n, seq![].push(v));
            assert(seq![].push(v) =~= seq![v]);
            let rest = pixel_stream(px, i + 1, n, seq![]);
            assert(s == seq![v] + rest);
            lemma_holds_split(b, pos, seq![v], rest);
            lemma_holds_index(b, pos, seq![v], 0);
            assert(b[pos as int] == v);
            assert(rle_step(b, pos, 1, rep) == Ok::<(u8, nat, nat), Gw2Error>((v, 1, pos + 1)));
            assert(px.take(i as int) + Seq::new(1, |k: int| v) =~= px.take((i + 1) as int));
            lemma_pixel_stream_decode(b, pos + 1, px, i + 1, n, v);
        }
    }
}

/// A glyph the decoder reads back exactly: 1 to 255 pixels wide and high,
/// with all its pixels, and not stored as its type alone.
pub open spec fn glyph_roundtrips(y: u8, w: u32, h: u32, px: Seq<u8>) -> bool {
    &&& 1 <= w <= 255
    &&& 1 <= h <= 255
    &&& px.len() == w * h
    &&& !is_uniform(px)
}

/// An encoded glyph decodes back to itself, whatever follows it.
pub proof fn lemma_glyph_roundtrip(b: Seq<u8>, pos: nat, y: u8, w: u32, h: u32, px: Seq<u8>, cp: nat, end: nat, acc: Seq<(u32, u32, u32, u8, Seq<u8>)>)
    requires
        glyph_roundtrips(y, w, h, px),
        holds_bytes(b, pos, glyph_bytes(y, w, h, px)),
        cp < end,
    ensures
        glyph_decode(b, pos, cp, end, acc) == glyph_decode(
            b,
            pos + glyph_bytes(y, w, h, px).len(),
            cp + 1,
            end,
            acc.push((cp as u32, w, h, y, px)),
        ),
{
    let n = (w * h) as nat;
    let hdr = seq![y, dim_byte(w), dim_byte(h)].push(1u8);
    let s = pixel_stream(px, 0, n, seq![]);
    assert(glyph_bytes(y, w, h, px) == hdr + s);
    lemma_holds_split(b, pos, hdr, s);
    lemma_holds_index(b, pos, hdr, 0);
    lemma_holds_index(b, pos, hdr, 1);
    lemma_holds_index(b, pos, hdr, 2);
    lemma_holds_index(b, pos, hdr, 3);
    assert(b[pos as int] == y);
    assert(b[pos + 1int] == w - 1);
    assert(b[pos + 2int] == h - 1);
    assert(b[pos + 3int] == 1);
    assert(px.take(0) =~= Seq::<u8>::empty());
    lemma_pixel_stream_decode(b, pos + 4, px, 0, n, first_rep(1));
}


/// A glyph as the decoder reports it, for code point `cp`.
pub open spec fn glyph_view_at(g: EncodedGlyph, cp: nat) -> (u32, u32, u32, u8, Seq<u8>) {
    (cp as u32, g.width, g.height, g.y_offset, g.pixels@)
}

/// What the glyphs `gs` decode to, from code point `cp` on.
pub open spec fn glyph_views(gs: Seq<EncodedGlyph>, cp: nat) -> Seq<(u32, u32, u32, u8, Seq<u8>)> {
    Seq::new(gs.len(), |i: int| glyph_view_at(gs[i], (cp + i) as nat))
}

/// Every glyph of `gs` decodes back exactly.
pub open spec fn glyphs_roundtrip(gs: Seq<EncodedGlyph>) -> bool {
    forall|i: int| 0 <= i < gs.len() ==> glyph_roundtrips(#[trigger] gs[i].y_offset, gs[i].width, gs[i].height, gs[i].pixels@)
}

proof fn lemma_file_take(b: Seq<u8>, gs: Seq<EncodedGlyph>, j: nat)
    requires
        holds_bytes(b, 0, glyph_file_bytes(gs)),
        j <= gs.len(),
    ensures
        holds_bytes(b, 0, glyph_file_bytes(gs.take(j as int))),
        j < gs.len() ==> holds_bytes(
            b,
            glyph_file_bytes(gs.take(j as int)).len(),
            glyph_bytes(gs[j as int].y_offset, gs[j as int].width, gs[j as int].height, gs[j as int].pixels@),
        ),
        j < gs.len() ==> glyph_file_bytes(gs.take(j + 1int)).len() == glyph_file_bytes(gs.take(j as int)).len()
            + glyph_bytes(gs[j as int].y_offset, gs[j as int].width, gs[j as int].height, gs[j as int].pixels@).len(),
    decreases gs.len() - j,
{
    if j == gs.len() {
        assert(gs.take(j as int) =~= gs);
    } else {
        lemma_file_take(b, gs, j + 1);
        assert(gs.take(j + 1int).drop_last() =~= gs.take(j as int));
        let g = gs[j as int];
        lemma_holds_split(b, 0, glyph_file_bytes(gs.take(j as int)), glyph_bytes(g.y_offset, g.width, g.height, g.pixels@));
    }
}

proof fn lemma_file_decode_from(b: Seq<u8>, gs: Seq<EncodedGlyph>, cp: nat, end: nat, k: nat)
    requires
        glyphs_roundtrip(gs),
        holds_bytes(b, 0, glyph_file_bytes(gs)),
        k <= gs.len(),
        cp + gs.len() <= end,
    ensures
        glyph_decode(b, glyph_file_bytes(gs.take(k as int)).len(), cp + k, end, glyph_views(gs, cp).take(k as int))
            == glyph_decode(b, glyph_file_bytes(gs).len(), cp + gs.len(), end, glyph_views(gs, cp)),
    decreases gs.len() - k,
{
    lemma_file_take(b, gs, k);
    if k == gs.len() {
        assert(gs.take(k as int) =~= gs);
        assert(glyph_views(gs, cp).take(k as int) =~= glyph_views(gs, cp));
    } else {
        let g = gs[k as int];
        assert(glyph_roundtrips(g.y_offset, g.width, g.height, g.pixels@));
        lemma_glyph_roundtrip(
            b,
            glyph_file_bytes(gs.take(k as int)).len(),
            g.y_offset,
            g.width,
            g.height,
            g.pixels@,
            cp + k,
            end,
            glyph_views(gs, cp).take(k as int),
        );
        assert(glyph_views(gs, cp).take(k as int).push(((cp + k) as u32, g.width, g.height, g.y_offset, g.pixels@))
            =~= glyph_views(gs, cp).take(k + 1int));
        lemma_file_decode_from(b, gs, cp, end, k + 1);
    }
}

/// A glyph file written from glyphs that each decode back exactly decodes
/// back to those glyphs, for consecutive code points, whatever follows it.
pub proof fn lemma_glyph_file_roundtrip(gs: Seq<EncodedGlyph>, rest: Seq<u8>, cp: nat)
    requires
        glyphs_roundtrip(gs),
    ensures
        glyph_decode(glyph_file_bytes(gs) + rest, 0, cp, cp + gs.len(), seq![])
            == Ok::<(Seq<(u32, u32, u32, u8, Seq<u8>)>, nat), Gw2Error>((glyph_views(gs, cp), glyph_file_bytes(gs).len())),
{
    let b = glyph_file_bytes(gs) + rest;
    assert(b.subrange(0, glyph_file_bytes(gs).len() as int) =~= glyph_file_bytes(gs));
    lemma_file_decode_from(b, gs, cp, cp + gs.len(), 0);
    assert(gs.take(0) =~= Seq::<EncodedGlyph>::empty());
    assert(glyph_views(gs, cp).take(0) =~= Seq::<(u32, u32, u32, u8, Seq<u8>)>::empty());
}


proof fn lemma_filler_literals(b: Seq<u8>, pos: nat, lits: nat, run: nat, k: nat, rep: u8)
    requires
        1 <= run <= 255,
        k <= lits,
        holds_bytes(b, pos, Seq::new(lits, |i: int| 0x80u8) + seq![0u8, (run - 1) as u8]),
    ensures
        rle_decode(b, pos + k, (lits - k + run) as nat, 1, rep, Seq::new(k, |i: int| 0x80u8))
            == Ok::<(Seq<u8>, nat), Gw2Error>((Seq::new(lits, |i: int| 0x80u8) + Seq::new(run, |i: int| 0u8), pos + lits + 2)),
    decreases lits - k,
{
    let x = Seq::new(lits, |i: int| 0x80u8) + seq![0u8, (run - 1) as u8];
    if k < lits {
        lemma_holds_index(b, pos, x, k as int);
        assert(b[(pos + k) as int] == 0x80u8);
        assert(Seq::new(k, |i: int| 0x80u8) + Seq::new(1, |i: int| 0x80u8) =~= Seq::new(k + 1, |i: int| 0x80u8));
        assert(rle_step(b, pos + k, 1, rep) == Ok::<(u8, nat, nat), Gw2Error>((0x80u8, 1nat, pos + k + 1)));
        assert(Seq::new(k, |i: int| 0x80u8) + Seq::new(1, |i: int| 0x80u8) =~= Seq::new(k, |i: int| 0x80u8) + Seq::new(1nat, |i: int| 0x80u8));
        lemma_filler_literals(b, pos, lits, run, k + 1, 0x80);
        assert(((lits - k + run) as nat - 1) as nat == (lits - (k + 1) + run) as nat);
    } else {
        lemma_holds_index(b, pos, x, lits as int);
        lemma_holds_index(b, pos, x, lits + 1int);
        assert(b[(pos + lits) as int] == 0u8);
        assert(b[(pos + lits + 1) as int] == (run - 1) as u8);
        assert(run_count(b, pos + lits + 1, 1) == Ok::<(nat, nat), Gw2Error>((run, pos + lits + 2)));
        assert(rle_step(b, pos + lits, 1, rep) == Ok::<(u8, nat, nat), Gw2Error>((0u8, run, pos + lits + 2)));
        let acc2 = Seq::new(k, |i: int| 0x80u8) + Seq::new(run, |i: int| 0u8);
        assert(rle_decode(b, pos + lits + 2, 0, 1, 0u8, acc2) == Ok::<(Seq<u8>, nat), Gw2Error>((acc2, pos + lits + 2)));
        assert(acc2 =~= Seq::new(lits, |i: int| 0x80u8) + Seq::new(run, |i: int| 0u8));
    }
}

/// A filler glyph decodes as one glyph that takes exactly its bytes.
pub proof fn lemma_filler_decode(b: Seq<u8>, pos: nat, t: nat, cp: nat, end: nat, acc: Seq<(u32, u32, u32, u8, Seq<u8>)>)
    requires
        6 <= t <= MAX_FILLER,
        holds_bytes(b, pos, filler_of(t)),
        cp < end,
    ensures
        ({
            let (w, h, run) = filler_shape((t - 6) as nat, 1).unwrap();
            glyph_decode(b, pos, cp, end, acc) == glyph_decode(
                b,
                pos + t,
                cp + 1,
                end,
                acc.push((cp as u32, w as u32, h as u32, 0u8, Seq::new((t - 6) as nat, |i: int| 0x80u8) + Seq::new(run, |i: int| 0u8))),
            )
        }),
{
    lemma_filler_exists(t);
    let lits = (t - 6) as nat;
    lemma_filler_shape(lits, 1);
    let (w, h, run) = filler_shape(lits, 1).unwrap();
    let hdr = seq![0u8, (w - 1) as u8, (h - 1) as u8, 1u8];
    let body = Seq::new(lits, |i: int| 0x80u8) + seq![0u8, (run - 1) as u8];
    assert(filler_of(t) =~= hdr + body);
    lemma_holds_split(b, pos, hdr, body);
    lemma_holds_index(b, pos, hdr, 0);
    lemma_holds_index(b, pos, hdr, 1);
    lemma_holds_index(b, pos, hdr, 2);
    lemma_holds_index(b, pos, hdr, 3);
    assert(Seq::new(0, |i: int| 0x80u8) =~= Seq::<u8>::empty());
    lemma_filler_literals(b, pos + 4, lits, run, 0, first_rep(1));
    assert(b[pos + 1int] + 1 == w);
    assert(b[pos + 2int] + 1 == h);
}

/// Fillers decode as glyphs that take exactly their bytes.
pub proof fn lemma_fillers_decode(b: Seq<u8>, pos: nat, need: nat, rem: nat, cp: nat, acc: Seq<(u32, u32, u32, u8, Seq<u8>)>)
    requires
        6 * rem <= need <= MAX_FILLER * rem,
        holds_bytes(b, pos, fillers(need, rem)),
    ensures
        crate::afnt::end_of(glyph_decode(b, pos, cp, cp + rem, acc)) == Some(pos + need),
    decreases rem,
{
    if rem > 0 {
        let this: nat = if rem == 1 {
            need
        } else if MAX_FILLER < need - 6 * (rem - 1) {
            MAX_FILLER as nat
        } else {
            (need - 6 * (rem - 1)) as nat
        };
        lemma_filler_exists(this);
        lemma_filler_shape((this - 6) as nat, 1);
        lemma_fillers_len((need - this) as nat, (rem - 1) as nat);
        lemma_holds_split(b, pos, filler_of(this), fillers((need - this) as nat, (rem - 1) as nat));
        assert(filler_of(this).len() == this);
        lemma_filler_decode(b, pos, this, cp, cp + rem, acc);
        let (w, h, run) = filler_shape((this - 6) as nat, 1).unwrap();
        lemma_fillers_decode(
            b,
            pos + this,
            (need - this) as nat,
            (rem - 1) as nat,
            cp + 1,
            acc.push((cp as u32, w as u32, h as u32, 0u8, Seq::new((this - 6) as nat, |i: int| 0x80u8) + Seq::new(run, |i: int| 0u8))),
        );
    }
}

/// A padded atlas built from glyphs that decode back exactly is walked, as
/// the game walks it, to exactly its end: `glyph_count` glyphs, `gen_size`
/// bytes.
pub proof fn lemma_padded_atlas_walk(gs: Seq<EncodedGlyph>, glyph_count: nat, gen_size: nat, nf: nat)
    requires
        nf < glyph_count <= gs.len() + 1,
        glyphs_roundtrip(gs.take(glyph_count - nf)),
        pad_search(gs, glyph_count, gen_size, 1) == Some(nf),
    ensures
        ({
            let pre = glyph_file_bytes(gs.take(glyph_count - nf));
            let a = pre + fillers((gen_size - pre.len()) as nat, nf);
            crate::afnt::end_of(glyph_decode(a, 0, 0, glyph_count, seq![])) == Some(gen_size)
        }),
{
    lemma_pad_search(gs, glyph_count, gen_size, 1);
    let kept = gs.take(glyph_count - nf);
    let pre = glyph_file_bytes(kept);
    let need = (gen_size - pre.len()) as nat;
    let tail = fillers(need, nf);
    let a = pre + tail;
    assert(a.subrange(0, pre.len() as int) =~= pre);
    lemma_file_decode_from(a, kept, 0, glyph_count, 0);
    assert(kept.take(0) =~= Seq::<EncodedGlyph>::empty());
    assert(glyph_views(kept, 0).take(0) =~= Seq::<(u32, u32, u32, u8, Seq<u8>)>::empty());
    assert(a.subrange(pre.len() as int, (pre.len() + tail.len()) as int) =~= tail);
    lemma_fillers_len(need, nf);
    lemma_fillers_decode(a, pre.len(), need, nf, (glyph_count - nf) as nat, glyph_views(kept, 0));
}

/// Appending a filler glyph of `t` bytes to a stream whose `k` glyphs take
/// all of it gives a stream whose `k + 1` glyphs take all of it: the filler
/// adds exactly one glyph and exactly its `t` bytes.
pub proof fn lemma_filler_append(prefix: Seq<u8>, k: nat, t: nat)
    requires
        crate::afnt::end_of(glyph_decode(prefix, 0, 0, k, seq![])) == Some(prefix.len()),
        6 <= t <= MAX_FILLER,
    ensures
        crate::afnt::end_of(glyph_decode(prefix + filler_of(t), 0, 0, k + 1, seq![])) == Some(prefix.len() + t),
{
    let b = prefix + filler_of(t);
    lemma_filler_exists(t);
    lemma_filler_shape((t - 6) as nat, 1);
    assert(filler_of(t).len() == t);
    crate::afnt::lemma_glyph_decode_agree(prefix, b, 0, 0, k, seq![], prefix.len());
    assert(crate::afnt::agree_below(prefix, b, prefix.len()));
    let (gs, p) = glyph_decode(prefix, 0, 0, k, seq![]).unwrap();
    assert(glyph_decode(b, 0, 0, k, seq![]) == glyph_decode(prefix, 0, 0, k, seq![]));
    crate::afnt::lemma_glyph_decode_next(b, 0, 0, k, seq![]);
    assert(b.subrange(prefix.len() as int, (prefix.len() + t) as int) =~= filler_of(t));
    lemma_filler_decode(b, prefix.len(), t, k, k + 1, gs);
}

proof fn lemma_pad_search(gs: Seq<EncodedGlyph>, count: nat, gen: nat, nfill: nat)
    ensures
        pad_search(gs, count, gen, nfill) matches Some(nf) ==> {
            let pre = glyph_file_bytes(gs.take(count - nf)).len();
            &&& nfill <= nf < count
            &&& pre + 6 * nf <= gen
            &&& gen - pre <= MAX_FILLER * nf
        },
    decreases count - nfill,
{
    if nfill < count {
        let pre = glyph_file_bytes(gs.take(count - nfill)).len();
        if pre + 6 * nfill > gen || gen - pre > MAX_FILLER * nfill {
            lemma_pad_search(gs, count, gen, nfill + 1);
        }
    }
}


proof fn lemma_le32_with_u32(data: Seq<u8>, at: int, v: u32)
    requires
        0 <= at,
        at + 4 <= data.len(),
    ensures
        crate::bytes::le32(with_u32(data, at, v), at) == v,
        with_u32(data, at, v).len() == data.len(),
        forall|k: int| 0 <= k < data.len() && (k < at || k >= at + 4) ==> #[trigger] with_u32(data, at, v)[k] == data[k],
{
    let x = v as int;
    vstd::arithmetic::div_mod::lemma_fundamental_div_mod(x, 256);
    vstd::arithmetic::div_mod::lemma_fundamental_div_mod(x / 256, 256);
    vstd::arithmetic::div_mod::lemma_fundamental_div_mod(x / 65536, 256);
    vstd::arithmetic::div_mod::lemma_div_denominator(x, 256, 256);
    vstd::arithmetic::div_mod::lemma_div_denominator(x, 65536, 256);
    assert(x / 16777216 < 256) by {
        vstd::arithmetic::div_mod::lemma_div_is_ordered(x, 0xFFFF_FFFF, 16777216);
    }
    assert((x / 65536) / 256 == x / 16777216);
    assert(((x / 16777216) as u8) as int == x / 16777216);
}

proof fn lemma_patched_bytes(data: Seq<u8>, font_idx: nat, file_id: nat)
    requires
        cyrillic_field(font_idx) + 4 <= data.len(),
        data.len() - cyrillic_field(font_idx) <= u32::MAX,
    ensures
        ({
            let f = cyrillic_field(font_idx) as int;
            let patched = cyrillic_patched(data, font_idx, file_id);
            let parts = reference_parts(file_id);
            &&& patched.len() == data.len() + 6
            &&& forall|k: int| 0 <= k < data.len() && (k < 16 || 20 <= k < f || k >= f + 4) ==> #[trigger] patched[k] == data[k]
            &&& le32(patched, f) == data.len() - f
            &&& le16(patched, data.len() as int) == parts[0]
            &&& le16(patched, data.len() + 2int) == parts[1]
        }),
{
    let f = cyrillic_field(font_idx) as int;
    let ptr = (data.len() - f) as u32;
    let parts = reference_parts(file_id);
    let tail = seq![
        (parts[0] % 256) as u8,
        (parts[0] / 256) as u8,
        (parts[1] % 256) as u8,
        (parts[1] / 256) as u8,
        (parts[2] % 256) as u8,
        (parts[2] / 256) as u8,
    ];
    let w = with_u32(data, f, ptr);
    lemma_le32_with_u32(data, f, ptr);
    let grown = w + tail;
    let patched = with_u32(grown, 16, (grown.len() - 20) as u32);
    lemma_le32_with_u32(grown, 16, (grown.len() - 20) as u32);
    assert(patched == cyrillic_patched(data, font_idx, file_id));
    assert forall|k: int| 0 <= k < data.len() && (k < 16 || 20 <= k < f || k >= f + 4) implies #[trigger] patched[k] == data[k] by {
        assert(patched[k] == grown[k]);
        assert(grown[k] == w[k]);
    }
    assert forall|k: int| f <= k < f + 4 implies #[trigger] patched[k] == w[k] by {
        assert(patched[k] == grown[k]);
    }
    assert(le32(patched, f) == le32(w, f));
    assert forall|k: int| 0 <= k < 6 implies #[trigger] patched[data.len() + k] == tail[k] by {
        assert(patched[data.len() + k] == grown[data.len() + k]);
    }
    assert(patched[data.len() as int] == tail[0] && patched[data.len() + 1int] == tail[1]);
    assert(patched[data.len() + 2int] == tail[2] && patched[data.len() + 3int] == tail[3]);
}

/// After pointing `fileNames[3]` of a font at a new reference to
/// `file_id`, reading the table gives that font `file_id` for its Cyrillic
/// range, with as many fonts and the same cell extents as before; this
/// holds for a table laid out as the patch assumes (a 16-byte chunk header,
/// the descriptors right after the chunk's 12-byte header) and for every
/// file id a reference can name.
#[verifier::spinoff_prover]
pub proof fn lemma_cyrillic_patch_reads_back(data: Seq<u8>, font_idx: nat, file_id: nat)
    requires
        is_pf(data),
        is_afnt_chunk(data),
        data.len() >= 36,
        le16(data, 22) == 16,
        le32(afnt_chunk(data), 4) == 8,
        font_idx < le32(afnt_chunk(data), 0),
        afnt_fonts(data) is Ok,
        data.len() - cyrillic_field(font_idx) <= u32::MAX,
        1 <= file_id <= 0xFF00 * 0xFF00,
    ensures
        ({
            let old_fonts = afnt_fonts(data)->Ok_0;
            let patched = cyrillic_patched(data, font_idx, file_id);
            &&& afnt_fonts(patched) matches Ok(fonts)
            &&& fonts.len() == old_fonts.len()
            &&& fonts[font_idx as int].2[3] == file_id
            &&& forall|i: int| 0 <= i < fonts.len() ==> #[trigger] fonts[i].0 == old_fonts[i].0 && fonts[i].1 == old_fonts[i].1
        }),
{
    let f = cyrillic_field(font_idx) as int;
    let d = afnt_chunk(data);
    let n = le32(d, 0);
    assert(12 + 68 * n <= d.len());
    assert(68 * font_idx + 68 <= 68 * n) by (nonlinear_arith)
        requires
            font_idx < n,
    ;
    let patched = cyrillic_patched(data, font_idx, file_id);
    let parts = reference_parts(file_id);
    lemma_patched_bytes(data, font_idx, file_id);
    assert(patched[0] == data[0] && patched[1] == data[1]);
    assert(patched[8] == data[8] && patched[9] == data[9] && patched[10] == data[10] && patched[11] == data[11]);
    assert(patched[22] == data[22] && patched[23] == data[23]);
    let d2 = afnt_chunk(patched);
    assert(afnt_data_start(patched) == 28);
    assert(d2.len() == d.len() + 6);
    assert forall|k: int| 0 <= k < 8 implies #[trigger] d2[k] == d[k] by {
        assert(d2[k] == patched[k + 28]);
        assert(d[k] == data[k + 28]);
    }
    assert(le32(d2, 0) == n);
    assert(le32(d2, 4) == 8);
    let fd: int = 12 + 68 * (font_idx as int);
    let field: int = fd + 16 + 4 * 3;
    assert(field == f - 28);
    assert(d2[field] == patched[f] && d2[field + 1] == patched[f + 1] && d2[field + 2] == patched[f + 2] && d2[field + 3] == patched[f + 3]);
    assert(le32(d2, field) == d.len() - field);
    assert(d2[d.len() as int] == patched[data.len() as int] && d2[d.len() + 1int] == patched[data.len() + 1int]);
    assert(d2[d.len() + 2int] == patched[data.len() + 2int] && d2[d.len() + 3int] == patched[data.len() + 3int]);
    assert(le16(d2, d.len() as int) == parts[0]);
    assert(le16(d2, d.len() + 2int) == parts[1]);
    lemma_file_id_roundtrip(file_id);
    assert(reference_id(d2, d.len() as int) == file_id);
    assert(font_file_id(d2, fd, 3) == file_id as u32);
    let fonts = afnt_fonts(patched)->Ok_0;
    let old_fonts = afnt_fonts(data)->Ok_0;
    assert forall|i: int| 0 <= i < fonts.len() implies #[trigger] fonts[i].0 == old_fonts[i].0 && fonts[i].1 == old_fonts[i].1 by {
        let fdi = 12 + 68 * i;
        assert(fdi + 68 <= 12 + 68 * n) by (nonlinear_arith)
            requires
                0 <= i < n,
                fdi == 12 + 68 * i,
        ;
        assert(fdi + 15 < field || fdi + 14 >= field + 4) by (nonlinear_arith)
            requires
                fdi == 12 + 68 * i,
                field == 40 + 68 * font_idx,
        ;
        assert(d2[fdi + 14] == patched[fdi + 42] && d[fdi + 14] == data[fdi + 42]);
        assert(d2[fdi + 15] == patched[fdi + 43] && d[fdi + 15] == data[fdi + 43]);
    }
}

} // verus!
