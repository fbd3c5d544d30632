use gw2_dat_tool::afnt::count_run;
use gw2_dat_tool::afnt::decode_glyph_file;
use gw2_dat_tool::afnt::decode_rle;
use gw2_dat_tool::afnt::glyph_range;
use gw2_dat_tool::afnt::glyph_range_name;
use gw2_dat_tool::afnt::glyphs_to_png_atlas;
use gw2_dat_tool::afnt::parse_afnt;
use gw2_dat_tool::afnt::walk_consumed;
use gw2_dat_tool::afnt::Glyph;
use gw2_dat_tool::error::Gw2Error;
use gw2_dat_tool::patch::build_padded_atlas;
use gw2_dat_tool::patch::encode_glyph_file;
use gw2_dat_tool::patch::encode_run_length;
use gw2_dat_tool::patch::file_id_to_reference;
use gw2_dat_tool::patch::make_filler_glyph;
use gw2_dat_tool::patch::pad_with_empty_glyphs;
use gw2_dat_tool::patch::patch_afnt_cyrillic;
use gw2_dat_tool::patch::patch_afnt_inplace;
use gw2_dat_tool::patch::EncodedGlyph;

#[test]
fn test_file_id_roundtrip() {
    for id in [439864u32, 439867, 3631837, 1, 100, 65280] {
        let parts = file_id_to_reference(id);
        let recovered = 0xFF00u32 * (parts[1] as u32).saturating_sub(0x100) + (parts[0] as u32).saturating_sub(0x100) + 1;
        assert_eq!(id, recovered, "roundtrip failed for id={}", id);
    }
}

#[test]
fn test_run_length_encode() {
    let mut buf = Vec::new();
    encode_run_length(&mut buf, 1);
    assert_eq!(buf, vec![0]);

    buf.clear();
    encode_run_length(&mut buf, 4);
    assert_eq!(buf, vec![3]);

    buf.clear();
    encode_run_length(&mut buf, 256);
    assert_eq!(buf, vec![255, 0]);

    buf.clear();
    encode_run_length(&mut buf, 261);
    assert_eq!(buf, vec![255, 5]);
}

// ---------------------------------------------------------------------------
// Further cases

#[test]
fn run_length_reads_back() {
    for n in [1usize, 2, 254, 255, 256, 510, 511, 1000] {
        let mut buf = Vec::new();
        encode_run_length(&mut buf, n);
        buf.push(7);
        let mut pos = 0usize;
        let got = count_run(&buf, &mut pos).expect("run");
        assert_eq!(got, n as u64);
        assert_eq!(pos, buf.len() - 1);
    }
}

#[test]
fn count_run_underflow() {
    let mut pos = 0usize;
    assert_eq!(count_run(&[255, 255], &mut pos), Err(Gw2Error::RunCountUnderflow));
}

fn sample_glyph() -> EncodedGlyph {
    EncodedGlyph { y_offset: 3, width: 4, height: 3, pixels: vec![0, 0, 0, 17, 255, 255, 200, 0, 0, 0, 0, 255] }
}

#[test]
fn glyph_file_reads_back() {
    let glyphs = vec![
        sample_glyph(),
        EncodedGlyph { y_offset: 0, width: 2, height: 1, pixels: vec![1, 2] },
        EncodedGlyph { y_offset: 9, width: 200, height: 1, pixels: (0..200).map(|i| if i % 50 == 0 { 128 } else { 255 }).collect() },
    ];
    let bytes = encode_glyph_file(&glyphs);
    assert_eq!(&bytes[0..4], &[3, 3, 2, 1]);
    let decoded = decode_glyph_file(&bytes, 0x410, 0x413).expect("decode");
    assert_eq!(decoded.len(), 3);
    for (i, (d, g)) in decoded.iter().zip(glyphs.iter()).enumerate() {
        assert_eq!(d.codepoint, 0x410 + i as u32);
        assert_eq!(d.width, g.width);
        assert_eq!(d.height, g.height);
        assert_eq!(d.y_offset, g.y_offset);
        assert_eq!(d.pixels, g.pixels);
    }
    assert_eq!(walk_consumed(&bytes, 3), Some(bytes.len()));
}

#[test]
fn uniform_glyphs_are_stored_as_type_alone() {
    let black = EncodedGlyph { y_offset: 0, width: 1, height: 1, pixels: vec![0] };
    let white = EncodedGlyph { y_offset: 2, width: 2, height: 2, pixels: vec![255; 4] };
    assert_eq!(encode_glyph_file(&[black]), vec![0, 0, 0, 0]);
    assert_eq!(encode_glyph_file(&[white]), vec![2, 1, 1, 255]);
    // A type-0 glyph with no run bytes after it cannot be read back.
    assert_eq!(decode_glyph_file(&[0, 0, 0, 0], 0, 1).err(), Some(Gw2Error::RunCountUnderflow));
}

#[test]
fn decode_errors() {
    assert_eq!(decode_glyph_file(&[0, 0, 0], 0, 1).err(), Some(Gw2Error::GlyphStreamTruncated));
    assert_eq!(decode_glyph_file(&[0, 1, 0, 1], 0, 1).err(), Some(Gw2Error::RleUnderflow));
    // A run of 3 pixels in a 2-pixel glyph.
    assert_eq!(decode_glyph_file(&[0, 1, 0, 1, 0, 2], 0, 1).err(), Some(Gw2Error::RleAdvance));
    assert!(decode_glyph_file(&[], 5, 5).expect("empty range").is_empty());
    assert_eq!(walk_consumed(&[0, 1, 0, 1, 0, 2], 1), None);
}

#[test]
fn rle_type_zero_alternates() {
    // Type 0: first run is 0, then 255, then 0.
    let data = [1u8, 0, 2];
    let mut pos = 0usize;
    let px = decode_rle(&data, &mut pos, 6, 0).expect("rle");
    assert_eq!(px, vec![0, 0, 255, 0, 0, 0]);
    assert_eq!(pos, 3);
    let mut pos = 0usize;
    let px = decode_rle(&data, &mut pos, 6, 255).expect("rle");
    assert_eq!(px, vec![255, 255, 0, 255, 255, 255]);
}

#[test]
fn filler_glyphs_take_exactly_their_size() {
    for target in [6usize, 7, 10, 100, 300, 4000, 65000] {
        let f = make_filler_glyph(target);
        assert_eq!(f.len(), target);
        assert_eq!(walk_consumed(&f, 1), Some(target));
        let g = decode_glyph_file(&f, 0, 1).expect("filler decodes");
        assert_eq!(g[0].pixels.len() as u32, g[0].width * g[0].height);
    }
}

#[test]
fn padded_atlas_has_exact_size() {
    let glyphs: Vec<EncodedGlyph> = (0..10).map(|_| sample_glyph()).collect();
    let full = encode_glyph_file(&glyphs);
    // Exactly the unpadded size.
    let a = build_padded_atlas(&glyphs, 10, full.len()).expect("pad").expect("fits");
    assert_eq!(a, full);
    // Larger: the last glyphs become fillers.
    let gen = full.len() + 500;
    let a = build_padded_atlas(&glyphs, 10, gen).expect("pad").expect("fits");
    assert_eq!(a.len(), gen);
    assert_eq!(walk_consumed(&a, 10), Some(gen));
    // Smaller: no atlas.
    assert_eq!(build_padded_atlas(&glyphs, 10, full.len() - 1).expect("pad"), None);
    // Not enough room for even the fillers.
    assert_eq!(build_padded_atlas(&glyphs, 1, full.len() + 1).err(), Some(Gw2Error::CannotPad));
}

/// A font table with `n` descriptors, a 16-byte chunk header and no glyph files.
fn afnt_table(n: u32) -> Vec<u8> {
    let mut t = vec![0u8; 28];
    t[0] = b'P';
    t[1] = b'F';
    t[8..12].copy_from_slice(b"AFNT");
    t[22] = 16;
    t.extend_from_slice(&n.to_le_bytes());
    t.extend_from_slice(&8u32.to_le_bytes());
    t.extend_from_slice(&[0u8; 4]);
    for i in 0..n {
        let mut fd = vec![0u8; 68];
        fd[14] = 10 + i as u8;
        fd[15] = 20 + i as u8;
        t.extend_from_slice(&fd);
    }
    t
}

#[test]
fn parse_afnt_reads_descriptors() {
    let t = afnt_table(2);
    let fonts = parse_afnt(&t).expect("afnt");
    assert_eq!(fonts.len(), 2);
    assert_eq!((fonts[1].extents_x, fonts[1].extents_y), (11, 21));
    assert_eq!(fonts[0].file_ids, [0u32; 13]);
}

#[test]
fn parse_afnt_errors() {
    assert_eq!(parse_afnt(b"XX").err(), Some(Gw2Error::NotPf));
    let mut t = afnt_table(1);
    t[8] = b'B';
    assert_eq!(parse_afnt(&t).err(), Some(Gw2Error::NotAfnt));
    let t = afnt_table(1);
    assert_eq!(parse_afnt(&t[..32]).err(), Some(Gw2Error::AfntTooShort));
    let t = afnt_table(1);
    assert_eq!(parse_afnt(&t[..100]).err(), Some(Gw2Error::DescriptorOutOfBounds));
}

#[test]
fn cyrillic_patch_reads_back() {
    let t = afnt_table(2);
    let patched = patch_afnt_cyrillic(&t, 1, 439864).expect("patch");
    assert_eq!(patched.len(), t.len() + 6);
    let fonts = parse_afnt(&patched).expect("afnt");
    assert_eq!(fonts[1].file_ids[3], 439864);
    assert_eq!(fonts[0].file_ids[3], 0);
    assert_eq!((fonts[1].extents_x, fonts[1].extents_y), (11, 21));
    // The chunk size field counts the new bytes.
    assert_eq!(u32::from_le_bytes(patched[16..20].try_into().unwrap()) as usize, patched.len() - 20);
    assert_eq!(patch_afnt_cyrillic(&t, 5, 1).err(), Some(gw2_dat_tool::error::Gw2Error::ReferenceBeforeField));
}

#[test]
fn inplace_patch_points_at_existing_reference() {
    let mut t = afnt_table(1);
    // A reference to file id 3631839 right after the descriptor.
    let r = file_id_to_reference(3631839);
    for p in r {
        t.extend_from_slice(&p.to_le_bytes());
    }
    // fileNames[3] of font 0 sits at chunk offset 40; the reference at chunk offset 80.
    let patched = patch_afnt_inplace(&t, 0, 40).expect("patch");
    assert_eq!(patched.len(), t.len());
    let fonts = parse_afnt(&patched).expect("afnt");
    assert_eq!(fonts[0].file_ids[3], 3631839);
}

#[test]
fn glyph_ranges() {
    assert_eq!(glyph_range(0), (0x21, 0x7F));
    assert_eq!(glyph_range(3), (0x391, 0x460));
    assert_eq!(glyph_range(11), (0xF900, 0xFA6B));
    assert_eq!(glyph_range_name(3), "Greek/Coptic/Cyrillic");
    assert_eq!(glyph_range(3).1 - glyph_range(3).0, 207);
}

#[test]
fn png_atlas() {
    let glyphs = vec![
        Glyph { codepoint: 0x41, width: 2, height: 2, y_offset: 0, pixels: vec![0, 255, 255, 0] },
        Glyph { codepoint: 0x42, width: 1, height: 1, y_offset: 0, pixels: vec![128] },
    ];
    let (w, h, png) = glyphs_to_png_atlas(&glyphs, 2, 2, 1).expect("png");
    assert_eq!((w, h), (2, 4));
    assert_eq!(&png[0..8], &[0x89, b'P', b'N', b'G', 0x0D, 0x0A, 0x1A, 0x0A]);
    // Width 2, height 4 in the IHDR chunk.
    assert_eq!(u32::from_be_bytes(png[16..20].try_into().unwrap()), 2);
    assert_eq!(u32::from_be_bytes(png[20..24].try_into().unwrap()), 4);
}

#[test]
fn a_filler_adds_one_glyph_and_its_bytes() {
    let glyphs = vec![
        EncodedGlyph { y_offset: 1, width: 2, height: 1, pixels: vec![10, 20] },
        EncodedGlyph { y_offset: 0, width: 1, height: 1, pixels: vec![7] },
    ];
    let prefix = encode_glyph_file(&glyphs);
    assert_eq!(walk_consumed(&prefix, 2), Some(prefix.len()));
    for t in [6usize, 9, 500] {
        let mut a = prefix.clone();
        a.extend_from_slice(&make_filler_glyph(t));
        assert_eq!(walk_consumed(&a, 3), Some(prefix.len() + t));
    }
}

#[test]
fn walked_bytes_alone_walk_to_the_same_end() {
    let glyphs = vec![
        EncodedGlyph { y_offset: 3, width: 2, height: 2, pixels: vec![1, 2, 3, 4] },
        EncodedGlyph { y_offset: 0, width: 3, height: 1, pixels: vec![0, 1, 0] },
    ];
    let mut data = encode_glyph_file(&glyphs);
    let n = data.len();
    data.extend_from_slice(&[9, 9, 9]);
    assert_eq!(walk_consumed(&data, 2), Some(n));
    assert_eq!(walk_consumed(&data[..n], 2), Some(n));
}

#[test]
fn padding_with_empty_glyphs() {
    let mut glyphs = vec![EncodedGlyph { y_offset: 2, width: 2, height: 1, pixels: vec![5, 6] }];
    pad_with_empty_glyphs(&mut glyphs, 4);
    assert_eq!(glyphs.len(), 4);
    assert_eq!(glyphs[0].pixels, vec![5, 6]);
    for g in &glyphs[1..] {
        assert_eq!((g.y_offset, g.width, g.height), (0, 1, 1));
        assert_eq!(g.pixels, vec![0]);
    }
    let bytes = encode_glyph_file(&glyphs);
    assert_eq!(&bytes[bytes.len() - 12..], &[0u8; 12]);
    // A list already long enough is left as it is.
    pad_with_empty_glyphs(&mut glyphs, 2);
    assert_eq!(glyphs.len(), 4);
}
