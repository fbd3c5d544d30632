use gw2_dat_tool::dat::decode_entry;
use gw2_dat_tool::dat::entry_type;
use gw2_dat_tool::dat::fourcc_text;
use gw2_dat_tool::dat::mft_entry_from_raw;
use gw2_dat_tool::dat::parse_atoc;
use gw2_dat_tool::dat::parse_dat_header;
use gw2_dat_tool::dat::parse_mft_entry;
use gw2_dat_tool::dat::parse_mft_header;
use gw2_dat_tool::dat::strip_raw_crc_blocks;
use gw2_dat_tool::dat::MftEntry;
use gw2_dat_tool::deflate::compress_gw2;
use gw2_dat_tool::error::Gw2Error;
use gw2_dat_tool::patch::find_free_atoc_record;
use gw2_dat_tool::patch::find_free_mft_slot;
use gw2_dat_tool::patch::max_file_id;
use gw2_dat_tool::patch::mft_entry_record;
use gw2_dat_tool::patch::wrap_uncompressed;
use gw2_dat_tool::strs::build_raw_entry;
use gw2_dat_tool::strs::parse;
use gw2_dat_tool::strs::StrEntry;
use gw2_dat_tool::strs::ENC_RAW_UTF16;

// ---------------------------------------------------------------------------
// String tables

#[test]
fn raw_entry_reads_back() {
    for text in ["Hello", "Привет, мир", "", "emoji 😀 ok"] {
        let mut table = b"strs".to_vec();
        let entry = build_raw_entry(text);
        table.extend_from_slice(&entry);
        let entries = parse(&table).expect("strs");
        assert_eq!(entries.len(), 1);
        assert_eq!(entries[0].offset, 4);
        assert!(entries[0].is_raw());
        assert_eq!(entries[0].text(), Some(text.to_string()));
    }
}

#[test]
fn raw_entry_bytes() {
    assert_eq!(build_raw_entry("A"), vec![8, 0, 0, 0, 0x10, 0, 0x41, 0]);
    // A character outside the BMP takes a surrogate pair.
    assert_eq!(build_raw_entry("😀"), vec![10, 0, 0, 0, 0x10, 0, 0x3D, 0xD8, 0x00, 0xDE]);
}

#[test]
fn strs_parse_stops_at_footer_and_bad_sizes() {
    let mut table = b"strs".to_vec();
    table.extend_from_slice(&build_raw_entry("ab"));
    // A Huffman entry: size 8, count 3, tag 6, two payload bytes.
    table.extend_from_slice(&[8, 0, 3, 0, 6, 0, 0xAA, 0xBB]);
    // A trailing 2-byte footer.
    table.extend_from_slice(&[0, 0]);
    let entries = parse(&table).expect("strs");
    assert_eq!(entries.len(), 2);
    assert_eq!(entries[1].offset, 14);
    assert_eq!(entries[1].count, 3);
    assert_eq!(entries[1].enc, 6);
    assert_eq!(entries[1].data, vec![0xAA, 0xBB]);
    assert!(!entries[1].is_raw());
    assert_eq!(entries[1].text(), None);
    // A size under 6 ends the list; one past the end is an error.
    let mut t2 = b"strs".to_vec();
    t2.extend_from_slice(&[3, 0, 0, 0, 0, 0]);
    assert!(parse(&t2).expect("strs").is_empty());
    let mut t3 = b"strs".to_vec();
    t3.extend_from_slice(&[40, 0, 0, 0, 0x10, 0]);
    assert_eq!(parse(&t3).err(), Some(Gw2Error::EntryPastEnd));
    let mut t4 = b"strs".to_vec();
    t4.extend_from_slice(&[10, 0, 0, 0, 0x10, 0]);
    assert_eq!(parse(&t4).err(), Some(Gw2Error::EntryPastEnd));
}

#[test]
fn strs_rejects_other_files() {
    assert_eq!(parse(b"str").err(), Some(Gw2Error::NotStrs));
    assert_eq!(parse(b"PF\x05\x00").err(), Some(Gw2Error::NotStrs));
}

#[test]
fn raw_text_with_unpaired_surrogate() {
    let e = StrEntry { offset: 4, size: 10, count: 0, enc: ENC_RAW_UTF16, data: vec![0x41, 0, 0x00, 0xD8] };
    assert_eq!(e.text(), Some("A\u{FFFD}".to_string()));
}

// ---------------------------------------------------------------------------
// Archive structures

fn dat_header() -> Vec<u8> {
    let mut h = vec![0u8; 40];
    h[0] = 151;
    h[1..4].copy_from_slice(&[0x41, 0x4E, 0x1A]);
    h[12..16].copy_from_slice(&512u32.to_le_bytes());
    h[24..32].copy_from_slice(&0x1_2345_6789u64.to_le_bytes());
    h[32..36].copy_from_slice(&4800u32.to_le_bytes());
    h
}

#[test]
fn dat_header_fields() {
    let h = parse_dat_header(&dat_header()).expect("header");
    assert_eq!(h.version, 151);
    assert_eq!(h.chunk_size, 512);
    assert_eq!(h.mft_offset, 0x1_2345_6789);
    assert_eq!(h.mft_size, 4800);
}

#[test]
fn dat_header_errors() {
    assert_eq!(parse_dat_header(&[1, 2]).err(), Some(Gw2Error::Truncated));
    let mut h = dat_header();
    h[2] = 0;
    assert_eq!(parse_dat_header(&h).err(), Some(Gw2Error::BadDatMagic));
    assert_eq!(parse_dat_header(&dat_header()[..39]).err(), Some(Gw2Error::Truncated));
}

#[test]
fn mft_header_and_entries() {
    let mut m = vec![0u8; 24];
    m[0..4].copy_from_slice(&[0x4D, 0x66, 0x74, 0x1A]);
    m[12..16].copy_from_slice(&201u32.to_le_bytes());
    assert_eq!(parse_mft_header(&m), Ok(200));
    m[12..16].copy_from_slice(&0u32.to_le_bytes());
    assert_eq!(parse_mft_header(&m), Ok(0));
    assert_eq!(parse_mft_header(b"Mft"), Err(Gw2Error::Truncated));
    assert_eq!(parse_mft_header(&[0u8; 24]), Err(Gw2Error::BadMftMagic));

    let rec = mft_entry_record(0x0102_0304_0506, 0x0A0B_0C0D);
    assert_eq!(rec.len(), 24);
    assert_eq!(&rec[0..12], &[6, 5, 4, 3, 2, 1, 0, 0, 0x0D, 0x0C, 0x0B, 0x0A]);
    assert!(rec[12..].iter().all(|&b| b == 0));
    let mut table = vec![0xEEu8; 3];
    table.extend_from_slice(&rec);
    let raw = parse_mft_entry(&table, 3);
    assert_eq!(raw.offset, 0x0102_0304_0506);
    assert_eq!(raw.size, 0x0A0B_0C0D);
    assert_eq!(raw.compression_flag, 0);
    let e = mft_entry_from_raw(&raw, Some("AFNT".to_string()));
    assert!(!e.compressed);
    assert_eq!(e.offset, raw.offset);
    assert_eq!(e.file_type.as_deref(), Some("AFNT"));
    table[3 + 12] = 8;
    assert!(mft_entry_from_raw(&parse_mft_entry(&table, 3), None).compressed);
}

#[test]
fn free_slots() {
    let entry = |offset: u64, size: u32| MftEntry { offset, size, compressed: false, _crc: 0, file_type: None };
    let entries = vec![entry(10, 5), entry(0, 7), entry(0, 0), entry(0, 0)];
    assert_eq!(find_free_mft_slot(&entries), Some(2));
    assert_eq!(find_free_mft_slot(&entries[..2]), None);

    let mut atoc = Vec::new();
    for (id, idx) in [(5u32, 1u32), (0, 3), (0, 0), (9, 2)] {
        atoc.extend_from_slice(&id.to_le_bytes());
        atoc.extend_from_slice(&idx.to_le_bytes());
    }
    assert_eq!(find_free_atoc_record(&atoc), Some(16));
    assert_eq!(find_free_atoc_record(&atoc[..16]), None);
    assert_eq!(max_file_id(&[3, 900, 12]), 900);
    assert_eq!(max_file_id(&[]), 0);
}

#[test]
fn atoc_map() {
    let mut atoc = Vec::new();
    for (id, idx) in [(5u32, 1u32), (0, 3), (7, 0), (9, 2), (5, 4)] {
        atoc.extend_from_slice(&id.to_le_bytes());
        atoc.extend_from_slice(&idx.to_le_bytes());
    }
    atoc.push(0xFF);
    let m = parse_atoc(&atoc);
    assert_eq!(m.len(), 2);
    assert_eq!(m.get(&5), Some(&3));
    assert_eq!(m.get(&9), Some(&1));
    assert_eq!(m.get(&7), None);
}

#[test]
fn entry_types() {
    assert_eq!(entry_type(b"PF\x05\x00\x00\x00\x01\x00AFNT"), Some(b"AFNT".to_vec()));
    assert_eq!(entry_type(b"strs\x01"), Some(b"strs".to_vec()));
    assert_eq!(entry_type(b"ab\x00\xFF"), Some(b"ab..".to_vec()));
    assert_eq!(entry_type(b"abc"), None);
    assert_eq!(fourcc_text(b"xx ATX", 2), b".ATX".to_vec());
}

#[test]
fn raw_entries_drop_block_checksums() {
    let small = vec![7u8; 100];
    assert_eq!(strip_raw_crc_blocks(&small), Ok(small.clone()));
    let mut big = Vec::new();
    big.extend(std::iter::repeat(1u8).take(65532));
    big.extend_from_slice(&[0xC0, 0xC1, 0xC2, 0xC3]);
    big.extend(std::iter::repeat(2u8).take(10));
    let out = strip_raw_crc_blocks(&big).expect("strip");
    assert_eq!(out.len(), 65542);
    assert!(out[..65532].iter().all(|&b| b == 1));
    assert!(out[65532..].iter().all(|&b| b == 2));
    // Exactly one block plus part of its checksum.
    let mut edge = vec![3u8; 65534];
    edge[65533] = 9;
    assert_eq!(strip_raw_crc_blocks(&edge).expect("strip"), vec![3u8; 65532]);
}

#[test]
fn entries_decode_by_kind() {
    let data = b"some entry content, some entry content".to_vec();
    let c = compress_gw2(&data).expect("compress");
    assert_eq!(decode_entry(&c, true), Ok(data.clone()));
    assert_eq!(decode_entry(&data, false), Ok(data.clone()));
    assert_eq!(decode_entry(&[1, 2, 3], true), Err(Gw2Error::DataTooShort));
    assert_eq!(wrap_uncompressed(&data), data);
}

// ---------------------------------------------------------------------------
// Templates and patch outputs

use gw2_dat_tool::output::atlas_blob;
use gw2_dat_tool::output::atoc_record;
use gw2_dat_tool::output::patch_meta;
use gw2_dat_tool::output::PatchMeta;
use gw2_dat_tool::strs::strs_language;
use gw2_dat_tool::text::csv_field;
use gw2_dat_tool::text::csv_template;
use gw2_dat_tool::text::keep_for_export;
use gw2_dat_tool::text::keep_for_template;

fn s(chars: Vec<char>) -> String {
    chars.into_iter().collect()
}

#[test]
fn csv_fields() {
    assert_eq!(s(csv_field("plain text")), "plain text");
    assert_eq!(s(csv_field("a,b")), "\"a,b\"");
    assert_eq!(s(csv_field("say \"hi\"")), "\"say \"\"hi\"\"\"");
    assert_eq!(s(csv_field("two\nlines")), "\"two\nlines\"");
    assert_eq!(s(csv_field("")), "");
}

#[test]
fn csv_templates() {
    let rows = vec!["Attack".to_string(), "Hello, world".to_string()];
    assert_eq!(s(csv_template(&rows)), "english,russian\nAttack,\n\"Hello, world\",\n");
    assert_eq!(s(csv_template(&[])), "english,russian\n");
}

#[test]
fn template_selection() {
    assert!(keep_for_template("Ok", 60));
    assert!(!keep_for_template("O", 60));
    assert!(!keep_for_template("12", 60));
    assert!(!keep_for_template("Épée", 60));
    assert!(!keep_for_template("abcdef", 5));
    assert!(keep_for_template("a1b", 3));
    assert!(keep_for_export("Привет", 6));
    assert!(!keep_for_export("Привет", 5));
    assert!(!keep_for_export("", 10));
}

#[test]
fn string_table_language() {
    assert_eq!(strs_language(b"strs\x00\x00\x02\x00"), Some(2));
    assert_eq!(strs_language(b"strs\x00"), None);
    assert_eq!(strs_language(b"PF\x00\x00\x00\x00\x00"), None);
}

#[test]
fn output_records() {
    let blob = atlas_blob(&[(7, vec![1, 2, 3]), (0x01020304, vec![])]);
    assert_eq!(blob, vec![2, 0, 0, 0, 7, 0, 0, 0, 3, 0, 0, 0, 1, 2, 3, 4, 3, 2, 1, 0, 0, 0, 0]);
    assert_eq!(atoc_record(439864, 12), vec![0x38, 0xB6, 0x06, 0x00, 12, 0, 0, 0]);
    let meta = patch_meta(&PatchMeta {
        afnt_offset: 0x1122334455,
        afnt_stored_size: 100,
        mft_offset: 2,
        afnt_index: 37306,
        glyph_file_id: 3631839,
        atoc_offset: 3,
        atoc_size: 4,
        mft_size: 5,
        glyph_index: 6,
        glyph_offset: 7,
        glyph_stored_size: 8,
        afnt_compressed_size: 9,
    });
    assert_eq!(meta.len(), 8 + 4 + 8 + 4 + 4 + 8 + 4 + 4 + 4 + 8 + 4 + 4);
    assert_eq!(&meta[0..12], &[0x55, 0x44, 0x33, 0x22, 0x11, 0, 0, 0, 100, 0, 0, 0]);
    assert_eq!(u32::from_le_bytes(meta[20..24].try_into().unwrap()), 37306);
    assert_eq!(u32::from_le_bytes(meta[24..28].try_into().unwrap()), 3631839);
    assert_eq!(u32::from_le_bytes(meta[60..64].try_into().unwrap()), 9);
}
