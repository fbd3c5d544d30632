use gw2_dat_tool::bitstream::BitReader;
use gw2_dat_tool::bitwriter::BitWriter;
use gw2_dat_tool::codebuild::build_code_lengths;
use gw2_dat_tool::codes::assign_codes;
use gw2_dat_tool::codes::dict_encode;
use gw2_dat_tool::codes::encode_tree;
use gw2_dat_tool::deflate::compress_gw2;
use gw2_dat_tool::deflate::encode_length;
use gw2_dat_tool::deflate::encode_offset;
use gw2_dat_tool::error::Gw2Error;
use gw2_dat_tool::huffman::HuffmanTree;
use gw2_dat_tool::inflate::decompress_gw2;
use gw2_dat_tool::lz77::lz77;
use gw2_dat_tool::lz77::Token;

fn roundtrip(data: &[u8]) {
    let compressed = compress_gw2(data).expect("compress failed");
    let decompressed = decompress_gw2(&compressed).expect("decompress failed");
    assert_eq!(data, decompressed.as_slice(), "roundtrip mismatch");
    println!(
        "  {} → {} bytes ({:.1}%)",
        data.len(),
        compressed.len(),
        compressed.len() as f64 / data.len() as f64 * 100.0
    );
}

#[test]
fn test_two_chars() {
    roundtrip(b"AB");
}

/// Force all-literals (no LZ77) to check if tree is the issue
#[test]
fn test_no_lz77() {
    let inputs: &[&[u8]] = &[b"HelloHell", b"HelloHello", b"Hello, GW2 font patch! Hello, GW2 font patch!"];
    for &input in inputs {
        let tokens: Vec<Token> = input.iter().map(|&b| Token::Literal(b)).collect();
        let mut sym_freq = vec![0u32; 285];
        let cpy_freq = vec![1u32; 1];
        for tok in &tokens {
            if let Token::Literal(b) = tok {
                sym_freq[*b as usize] += 1;
            }
        }
        let sym_lengths = build_code_lengths(&sym_freq, 15);
        let cpy_lengths = build_code_lengths(&cpy_freq, 15);
        let sym_codes = assign_codes(&sym_lengths);
        let _cpy_codes = assign_codes(&cpy_lengths);
        let sym_num = sym_lengths.iter().rposition(|&l| l > 0).map(|i| i + 1).unwrap_or(1);
        let cpy_num = cpy_lengths.iter().rposition(|&l| l > 0).map(|i| i + 1).unwrap_or(1);
        let mut bits = BitWriter::new();
        bits.write_bits(0, 32);
        bits.write_bits(input.len() as u32, 32);
        bits.write_bits(0, 4);
        bits.write_bits(0, 4);
        encode_tree(&sym_lengths, sym_num, &mut bits);
        encode_tree(&cpy_lengths, cpy_num, &mut bits);
        bits.write_bits(15, 4);
        for tok in &tokens {
            if let Token::Literal(b) = tok {
                let (code, len) = sym_codes[*b as usize];
                bits.write_bits(code, len);
            }
        }
        let compressed = bits.finish();
        let dec = decompress_gw2(&compressed).expect("decompress");
        if input != dec.as_slice() {
            println!("  compressed: {:02x?}", &compressed[..compressed.len().min(32)]);
            println!("  expected:   {:?}", std::str::from_utf8(input));
            println!("  got:        {:?}", std::str::from_utf8(&dec));
            panic!("mismatch for {:?}", std::str::from_utf8(input));
        }
        println!("  no-lz77 {:?} ok ({} bytes)", std::str::from_utf8(input), compressed.len());
    }
}

#[test]
fn test_dict_sym() {
    for k in 1u16..=8 {
        let sym = 0u16 | ((k - 1) << 5);
        println!("nb=0 k={} sym=0x{:02X}", k, sym);
        let _ = dict_encode(sym);
    }
    println!("all ok");
}

#[test]
fn test_hello_only() {
    roundtrip(b"Hello");
}

#[test]
fn test_small_match() {
    roundtrip(b"HelloHello");
}

#[test]
fn test_debug() {
    for input in [
        b"H".as_ref(),
        b"He",
        b"Hel",
        b"Hell",
        b"Hello",
        b"HelloH",
        b"HelloHe",
        b"HelloHel",
        b"HelloHell",
        b"HelloHello",
    ] {
        let c = compress_gw2(input).expect("compress");
        let d = decompress_gw2(&c).expect("decompress");
        if input != d.as_slice() {
            println!("FAIL len={}: input={:?} got={:?}", input.len(), std::str::from_utf8(input), std::str::from_utf8(&d));
            panic!("mismatch");
        }
    }
}

#[test]
fn test_hello() {
    roundtrip(b"Hello, GW2 font patch! Hello, GW2 font patch!");
}

#[test]
fn test_zeros() {
    roundtrip(&vec![0u8; 1000]);
}

#[test]
fn test_ramp() {
    roundtrip(&(0u8..=255).collect::<Vec<_>>());
}

#[test]
fn test_repeat() {
    roundtrip(&b"ABCDABCDABCDABCDABCD".repeat(50));
}

#[test]
fn test_long_match() {
    let mut d = vec![0u8; 10000];
    for i in 0..d.len() {
        d[i] = ((i * 7 + 13) % 17) as u8;
    }
    roundtrip(&d);
}

// ---------------------------------------------------------------------------
// Further cases

#[test]
fn roundtrip_single_byte() {
    roundtrip(&[0x42]);
}

#[test]
fn roundtrip_block_boundaries() {
    // Long enough to need several code blocks and long back-references.
    let mut d = Vec::new();
    for i in 0..70000u32 {
        d.push(((i / 3) % 251) as u8);
    }
    roundtrip(&d);
    let mut r = Vec::new();
    let mut x: u32 = 12345;
    for _ in 0..20000 {
        x = x.wrapping_mul(1103515245).wrapping_add(12345);
        r.push((x >> 16) as u8);
    }
    roundtrip(&r);
}

#[test]
fn empty_input_reads_back_as_bad_size() {
    let c = compress_gw2(&[]).expect("compress");
    assert_eq!(decompress_gw2(&c), Err(Gw2Error::BadOutputSize));
}

#[test]
fn decompress_rejects_short_input() {
    assert_eq!(decompress_gw2(&[]), Err(Gw2Error::DataTooShort));
    assert_eq!(decompress_gw2(&[0u8; 11]), Err(Gw2Error::DataTooShort));
}

#[test]
fn decompress_rejects_zero_output_size() {
    let mut d = vec![0u8; 16];
    // Output size field (second 32-bit word) left at 0.
    d[0] = 0;
    assert_eq!(decompress_gw2(&d), Err(Gw2Error::BadOutputSize));
}

#[test]
fn length_codes() {
    assert_eq!(encode_length(1), (0, 0, 0));
    assert_eq!(encode_length(8), (7, 0, 0));
    assert_eq!(encode_length(9), (8, 0, 1));
    assert_eq!(encode_length(100), (22, 3, 4));
    assert_eq!(encode_length(256), (28, 0, 0));
}

#[test]
fn offset_codes() {
    assert_eq!(encode_offset(1), (0, 0, 0));
    assert_eq!(encode_offset(4), (3, 0, 0));
    assert_eq!(encode_offset(5), (4, 0, 1));
    assert_eq!(encode_offset(7), (5, 0, 1));
    assert_eq!(encode_offset(0x8000), (29, 8191, 13));
}

fn expand(tokens: &[Token]) -> Vec<u8> {
    let mut out: Vec<u8> = Vec::new();
    for t in tokens {
        match *t {
            Token::Literal(b) => out.push(b),
            Token::Match { len, offset } => {
                for _ in 0..len {
                    let b = out[out.len() - offset as usize];
                    out.push(b);
                }
            }
        }
    }
    out
}

#[test]
fn lz77_tokens_expand_to_input() {
    let data = b"abcabcabcabcabcXabcabc".to_vec();
    let tokens = lz77(&data);
    assert_eq!(expand(&tokens), data);
    assert!(tokens.iter().any(|t| matches!(t, Token::Match { .. })));
    let ramp: Vec<u8> = (0u8..=255).collect();
    let t2 = lz77(&ramp);
    assert_eq!(t2.len(), 256);
    assert_eq!(expand(&t2), ramp);
}

#[test]
fn code_lengths_and_codes() {
    let lengths = build_code_lengths(&[5, 0, 1, 1], 15);
    assert_eq!(lengths[1], 0);
    assert!(lengths[0] >= 1 && lengths[2] >= 1 && lengths[3] >= 1);
    assert!(lengths[0] <= lengths[2]);
    let codes = assign_codes(&[1, 0, 2, 2]);
    assert_eq!(codes[1], (0, 0));
    assert_eq!(codes[0].1, 1);
    assert_eq!(codes[2].1, 2);
    assert_eq!(codes[3].1, 2);
    assert_ne!(codes[2].0, codes[3].0);
}

#[test]
fn bit_writer_packs_words() {
    let mut w = BitWriter::new();
    w.write_bits(1, 1);
    let out = w.finish();
    assert_eq!(out.len(), 4);
    assert_ne!(out, vec![0, 0, 0, 0]);
}

#[test]
fn code_length_examples() {
    assert_eq!(build_code_lengths(&[1, 1, 2], 15), vec![2, 2, 1]);
    assert_eq!(build_code_lengths(&[0, 5, 0], 15), vec![0, 1, 0]);
    // Huffman depths [3, 3, 2, 1], capped to 2, then lengthened until they fit.
    assert_eq!(build_code_lengths(&[1, 1, 2, 4], 2), vec![2, 2, 2, 2]);
    assert_eq!(build_code_lengths(&[0, 0], 15), vec![0, 0]);
}

#[test]
fn compressed_stream_layout() {
    // No tokens: the header alone, padded to whole words.
    assert_eq!(compress_gw2(&[]).expect("compress"), vec![0u8; 12]);
    for data in [b"H".to_vec(), b"Hello, GW2 font patch!".to_vec(), vec![7u8; 5000]] {
        let c = compress_gw2(&data).expect("compress");
        assert_eq!(c.len() % 4, 0);
        assert!(c.len() >= 12);
        assert_eq!(&c[0..4], &[0, 0, 0, 0]);
        assert_eq!(u32::from_le_bytes(c[4..8].try_into().unwrap()) as usize, data.len());
        assert_eq!(c[11], 0);
    }
}

#[test]
fn lz77_match_bounds() {
    let mut d = vec![0u8; 3000];
    for i in 0..d.len() {
        d[i] = ((i * 5) % 11) as u8;
    }
    let tokens = lz77(&d);
    assert_eq!(expand(&tokens), d);
    for t in &tokens {
        if let Token::Match { len, offset } = *t {
            assert!((3..=254).contains(&len));
            assert!((1..=32768).contains(&offset));
        }
    }
}

#[test]
fn long_offsets() {
    assert_eq!(encode_offset(1 << 17), (33, 32767, 15));
    assert_eq!(encode_offset(65537), (32, 0, 15));
}

#[test]
fn single_byte_stream() {
    let c = compress_gw2(b"H").expect("compress");
    println!("{:02x?}", c);
    assert_eq!(
        c,
        vec![0, 0, 0, 0, 1, 0, 0, 0, 0x06, 0x49, 0, 0, 0x08, 0x21, 0x84, 0xD0, 0x02, 0, 0x10, 0x42, 0, 0, 0x84, 0x0D]
    );
}

#[test]
fn code_lengths_without_a_limit_are_zero() {
    assert_eq!(build_code_lengths(&[1, 2, 3], 0), vec![0, 0, 0]);
    assert_eq!(build_code_lengths(&[], 0), Vec::<u8>::new());
    // A lone symbol gets a 1-bit code whatever the limit.
    assert_eq!(build_code_lengths(&[0, 4, 0], 0), vec![0, 1, 0]);
}

#[test]
fn code_lengths_with_a_wide_limit() {
    assert_eq!(build_code_lengths(&[1, 1, 2], 62), vec![2, 2, 1]);
    assert_eq!(build_code_lengths(&[0, 3, 0], 62), vec![0, 1, 0]);
}

#[test]
fn tree_without_codes_gives_its_single_value() {
    let data = [0x12u8, 0x34, 0x56, 0x78, 0, 0, 0, 0];
    let mut tree = HuffmanTree::new();
    tree.build(&vec![0, 0, 0], 7);
    let mut bits = BitReader::new(&data);
    assert_eq!(tree.read_code(&mut bits), Ok(7));
    assert_eq!(tree.read_code(&mut bits), Ok(7));
    // Nothing was read: the next 32 bits are still the first word.
    assert_eq!(bits.read(32), 0x7856_3412);
}

#[test]
fn tree_with_32_bit_codes() {
    // Two codes of 32 bits: all ones for symbol 0, then one less for symbol 1.
    let mut tree = HuffmanTree::new();
    tree.build(&vec![32, 32], 0);
    let ones = [0xFFu8, 0xFF, 0xFF, 0xFF, 0xFE, 0xFF, 0xFF, 0xFF, 0, 0, 0, 0];
    let mut bits = BitReader::new(&ones);
    assert_eq!(tree.read_code(&mut bits), Ok(0));
    assert_eq!(tree.read_code(&mut bits), Ok(1));
    assert_eq!(tree.read_code(&mut bits), Err(Gw2Error::NoCode));
}

#[test]
fn written_numbers_read_back_past_the_word_gaps() {
    // 16384 words and more, so the writer's padding and the reader's skip
    // both come into play.
    let items: Vec<(u32, u32)> = (0..40000u32).map(|i| (i.wrapping_mul(2654435761u32) >> (32 - (i % 32 + 1)), i % 32 + 1)).collect();
    let mut w = BitWriter::new();
    for &(v, n) in &items {
        w.write_bits(v, n);
    }
    let out = w.finish();
    let mut r = BitReader::new(&out);
    for &(v, n) in &items {
        assert_eq!(r.read(n), v);
    }
}
