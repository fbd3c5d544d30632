//! GW2's decompressor: Huffman-coded literals and LZ77 back-references.
//!
//! A compressed entry starts with a 32-bit field that is skipped, the output
//! size (32 bits), 4 skipped bits and 4 bits giving the minimum match length
//! minus one.  Blocks follow until the output is full: a code table for the
//! 285 literal/length symbols, one for the 30 offset symbols (each sent as
//! run-length pairs in a fixed dictionary code), 4 bits giving the block's
//! code count in units of 4096, then that many codes.

use vstd::prelude::*;
use vstd::arithmetic::power2::*;
use vstd::arithmetic::div_mod::*;
use crate::bitstream::BitReader;
use crate::bitstream::stream_value;
use crate::bitstream::lemma_value_bound;
use crate::error::Gw2Error;
use crate::huffman::HuffmanTree;
use crate::huffman::tree_read;
use crate::huffman::lengths_ok;
use crate::huffman::single_value;

verus! {

/// The code lengths of the fixed dictionary code in which code tables are sent.
pub open spec fn dict_lengths() -> Seq<u8> {
    seq![
        4, 10, 10, 7, 6, 6, 5, 4, 3, 3, 3, 4, 4, 7, 11, 15,
        15, 15, 16, 16, 16, 16, 16, 16, 16, 16, 16, 16, 16, 16, 16, 16,
        6, 16, 13, 9, 8, 7, 7, 7, 6, 5, 5, 6, 6, 10, 13, 16,
        16, 16, 16, 16, 16, 16, 16, 16, 16, 16, 16, 16, 16, 16, 16, 16,
        6, 16, 16, 10, 10, 10, 9, 8, 7, 7, 6, 8, 8, 11, 14, 16,
        16, 16, 16, 16, 16, 16, 16, 16, 16, 16, 16, 16, 16, 16, 16, 16,
        9, 16, 16, 9, 11, 10, 10, 9, 9, 8, 8, 11, 11, 14, 16, 16,
        16, 16, 16, 16, 16, 16, 16, 16, 16, 16, 16, 16, 16, 16, 16, 16,
        10, 16, 16, 12, 11, 11, 12, 10, 9, 9, 10, 11, 13, 15, 16, 16,
        16, 16, 16, 16, 16, 16, 16, 16, 16, 16, 16, 16, 16, 16, 16, 16,
        9, 16, 16, 16, 11, 11, 12, 12, 10, 10, 11, 15, 15, 16, 16, 16,
        16, 16, 16, 16, 16, 16, 16, 16, 16, 16, 16, 16, 16, 16, 16, 16,
        10, 16, 16, 16, 13, 16, 14, 12, 11, 10, 12, 16, 15, 16, 16, 16,
        16, 16, 16, 16, 16, 16, 16, 16, 16, 16, 16, 16, 16, 16, 16, 16,
        5, 16, 16, 16, 13, 11, 13, 12, 9, 10, 15, 16, 14, 16, 16, 16,
        16, 16, 16, 16, 16, 16, 16, 16, 16, 16, 16, 16, 16, 16, 16, 16,
    ]
}

/// The dictionary code's lengths, as a vector.
pub fn dict_lengths_vec() -> (r: Vec<u8>)
    ensures
        r@ == dict_lengths(),
{
    let v: Vec<u8> = vec![
        4, 10, 10, 7, 6, 6, 5, 4, 3, 3, 3, 4, 4, 7, 11, 15,
        15, 15, 16, 16, 16, 16, 16, 16, 16, 16, 16, 16, 16, 16, 16, 16,
        6, 16, 13, 9, 8, 7, 7, 7, 6, 5, 5, 6, 6, 10, 13, 16,
        16, 16, 16, 16, 16, 16, 16, 16, 16, 16, 16, 16, 16, 16, 16, 16,
        6, 16, 16, 10, 10, 10, 9, 8, 7, 7, 6, 8, 8, 11, 14, 16,
        16, 16, 16, 16, 16, 16, 16, 16, 16, 16, 16, 16, 16, 16, 16, 16,
        9, 16, 16, 9, 11, 10, 10, 9, 9, 8, 8, 11, 11, 14, 16, 16,
        16, 16, 16, 16, 16, 16, 16, 16, 16, 16, 16, 16, 16, 16, 16, 16,
        10, 16, 16, 12, 11, 11, 12, 10, 9, 9, 10, 11, 13, 15, 16, 16,
        16, 16, 16, 16, 16, 16, 16, 16, 16, 16, 16, 16, 16, 16, 16, 16,
        9, 16, 16, 16, 11, 11, 12, 12, 10, 10, 11, 15, 15, 16, 16, 16,
        16, 16, 16, 16, 16, 16, 16, 16, 16, 16, 16, 16, 16, 16, 16, 16,
        10, 16, 16, 16, 13, 16, 14, 12, 11, 10, 12, 16, 15, 16, 16, 16,
        16, 16, 16, 16, 16, 16, 16, 16, 16, 16, 16, 16, 16, 16, 16, 16,
        5, 16, 16, 16, 13, 11, 13, 12, 9, 10, 15, 16, 14, 16, 16, 16,
        16, 16, 16, 16, 16, 16, 16, 16, 16, 16, 16, 16, 16, 16, 16, 16,
    ];
    assert(v@ =~= dict_lengths());
    v
}

/// `lens` with the entries `lo..=hi` set to `v`.
pub open spec fn fill_lengths(lens: Seq<u8>, lo: int, hi: int, v: u8) -> Seq<u8> {
    Seq::new(lens.len(), |i: int| if lo <= i <= hi { v } else { lens[i] })
}

/// Applies one dictionary code `code` at symbol `remaining`: it stands for
/// `code / 32 + 1` symbols, counting down from `remaining`, that get the
/// length `code % 32` (0 leaves them without a code).
pub open spec fn length_run(remaining: int, lens: Seq<u8>, code: u16) -> (int, Seq<u8>) {
    let nbits = (code % 32) as u8;
    let count = code / 32 + 1;
    if nbits == 0 {
        (remaining - count, lens)
    } else {
        let k = if count < remaining + 1 { count as int } else { remaining + 1 };
        (remaining - k, fill_lengths(lens, remaining - k + 1, remaining, nbits))
    }
}

pub proof fn lemma_length_run_decreases(remaining: int, lens: Seq<u8>, code: u16)
    requires
        remaining >= 0,
    ensures
        length_run(remaining, lens, code).0 < remaining,
{
}

/// Reads code lengths from bit `p`, from symbol `remaining` down to 0.
#[verifier::opaque]
pub open spec fn parse_lengths(data: Seq<u8>, p: nat, remaining: int, lens: Seq<u8>) -> Result<(Seq<u8>, nat), Gw2Error>
    decreases (if remaining < 0 { 0 } else { remaining + 1 }),
{
    if remaining < 0 {
        Ok((lens, p))
    } else {
        match tree_read(dict_lengths(), data, p) {
            None => Err(Gw2Error::NoCode),
            Some((code, nb)) => {
                let (rem2, lens2) = length_run(remaining, lens, code);
                proof {
                    lemma_length_run_decreases(remaining, lens, code);
                }
                parse_lengths(data, p + nb, rem2, lens2)
            },
        }
    }
}

pub proof fn lemma_parse_lengths_step(data: Seq<u8>, p: nat, remaining: int, lens: Seq<u8>)
    ensures
        remaining < 0 ==> parse_lengths(data, p, remaining, lens) == Ok::<(Seq<u8>, nat), Gw2Error>((lens, p)),
        remaining >= 0 ==> parse_lengths(data, p, remaining, lens) == match tree_read(dict_lengths(), data, p) {
            None => Err(Gw2Error::NoCode),
            Some((code, nb)) => {
                let (rem2, lens2) = length_run(remaining, lens, code);
                parse_lengths(data, p + nb, rem2, lens2)
            },
        },
{
    reveal(parse_lengths);
}

/// Applies one dictionary code to the lengths being read.
fn apply_length_run(lengths: &mut Vec<u8>, remaining: i32, code: u16) -> (r: i32)
    requires
        0 <= remaining < old(lengths)@.len(),
        code < 256,
        forall|j: int| 0 <= j < old(lengths)@.len() ==> old(lengths)@[j] <= 31,
    ensures
        (r as int, final(lengths)@) == length_run(remaining as int, old(lengths)@, code),
        r < remaining,
        r >= -8,
        final(lengths)@.len() == old(lengths)@.len(),
        forall|j: int| 0 <= j < final(lengths)@.len() ==> final(lengths)@[j] <= 31,
{
    let nb_bits = (code % 32) as u8;
    let count: i32 = (code / 32) as i32 + 1;
    if nb_bits == 0 {
        return remaining - count;
    }
    let ghost lens0 = lengths@;
    let ghost k = if count < remaining + 1 { count as int } else { remaining + 1 };
    let mut rem = remaining;
    let mut c = count;
    while c > 0 && rem >= 0
        invariant
            0 <= remaining < lens0.len(),
            1 <= count <= 8,
            0 <= c <= count,
            rem == remaining - (count - c),
            k == (if count < remaining + 1 { count as int } else { remaining + 1 }),
            rem >= remaining - k,
            lengths@ == fill_lengths(lens0, rem + 1, remaining as int, nb_bits),
            lens0.len() == lengths@.len(),
            1 <= nb_bits <= 31,
        decreases c,
    {
        lengths.set(rem as usize, nb_bits);
        rem = rem - 1;
        c = c - 1;
        assert(lengths@ =~= fill_lengths(lens0, rem + 1, remaining as int, nb_bits));
    }
    assert(rem == remaining - k);
    assert(lengths@ =~= fill_lengths(lens0, remaining - k + 1, remaining as int, nb_bits));
    rem
}

/// Reads a code table for symbols up to `max_sym` from bit `p`: a 16-bit
/// symbol count, then the lengths.
pub open spec fn parse_tree(data: Seq<u8>, p: nat, max_sym: nat) -> Result<(Seq<u8>, nat), Gw2Error> {
    let num = stream_value(data, p, 16);
    if num > max_sym + 1 {
        Err(Gw2Error::TooManySymbols)
    } else {
        parse_lengths(data, p + 16, num - 1, Seq::new(num, |i: int| 0u8))
    }
}

/// Decodes one dictionary code (a run of code lengths) from `bits`.
pub fn dict_read_code(bits: &mut BitReader, dict: &HuffmanTree) -> (r: Result<u16, Gw2Error>)
    requires
        dict.wf(),
        dict.lengths() == dict_lengths(),
        old(bits).wf(),
    ensures
        final(bits).wf(),
        final(bits).data() == old(bits).data(),
        match tree_read(dict_lengths(), old(bits).data(), old(bits).pos()) {
            Some((sym, nb)) => r == Ok::<u16, Gw2Error>(sym) && final(bits).pos() == old(bits).pos() + nb,
            None => r == Err::<u16, Gw2Error>(Gw2Error::NoCode),
        },
{
    dict.read_code(bits)
}

/// The decoding tree of the dictionary code.
pub fn dict_tree() -> (r: HuffmanTree)
    ensures
        r.wf(),
        r.lengths() == dict_lengths(),
{
    let lens = dict_lengths_vec();
    let mut t = HuffmanTree::new();
    proof {
        assert(lengths_ok(lens@));
    }
    t.build(&lens, 255);
    t
}

impl HuffmanTree {
    /// Reads a code table for symbols up to `max_sym` from `bits` and
    /// rebuilds this tree from it.
    pub fn parse(&mut self, bits: &mut BitReader, max_sym: u16, dict: &HuffmanTree) -> (r: Result<(), Gw2Error>)
        requires
            dict.wf(),
            dict.lengths() == dict_lengths(),
            old(bits).wf(),
            max_sym < 0xFFFF,
        ensures
            final(bits).wf(),
            final(bits).data() == old(bits).data(),
            match parse_tree(old(bits).data(), old(bits).pos(), max_sym as nat) {
                Ok((lens, p)) => {
                    &&& r is Ok
                    &&& final(self).wf()
                    &&& final(self).lengths() == lens
                    &&& final(bits).pos() == p
                },
                Err(e) => r == Err::<(), Gw2Error>(e),
            },
    {
        let ghost d = bits.data();
        let ghost p0 = bits.pos();
        let num_symbols = bits.read(16);
        proof {
            lemma_value_bound(d, p0, 16);
            lemma2_to64();
        }
        if num_symbols > max_sym as u32 + 1 {
            return Err(Gw2Error::TooManySymbols);
        }
        let num = num_symbols as usize;
        let mut lengths: Vec<u8> = Vec::new();
        let mut i: usize = 0;
        while i < num
            invariant
                i <= num,
                lengths@ == Seq::new(i as nat, |j: int| 0u8),
            decreases num - i,
        {
            lengths.push(0);
            i = i + 1;
            assert(lengths@ =~= Seq::new(i as nat, |j: int| 0u8));
        }
        let single: u16 = if num == 0 { 0xFFFF } else { (num - 1) as u16 };
        proof {
            assert(lengths@ =~= Seq::new(num as nat, |j: int| 0u8));
        }
        let mut remaining: i32 = num as i32 - 1;
        while remaining >= 0
            invariant
                dict.wf(),
                dict.lengths() == dict_lengths(),
                bits.wf(),
                bits.data() == d,
                d == old(bits).data(),
                p0 == old(bits).pos(),
                -9 <= remaining < num,
                num <= 0x10000,
                lengths@.len() == num,
                forall|j: int| 0 <= j < lengths@.len() ==> lengths@[j] <= 31,
                parse_tree(d, p0, max_sym as nat) == parse_lengths(d, bits.pos(), remaining as int, lengths@),
                num == stream_value(d, p0, 16),
                num <= max_sym + 1,
            decreases remaining + 9,
        {
            let ghost old_pos = bits.pos();
            proof {
                lemma_parse_lengths_step(d, old_pos, remaining as int, lengths@);
            }
            let code = dict_read_code(bits, dict)?;
            proof {
                crate::huffman::lemma_tree_read_symbol(dict_lengths(), d, old_pos);
            }
            remaining = apply_length_run(&mut lengths, remaining, code);
        }
        proof {
            lemma_parse_lengths_step(d, bits.pos(), remaining as int, lengths@);
            assert(lengths_ok(lengths@));
            if num > 0 {
                assert(single == (lengths@.len() - 1) as u16);
            }
        }
        self.build(&lengths, single);
        Ok(())
    }
}

/// The base match length (before extra bits) of length symbol `s`
/// (a literal/length symbol minus 256).
pub open spec fn length_base(s: nat) -> Option<nat> {
    if s / 4 == 0 {
        Some(s)
    } else if s / 4 < 7 {
        Some(pow2((s / 4 - 1) as nat) * (4 + s % 4))
    } else if s == 28 {
        Some(255)
    } else {
        None
    }
}

/// How many extra bits follow length symbol `s`.
pub open spec fn length_extra_bits(s: nat) -> nat {
    if s / 4 > 1 && s != 28 { (s / 4 - 1) as nat } else { 0 }
}

/// The base distance (before extra bits) of offset symbol `o`.
pub open spec fn offset_base(o: nat) -> Option<nat> {
    if o / 2 == 0 {
        Some(o)
    } else if o / 2 < 17 {
        Some(pow2((o / 2 - 1) as nat) * (2 + o % 2))
    } else {
        None
    }
}

/// How many extra bits follow offset symbol `o`.
pub open spec fn offset_extra_bits(o: nat) -> nat {
    if o / 2 > 1 { (o / 2 - 1) as nat } else { 0 }
}

/// `out` extended by `k` bytes, each copied from `dist` bytes back.
pub open spec fn lz_copy(out: Seq<u8>, dist: nat, k: nat) -> Seq<u8>
    decreases k,
{
    if k == 0 {
        out
    } else {
        let o = lz_copy(out, dist, (k - 1) as nat);
        o.push(o[o.len() - dist])
    }
}

pub proof fn lemma_lz_copy(out: Seq<u8>, dist: nat, k: nat)
    ensures
        lz_copy(out, dist, k).len() == out.len() + k,
        forall|i: int| 0 <= i < out.len() ==> lz_copy(out, dist, k)[i] == out[i],
    decreases k,
{
    if k > 0 {
        lemma_lz_copy(out, dist, (k - 1) as nat);
    }
}

/// The length part of a match with length symbol `s` at bit `p`: the
/// length before the stream's minimum is added, and the bit after it.
pub open spec fn match_length(data: Seq<u8>, p: nat, s: nat) -> Result<(nat, nat), Gw2Error> {
    match length_base(s) {
        None => Err(Gw2Error::BadLengthSymbol),
        Some(b) => Ok((b + stream_value(data, p, length_extra_bits(s)), p + length_extra_bits(s))),
    }
}

/// The distance part of a match at bit `p`: the distance and the bit after it.
pub open spec fn match_distance(data: Seq<u8>, p: nat, clens: Seq<u8>) -> Result<(nat, nat), Gw2Error> {
    match tree_read(clens, data, p) {
        None => Err(Gw2Error::NoCode),
        Some((o, n)) => match offset_base(o as nat) {
            None => Err(Gw2Error::BadOffsetSymbol),
            Some(ob) => Ok((ob + stream_value(data, p + n, offset_extra_bits(o as nat)) + 1, p + n + offset_extra_bits(o as nat))),
        },
    }
}

/// Decodes one code from bit `p` into `out` (which is shorter than `size`):
/// a literal byte, or a match copying up to `size - out.len()` bytes; a
/// match is `wsa + 1` bytes longer than its length symbol and extra bits say.
pub open spec fn decode_code(data: Seq<u8>, p: nat, slens: Seq<u8>, clens: Seq<u8>, size: nat, wsa: nat, out: Seq<u8>) -> Result<(nat, Seq<u8>), Gw2Error> {
    match tree_read(slens, data, p) {
        None => Err(Gw2Error::NoCode),
        Some((sym, n1)) => {
            if sym < 256 {
                Ok((p + n1, out.push(sym as u8)))
            } else {
                match match_length(data, p + n1, (sym - 256) as nat) {
                    Err(e) => Err(e),
                    Ok((l, p2)) => match match_distance(data, p2, clens) {
                        Err(e) => Err(e),
                        Ok((dist, p3)) => {
                            let len = l + wsa + 1;
                            if out.len() < dist {
                                Err(Gw2Error::OffsetBeyondOutput)
                            } else {
                                let k = if len < size - out.len() { len } else { (size - out.len()) as nat };
                                Ok((p3, lz_copy(out, dist, k)))
                            }
                        },
                    },
                }
            }
        },
    }
}

/// The start of a block at bit `p`: the literal/length code table, the
/// offset code table and the block's code count.
pub open spec fn block_start(data: Seq<u8>, p: nat) -> Result<(Seq<u8>, Seq<u8>, nat, nat), Gw2Error> {
    match parse_tree(data, p, 284) {
        Err(e) => Err(e),
        Ok((sl, p1)) => match parse_tree(data, p1, 29) {
            Err(e) => Err(e),
            Ok((cl, p2)) => Ok((sl, cl, p2 + 4, (stream_value(data, p2, 4) + 1) * 4096)),
        },
    }
}

/// Decoding from bit `p` with `out` produced so far and `left` codes left
/// in the current block (0: a new block starts, with its code tables).
#[verifier::opaque]
pub open spec fn inflate_steps(data: Seq<u8>, p: nat, size: nat, wsa: nat, out: Seq<u8>, slens: Seq<u8>, clens: Seq<u8>, left: nat) -> Result<Seq<u8>, Gw2Error>
    decreases size - out.len(), (if left == 0 { 1int } else { 0int }),
{
    if out.len() >= size {
        Ok(out)
    } else if left == 0 {
        match block_start(data, p) {
            Err(e) => Err(e),
            Ok((sl, cl, p1, n)) => inflate_steps(data, p1, size, wsa, out, sl, cl, n),
        }
    } else {
        match decode_code(data, p, slens, clens, size, wsa, out) {
            Err(e) => Err(e),
            Ok((p1, out1)) => {
                proof {
                    lemma_decode_code_grows(data, p, slens, clens, size, wsa, out);
                }
                inflate_steps(data, p1, size, wsa, out1, slens, clens, (left - 1) as nat)
            },
        }
    }
}

pub proof fn lemma_decode_code_grows(data: Seq<u8>, p: nat, slens: Seq<u8>, clens: Seq<u8>, size: nat, wsa: nat, out: Seq<u8>)
    requires
        out.len() < size,
    ensures
        decode_code(data, p, slens, clens, size, wsa, out) matches Ok((p1, out1)) ==> out.len() < out1.len() <= size,
{
    if let Ok((p1, out1)) = decode_code(data, p, slens, clens, size, wsa, out) {
        if let Some((sym, n1)) = tree_read(slens, data, p) {
            if sym >= 256 {
                let (l, p2) = match_length(data, p + n1, (sym - 256) as nat).unwrap();
                let (dist, p3) = match_distance(data, p2, clens).unwrap();
                let len = l + wsa + 1;
                let k = if len < size - out.len() { len } else { (size - out.len()) as nat };
                lemma_lz_copy(out, dist, k);
            }
        }
    }
}

/// The output of decompressing `data`, or why it fails.
pub open spec fn inflate(data: Seq<u8>) -> Result<Seq<u8>, Gw2Error> {
    if data.len() < 12 {
        Err(Gw2Error::DataTooShort)
    } else {
        let size = stream_value(data, 32, 32);
        if size == 0 || size > 256 * 1024 * 1024 {
            Err(Gw2Error::BadOutputSize)
        } else {
            inflate_steps(data, 72, size, stream_value(data, 68, 4), seq![], seq![], seq![], 0)
        }
    }
}

pub proof fn lemma_inflate_steps(data: Seq<u8>, p: nat, size: nat, wsa: nat, out: Seq<u8>, slens: Seq<u8>, clens: Seq<u8>, left: nat)
    ensures
        inflate_steps(data, p, size, wsa, out, slens, clens, left) == (if out.len() >= size {
            Ok(out)
        } else if left == 0 {
            match block_start(data, p) {
                Err(e) => Err(e),
                Ok((sl, cl, p1, n)) => inflate_steps(data, p1, size, wsa, out, sl, cl, n),
            }
        } else {
            match decode_code(data, p, slens, clens, size, wsa, out) {
                Err(e) => Err(e),
                Ok((p1, out1)) => inflate_steps(data, p1, size, wsa, out1, slens, clens, (left - 1) as nat),
            }
        }),
{
    reveal(inflate_steps);
}

/// `2^k` as a `u32`.
fn pow2_u32(k: u32) -> (r: u32)
    requires
        k < 32,
    ensures
        r as nat == pow2(k as nat),
{
    proof {
        vstd::bits::lemma_u32_pow2_no_overflow(k as nat);
        vstd::bits::lemma_u32_shl_is_mul(1, k);
    }
    1u32 << k
}

/// Reads the length part of a match with length symbol `s`.
fn read_match_length(bits: &mut BitReader, s: u32) -> (r: Result<u32, Gw2Error>)
    requires
        old(bits).wf(),
    ensures
        final(bits).wf(),
        final(bits).data() == old(bits).data(),
        match match_length(old(bits).data(), old(bits).pos(), s as nat) {
            Ok((l, p1)) => r == Ok::<u32, Gw2Error>(l as u32) && l <= 0x1FF && final(bits).pos() == p1,
            Err(e) => r == Err::<u32, Gw2Error>(e),
        },
{
    let ghost d = bits.data();
    let ghost p = bits.pos();
    let div4 = s / 4;
    let rem4 = s % 4;
    let base: u32 = if div4 == 0 {
        s
    } else if div4 < 7 {
        let pw = pow2_u32(div4 - 1);
        proof {
            lemma_pow2_strictly_increases((div4 - 1) as nat, 6);
            lemma2_to64();
            assert(pw * (4 + rem4) <= 64 * 7) by (nonlinear_arith)
                requires
                    pw <= 64,
                    rem4 < 4,
            ;
        }
        pw * (4 + rem4)
    } else if s == 28 {
        0xFF
    } else {
        return Err(Gw2Error::BadLengthSymbol);
    };
    let extra: u32 = if div4 > 1 && s != 28 {
        bits.read(div4 - 1)
    } else {
        0
    };
    proof {
        lemma_value_bound(d, p, length_extra_bits(s as nat));
        if div4 > 1 && s != 28 {
            lemma_pow2_strictly_increases((div4 - 1) as nat, 6);
        }
        lemma2_to64();
        assert(stream_value(d, p, 0) == 0);
        assert(extra < 64);
    }
    Ok(base + extra)
}

/// Reads the distance part of a match.
fn read_match_distance(bits: &mut BitReader, cpy_tree: &HuffmanTree) -> (r: Result<u32, Gw2Error>)
    requires
        old(bits).wf(),
        cpy_tree.wf(),
    ensures
        final(bits).wf(),
        final(bits).data() == old(bits).data(),
        match match_distance(old(bits).data(), old(bits).pos(), cpy_tree.lengths()) {
            Ok((dist, p1)) => r == Ok::<u32, Gw2Error>(dist as u32) && 1 <= dist <= 0x40000 && final(bits).pos() == p1,
            Err(e) => r == Err::<u32, Gw2Error>(e),
        },
{
    let ghost d = bits.data();
    let off_sym = cpy_tree.read_code(bits)? as u32;
    let div2 = off_sym / 2;
    let rem2 = off_sym % 2;
    let ob: u32 = if div2 == 0 {
        off_sym
    } else if div2 < 17 {
        let pw = pow2_u32(div2 - 1);
        proof {
            lemma_pow2_strictly_increases((div2 - 1) as nat, 16);
            lemma2_to64();
            assert(pw * (2 + rem2) <= 0x10000 * 3) by (nonlinear_arith)
                requires
                    pw <= 0x10000,
                    rem2 < 2,
            ;
        }
        pw * (2 + rem2)
    } else {
        return Err(Gw2Error::BadOffsetSymbol);
    };
    let ghost p3 = bits.pos();
    let oextra: u32 = if div2 > 1 {
        bits.read(div2 - 1)
    } else {
        0
    };
    proof {
        lemma_value_bound(d, p3, offset_extra_bits(off_sym as nat));
        if div2 > 1 {
            lemma_pow2_strictly_increases((div2 - 1) as nat, 16);
        }
        lemma2_to64();
        assert(stream_value(d, p3, 0) == 0);
        assert(oextra < 0x10000);
    }
    Ok(ob + oextra + 1)
}

/// Appends `min(len, size - out.len())` bytes copied from `dist` back.
fn copy_match(out: &mut Vec<u8>, dist: usize, len: usize, size: usize)
    requires
        1 <= dist <= old(out)@.len(),
        old(out)@.len() < size,
    ensures
        final(out)@ == lz_copy(old(out)@, dist as nat, if (len as nat) < size - old(out)@.len() { len as nat } else { (size - old(out)@.len()) as nat }),
{
    let ghost old_out = out@;
    let ghost k: nat = if (len as nat) < size - old_out.len() { len as nat } else { (size - old_out.len()) as nat };
    let mut j: usize = 0;
    while j < len && out.len() < size
        invariant
            j <= len,
            old_out.len() >= dist,
            dist >= 1,
            old_out.len() < size,
            out@ == lz_copy(old_out, dist as nat, j as nat),
            out@.len() == old_out.len() + j,
            out@.len() <= size,
            k == (if (len as nat) < size - old_out.len() { len as nat } else { (size - old_out.len()) as nat }),
            j <= k,
        decreases len - j,
    {
        proof {
            lemma_lz_copy(old_out, dist as nat, j as nat);
        }
        let b = out[out.len() - dist];
        out.push(b);
        j = j + 1;
    }
}

/// Decodes one literal or match from `bits` onto `out`.
fn decode_step(bits: &mut BitReader, sym_tree: &HuffmanTree, cpy_tree: &HuffmanTree, size: usize, write_size_add: u32, out: &mut Vec<u8>) -> (r: Result<(), Gw2Error>)
    requires
        old(bits).wf(),
        sym_tree.wf(),
        cpy_tree.wf(),
        old(out)@.len() < size,
        1 <= write_size_add <= 16,
    ensures
        final(bits).wf(),
        final(bits).data() == old(bits).data(),
        match decode_code(old(bits).data(), old(bits).pos(), sym_tree.lengths(), cpy_tree.lengths(), size as nat, (write_size_add - 1) as nat, old(out)@) {
            Ok((p1, o)) => r is Ok && final(out)@ == o && final(bits).pos() == p1,
            Err(e) => r == Err::<(), Gw2Error>(e),
        },
{
    let symbol = sym_tree.read_code(bits)?;
    if symbol < 0x100 {
        out.push(symbol as u8);
        return Ok(());
    }
    let write_size = read_match_length(bits, (symbol - 0x100) as u32)? + write_size_add;
    let offset = read_match_distance(bits, cpy_tree)? as usize;
    if out.len() < offset {
        return Err(Gw2Error::OffsetBeyondOutput);
    }
    copy_match(out, offset, write_size as usize, size);
    Ok(())
}

/// Reads the start of a block: both code tables and the code count.
fn start_block(bits: &mut BitReader, sym_tree: &mut HuffmanTree, cpy_tree: &mut HuffmanTree, dict: &HuffmanTree) -> (r: Result<usize, Gw2Error>)
    requires
        old(bits).wf(),
        dict.wf(),
        dict.lengths() == dict_lengths(),
    ensures
        final(bits).wf(),
        final(bits).data() == old(bits).data(),
        match block_start(old(bits).data(), old(bits).pos()) {
            Ok((sl, cl, p1, n)) => {
                &&& r == Ok::<usize, Gw2Error>(n as usize)
                &&& n == r.unwrap() as nat
                &&& 4096 <= n <= 16 * 4096
                &&& final(bits).pos() == p1
                &&& final(sym_tree).wf()
                &&& final(sym_tree).lengths() == sl
                &&& final(cpy_tree).wf()
                &&& final(cpy_tree).lengths() == cl
            },
            Err(e) => r == Err::<usize, Gw2Error>(e),
        },
{
    sym_tree.parse(bits, 284, dict)?;
    cpy_tree.parse(bits, 29, dict)?;
    let ghost d = bits.data();
    let ghost p2 = bits.pos();
    let block_raw = bits.read(4) as usize;
    proof {
        lemma_value_bound(d, p2, 4);
        lemma2_to64();
    }
    Ok((block_raw + 1) * 4096)
}

/// Decompresses a GW2 compressed entry.
pub fn decompress_gw2(data: &[u8]) -> (r: Result<Vec<u8>, Gw2Error>)
    ensures
        match inflate(data@) {
            Ok(o) => r matches Ok(v) && v@ == o,
            Err(e) => r == Err::<Vec<u8>, Gw2Error>(e),
        },
{
    if data.len() < 12 {
        return Err(Gw2Error::DataTooShort);
    }
    let mut bits = BitReader::new(data);
    bits.drop(32);
    let output_size = bits.read(32) as usize;
    if output_size == 0 || output_size > 256 * 1024 * 1024 {
        return Err(Gw2Error::BadOutputSize);
    }
    bits.drop(4);
    let field = bits.read(4);
    proof {
        lemma_value_bound(data@, 68, 4);
        lemma2_to64();
    }
    let write_size_add = field + 1;
    let dict = dict_tree();
    let mut sym_tree = HuffmanTree::new();
    let mut cpy_tree = HuffmanTree::new();
    let mut out: Vec<u8> = Vec::new();
    let mut left: usize = 0;
    let ghost wsa = (write_size_add - 1) as nat;
    while out.len() < output_size
        invariant
            bits.wf(),
            bits.data() == data@,
            dict.wf(),
            dict.lengths() == dict_lengths(),
            sym_tree.wf(),
            cpy_tree.wf(),
            1 <= write_size_add <= 16,
            wsa == write_size_add - 1,
            out@.len() <= output_size,
            output_size <= 256 * 1024 * 1024,
            left <= 16 * 4096,
            inflate(data@) == inflate_steps(data@, bits.pos(), output_size as nat, wsa, out@, sym_tree.lengths(), cpy_tree.lengths(), left as nat),
        decreases output_size - out@.len(), (if left == 0 { 1int } else { 0int }),
    {
        proof {
            lemma_inflate_steps(data@, bits.pos(), output_size as nat, wsa, out@, sym_tree.lengths(), cpy_tree.lengths(), left as nat);
        }
        if left == 0 {
            left = start_block(&mut bits, &mut sym_tree, &mut cpy_tree, &dict)?;
        } else {
            proof {
                lemma_decode_code_grows(data@, bits.pos(), sym_tree.lengths(), cpy_tree.lengths(), output_size as nat, wsa, out@);
            }
            decode_step(&mut bits, &sym_tree, &cpy_tree, output_size, write_size_add, &mut out)?;
            left = left - 1;
        }
    }
    proof {
        lemma_inflate_steps(data@, bits.pos(), output_size as nat, wsa, out@, sym_tree.lengths(), cpy_tree.lengths(), left as nat);
    }
    Ok(out)
}

proof fn lemma_dict_level_1()
    ensures
        crate::huffman::level_size(dict_lengths(), 1) == 0,
{
    let d = dict_lengths();
    reveal_with_fuel(crate::huffman::syms_with_len, 17);
    assert(crate::huffman::count_len(d, 0, 1) == 0);
    assert(crate::huffman::count_len(d, 16, 1) == 0);
    assert(crate::huffman::count_len(d, 32, 1) == 0);
    assert(crate::huffman::count_len(d, 48, 1) == 0);
    assert(crate::huffman::count_len(d, 64, 1) == 0);
    assert(crate::huffman::count_len(d, 80, 1) == 0);
    assert(crate::huffman::count_len(d, 96, 1) == 0);
    assert(crate::huffman::count_len(d, 112, 1) == 0);
    assert(crate::huffman::count_len(d, 128, 1) == 0);
    assert(crate::huffman::count_len(d, 144, 1) == 0);
    assert(crate::huffman::count_len(d, 160, 1) == 0);
    assert(crate::huffman::count_len(d, 176, 1) == 0);
    assert(crate::huffman::count_len(d, 192, 1) == 0);
    assert(crate::huffman::count_len(d, 208, 1) == 0);
    assert(crate::huffman::count_len(d, 224, 1) == 0);
    assert(crate::huffman::count_len(d, 240, 1) == 0);
    assert(crate::huffman::count_len(d, 256, 1) == 0);
}

proof fn lemma_dict_level_2()
    ensures
        crate::huffman::level_size(dict_lengths(), 2) == 0,
{
    let d = dict_lengths();
    reveal_with_fuel(crate::huffman::syms_with_len, 17);
    assert(crate::huffman::count_len(d, 0, 2) == 0);
    assert(crate::huffman::count_len(d, 16, 2) == 0);
    assert(crate::huffman::count_len(d, 32, 2) == 0);
    assert(crate::huffman::count_len(d, 48, 2) == 0);
    assert(crate::huffman::count_len(d, 64, 2) == 0);
    assert(crate::huffman::count_len(d, 80, 2) == 0);
    assert(crate::huffman::count_len(d, 96, 2) == 0);
    assert(crate::huffman::count_len(d, 112, 2) == 0);
    assert(crate::huffman::count_len(d, 128, 2) == 0);
    assert(crate::huffman::count_len(d, 144, 2) == 0);
    assert(crate::huffman::count_len(d, 160, 2) == 0);
    assert(crate::huffman::count_len(d, 176, 2) == 0);
    assert(crate::huffman::count_len(d, 192, 2) == 0);
    assert(crate::huffman::count_len(d, 208, 2) == 0);
    assert(crate::huffman::count_len(d, 224, 2) == 0);
    assert(crate::huffman::count_len(d, 240, 2) == 0);
    assert(crate::huffman::count_len(d, 256, 2) == 0);
}

proof fn lemma_dict_level_3()
    ensures
        crate::huffman::level_size(dict_lengths(), 3) == 3,
{
    let d = dict_lengths();
    reveal_with_fuel(crate::huffman::syms_with_len, 17);
    assert(crate::huffman::count_len(d, 0, 3) == 0);
    assert(crate::huffman::count_len(d, 16, 3) == 3);
    assert(crate::huffman::count_len(d, 32, 3) == 3);
    assert(crate::huffman::count_len(d, 48, 3) == 3);
    assert(crate::huffman::count_len(d, 64, 3) == 3);
    assert(crate::huffman::count_len(d, 80, 3) == 3);
    assert(crate::huffman::count_len(d, 96, 3) == 3);
    assert(crate::huffman::count_len(d, 112, 3) == 3);
    assert(crate::huffman::count_len(d, 128, 3) == 3);
    assert(crate::huffman::count_len(d, 144, 3) == 3);
    assert(crate::huffman::count_len(d, 160, 3) == 3);
    assert(crate::huffman::count_len(d, 176, 3) == 3);
    assert(crate::huffman::count_len(d, 192, 3) == 3);
    assert(crate::huffman::count_len(d, 208, 3) == 3);
    assert(crate::huffman::count_len(d, 224, 3) == 3);
    assert(crate::huffman::count_len(d, 240, 3) == 3);
    assert(crate::huffman::count_len(d, 256, 3) == 3);
}

proof fn lemma_dict_level_4()
    ensures
        crate::huffman::level_size(dict_lengths(), 4) == 4,
{
    let d = dict_lengths();
    reveal_with_fuel(crate::huffman::syms_with_len, 17);
    assert(crate::huffman::count_len(d, 0, 4) == 0);
    assert(crate::huffman::count_len(d, 16, 4) == 4);
    assert(crate::huffman::count_len(d, 32, 4) == 4);
    assert(crate::huffman::count_len(d, 48, 4) == 4);
    assert(crate::huffman::count_len(d, 64, 4) == 4);
    assert(crate::huffman::count_len(d, 80, 4) == 4);
    assert(crate::huffman::count_len(d, 96, 4) == 4);
    assert(crate::huffman::count_len(d, 112, 4) == 4);
    assert(crate::huffman::count_len(d, 128, 4) == 4);
    assert(crate::huffman::count_len(d, 144, 4) == 4);
    assert(crate::huffman::count_len(d, 160, 4) == 4);
    assert(crate::huffman::count_len(d, 176, 4) == 4);
    assert(crate::huffman::count_len(d, 192, 4) == 4);
    assert(crate::huffman::count_len(d, 208, 4) == 4);
    assert(crate::huffman::count_len(d, 224, 4) == 4);
    assert(crate::huffman::count_len(d, 240, 4) == 4);
    assert(crate::huffman::count_len(d, 256, 4) == 4);
}

proof fn lemma_dict_level_5()
    ensures
        crate::huffman::level_size(dict_lengths(), 5) == 4,
{
    let d = dict_lengths();
    reveal_with_fuel(crate::huffman::syms_with_len, 17);
    assert(crate::huffman::count_len(d, 0, 5) == 0);
    assert(crate::huffman::count_len(d, 16, 5) == 1);
    assert(crate::huffman::count_len(d, 32, 5) == 1);
    assert(crate::huffman::count_len(d, 48, 5) == 3);
    assert(crate::huffman::count_len(d, 64, 5) == 3);
    assert(crate::huffman::count_len(d, 80, 5) == 3);
    assert(crate::huffman::count_len(d, 96, 5) == 3);
    assert(crate::huffman::count_len(d, 112, 5) == 3);
    assert(crate::huffman::count_len(d, 128, 5) == 3);
    assert(crate::huffman::count_len(d, 144, 5) == 3);
    assert(crate::huffman::count_len(d, 160, 5) == 3);
    assert(crate::huffman::count_len(d, 176, 5) == 3);
    assert(crate::huffman::count_len(d, 192, 5) == 3);
    assert(crate::huffman::count_len(d, 208, 5) == 3);
    assert(crate::huffman::count_len(d, 224, 5) == 3);
    assert(crate::huffman::count_len(d, 240, 5) == 4);
    assert(crate::huffman::count_len(d, 256, 5) == 4);
}

proof fn lemma_dict_level_6()
    ensures
        crate::huffman::level_size(dict_lengths(), 6) == 8,
{
    let d = dict_lengths();
    reveal_with_fuel(crate::huffman::syms_with_len, 17);
    assert(crate::huffman::count_len(d, 0, 6) == 0);
    assert(crate::huffman::count_len(d, 16, 6) == 2);
    assert(crate::huffman::count_len(d, 32, 6) == 2);
    assert(crate::huffman::count_len(d, 48, 6) == 6);
    assert(crate::huffman::count_len(d, 64, 6) == 6);
    assert(crate::huffman::count_len(d, 80, 6) == 8);
    assert(crate::huffman::count_len(d, 96, 6) == 8);
    assert(crate::huffman::count_len(d, 112, 6) == 8);
    assert(crate::huffman::count_len(d, 128, 6) == 8);
    assert(crate::huffman::count_len(d, 144, 6) == 8);
    assert(crate::huffman::count_len(d, 160, 6) == 8);
    assert(crate::huffman::count_len(d, 176, 6) == 8);
    assert(crate::huffman::count_len(d, 192, 6) == 8);
    assert(crate::huffman::count_len(d, 208, 6) == 8);
    assert(crate::huffman::count_len(d, 224, 6) == 8);
    assert(crate::huffman::count_len(d, 240, 6) == 8);
    assert(crate::huffman::count_len(d, 256, 6) == 8);
}

proof fn lemma_dict_level_7()
    ensures
        crate::huffman::level_size(dict_lengths(), 7) == 7,
{
    let d = dict_lengths();
    reveal_with_fuel(crate::huffman::syms_with_len, 17);
    assert(crate::huffman::count_len(d, 0, 7) == 0);
    assert(crate::huffman::count_len(d, 16, 7) == 2);
    assert(crate::huffman::count_len(d, 32, 7) == 2);
    assert(crate::huffman::count_len(d, 48, 7) == 5);
    assert(crate::huffman::count_len(d, 64, 7) == 5);
    assert(crate::huffman::count_len(d, 80, 7) == 7);
    assert(crate::huffman::count_len(d, 96, 7) == 7);
    assert(crate::huffman::count_len(d, 112, 7) == 7);
    assert(crate::huffman::count_len(d, 128, 7) == 7);
    assert(crate::huffman::count_len(d, 144, 7) == 7);
    assert(crate::huffman::count_len(d, 160, 7) == 7);
    assert(crate::huffman::count_len(d, 176, 7) == 7);
    assert(crate::huffman::count_len(d, 192, 7) == 7);
    assert(crate::huffman::count_len(d, 208, 7) == 7);
    assert(crate::huffman::count_len(d, 224, 7) == 7);
    assert(crate::huffman::count_len(d, 240, 7) == 7);
    assert(crate::huffman::count_len(d, 256, 7) == 7);
}

proof fn lemma_dict_level_8()
    ensures
        crate::huffman::level_size(dict_lengths(), 8) == 6,
{
    let d = dict_lengths();
    reveal_with_fuel(crate::huffman::syms_with_len, 17);
    assert(crate::huffman::count_len(d, 0, 8) == 0);
    assert(crate::huffman::count_len(d, 16, 8) == 0);
    assert(crate::huffman::count_len(d, 32, 8) == 0);
    assert(crate::huffman::count_len(d, 48, 8) == 1);
    assert(crate::huffman::count_len(d, 64, 8) == 1);
    assert(crate::huffman::count_len(d, 80, 8) == 4);
    assert(crate::huffman::count_len(d, 96, 8) == 4);
    assert(crate::huffman::count_len(d, 112, 8) == 6);
    assert(crate::huffman::count_len(d, 128, 8) == 6);
    assert(crate::huffman::count_len(d, 144, 8) == 6);
    assert(crate::huffman::count_len(d, 160, 8) == 6);
    assert(crate::huffman::count_len(d, 176, 8) == 6);
    assert(crate::huffman::count_len(d, 192, 8) == 6);
    assert(crate::huffman::count_len(d, 208, 8) == 6);
    assert(crate::huffman::count_len(d, 224, 8) == 6);
    assert(crate::huffman::count_len(d, 240, 8) == 6);
    assert(crate::huffman::count_len(d, 256, 8) == 6);
}

proof fn lemma_dict_level_9()
    ensures
        crate::huffman::level_size(dict_lengths(), 9) == 10,
{
    let d = dict_lengths();
    reveal_with_fuel(crate::huffman::syms_with_len, 17);
    assert(crate::huffman::count_len(d, 0, 9) == 0);
    assert(crate::huffman::count_len(d, 16, 9) == 0);
    assert(crate::huffman::count_len(d, 32, 9) == 0);
    assert(crate::huffman::count_len(d, 48, 9) == 1);
    assert(crate::huffman::count_len(d, 64, 9) == 1);
    assert(crate::huffman::count_len(d, 80, 9) == 2);
    assert(crate::huffman::count_len(d, 96, 9) == 2);
    assert(crate::huffman::count_len(d, 112, 9) == 6);
    assert(crate::huffman::count_len(d, 128, 9) == 6);
    assert(crate::huffman::count_len(d, 144, 9) == 8);
    assert(crate::huffman::count_len(d, 160, 9) == 8);
    assert(crate::huffman::count_len(d, 176, 9) == 9);
    assert(crate::huffman::count_len(d, 192, 9) == 9);
    assert(crate::huffman::count_len(d, 208, 9) == 9);
    assert(crate::huffman::count_len(d, 224, 9) == 9);
    assert(crate::huffman::count_len(d, 240, 9) == 10);
    assert(crate::huffman::count_len(d, 256, 9) == 10);
}

proof fn lemma_dict_level_10()
    ensures
        crate::huffman::level_size(dict_lengths(), 10) == 16,
{
    let d = dict_lengths();
    reveal_with_fuel(crate::huffman::syms_with_len, 17);
    assert(crate::huffman::count_len(d, 0, 10) == 0);
    assert(crate::huffman::count_len(d, 16, 10) == 2);
    assert(crate::huffman::count_len(d, 32, 10) == 2);
    assert(crate::huffman::count_len(d, 48, 10) == 3);
    assert(crate::huffman::count_len(d, 64, 10) == 3);
    assert(crate::huffman::count_len(d, 80, 10) == 6);
    assert(crate::huffman::count_len(d, 96, 10) == 6);
    assert(crate::huffman::count_len(d, 112, 10) == 8);
    assert(crate::huffman::count_len(d, 128, 10) == 8);
    assert(crate::huffman::count_len(d, 144, 10) == 11);
    assert(crate::huffman::count_len(d, 160, 10) == 11);
    assert(crate::huffman::count_len(d, 176, 10) == 13);
    assert(crate::huffman::count_len(d, 192, 10) == 13);
    assert(crate::huffman::count_len(d, 208, 10) == 15);
    assert(crate::huffman::count_len(d, 224, 10) == 15);
    assert(crate::huffman::count_len(d, 240, 10) == 16);
    assert(crate::huffman::count_len(d, 256, 10) == 16);
}

proof fn lemma_dict_level_11()
    ensures
        crate::huffman::level_size(dict_lengths(), 11) == 13,
{
    let d = dict_lengths();
    reveal_with_fuel(crate::huffman::syms_with_len, 17);
    assert(crate::huffman::count_len(d, 0, 11) == 0);
    assert(crate::huffman::count_len(d, 16, 11) == 1);
    assert(crate::huffman::count_len(d, 32, 11) == 1);
    assert(crate::huffman::count_len(d, 48, 11) == 1);
    assert(crate::huffman::count_len(d, 64, 11) == 1);
    assert(crate::huffman::count_len(d, 80, 11) == 2);
    assert(crate::huffman::count_len(d, 96, 11) == 2);
    assert(crate::huffman::count_len(d, 112, 11) == 5);
    assert(crate::huffman::count_len(d, 128, 11) == 5);
    assert(crate::huffman::count_len(d, 144, 11) == 8);
    assert(crate::huffman::count_len(d, 160, 11) == 8);
    assert(crate::huffman::count_len(d, 176, 11) == 11);
    assert(crate::huffman::count_len(d, 192, 11) == 11);
    assert(crate::huffman::count_len(d, 208, 11) == 12);
    assert(crate::huffman::count_len(d, 224, 11) == 12);
    assert(crate::huffman::count_len(d, 240, 11) == 13);
    assert(crate::huffman::count_len(d, 256, 11) == 13);
}

proof fn lemma_dict_level_12()
    ensures
        crate::huffman::level_size(dict_lengths(), 12) == 7,
{
    let d = dict_lengths();
    reveal_with_fuel(crate::huffman::syms_with_len, 17);
    assert(crate::huffman::count_len(d, 0, 12) == 0);
    assert(crate::huffman::count_len(d, 16, 12) == 0);
    assert(crate::huffman::count_len(d, 32, 12) == 0);
    assert(crate::huffman::count_len(d, 48, 12) == 0);
    assert(crate::huffman::count_len(d, 64, 12) == 0);
    assert(crate::huffman::count_len(d, 80, 12) == 0);
    assert(crate::huffman::count_len(d, 96, 12) == 0);
    assert(crate::huffman::count_len(d, 112, 12) == 0);
    assert(crate::huffman::count_len(d, 128, 12) == 0);
    assert(crate::huffman::count_len(d, 144, 12) == 2);
    assert(crate::huffman::count_len(d, 160, 12) == 2);
    assert(crate::huffman::count_len(d, 176, 12) == 4);
    assert(crate::huffman::count_len(d, 192, 12) == 4);
    assert(crate::huffman::count_len(d, 208, 12) == 6);
    assert(crate::huffman::count_len(d, 224, 12) == 6);
    assert(crate::huffman::count_len(d, 240, 12) == 7);
    assert(crate::huffman::count_len(d, 256, 12) == 7);
}

proof fn lemma_dict_level_13()
    ensures
        crate::huffman::level_size(dict_lengths(), 13) == 6,
{
    let d = dict_lengths();
    reveal_with_fuel(crate::huffman::syms_with_len, 17);
    assert(crate::huffman::count_len(d, 0, 13) == 0);
    assert(crate::huffman::count_len(d, 16, 13) == 0);
    assert(crate::huffman::count_len(d, 32, 13) == 0);
    assert(crate::huffman::count_len(d, 48, 13) == 2);
    assert(crate::huffman::count_len(d, 64, 13) == 2);
    assert(crate::huffman::count_len(d, 80, 13) == 2);
    assert(crate::huffman::count_len(d, 96, 13) == 2);
    assert(crate::huffman::count_len(d, 112, 13) == 2);
    assert(crate::huffman::count_len(d, 128, 13) == 2);
    assert(crate::huffman::count_len(d, 144, 13) == 3);
    assert(crate::huffman::count_len(d, 160, 13) == 3);
    assert(crate::huffman::count_len(d, 176, 13) == 3);
    assert(crate::huffman::count_len(d, 192, 13) == 3);
    assert(crate::huffman::count_len(d, 208, 13) == 4);
    assert(crate::huffman::count_len(d, 224, 13) == 4);
    assert(crate::huffman::count_len(d, 240, 13) == 6);
    assert(crate::huffman::count_len(d, 256, 13) == 6);
}

proof fn lemma_dict_level_14()
    ensures
        crate::huffman::level_size(dict_lengths(), 14) == 4,
{
    let d = dict_lengths();
    reveal_with_fuel(crate::huffman::syms_with_len, 17);
    assert(crate::huffman::count_len(d, 0, 14) == 0);
    assert(crate::huffman::count_len(d, 16, 14) == 0);
    assert(crate::huffman::count_len(d, 32, 14) == 0);
    assert(crate::huffman::count_len(d, 48, 14) == 0);
    assert(crate::huffman::count_len(d, 64, 14) == 0);
    assert(crate::huffman::count_len(d, 80, 14) == 1);
    assert(crate::huffman::count_len(d, 96, 14) == 1);
    assert(crate::huffman::count_len(d, 112, 14) == 2);
    assert(crate::huffman::count_len(d, 128, 14) == 2);
    assert(crate::huffman::count_len(d, 144, 14) == 2);
    assert(crate::huffman::count_len(d, 160, 14) == 2);
    assert(crate::huffman::count_len(d, 176, 14) == 2);
    assert(crate::huffman::count_len(d, 192, 14) == 2);
    assert(crate::huffman::count_len(d, 208, 14) == 3);
    assert(crate::huffman::count_len(d, 224, 14) == 3);
    assert(crate::huffman::count_len(d, 240, 14) == 4);
    assert(crate::huffman::count_len(d, 256, 14) == 4);
}

proof fn lemma_dict_level_15()
    ensures
        crate::huffman::level_size(dict_lengths(), 15) == 8,
{
    let d = dict_lengths();
    reveal_with_fuel(crate::huffman::syms_with_len, 17);
    assert(crate::huffman::count_len(d, 0, 15) == 0);
    assert(crate::huffman::count_len(d, 16, 15) == 1);
    assert(crate::huffman::count_len(d, 32, 15) == 3);
    assert(crate::huffman::count_len(d, 48, 15) == 3);
    assert(crate::huffman::count_len(d, 64, 15) == 3);
    assert(crate::huffman::count_len(d, 80, 15) == 3);
    assert(crate::huffman::count_len(d, 96, 15) == 3);
    assert(crate::huffman::count_len(d, 112, 15) == 3);
    assert(crate::huffman::count_len(d, 128, 15) == 3);
    assert(crate::huffman::count_len(d, 144, 15) == 4);
    assert(crate::huffman::count_len(d, 160, 15) == 4);
    assert(crate::huffman::count_len(d, 176, 15) == 6);
    assert(crate::huffman::count_len(d, 192, 15) == 6);
    assert(crate::huffman::count_len(d, 208, 15) == 7);
    assert(crate::huffman::count_len(d, 224, 15) == 7);
    assert(crate::huffman::count_len(d, 240, 15) == 8);
    assert(crate::huffman::count_len(d, 256, 15) == 8);
}

proof fn lemma_dict_level_16()
    ensures
        crate::huffman::level_size(dict_lengths(), 16) == 160,
{
    let d = dict_lengths();
    reveal_with_fuel(crate::huffman::syms_with_len, 17);
    assert(crate::huffman::count_len(d, 0, 16) == 0);
    assert(crate::huffman::count_len(d, 16, 16) == 0);
    assert(crate::huffman::count_len(d, 32, 16) == 14);
    assert(crate::huffman::count_len(d, 48, 16) == 16);
    assert(crate::huffman::count_len(d, 64, 16) == 32);
    assert(crate::huffman::count_len(d, 80, 16) == 35);
    assert(crate::huffman::count_len(d, 96, 16) == 51);
    assert(crate::huffman::count_len(d, 112, 16) == 55);
    assert(crate::huffman::count_len(d, 128, 16) == 71);
    assert(crate::huffman::count_len(d, 144, 16) == 75);
    assert(crate::huffman::count_len(d, 160, 16) == 91);
    assert(crate::huffman::count_len(d, 176, 16) == 97);
    assert(crate::huffman::count_len(d, 192, 16) == 113);
    assert(crate::huffman::count_len(d, 208, 16) == 121);
    assert(crate::huffman::count_len(d, 224, 16) == 137);
    assert(crate::huffman::count_len(d, 240, 16) == 144);
    assert(crate::huffman::count_len(d, 256, 16) == 160);
}

/// The dictionary code is a complete prefix code.
pub proof fn lemma_dict_valid()
    ensures
        crate::canonical::lengths_valid(dict_lengths()),
        dict_lengths().len() == 256,
        forall|i: int| 0 <= i < 256 ==> 3 <= #[trigger] dict_lengths()[i] <= 16,
{
    let d = dict_lengths();
    assert(d.len() == 256);
    lemma_dict_range();
    lemma_dict_level_1();
    lemma_dict_level_2();
    lemma_dict_level_3();
    lemma_dict_level_4();
    lemma_dict_level_5();
    lemma_dict_level_6();
    lemma_dict_level_7();
    lemma_dict_level_8();
    lemma_dict_level_9();
    lemma_dict_level_10();
    lemma_dict_level_11();
    lemma_dict_level_12();
    lemma_dict_level_13();
    lemma_dict_level_14();
    lemma_dict_level_15();
    lemma_dict_level_16();
    lemma2_to64();
    reveal_with_fuel(crate::canonical::kraft_levels, 17);
    assert(crate::canonical::kraft_levels(d, 16, 16) == 65536);
    crate::canonical::lemma_kraft_valid(d, 16);
}

proof fn lemma_dict_range()
    ensures
        forall|i: int| 0 <= i < 256 ==> 3 <= #[trigger] dict_lengths()[i] <= 16,
{
    let d = dict_lengths();
    assert forall|i: int| 0 <= i < 256 implies 3 <= #[trigger] d[i] <= 16 by {
        if i < 128 {
            if i == 0 { assert(d[0] == 4); }
            if i == 1 { assert(d[1] == 10); }
            if i == 2 { assert(d[2] == 10); }
            if i == 3 { assert(d[3] == 7); }
            if i == 4 { assert(d[4] == 6); }
            if i == 5 { assert(d[5] == 6); }
            if i == 6 { assert(d[6] == 5); }
            if i == 7 { assert(d[7] == 4); }
            if i == 8 { assert(d[8] == 3); }
            if i == 9 { assert(d[9] == 3); }
            if i == 10 { assert(d[10] == 3); }
            if i == 11 { assert(d[11] == 4); }
            if i == 12 { assert(d[12] == 4); }
            if i == 13 { assert(d[13] == 7); }
            if i == 14 { assert(d[14] == 11); }
            if i == 15 { assert(d[15] == 15); }
            if i == 16 { assert(d[16] == 15); }
            if i == 17 { assert(d[17] == 15); }
            if i == 18 { assert(d[18] == 16); }
            if i == 19 { assert(d[19] == 16); }
            if i == 20 { assert(d[20] == 16); }
            if i == 21 { assert(d[21] == 16); }
            if i == 22 { assert(d[22] == 16); }
            if i == 23 { assert(d[23] == 16); }
            if i == 24 { assert(d[24] == 16); }
            if i == 25 { assert(d[25] == 16); }
            if i == 26 { assert(d[26] == 16); }
            if i == 27 { assert(d[27] == 16); }
            if i == 28 { assert(d[28] == 16); }
            if i == 29 { assert(d[29] == 16); }
            if i == 30 { assert(d[30] == 16); }
            if i == 31 { assert(d[31] == 16); }
            if i == 32 { assert(d[32] == 6); }
            if i == 33 { assert(d[33] == 16); }
            if i == 34 { assert(d[34] == 13); }
            if i == 35 { assert(d[35] == 9); }
            if i == 36 { assert(d[36] == 8); }
            if i == 37 { assert(d[37] == 7); }
            if i == 38 { assert(d[38] == 7); }
            if i == 39 { assert(d[39] == 7); }
            if i == 40 { assert(d[40] == 6); }
            if i == 41 { assert(d[41] == 5); }
            if i == 42 { assert(d[42] == 5); }
            if i == 43 { assert(d[43] == 6); }
            if i == 44 { assert(d[44] == 6); }
            if i == 45 { assert(d[45] == 10); }
            if i == 46 { assert(d[46] == 13); }
            if i == 47 { assert(d[47] == 16); }
            if i == 48 { assert(d[48] == 16); }
            if i == 49 { assert(d[49] == 16); }
            if i == 50 { assert(d[50] == 16); }
            if i == 51 { assert(d[51] == 16); }
            if i == 52 { assert(d[52] == 16); }
            if i == 53 { assert(d[53] == 16); }
            if i == 54 { assert(d[54] == 16); }
            if i == 55 { assert(d[55] == 16); }
            if i == 56 { assert(d[56] == 16); }
            if i == 57 { assert(d[57] == 16); }
            if i == 58 { assert(d[58] == 16); }
            if i == 59 { assert(d[59] == 16); }
            if i == 60 { assert(d[60] == 16); }
            if i == 61 { assert(d[61] == 16); }
            if i == 62 { assert(d[62] == 16); }
            if i == 63 { assert(d[63] == 16); }
            if i == 64 { assert(d[64] == 6); }
            if i == 65 { assert(d[65] == 16); }
            if i == 66 { assert(d[66] == 16); }
            if i == 67 { assert(d[67] == 10); }
            if i == 68 { assert(d[68] == 10); }
            if i == 69 { assert(d[69] == 10); }
            if i == 70 { assert(d[70] == 9); }
            if i == 71 { assert(d[71] == 8); }
            if i == 72 { assert(d[72] == 7); }
            if i == 73 { assert(d[73] == 7); }
            if i == 74 { assert(d[74] == 6); }
            if i == 75 { assert(d[75] == 8); }
            if i == 76 { assert(d[76] == 8); }
            if i == 77 { assert(d[77] == 11); }
            if i == 78 { assert(d[78] == 14); }
            if i == 79 { assert(d[79] == 16); }
            if i == 80 { assert(d[80] == 16); }
            if i == 81 { assert(d[81] == 16); }
            if i == 82 { assert(d[82] == 16); }
            if i == 83 { assert(d[83] == 16); }
            if i == 84 { assert(d[84] == 16); }
            if i == 85 { assert(d[85] == 16); }
            if i == 86 { assert(d[86] == 16); }
            if i == 87 { assert(d[87] == 16); }
            if i == 88 { assert(d[88] == 16); }
            if i == 89 { assert(d[89] == 16); }
            if i == 90 { assert(d[90] == 16); }
            if i == 91 { assert(d[91] == 16); }
            if i == 92 { assert(d[92] == 16); }
            if i == 93 { assert(d[93] == 16); }
            if i == 94 { assert(d[94] == 16); }
            if i == 95 { assert(d[95] == 16); }
            if i == 96 { assert(d[96] == 9); }
            if i == 97 { assert(d[97] == 16); }
            if i == 98 { assert(d[98] == 16); }
            if i == 99 { assert(d[99] == 9); }
            if i == 100 { assert(d[100] == 11); }
            if i == 101 { assert(d[101] == 10); }
            if i == 102 { assert(d[102] == 10); }
            if i == 103 { assert(d[103] == 9); }
            if i == 104 { assert(d[104] == 9); }
            if i == 105 { assert(d[105] == 8); }
            if i == 106 { assert(d[106] == 8); }
            if i == 107 { assert(d[107] == 11); }
            if i == 108 { assert(d[108] == 11); }
            if i == 109 { assert(d[109] == 14); }
            if i == 110 { assert(d[110] == 16); }
            if i == 111 { assert(d[111] == 16); }
            if i == 112 { assert(d[112] == 16); }
            if i == 113 { assert(d[113] == 16); }
            if i == 114 { assert(d[114] == 16); }
            if i == 115 { assert(d[115] == 16); }
            if i == 116 { assert(d[116] == 16); }
            if i == 117 { assert(d[117] == 16); }
            if i == 118 { assert(d[118] == 16); }
            if i == 119 { assert(d[119] == 16); }
            if i == 120 { assert(d[120] == 16); }
            if i == 121 { assert(d[121] == 16); }
            if i == 122 { assert(d[122] == 16); }
            if i == 123 { assert(d[123] == 16); }
            if i == 124 { assert(d[124] == 16); }
            if i == 125 { assert(d[125] == 16); }
            if i == 126 { assert(d[126] == 16); }
            if i == 127 { assert(d[127] == 16); }
        } else {
            if i == 128 { assert(d[128] == 10); }
            if i == 129 { assert(d[129] == 16); }
            if i == 130 { assert(d[130] == 16); }
            if i == 131 { assert(d[131] == 12); }
            if i == 132 { assert(d[132] == 11); }
            if i == 133 { assert(d[133] == 11); }
            if i == 134 { assert(d[134] == 12); }
            if i == 135 { assert(d[135] == 10); }
            if i == 136 { assert(d[136] == 9); }
            if i == 137 { assert(d[137] == 9); }
            if i == 138 { assert(d[138] == 10); }
            if i == 139 { assert(d[139] == 11); }
            if i == 140 { assert(d[140] == 13); }
            if i == 141 { assert(d[141] == 15); }
            if i == 142 { assert(d[142] == 16); }
            if i == 143 { assert(d[143] == 16); }
            if i == 144 { assert(d[144] == 16); }
            if i == 145 { assert(d[145] == 16); }
            if i == 146 { assert(d[146] == 16); }
            if i == 147 { assert(d[147] == 16); }
            if i == 148 { assert(d[148] == 16); }
            if i == 149 { assert(d[149] == 16); }
            if i == 150 { assert(d[150] == 16); }
            if i == 151 { assert(d[151] == 16); }
            if i == 152 { assert(d[152] == 16); }
            if i == 153 { assert(d[153] == 16); }
            if i == 154 { assert(d[154] == 16); }
            if i == 155 { assert(d[155] == 16); }
            if i == 156 { assert(d[156] == 16); }
            if i == 157 { assert(d[157] == 16); }
            if i == 158 { assert(d[158] == 16); }
            if i == 159 { assert(d[159] == 16); }
            if i == 160 { assert(d[160] == 9); }
            if i == 161 { assert(d[161] == 16); }
            if i == 162 { assert(d[162] == 16); }
            if i == 163 { assert(d[163] == 16); }
            if i == 164 { assert(d[164] == 11); }
            if i == 165 { assert(d[165] == 11); }
            if i == 166 { assert(d[166] == 12); }
            if i == 167 { assert(d[167] == 12); }
            if i == 168 { assert(d[168] == 10); }
            if i == 169 { assert(d[169] == 10); }
            if i == 170 { assert(d[170] == 11); }
            if i == 171 { assert(d[171] == 15); }
            if i == 172 { assert(d[172] == 15); }
            if i == 173 { assert(d[173] == 16); }
            if i == 174 { assert(d[174] == 16); }
            if i == 175 { assert(d[175] == 16); }
            if i == 176 { assert(d[176] == 16); }
            if i == 177 { assert(d[177] == 16); }
            if i == 178 { assert(d[178] == 16); }
            if i == 179 { assert(d[179] == 16); }
            if i == 180 { assert(d[180] == 16); }
            if i == 181 { assert(d[181] == 16); }
            if i == 182 { assert(d[182] == 16); }
            if i == 183 { assert(d[183] == 16); }
            if i == 184 { assert(d[184] == 16); }
            if i == 185 { assert(d[185] == 16); }
            if i == 186 { assert(d[186] == 16); }
            if i == 187 { assert(d[187] == 16); }
            if i == 188 { assert(d[188] == 16); }
            if i == 189 { assert(d[189] == 16); }
            if i == 190 { assert(d[190] == 16); }
            if i == 191 { assert(d[191] == 16); }
            if i == 192 { assert(d[192] == 10); }
            if i == 193 { assert(d[193] == 16); }
            if i == 194 { assert(d[194] == 16); }
            if i == 195 { assert(d[195] == 16); }
            if i == 196 { assert(d[196] == 13); }
            if i == 197 { assert(d[197] == 16); }
            if i == 198 { assert(d[198] == 14); }
            if i == 199 { assert(d[199] == 12); }
            if i == 200 { assert(d[200] == 11); }
            if i == 201 { assert(d[201] == 10); }
            if i == 202 { assert(d[202] == 12); }
            if i == 203 { assert(d[203] == 16); }
            if i == 204 { assert(d[204] == 15); }
            if i == 205 { assert(d[205] == 16); }
            if i == 206 { assert(d[206] == 16); }
            if i == 207 { assert(d[207] == 16); }
            if i == 208 { assert(d[208] == 16); }
            if i == 209 { assert(d[209] == 16); }
            if i == 210 { assert(d[210] == 16); }
            if i == 211 { assert(d[211] == 16); }
            if i == 212 { assert(d[212] == 16); }
            if i == 213 { assert(d[213] == 16); }
            if i == 214 { assert(d[214] == 16); }
            if i == 215 { assert(d[215] == 16); }
            if i == 216 { assert(d[216] == 16); }
            if i == 217 { assert(d[217] == 16); }
            if i == 218 { assert(d[218] == 16); }
            if i == 219 { assert(d[219] == 16); }
            if i == 220 { assert(d[220] == 16); }
            if i == 221 { assert(d[221] == 16); }
            if i == 222 { assert(d[222] == 16); }
            if i == 223 { assert(d[223] == 16); }
            if i == 224 { assert(d[224] == 5); }
            if i == 225 { assert(d[225] == 16); }
            if i == 226 { assert(d[226] == 16); }
            if i == 227 { assert(d[227] == 16); }
            if i == 228 { assert(d[228] == 13); }
            if i == 229 { assert(d[229] == 11); }
            if i == 230 { assert(d[230] == 13); }
            if i == 231 { assert(d[231] == 12); }
            if i == 232 { assert(d[232] == 9); }
            if i == 233 { assert(d[233] == 10); }
            if i == 234 { assert(d[234] == 15); }
            if i == 235 { assert(d[235] == 16); }
            if i == 236 { assert(d[236] == 14); }
            if i == 237 { assert(d[237] == 16); }
            if i == 238 { assert(d[238] == 16); }
            if i == 239 { assert(d[239] == 16); }
            if i == 240 { assert(d[240] == 16); }
            if i == 241 { assert(d[241] == 16); }
            if i == 242 { assert(d[242] == 16); }
            if i == 243 { assert(d[243] == 16); }
            if i == 244 { assert(d[244] == 16); }
            if i == 245 { assert(d[245] == 16); }
            if i == 246 { assert(d[246] == 16); }
            if i == 247 { assert(d[247] == 16); }
            if i == 248 { assert(d[248] == 16); }
            if i == 249 { assert(d[249] == 16); }
            if i == 250 { assert(d[250] == 16); }
            if i == 251 { assert(d[251] == 16); }
            if i == 252 { assert(d[252] == 16); }
            if i == 253 { assert(d[253] == 16); }
            if i == 254 { assert(d[254] == 16); }
            if i == 255 { assert(d[255] == 16); }
        }
    }
}

} // verus!
