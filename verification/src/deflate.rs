//! GW2's compressor: LZ77 matching, canonical Huffman codes per block, and
//! the bit stream that the decompressor reads back.

use vstd::prelude::*;
use vstd::arithmetic::power2::*;
use vstd::arithmetic::div_mod::*;
use vstd::arithmetic::mul::*;
use crate::bitwriter::BitWriter;
use crate::bitwriter::bits_of;
use crate::huffman::code_of;
use crate::huffman::first_code;
use crate::huffman::count_len;
use crate::huffman::lengths_ok;
use crate::huffman::first_code_at;
use crate::canonical::lengths_valid;
use crate::canonical::lemma_code_fits;
use crate::inflate::length_base;
use crate::inflate::length_extra_bits;
use crate::inflate::offset_base;
use crate::inflate::offset_extra_bits;
use crate::inflate::dict_lengths;
use crate::inflate::dict_lengths_vec;
use crate::inflate::lemma_dict_valid;
use crate::lz77::Token;
use crate::lz77::token_ok;
use crate::lz77::tokens_ok;
use crate::lz77::expand;
use crate::lz77::lz77;
use crate::lz77::lz_tokens;
use crate::codes::assign_codes;
use crate::codes::encode_tree;
use crate::codes::tree_bits;
use crate::codes::padded;
use crate::codes::lemma_lengths_bits_len;
use crate::codebuild::build_code_lengths;
use crate::codebuild::huffman_lengths;
use crate::bitwriter::lemma_bits_of;
use crate::bitwriter::written_bytes;
use crate::inflate::inflate;
use crate::error::Gw2Error;

verus! {

// ---------------------------------------------------------------------------
// Match lengths and distances

/// The length symbol (minus 256), extra bits and extra-bit count for a
/// match of `len` bytes (the stream's minimum match length being 1).
pub open spec fn length_code(len: nat) -> (nat, nat, nat) {
    let ws = (len - 1) as nat;
    if ws == 255 {
        (28, 0, 0)
    } else if ws <= 7 {
        (ws, 0, 0)
    } else {
        let (k, block, start) = if ws < 16 {
            (2nat, 2nat, 8nat)
        } else if ws < 32 {
            (3, 4, 16)
        } else if ws < 64 {
            (4, 8, 32)
        } else if ws < 128 {
            (5, 16, 64)
        } else {
            (6, 32, 128)
        };
        (k * 4 + (ws - start) as nat / block, (ws - start) as nat % block, (k - 1) as nat)
    }
}

/// Encodes a match length as (symbol - 256, extra value, extra bit count).
pub fn encode_length(len: u32) -> (r: (u32, u32, u32))
    requires
        1 <= len <= 256,
    ensures
        (r.0 as nat, r.1 as nat, r.2 as nat) == length_code(len as nat),
{
    let ws = len - 1;
    if ws == 0xFF {
        return (28, 0, 0);
    }
    if ws <= 7 {
        return (ws, 0, 0);
    }
    let (k, block, start): (u32, u32, u32) = if ws < 16 {
        (2, 2, 8)
    } else if ws < 32 {
        (3, 4, 16)
    } else if ws < 64 {
        (4, 8, 32)
    } else if ws < 128 {
        (5, 16, 64)
    } else {
        (6, 32, 128)
    };
    let rem4 = (ws - start) / block;
    let sym = k * 4 + rem4;
    let extra_val = (ws - start) % block;
    let extra_bits = k - 1;
    (sym, extra_val, extra_bits)
}

proof fn lemma_length_band(ws: nat, k: nat, block: nat, start: nat)
    requires
        2 <= k <= 6,
        block == pow2((k - 1) as nat),
        start == 4 * block,
        start <= ws < 2 * start,
        ws < 255,
    ensures
        ({
            let d = (ws - start) as nat;
            let s = k * 4 + d / block;
            &&& length_base(s) == Some(start + block * (d / block))
            &&& length_extra_bits(s) == k - 1
            &&& d % block < block
            &&& ws == start + block * (d / block) + d % block
            &&& s <= 27
        }),
{
    let d = (ws - start) as nat;
    lemma_pow2_pos((k - 1) as nat);
    let q = d / block;
    let r = d % block;
    lemma_fundamental_div_mod(d as int, block as int);
    assert(q < 4) by {
        lemma_div_is_ordered(d as int, (4 * block - 1) as int, block as int);
        lemma_fundamental_div_mod_converse((4 * block - 1) as int, block as int, 3, (block - 1) as int);
    }
    let s = k * 4 + q;
    lemma_fundamental_div_mod_converse(s as int, 4, k as int, q as int);
    assert(s / 4 == k && s % 4 == q);
    assert(block * (4 + q) == start + block * q) by (nonlinear_arith)
        requires
            start == 4 * block,
    ;
}

/// A length's code decodes back to the length.
pub proof fn lemma_length_code(len: nat)
    requires
        1 <= len <= 256,
    ensures
        ({
            let (s, ev, eb) = length_code(len);
            &&& length_base(s) is Some
            &&& length_base(s).unwrap() + ev + 1 == len
            &&& length_extra_bits(s) == eb
            &&& ev < pow2(eb)
            &&& s <= 28
        }),
{
    lemma2_to64();
    let ws = (len - 1) as nat;
    if ws == 255 {
        assert(length_code(len) == (28nat, 0nat, 0nat));
        assert(length_base(28) == Some(255nat));
    } else if ws <= 7 {
        assert(length_code(len) == (ws, 0nat, 0nat));
        if ws >= 4 {
            assert(ws / 4 == 1 && ws % 4 == ws - 4);
            assert(pow2(0) == 1);
            assert((ws / 4 - 1) as nat == 0);
            assert(pow2((ws / 4 - 1) as nat) * (4 + ws % 4) == ws);
        }
    } else {
        let (k, block, start) = if ws < 16 {
            (2nat, 2nat, 8nat)
        } else if ws < 32 {
            (3, 4, 16)
        } else if ws < 64 {
            (4, 8, 32)
        } else if ws < 128 {
            (5, 16, 64)
        } else {
            (6, 32, 128)
        };
        assert(pow2((k - 1) as nat) == block);
        lemma_length_band(ws, k, block, start);
        let d = (ws - start) as nat;
        assert(length_code(len) == (k * 4 + d / block, d % block, (k - 1) as nat));
        assert(length_base(k * 4 + d / block).unwrap() == start + block * (d / block));
    }
}

/// The offset symbol, extra bits and extra-bit count for a distance of
/// `offset` bytes back.
pub open spec fn offset_code(offset: nat) -> (nat, nat, nat) {
    let wo = (offset - 1) as nat;
    if wo <= 3 {
        (wo, 0, 0)
    } else {
        let msb = choose|m: nat| #[trigger] pow2(m) <= wo && wo < pow2(m + 1);
        let rem2 = (wo / pow2((msb - 1) as nat)) % 2;
        let base = pow2((msb - 1) as nat) * (2 + rem2);
        (msb * 2 + rem2, (wo - base) as nat, (msb - 1) as nat)
    }
}

/// The position of the highest set bit of `x` (which is at least 1).
fn highest_bit(x: u32) -> (r: u32)
    requires
        x >= 1,
    ensures
        r < 32,
        pow2(r as nat) <= x < pow2(r as nat + 1),
{
    let mut m: u32 = 0;
    proof {
        lemma2_to64();
    }
    while m < 31 && (x >> (m + 1)) != 0
        invariant
            m <= 31,
            pow2(m as nat) <= x,
        decreases 31 - m,
    {
        proof {
            vstd::bits::lemma_u32_shr_is_div(x, (m + 1) as u32);
            lemma_pow2_pos((m + 1) as nat);
            if x < pow2((m + 1) as nat) {
                lemma_basic_div(x as int, pow2((m + 1) as nat) as int);
            }
        }
        m = m + 1;
    }
    proof {
        if m < 31 {
            vstd::bits::lemma_u32_shr_is_div(x, (m + 1) as u32);
            lemma_pow2_pos((m + 1) as nat);
            if x >= pow2((m + 1) as nat) {
                lemma_div_is_ordered(pow2((m + 1) as nat) as int, x as int, pow2((m + 1) as nat) as int);
                lemma_div_by_self(pow2((m + 1) as nat) as int);
            }
        } else {
            assert(x < pow2(32));
        }
    }
    m
}

proof fn lemma_msb_unique(x: nat, a: nat, b: nat)
    requires
        pow2(a) <= x < pow2(a + 1),
        pow2(b) <= x < pow2(b + 1),
    ensures
        a == b,
{
    if a < b {
        if a + 1 < b {
            lemma_pow2_strictly_increases(a + 1, b);
        }
    } else if b < a {
        if b + 1 < a {
            lemma_pow2_strictly_increases(b + 1, a);
        }
    }
}

proof fn lemma_offset_parts(wo: nat, msb: nat)
    requires
        pow2(msb) <= wo < pow2(msb + 1),
        4 <= wo,
        msb <= 31,
    ensures
        2 <= msb,
        ({
            let pw = pow2((msb - 1) as nat);
            let rem2 = (wo / pw) % 2;
            let base = pw * (2 + rem2);
            &&& 1 <= pw <= 0x4000_0000
            &&& rem2 < 2
            &&& wo / pw == 2 + rem2
            &&& base <= wo
            &&& wo - base < pw
        }),
{
    lemma2_to64();
    if msb < 2 {
        lemma_pow2_strictly_increases(msb + 1, 2);
    }
    let pw = pow2((msb - 1) as nat);
    lemma_pow2_pos((msb - 1) as nat);
    lemma_pow2_adds((msb - 1) as nat, 1);
    lemma_pow2_adds((msb - 1) as nat, 2);
    if msb - 1 < 30 {
        lemma_pow2_strictly_increases((msb - 1) as nat, 30);
    }
    assert(msb + 1 == (msb - 1) + 2);
    let q = wo / pw;
    lemma_fundamental_div_mod(wo as int, pw as int);
    assert(q < 4) by {
        lemma_div_is_ordered(wo as int, (pw * 4 - 1) as int, pw as int);
        lemma_fundamental_div_mod_converse((pw * 4 - 1) as int, pw as int, 3, (pw - 1) as int);
    }
    assert(q >= 2) by {
        lemma_div_is_ordered((pw * 2) as int, wo as int, pw as int);
        lemma_fundamental_div_mod_converse((pw * 2) as int, pw as int, 2, 0);
    }
    let rem2 = q % 2;
    assert(q == 2 + rem2);
    assert(pw * q == pw * (2 + rem2));
}

proof fn lemma_offset_band(wo: nat, msb: nat)
    requires
        pow2(msb) <= wo < pow2(msb + 1),
        4 <= wo < 0x8000,
    ensures
        2 <= msb <= 14,
        ({
            let pw = pow2((msb - 1) as nat);
            let rem2 = (wo / pw) % 2;
            let base = pw * (2 + rem2);
            let o = msb * 2 + rem2;
            &&& pw < 0x4000
            &&& rem2 < 2
            &&& base <= wo
            &&& wo - base < pw
            &&& offset_base(o) == Some(base)
            &&& offset_extra_bits(o) == msb - 1
            &&& o <= 29
        }),
{
    lemma2_to64();
    if msb < 2 {
        lemma_pow2_strictly_increases(msb + 1, 2);
    }
    if msb > 14 {
        if msb > 15 {
            lemma_pow2_strictly_increases(15, msb);
        }
    }
    let pw = pow2((msb - 1) as nat);
    lemma_pow2_pos((msb - 1) as nat);
    lemma_pow2_adds((msb - 1) as nat, 1);
    lemma_pow2_adds((msb - 1) as nat, 2);
    if msb - 1 < 14 {
        lemma_pow2_strictly_increases((msb - 1) as nat, 14);
    }
    assert(msb + 1 == (msb - 1) + 2);
    let q = wo / pw;
    lemma_fundamental_div_mod(wo as int, pw as int);
    assert(q < 4) by {
        lemma_div_is_ordered(wo as int, (pw * 4 - 1) as int, pw as int);
        lemma_fundamental_div_mod_converse((pw * 4 - 1) as int, pw as int, 3, (pw - 1) as int);
    }
    assert(q >= 2) by {
        lemma_div_is_ordered((pw * 2) as int, wo as int, pw as int);
        lemma_fundamental_div_mod_converse((pw * 2) as int, pw as int, 2, 0);
    }
    let rem2 = q % 2;
    assert(q == 2 + rem2);
    let o = msb * 2 + rem2;
    lemma_fundamental_div_mod_converse(o as int, 2, msb as int, rem2 as int);
    assert(o / 2 == msb && o % 2 == rem2);
    assert(pw * q == pw * (2 + rem2));
}

/// Encodes a distance as (offset symbol, extra value, extra bit count).
pub fn encode_offset(offset: u32) -> (r: (u32, u32, u32))
    requires
        1 <= offset,
    ensures
        (r.0 as nat, r.1 as nat, r.2 as nat) == offset_code(offset as nat),
{
    let wo = offset - 1;
    if wo <= 1 {
        return (wo, 0, 0);
    }
    if wo <= 3 {
        let rem2 = wo - 2;
        return (2 + rem2, 0, 0);
    }
    let msb = highest_bit(wo);
    proof {
        let m = choose|m: nat| #[trigger] pow2(m) <= wo && wo < pow2(m + 1);
        assert(pow2(msb as nat) <= wo && wo < pow2(msb as nat + 1));
        lemma_msb_unique(wo as nat, m, msb as nat);
        lemma_offset_parts(wo as nat, msb as nat);
    }
    let pw = crate::huffman::pow2_u64(msb - 1) as u32;
    let rem2 = (wo / pw) % 2;
    let base = pw * (2 + rem2);
    let extra_val = wo - base;
    let extra_bits = msb - 1;
    let off_sym = msb * 2 + rem2;
    (off_sym, extra_val, extra_bits)
}

/// A distance's code decodes back to the distance.
pub proof fn lemma_offset_code(offset: nat)
    requires
        1 <= offset <= 0x8000,
    ensures
        ({
            let (o, ev, eb) = offset_code(offset);
            &&& offset_base(o) is Some
            &&& offset_base(o).unwrap() + ev + 1 == offset
            &&& offset_extra_bits(o) == eb
            &&& ev < pow2(eb)
            &&& o <= 29
        }),
{
    lemma2_to64();
    let wo = (offset - 1) as nat;
    if wo > 3 {
        let w = msb_witness(wo);
        let msb = choose|m: nat| #[trigger] pow2(m) <= wo && wo < pow2(m + 1);
        assert(pow2(msb) <= wo && wo < pow2(msb + 1));
        lemma_offset_band(wo, msb);
        let pw = pow2((msb - 1) as nat);
        let rem2 = (wo / pw) % 2;
        let base = pw * (2 + rem2);
        assert(offset_code(offset) == (msb * 2 + rem2, (wo - base) as nat, (msb - 1) as nat));
        assert(offset_base(msb * 2 + rem2).unwrap() == base);
    } else {
        assert(offset_code(offset) == (wo, 0nat, 0nat));
        if wo >= 2 {
            assert(wo / 2 == 1 && wo % 2 == wo - 2);
            assert(pow2(0) == 1);
            assert((wo / 2 - 1) as nat == 0);
            assert(pow2((wo / 2 - 1) as nat) * (2 + wo % 2) == wo);
        }
    }
}

/// Some `m` with `2^m <= x < 2^(m+1)`.
pub proof fn msb_witness(x: nat) -> (m: nat)
    requires
        x >= 1,
    ensures
        pow2(m) <= x < pow2(m + 1),
    decreases x,
{
    lemma2_to64();
    if x == 1 {
        0
    } else {
        let m = msb_witness(x / 2);
        lemma_pow2_unfold(m + 1);
        lemma_pow2_unfold(m + 2);
        lemma_fundamental_div_mod(x as int, 2);
        m + 1
    }
}

// ---------------------------------------------------------------------------
// Blocks

/// A token whose length and distance the stream can carry.
pub open spec fn token_shape(t: Token) -> bool {
    match t {
        Token::Literal(_) => true,
        Token::Match { len, offset } => 1 <= len <= 256 && 1 <= offset <= 0x8000,
    }
}

/// The literal/length symbol of a token.
pub open spec fn token_symbol(t: Token) -> nat {
    match t {
        Token::Literal(b) => b as nat,
        Token::Match { len, .. } => 256 + length_code(len as nat).0,
    }
}

/// The offset symbol of a match.
pub open spec fn offset_symbol(t: Token) -> nat {
    match t {
        Token::Literal(_) => 0,
        Token::Match { offset, .. } => offset_code(offset as nat).0,
    }
}

/// The code of symbol `s` under the lengths `lens`, as bits.
pub open spec fn code_bits(lens: Seq<u8>, s: nat) -> Seq<bool> {
    bits_of(code_of(lens, s) as nat, lens[s as int] as nat)
}

/// The bits of one token under the literal/length lengths `sl` and the
/// offset lengths `cl`.
pub open spec fn token_bits(t: Token, sl: Seq<u8>, cl: Seq<u8>) -> Seq<bool> {
    match t {
        Token::Literal(b) => code_bits(sl, b as nat),
        Token::Match { len, offset } => {
            let (s, ev, eb) = length_code(len as nat);
            let (o, oe, ob) = offset_code(offset as nat);
            code_bits(sl, 256 + s) + bits_of(ev, eb) + code_bits(cl, o) + bits_of(oe, ob)
        },
    }
}

/// The bits of the tokens `ts`, one after another.
pub open spec fn tokens_bits(ts: Seq<Token>, sl: Seq<u8>, cl: Seq<u8>) -> Seq<bool>
    decreases ts.len(),
{
    if ts.len() == 0 {
        seq![]
    } else {
        tokens_bits(ts.drop_last(), sl, cl) + token_bits(ts.last(), sl, cl)
    }
}

/// A block: its two code tables, its size field `raw`, its tokens.
pub open spec fn block_bits(ts: Seq<Token>, sl: Seq<u8>, cl: Seq<u8>, raw: nat) -> Seq<bool> {
    tree_bits(sl) + tree_bits(cl) + bits_of(raw, 4) + tokens_bits(ts, sl, cl)
}

/// Code tables a block's tokens can be written with: valid lengths of at
/// most 15 bits, within the decoder's symbol counts, with a code for every
/// symbol the tokens use.
pub open spec fn tables_fit(ts: Seq<Token>, sl: Seq<u8>, cl: Seq<u8>) -> bool {
    &&& lengths_valid(sl)
    &&& lengths_valid(cl)
    &&& 1 <= sl.len() <= 285
    &&& 1 <= cl.len() <= 30
    &&& forall|j: int| 0 <= j < sl.len() ==> sl[j] <= 15
    &&& forall|j: int| 0 <= j < cl.len() ==> cl[j] <= 15
    &&& forall|i: int| 0 <= i < ts.len() ==> {
        let t = #[trigger] ts[i];
        &&& token_shape(t)
        &&& token_symbol(t) < sl.len()
        &&& sl[token_symbol(t) as int] > 0
        &&& (t is Match ==> offset_symbol(t) < cl.len() && cl[offset_symbol(t) as int] > 0)
    }
}

/// The tokens of all chunks, in order.
pub open spec fn join(chunks: Seq<Seq<Token>>) -> Seq<Token>
    decreases chunks.len(),
{
    if chunks.len() == 0 {
        seq![]
    } else {
        join(chunks.drop_last()) + chunks.last()
    }
}

/// The bits of the blocks for `chunks`, each with its tables from `tabs`.
pub open spec fn blocks_bits(chunks: Seq<Seq<Token>>, tabs: Seq<(Seq<u8>, Seq<u8>)>, raw: nat) -> Seq<bool>
    decreases chunks.len(),
{
    if chunks.len() == 0 || tabs.len() == 0 {
        seq![]
    } else {
        blocks_bits(chunks.drop_last(), tabs.drop_last(), raw) + block_bits(chunks.last(), tabs.last().0, tabs.last().1, raw)
    }
}

/// Chunks of `per` tokens, the last of 1 to `per`.
pub open spec fn chunks_ok(chunks: Seq<Seq<Token>>, per: nat) -> bool {
    forall|c: int| 0 <= c < chunks.len() ==> {
        &&& 1 <= (#[trigger] chunks[c]).len() <= per
        &&& (c + 1 < chunks.len() ==> chunks[c].len() == per)
    }
}

/// Blocks laid out as the decoder reads them.
pub open spec fn blocks_ok(chunks: Seq<Seq<Token>>, tabs: Seq<(Seq<u8>, Seq<u8>)>, per: nat) -> bool {
    &&& chunks.len() == tabs.len()
    &&& chunks_ok(chunks, per)
    &&& forall|c: int| 0 <= c < chunks.len() ==> tables_fit(#[trigger] chunks[c], tabs[c].0, tabs[c].1)
}

/// The stream header: a zero word, the output size, and a zero byte (the
/// minimum match length less one, in its low four bits).
pub open spec fn header_bits(size: nat) -> Seq<bool> {
    bits_of(0, 32) + bits_of(size, 32) + bits_of(0, 4) + bits_of(0, 4)
}

proof fn lemma_token_bits_len(t: Token, sl: Seq<u8>, cl: Seq<u8>)
    requires
        token_shape(t),
        token_symbol(t) < sl.len(),
        sl[token_symbol(t) as int] > 0,
        t is Match ==> offset_symbol(t) < cl.len() && cl[offset_symbol(t) as int] > 0,
        lengths_valid(sl),
        lengths_valid(cl),
        forall|j: int| 0 <= j < sl.len() ==> sl[j] <= 15,
        forall|j: int| 0 <= j < cl.len() ==> cl[j] <= 15,
    ensures
        token_bits(t, sl, cl).len() <= 64,
{
    let e = Seq::<bool>::empty();
    match t {
        Token::Literal(b) => {
            lemma_code_fits(sl, b as nat);
            lemma_bits_of(e, code_of(sl, b as nat) as nat, sl[b as int] as nat);
        },
        Token::Match { len, offset } => {
            let (s, ev, eb) = length_code(len as nat);
            let (o, oe, ob) = offset_code(offset as nat);
            lemma_length_code(len as nat);
            lemma_offset_code(offset as nat);
            lemma_code_fits(sl, 256 + s);
            lemma_code_fits(cl, o);
            lemma_bits_of(e, code_of(sl, 256 + s) as nat, sl[256 + s as int] as nat);
            lemma_bits_of(e, code_of(cl, o) as nat, cl[o as int] as nat);
            lemma_bits_of(e, ev, eb);
            lemma_bits_of(e, oe, ob);
            assert(eb <= 5 && ob <= 14);
        },
    }
}

/// How many of the tokens `ts` have the literal/length symbol `s`.
pub open spec fn count_sym(ts: Seq<Token>, s: nat) -> nat
    decreases ts.len(),
{
    if ts.len() == 0 {
        0
    } else {
        count_sym(ts.drop_last(), s) + if token_symbol(ts.last()) == s { 1nat } else { 0nat }
    }
}

/// How many of the tokens `ts` are matches with the offset symbol `o`.
pub open spec fn count_off(ts: Seq<Token>, o: nat) -> nat
    decreases ts.len(),
{
    if ts.len() == 0 {
        0
    } else {
        count_off(ts.drop_last(), o) + if ts.last() is Match && offset_symbol(ts.last()) == o { 1nat } else { 0nat }
    }
}

/// The literal/length symbol counts of a block.
pub open spec fn sym_counts(ts: Seq<Token>) -> Seq<u32> {
    Seq::new(285, |s: int| count_sym(ts, s as nat) as u32)
}

/// The offset symbol counts of a block.
pub open spec fn off_counts(ts: Seq<Token>) -> Seq<u32> {
    Seq::new(30, |o: int| count_off(ts, o as nat) as u32)
}

/// The offset counts a block's offset table is built from: symbol 0 counts
/// once where no offset symbol is used.
pub open spec fn off_counts_used(ts: Seq<Token>) -> Seq<u32> {
    let c = off_counts(ts);
    if forall|o: int| 0 <= o < 30 ==> #[trigger] c[o] == 0 { c.update(0, 1) } else { c }
}

/// The index just past the last nonzero count among the first `k`.
pub open spec fn last_used(f: Seq<u32>, k: nat) -> nat
    decreases k,
{
    if k == 0 {
        0
    } else if f[k - 1] != 0 {
        k
    } else {
        last_used(f, (k - 1) as nat)
    }
}

/// The index just past the last nonzero count, or 1 if there is none.
pub open spec fn used_len(f: Seq<u32>) -> nat {
    let k = last_used(f, f.len());
    if k == 0 { 1 } else { k }
}

/// The code lengths (at most 15 bits) a table is built with from the counts
/// `f`, cut after the last symbol that occurs.
#[verifier::opaque]
pub open spec fn table_spec(f: Seq<u32>) -> Seq<u8> {
    huffman_lengths(f.take(used_len(f) as int), 15)
}

/// The two code tables of a block.
pub open spec fn chunk_tables(ts: Seq<Token>) -> (Seq<u8>, Seq<u8>) {
    (table_spec(sym_counts(ts)), table_spec(off_counts_used(ts)))
}

/// The index just past the last nonzero count, or 1 if there is none.
fn used_count(freq: &Vec<u32>) -> (r: usize)
    requires
        freq.len() >= 1,
    ensures
        r == used_len(freq@),
        1 <= r <= freq.len(),
        forall|j: int| r <= j < freq.len() ==> freq@[j] == 0,
{
    let mut k = freq.len();
    while k > 0 && freq[k - 1] == 0
        invariant
            k <= freq.len(),
            forall|j: int| k <= j < freq.len() ==> freq@[j] == 0,
            last_used(freq@, freq.len() as nat) == last_used(freq@, k as nat),
        decreases k,
    {
        k -= 1;
    }
    if k == 0 {
        1
    } else {
        k
    }
}

/// Writes one token with the codes `sym_codes` and `cpy_codes` of the
/// tables `sl` and `cl`.
#[verifier::rlimit(40)]
fn write_token(t: Token, sym_codes: &Vec<(u32, u32)>, cpy_codes: &Vec<(u32, u32)>, bits: &mut BitWriter, Ghost(sl): Ghost<Seq<u8>>, Ghost(cl): Ghost<Seq<u8>>)
    requires
        old(bits).wf(),
        token_shape(t),
        token_symbol(t) < sl.len(),
        sl[token_symbol(t) as int] > 0,
        t is Match ==> offset_symbol(t) < cl.len() && cl[offset_symbol(t) as int] > 0,
        lengths_valid(sl),
        lengths_valid(cl),
        forall|j: int| 0 <= j < sl.len() ==> sl[j] <= 15,
        forall|j: int| 0 <= j < cl.len() ==> cl[j] <= 15,
        sym_codes.len() == sl.len(),
        cpy_codes.len() == cl.len(),
        forall|s: int| 0 <= s < sl.len() ==> #[trigger] sym_codes@[s] == (if sl[s] > 0 {
            ((code_of(sl, s as nat) as u32), sl[s] as u32)
        } else {
            (0u32, 0u32)
        }),
        forall|s: int| 0 <= s < cl.len() ==> #[trigger] cpy_codes@[s] == (if cl[s] > 0 {
            ((code_of(cl, s as nat) as u32), cl[s] as u32)
        } else {
            (0u32, 0u32)
        }),
        old(bits).bits().len() + 64 <= 32 * 0x1_0000_0000_0000,
    ensures
        final(bits).wf(),
        final(bits).bits() == old(bits).bits() + token_bits(t, sl, cl),
{
    let ghost e = Seq::<bool>::empty();
    proof {
        lemma2_to64();
    }
    match t {
        Token::Literal(b) => {
            let (code, len) = sym_codes[b as usize];
            proof {
                lemma_code_fits(sl, b as nat);
                lemma_pow2_strictly_increases(15, 32);
                if sl[b as int] < 15 {
                    lemma_pow2_strictly_increases(sl[b as int] as nat, 15);
                }
            }
            bits.write_bits(code, len);
        },
        Token::Match { len, offset } => {
            let (sym_off, ev, eb) = encode_length(len);
            proof {
                lemma_length_code(len as nat);
                lemma_offset_code(offset as nat);
                let ghost (o, oe, ob) = offset_code(offset as nat);
                lemma_code_fits(sl, 256 + sym_off as nat);
                lemma_code_fits(cl, o);
                lemma_pow2_strictly_increases(15, 32);
                if sl[256 + sym_off] < 15 {
                    lemma_pow2_strictly_increases(sl[256 + sym_off] as nat, 15);
                }
                if cl[o as int] < 15 {
                    lemma_pow2_strictly_increases(cl[o as int] as nat, 15);
                }
                lemma_bits_of(e, code_of(sl, 256 + sym_off as nat) as nat, sl[256 + sym_off] as nat);
                lemma_bits_of(e, code_of(cl, o) as nat, cl[o as int] as nat);
                lemma_bits_of(e, ev as nat, eb as nat);
                lemma_bits_of(e, oe, ob);
            }
            let sym = 256 + sym_off as usize;
            let (code, clen) = sym_codes[sym];
            let ghost w0 = bits.bits();
            bits.write_bits(code, clen);
            if eb > 0 {
                bits.write_bits(ev, eb);
            } else {
                proof {
                    assert(bits_of(ev as nat, 0) =~= Seq::<bool>::empty());
                    assert(bits.bits() + bits_of(ev as nat, eb as nat) =~= bits.bits());
                }
            }
            let ghost w1 = bits.bits();
            let (off_sym, oe, ob) = encode_offset(offset);
            let (ocode, olen) = cpy_codes[off_sym as usize];
            bits.write_bits(ocode, olen);
            if ob > 0 {
                bits.write_bits(oe, ob);
            } else {
                proof {
                    assert(bits_of(oe as nat, 0) =~= Seq::<bool>::empty());
                    assert(bits.bits() + bits_of(oe as nat, ob as nat) =~= bits.bits());
                }
            }
            proof {
                assert(bits.bits() =~= w0 + token_bits(t, sl, cl));
            }
        },
    }
}


/// The literal/length and offset symbol counts of `tokens[start..end]`.
fn count_symbols(tokens: &Vec<Token>, start: usize, end: usize) -> (r: (Vec<u32>, Vec<u32>))
    requires
        start <= end <= tokens.len(),
        end - start <= 0x10000,
        forall|i: int| 0 <= i < tokens.len() ==> token_shape(#[trigger] tokens@[i]),
    ensures
        r.0@ == sym_counts(tokens@.subrange(start as int, end as int)),
        r.1@ == off_counts(tokens@.subrange(start as int, end as int)),
        r.0.len() == 285,
        r.1.len() == 30,
        forall|i: int| 0 <= i < end - start ==> {
            let t = #[trigger] tokens@.subrange(start as int, end as int)[i];
            &&& token_shape(t)
            &&& token_symbol(t) < 285
            &&& r.0@[token_symbol(t) as int] > 0
            &&& (t is Match ==> offset_symbol(t) < 30 && r.1@[offset_symbol(t) as int] > 0)
        },
{
    let mut sym_freq: Vec<u32> = vec![0u32; 285];
    let mut cpy_freq: Vec<u32> = vec![0u32; 30];
    proof {
        assert forall|j: int| 0 <= j < 285 implies #[trigger] sym_freq@[j] == 0 by {
            assert(vstd::pervasive::cloned(0u32, sym_freq@[j]));
        }
        assert forall|j: int| 0 <= j < 30 implies #[trigger] cpy_freq@[j] == 0 by {
            assert(vstd::pervasive::cloned(0u32, cpy_freq@[j]));
        }
    }
    let mut i = start;
    proof {
        assert(tokens@.subrange(start as int, start as int) =~= Seq::<Token>::empty());
    }
    while i < end
        invariant
            start <= i <= end <= tokens.len(),
            end - start <= 0x10000,
            forall|i: int| 0 <= i < tokens.len() ==> token_shape(#[trigger] tokens@[i]),
            sym_freq.len() == 285,
            cpy_freq.len() == 30,
            forall|j: int| 0 <= j < 285 ==> #[trigger] sym_freq@[j] <= i - start,
            forall|j: int| 0 <= j < 30 ==> #[trigger] cpy_freq@[j] <= i - start,
            forall|j: int| 0 <= j < 285 ==> #[trigger] sym_freq@[j] == count_sym(tokens@.subrange(start as int, i as int), j as nat),
            forall|j: int| 0 <= j < 30 ==> #[trigger] cpy_freq@[j] == count_off(tokens@.subrange(start as int, i as int), j as nat),
            forall|k: int| start <= k < i ==> {
                let t = #[trigger] tokens@[k];
                &&& token_symbol(t) < 285
                &&& sym_freq@[token_symbol(t) as int] > 0
                &&& (t is Match ==> offset_symbol(t) < 30 && cpy_freq@[offset_symbol(t) as int] > 0)
            },
        decreases end - i,
    {
        match tokens[i] {
            Token::Literal(b) => {
                let x = b as usize;
                sym_freq.set(x, sym_freq[x] + 1);
            },
            Token::Match { len, offset } => {
                let (s, _, _) = encode_length(len);
                let (o, _, _) = encode_offset(offset);
                proof {
                    lemma_length_code(len as nat);
                    lemma_offset_code(offset as nat);
                }
                let x = 256 + s as usize;
                sym_freq.set(x, sym_freq[x] + 1);
                let y = o as usize;
                cpy_freq.set(y, cpy_freq[y] + 1);
            },
        }
        proof {
            let sub = tokens@.subrange(start as int, i as int);
            let sub1 = tokens@.subrange(start as int, i + 1);
            assert(sub1.drop_last() =~= sub);
            assert(sub1.last() == tokens@[i as int]);
            assert forall|j: int| 0 <= j < 285 implies #[trigger] sym_freq@[j] == count_sym(sub1, j as nat) by {
                assert(count_sym(sub1, j as nat) == count_sym(sub, j as nat) + if token_symbol(tokens@[i as int]) == j { 1nat } else { 0nat });
            }
            assert forall|j: int| 0 <= j < 30 implies #[trigger] cpy_freq@[j] == count_off(sub1, j as nat) by {
                assert(count_off(sub1, j as nat) == count_off(sub, j as nat)
                    + if tokens@[i as int] is Match && offset_symbol(tokens@[i as int]) == j { 1nat } else { 0nat });
            }
        }
        i += 1;
    }
    proof {
        assert(sym_freq@ =~= sym_counts(tokens@.subrange(start as int, end as int)));
        assert(cpy_freq@ =~= off_counts(tokens@.subrange(start as int, end as int)));
        assert forall|i: int| 0 <= i < end - start implies {
            let t = #[trigger] tokens@.subrange(start as int, end as int)[i];
            &&& token_shape(t)
            &&& token_symbol(t) < 285
            &&& sym_freq@[token_symbol(t) as int] > 0
            &&& (t is Match ==> offset_symbol(t) < 30 && cpy_freq@[offset_symbol(t) as int] > 0)
        } by {
            assert(tokens@.subrange(start as int, end as int)[i] == tokens@[start + i]);
        }
    }
    (sym_freq, cpy_freq)
}

/// Tables built from a chunk's symbol counts fit the chunk.
proof fn lemma_chunk_fits(chunk: Seq<Token>, sym_freq: Seq<u32>, cpy_freq: Seq<u32>, sl: Seq<u8>, cl: Seq<u8>)
    requires
        forall|i: int| 0 <= i < chunk.len() ==> {
            let t = #[trigger] chunk[i];
            &&& token_shape(t)
            &&& token_symbol(t) < 285
            &&& sym_freq[token_symbol(t) as int] > 0
            &&& (t is Match ==> offset_symbol(t) < 30 && cpy_freq[offset_symbol(t) as int] > 0)
        },
        sym_freq.len() == 285,
        cpy_freq.len() == 30,
        1 <= sl.len() <= 285,
        1 <= cl.len() <= 30,
        lengths_valid(sl),
        lengths_valid(cl),
        forall|j: int| 0 <= j < sl.len() ==> #[trigger] sl[j] <= 15,
        forall|j: int| 0 <= j < cl.len() ==> #[trigger] cl[j] <= 15,
        forall|j: int| 0 <= j < sym_freq.len() && #[trigger] sym_freq[j] > 0 ==> j < sl.len() && sl[j] > 0,
        forall|j: int| 0 <= j < cpy_freq.len() && #[trigger] cpy_freq[j] > 0 ==> j < cl.len() && cl[j] > 0,
    ensures
        tables_fit(chunk, sl, cl),
{
    assert forall|i: int| 0 <= i < chunk.len() implies {
        let t = #[trigger] chunk[i];
        &&& token_shape(t)
        &&& token_symbol(t) < sl.len()
        &&& sl[token_symbol(t) as int] > 0
        &&& (t is Match ==> offset_symbol(t) < cl.len() && cl[offset_symbol(t) as int] > 0)
    } by {
        let t = chunk[i];
        let x = token_symbol(t) as int;
        assert(sym_freq[x] > 0);
        assert(x < sl.len() && sl[x] > 0);
        if t is Match {
            let y = offset_symbol(t) as int;
            assert(cpy_freq[y] > 0);
            assert(y < cl.len() && cl[y] > 0);
        }
    }
}

/// Code lengths (at most 15 bits) for the symbols counted in `freq`, cut
/// after the last symbol that occurs.
fn table_for(counts: Vec<u32>) -> (r: Vec<u8>)
    requires
        1 <= counts.len() <= 285,
    ensures
        r@ == table_spec(counts@),
        1 <= r.len() <= counts.len(),
        lengths_valid(r@),
        forall|j: int| 0 <= j < r.len() ==> #[trigger] r@[j] <= 15,
        forall|j: int| 0 <= j < counts.len() && #[trigger] counts@[j] > 0 ==> j < r.len() && r@[j] > 0,
{
    let mut freq = counts;
    let num = used_count(&freq);
    let ghost before = freq@;
    freq.truncate(num);
    proof {
        lemma2_to64();
        assert forall|j: int| 0 <= j < before.len() && #[trigger] before[j] > 0 implies j < num && freq@[j] > 0 by {}
    }
    let r = build_code_lengths(freq.as_slice(), 15);
    proof {
        reveal(table_spec);
        assert(freq@ =~= before.take(num as int));
    }
    r
}

/// The code tables for the block `tokens[start..end]`, built from its
/// symbol counts (an offset table with no symbol in use gets symbol 0).
fn block_tables(tokens: &Vec<Token>, start: usize, end: usize) -> (r: (Vec<u8>, Vec<u8>))
    requires
        start < end <= tokens.len(),
        end - start <= 0x10000,
        forall|i: int| 0 <= i < tokens.len() ==> token_shape(#[trigger] tokens@[i]),
    ensures
        tables_fit(tokens@.subrange(start as int, end as int), r.0@, r.1@),
        (r.0@, r.1@) == chunk_tables(tokens@.subrange(start as int, end as int)),
{
    let (sym_freq, cpy_freq0) = count_symbols(tokens, start, end);
    let mut cpy_freq = cpy_freq0;
    let mut all_zero = true;
    let mut k: usize = 0;
    while k < cpy_freq.len()
        invariant
            k <= cpy_freq.len(),
            all_zero == forall|j: int| 0 <= j < k ==> #[trigger] cpy_freq@[j] == 0,
        decreases cpy_freq.len() - k,
    {
        if cpy_freq[k] != 0 {
            all_zero = false;
        }
        k += 1;
    }
    if all_zero {
        cpy_freq.set(0, 1);
    }
    let ghost chunk = tokens@.subrange(start as int, end as int);
    let ghost sf = sym_freq@;
    let ghost cf = cpy_freq@;
    proof {
        assert forall|i: int| 0 <= i < chunk.len() implies {
            let t = #[trigger] chunk[i];
            t is Match ==> cf[offset_symbol(t) as int] > 0
        } by {
            let t = chunk[i];
            if t is Match {
                assert(cpy_freq0@[offset_symbol(t) as int] > 0);
            }
        }
    }
    proof {
        assert(cf =~= off_counts_used(chunk));
    }
    let sl = table_for(sym_freq);
    let cl = table_for(cpy_freq);
    proof {
        lemma_chunk_fits(chunk, sf, cf, sl@, cl@);
    }
    (sl, cl)
}

/// Writes a block's code tables and its size field.
fn write_tables(sl: &Vec<u8>, cl: &Vec<u8>, block_raw: u32, bits: &mut BitWriter)
    requires
        old(bits).wf(),
        1 <= sl.len() <= 285,
        1 <= cl.len() <= 30,
        forall|j: int| 0 <= j < sl.len() ==> sl@[j] <= 15,
        forall|j: int| 0 <= j < cl.len() ==> cl@[j] <= 15,
        block_raw < 16,
        old(bits).bits().len() <= 0x8000_0000_0000,
    ensures
        final(bits).wf(),
        final(bits).bits() == old(bits).bits() + tree_bits(sl@) + tree_bits(cl@) + bits_of(block_raw as nat, 4),
        final(bits).bits().len() <= old(bits).bits().len() + 9500,
{
    proof {
        lemma_lengths_bits_len(sl@, sl.len() as nat);
        lemma_lengths_bits_len(cl@, cl.len() as nat);
        lemma2_to64();
        lemma_bits_of(Seq::<bool>::empty(), sl.len() as nat, 16);
        lemma_bits_of(Seq::<bool>::empty(), cl.len() as nat, 16);
        lemma_bits_of(Seq::<bool>::empty(), block_raw as nat, 4);
        assert(padded(sl@, sl.len() as nat) =~= sl@);
        assert(padded(cl@, cl.len() as nat) =~= cl@);
    }
    encode_tree(sl.as_slice(), sl.len(), bits);
    encode_tree(cl.as_slice(), cl.len(), bits);
    bits.write_bits(block_raw, 4);
}

/// Writes the tokens `tokens[start..end]` with the codes of `sl` and `cl`.
fn write_tokens(tokens: &Vec<Token>, start: usize, end: usize, sl: &Vec<u8>, cl: &Vec<u8>, bits: &mut BitWriter)
    requires
        old(bits).wf(),
        start <= end <= tokens.len(),
        end - start <= 0x10000,
        tables_fit(tokens@.subrange(start as int, end as int), sl@, cl@),
        old(bits).bits().len() <= 0x8000_0000_0000 + 9500,
    ensures
        final(bits).wf(),
        final(bits).bits() == old(bits).bits() + tokens_bits(tokens@.subrange(start as int, end as int), sl@, cl@),
        final(bits).bits().len() <= old(bits).bits().len() + 64 * (end - start),
{
    let ghost chunk = tokens@.subrange(start as int, end as int);
    let sym_codes = assign_codes(sl.as_slice());
    let cpy_codes = assign_codes(cl.as_slice());
    let ghost w1 = bits.bits();
    proof {
        assert(tokens_bits(tokens@.subrange(start as int, start as int), sl@, cl@) =~= Seq::<bool>::empty());
        assert(w1 + tokens_bits(tokens@.subrange(start as int, start as int), sl@, cl@) =~= w1);
    }
    let mut i = start;
    proof {
        assert(tokens@.subrange(start as int, start as int) =~= Seq::<Token>::empty());
    }
    while i < end
        invariant
            start <= i <= end <= tokens.len(),
            end - start <= 0x10000,
            chunk == tokens@.subrange(start as int, end as int),
            tables_fit(chunk, sl@, cl@),
            sym_codes.len() == sl.len(),
            cpy_codes.len() == cl.len(),
            forall|s: int| 0 <= s < sl.len() ==> #[trigger] sym_codes@[s] == (if sl@[s] > 0 {
                ((code_of(sl@, s as nat) as u32), sl@[s] as u32)
            } else {
                (0u32, 0u32)
            }),
            forall|s: int| 0 <= s < cl.len() ==> #[trigger] cpy_codes@[s] == (if cl@[s] > 0 {
                ((code_of(cl@, s as nat) as u32), cl@[s] as u32)
            } else {
                (0u32, 0u32)
            }),
            bits.wf(),
            bits.bits() == w1 + tokens_bits(tokens@.subrange(start as int, i as int), sl@, cl@),
            bits.bits().len() <= w1.len() + 64 * (i - start),
            w1.len() <= 0x8000_0000_0000 + 9500,
        decreases end - i,
    {
        let t = tokens[i];
        proof {
            assert(t == chunk[i - start]);
        }
        write_token(t, &sym_codes, &cpy_codes, bits, Ghost(sl@), Ghost(cl@));
        proof {
            lemma_token_bits_len(t, sl@, cl@);
            let sub = tokens@.subrange(start as int, i + 1);
            assert(sub.drop_last() =~= tokens@.subrange(start as int, i as int));
            assert(sub.last() == t);
            assert(bits.bits() =~= w1 + tokens_bits(sub, sl@, cl@));
        }
        i += 1;
    }
}

/// Writes the block for `tokens[start..end]`: code tables built from its
/// symbol counts, `block_raw` in its size field, then its tokens.
fn write_block(tokens: &Vec<Token>, start: usize, end: usize, bits: &mut BitWriter, block_raw: u32)
    requires
        old(bits).wf(),
        start < end <= tokens.len(),
        end - start <= 0x10000,
        forall|i: int| 0 <= i < tokens.len() ==> token_shape(#[trigger] tokens@[i]),
        block_raw < 16,
        old(bits).bits().len() <= 0x8000_0000_0000,
    ensures
        final(bits).wf(),
        final(bits).bits().len() <= old(bits).bits().len() + 10000 + 64 * (end - start),
        ({
            let chunk = tokens@.subrange(start as int, end as int);
            let (sl, cl) = chunk_tables(chunk);
            &&& tables_fit(chunk, sl, cl)
            &&& final(bits).bits() == old(bits).bits() + block_bits(chunk, sl, cl, block_raw as nat)
        }),
{
    let ghost chunk = tokens@.subrange(start as int, end as int);
    let (sl, cl) = block_tables(tokens, start, end);
    let ghost w0 = bits.bits();
    write_tables(&sl, &cl, block_raw, bits);
    write_tokens(tokens, start, end, &sl, &cl, bits);
    proof {
        assert(bits.bits() =~= w0 + block_bits(chunk, sl@, cl@, block_raw as nat));
    }
}

proof fn lemma_push_block(base: Seq<bool>, chunks: Seq<Seq<Token>>, tabs: Seq<(Seq<u8>, Seq<u8>)>, chunk: Seq<Token>, sl: Seq<u8>, cl: Seq<u8>, raw: nat)
    requires
        chunks.len() == tabs.len(),
        forall|c: int| 0 <= c < chunks.len() ==> tables_fit(#[trigger] chunks[c], tabs[c].0, tabs[c].1),
        tables_fit(chunk, sl, cl),
    ensures
        blocks_bits(chunks.push(chunk), tabs.push((sl, cl)), raw) == blocks_bits(chunks, tabs, raw) + block_bits(chunk, sl, cl, raw),
        join(chunks.push(chunk)) == join(chunks) + chunk,
        forall|c: int| 0 <= c < chunks.len() + 1 ==> tables_fit(#[trigger] chunks.push(chunk)[c], tabs.push((sl, cl))[c].0, tabs.push((sl, cl))[c].1),
{
    let nc = chunks.push(chunk);
    let nt = tabs.push((sl, cl));
    assert(nc.drop_last() =~= chunks);
    assert(nt.drop_last() =~= tabs);
    assert forall|c: int| 0 <= c < nc.len() implies tables_fit(#[trigger] nc[c], nt[c].0, nt[c].1) by {
        if c < chunks.len() {
            assert(nc[c] == chunks[c]);
            assert(nt[c] == tabs[c]);
        }
    }
}

/// The chunks of `ts` from `start` on: `per` tokens each, the last of 1 to
/// `per`.
pub open spec fn split_from(ts: Seq<Token>, per: nat, start: nat) -> Seq<Seq<Token>>
    decreases ts.len() - start,
{
    if start >= ts.len() || per == 0 {
        seq![]
    } else {
        let end = if ts.len() - start < per { ts.len() } else { start + per };
        seq![ts.subrange(start as int, end as int)] + split_from(ts, per, end as nat)
    }
}

/// Each chunk's code tables.
pub open spec fn tables_of(chunks: Seq<Seq<Token>>) -> Seq<(Seq<u8>, Seq<u8>)> {
    Seq::new(chunks.len(), |c: int| chunk_tables(chunks[c]))
}

proof fn lemma_split_step(ts: Seq<Token>, per: nat, start: nat, end: nat, chunks: Seq<Seq<Token>>)
    requires
        start < ts.len(),
        per > 0,
        end == if ts.len() - start < per { ts.len() } else { start + per },
    ensures
        chunks + split_from(ts, per, start) == chunks.push(ts.subrange(start as int, end as int)) + split_from(ts, per, end),
        tables_of(chunks).push(chunk_tables(ts.subrange(start as int, end as int))) == tables_of(chunks.push(ts.subrange(start as int, end as int))),
{
    let chunk = ts.subrange(start as int, end as int);
    assert(split_from(ts, per, start) == seq![chunk] + split_from(ts, per, end));
    assert(chunks + split_from(ts, per, start) =~= chunks.push(chunk) + split_from(ts, per, end));
    assert(tables_of(chunks).push(chunk_tables(chunk)) =~= tables_of(chunks.push(chunk)));
}

/// Writes `tokens` as blocks of up to `max_per` tokens, each with code
/// tables built from its own symbol counts and `block_raw` in its size field.
#[verifier::spinoff_prover]
#[verifier::rlimit(80)]
fn encode_blocks(tokens: &Vec<Token>, bits: &mut BitWriter, block_raw: u32, max_per: usize)
    requires
        old(bits).wf(),
        block_raw < 16,
        max_per == (block_raw + 1) * 4096,
        tokens.len() <= 0xFFFF_FFFF,
        forall|i: int| 0 <= i < tokens.len() ==> token_shape(#[trigger] tokens@[i]),
        old(bits).bits().len() <= 0x100_0000_0000,
    ensures
        final(bits).wf(),
        ({
            let chunks = split_from(tokens@, max_per as nat, 0);
            let tabs = tables_of(chunks);
            &&& blocks_ok(chunks, tabs, max_per as nat)
            &&& join(chunks) == tokens@
            &&& final(bits).bits() == old(bits).bits() + blocks_bits(chunks, tabs, block_raw as nat)
        }),
{
    let n = tokens.len();
    let ghost base = bits.bits();
    let ghost mut chunks: Seq<Seq<Token>> = seq![];
    let ghost mut tabs: Seq<(Seq<u8>, Seq<u8>)> = seq![];
    let ghost all = split_from(tokens@, max_per as nat, 0);
    let mut start: usize = 0;
    proof {
        assert(tokens@.take(0) =~= join(chunks));
        assert(base + blocks_bits(chunks, tabs, block_raw as nat) =~= base);
        assert(all =~= chunks + split_from(tokens@, max_per as nat, 0));
    }
    while start < n
        invariant
            n == tokens.len() <= 0xFFFF_FFFF,
            block_raw < 16,
            max_per == (block_raw + 1) * 4096,
            forall|i: int| 0 <= i < tokens.len() ==> token_shape(#[trigger] tokens@[i]),
            base.len() <= 0x100_0000_0000,
            start <= n,
            chunks.len() == tabs.len(),
            chunks.len() <= start,
            all == split_from(tokens@, max_per as nat, 0),
            all == chunks + split_from(tokens@, max_per as nat, start as nat),
            tabs == tables_of(chunks),
            join(chunks) == tokens@.take(start as int),
            forall|c: int| 0 <= c < chunks.len() ==> 1 <= (#[trigger] chunks[c]).len() <= max_per,
            forall|c: int| 0 <= c < chunks.len() && c + 1 < chunks.len() ==> (#[trigger] chunks[c]).len() == max_per,
            chunks.len() > 0 && chunks.last().len() < max_per ==> start == n,
            forall|c: int| 0 <= c < chunks.len() ==> tables_fit(#[trigger] chunks[c], tabs[c].0, tabs[c].1),
            bits.wf(),
            bits.bits() == base + blocks_bits(chunks, tabs, block_raw as nat),
            bits.bits().len() <= base.len() + 10000 * chunks.len() + 64 * start,
        decreases n - start,
    {
        let end = if n - start < max_per { n } else { start + max_per };
        let ghost w0 = bits.bits();
        write_block(tokens, start, end, bits, block_raw);
        proof {
            let chunk = tokens@.subrange(start as int, end as int);
            let (sl, cl) = chunk_tables(chunk);
            lemma_push_block(base, chunks, tabs, chunk, sl, cl, block_raw as nat);
            assert(join(chunks) + chunk =~= tokens@.take(end as int));
            lemma_split_step(tokens@, max_per as nat, start as nat, end as nat, chunks);
            chunks = chunks.push(chunk);
            tabs = tabs.push((sl, cl));
        }
        start = end;
    }
    proof {
        assert(tokens@.take(n as int) =~= tokens@);
        assert(chunks + split_from(tokens@, max_per as nat, n as nat) =~= chunks);
        assert(blocks_ok(chunks, tabs, max_per as nat));
    }
}


/// Writes the stream header for an output of `size` bytes.
fn write_header(bits: &mut BitWriter, size: u32)
    requires
        old(bits).wf(),
        old(bits).bits().len() == 0,
    ensures
        final(bits).wf(),
        final(bits).bits() == header_bits(size as nat),
{
    let write_size_add: u32 = 1;
    proof {
        lemma2_to64();
        let e = Seq::<bool>::empty();
        lemma_bits_of(e, 0, 32);
        lemma_bits_of(e, size as nat, 32);
        lemma_bits_of(e, 0, 4);
    }
    bits.write_bits(0, 32);
    bits.write_bits(size, 32);
    bits.write_bits(0, 4);
    bits.write_bits(write_size_add - 1, 4);
    proof {
        assert(bits.bits() =~= header_bits(size as nat));
    }
}

/// The stream for the tokens `ts` of an output of `size` bytes with blocks
/// of `(raw + 1) * 4096` tokens: the header, then the blocks, packed into
/// words.
pub open spec fn candidate_bytes(ts: Seq<Token>, size: nat, raw: nat) -> Seq<u8> {
    let chunks = split_from(ts, (raw + 1) * 4096, 0);
    written_bytes(header_bits(size) + blocks_bits(chunks, tables_of(chunks), raw))
}

/// The shortest of the streams for block sizes `raw` to 5 (and `best`, the
/// shortest so far); of equal lengths the first is kept.
pub open spec fn pick_shortest(ts: Seq<Token>, size: nat, raw: nat, best: Option<Seq<u8>>) -> Option<Seq<u8>>
    decreases 6 - raw,
{
    if raw > 5 {
        best
    } else {
        let c = candidate_bytes(ts, size, raw);
        let nb = match best {
            None => c,
            Some(p) => if c.len() < p.len() { c } else { p },
        };
        pick_shortest(ts, size, raw + 1, Some(nb))
    }
}

/// The compressed stream for `data`: its LZ77 tokens (`lz_tokens`) in the
/// shortest of the streams for the block sizes 4096 to 24576 tokens.
pub open spec fn gw2_stream(data: Seq<u8>) -> Seq<u8> {
    pick_shortest(lz_tokens(data), data.len(), 0, None)->Some_0
}

/// The stream for `tokens` (which expand to `size` bytes) with blocks of
/// `(block_raw + 1) * 4096` tokens.
fn encode_candidate(tokens: &Vec<Token>, size: u32, block_raw: u32) -> (r: Vec<u8>)
    requires
        tokens_ok(tokens@),
        expand(tokens@).len() == size,
        block_raw < 16,
    ensures
        r@ == candidate_bytes(tokens@, size as nat, block_raw as nat),
        inflate(r@) == if 0 < size <= 256 * 1024 * 1024 {
            Ok::<Seq<u8>, Gw2Error>(expand(tokens@))
        } else {
            Err(Gw2Error::BadOutputSize)
        },
{
    proof {
        crate::roundtrip::lemma_tokens_shape(tokens@);
        crate::roundtrip::lemma_expand_grows(tokens@, 0);
        assert(tokens@.take(0) =~= Seq::<Token>::empty());
    }
    let max_per = ((block_raw + 1) as usize) * 4096;
    let mut b = BitWriter::new();
    write_header(&mut b, size);
    let ghost h = b.bits();
    proof {
        lemma2_to64();
        crate::bitwriter::lemma_bits_of(Seq::<bool>::empty(), 0, 32);
        crate::bitwriter::lemma_bits_of(Seq::<bool>::empty(), size as nat, 32);
        crate::bitwriter::lemma_bits_of(Seq::<bool>::empty(), 0, 4);
        assert(h.len() == 72);
    }
    encode_blocks(tokens, &mut b, block_raw, max_per);
    proof {
        let chunks = split_from(tokens@, max_per as nat, 0);
        let tabs = tables_of(chunks);
        assert(max_per as nat == (block_raw as nat + 1) * 4096);
        crate::roundtrip::lemma_stream_decode(b.bits(), size as nat, chunks, tabs, block_raw as nat);
    }
    b.finish()
}

/// Compresses `data` into a GW2 stream: LZ77 tokens, then blocks with
/// their own Huffman codes; of the block sizes 4096, 8192, ..., 24576
/// tokens, the one giving the shortest stream (the first such) is kept.
pub fn compress_gw2(data: &[u8]) -> (r: Result<Vec<u8>, Gw2Error>)
    requires
        data.len() <= 0xFFFF_FFFF,
    ensures
        r matches Ok(v) && v@ == gw2_stream(data@),
        inflate(r.unwrap()@) == if 0 < data.len() <= 256 * 1024 * 1024 {
            Ok::<Seq<u8>, Gw2Error>(data@)
        } else {
            Err(Gw2Error::BadOutputSize)
        },
{
    let output_size = data.len() as u32;
    let tokens = lz77(data);
    let ghost expected = if 0 < data.len() <= 256 * 1024 * 1024 {
        Ok::<Seq<u8>, Gw2Error>(data@)
    } else {
        Err(Gw2Error::BadOutputSize)
    };
    let mut best: Option<Vec<u8>> = None;
    let mut block_raw: u32 = 0;
    while block_raw <= 5
        invariant
            tokens_ok(tokens@),
            expand(tokens@) == data@,
            output_size == data.len(),
            expected == (if 0 < data.len() <= 256 * 1024 * 1024 {
                Ok::<Seq<u8>, Gw2Error>(data@)
            } else {
                Err(Gw2Error::BadOutputSize)
            }),
            block_raw <= 6,
            best matches Some(b) ==> inflate(b@) == expected,
            block_raw > 0 ==> best is Some,
            tokens@ == lz_tokens(data@),
            pick_shortest(tokens@, data.len() as nat, 0, None) == pick_shortest(
                tokens@,
                data.len() as nat,
                block_raw as nat,
                match best {
                    Some(b) => Some(b@),
                    None => None,
                },
            ),
        decreases 6 - block_raw,
    {
        let out = encode_candidate(&tokens, output_size, block_raw);
        best = match best {
            None => Some(out),
            Some(prev) => if out.len() < prev.len() {
                Some(out)
            } else {
                Some(prev)
            },
        };
        block_raw += 1;
    }
    match best {
        Some(out) => Ok(out),
        None => Ok(encode_candidate(&tokens, output_size, 15)),
    }
}

} // verus!
