//! Canonical codes from code lengths, and the code tables as the
//! compressor writes them: runs of equal lengths, top symbol first, each
//! run a symbol of the fixed dictionary code.

use vstd::prelude::*;
use vstd::arithmetic::power2::*;
use crate::bitwriter::BitWriter;
use crate::bitwriter::bits_of;
use crate::bitwriter::lemma_bits_of;
use crate::bitwriter::lemma_wvalue_append;
use crate::bitwriter::lemma_written_value;
use crate::bitwriter::written_bytes;
use crate::bitstream::stream_value;
use crate::huffman::code_of;
use crate::huffman::first_code;
use crate::huffman::count_len;
use crate::huffman::level_size;
use crate::huffman::lengths_ok;
use crate::huffman::tree_read;
use crate::huffman::lemma_first_code_bounds;
use crate::huffman::lemma_count_le;
use crate::canonical::lengths_valid;
use crate::canonical::lemma_code_fits;
use crate::canonical::lemma_decode_canonical;
use crate::inflate::dict_lengths;
use crate::inflate::dict_lengths_vec;
use crate::inflate::lemma_dict_valid;
use crate::inflate::length_run;
use crate::inflate::fill_lengths;
use crate::inflate::parse_lengths;
use crate::inflate::parse_tree;
use crate::inflate::lemma_parse_lengths_step;
use crate::error::Gw2Error;

verus! {

// ---------------------------------------------------------------------------
// Canonical codes

/// The running code stays inside an `i64` for lengths of up to 32 bits.
proof fn lemma_first_code_fits(lens: Seq<u8>, nb: nat)
    requires
        lens.len() <= 0x10000,
        nb <= 32,
    ensures
        -0x4_0000_0000_0000 <= first_code(lens, nb) <= 0x1_0000_0000,
{
    lemma_first_code_bounds(lens, nb);
    lemma2_to64();
    if nb < 32 {
        lemma_pow2_strictly_increases(nb, 32);
    }
    let n = lens.len() as int;
    let p = pow2(nb) as int;
    lemma_pow2_pos(nb);
    assert(-2 * n * (p - 1) >= -0x4_0000_0000_0000) by (nonlinear_arith)
        requires
            0 <= n <= 0x10000,
            1 <= p <= 0x1_0000_0000,
    ;
}

/// The code each symbol gets from the lengths `lengths`: for a symbol with
/// a length, its canonical code (codes of one length count down from the
/// level's first code, in symbol order) and its length; `(0, 0)` otherwise.
pub fn assign_codes(lengths: &[u8]) -> (r: Vec<(u32, u32)>)
    requires
        lengths_ok(lengths@),
    ensures
        r.len() == lengths.len(),
        forall|s: int|
            0 <= s < lengths.len() ==> #[trigger] r@[s] == (if lengths@[s] > 0 {
                ((code_of(lengths@, s as nat) as u32), lengths@[s] as u32)
            } else {
                (0u32, 0u32)
            }),
{
    let ghost lens = lengths@;
    let n = lengths.len();
    let mut codes: Vec<(u32, u32)> = Vec::new();
    let mut max_len: u8 = 0;
    let mut i: usize = 0;
    while i < n
        invariant
            i <= n,
            n == lens.len(),
            lens == lengths@,
            lengths_ok(lens),
            codes.len() == i,
            max_len <= 31,
            forall|j: int| 0 <= j < i ==> codes@[j] == (0u32, 0u32),
            forall|j: int| 0 <= j < i ==> lens[j] <= max_len,
        decreases n - i,
    {
        codes.push((0, 0));
        if lengths[i] > max_len {
            max_len = lengths[i];
        }
        i += 1;
    }
    let mut acode: i64 = 0;
    let mut nb: usize = 0;
    while nb <= max_len as usize
        invariant
            nb <= max_len + 1,
            max_len <= 31,
            n == lens.len(),
            lens == lengths@,
            lengths_ok(lens),
            codes.len() == n,
            forall|j: int| 0 <= j < n ==> lens[j] <= max_len,
            acode as int == first_code(lens, nb as nat),
            forall|j: int|
                0 <= j < n ==> #[trigger] codes@[j] == (if 0 < lens[j] < nb {
                    ((code_of(lens, j as nat) as u32), lens[j] as u32)
                } else {
                    (0u32, 0u32)
                }),
        decreases max_len + 1 - nb,
    {
        let mut sym: usize = 0;
        while sym < n
            invariant
                nb <= max_len,
                max_len <= 31,
                sym <= n,
                n == lens.len(),
                lens == lengths@,
                lengths_ok(lens),
                codes.len() == n,
                acode as int == first_code(lens, nb as nat) - (if nb > 0 { count_len(lens, sym as nat, nb as nat) } else { 0 }),
                forall|j: int|
                    0 <= j < n ==> #[trigger] codes@[j] == (if 0 < lens[j] < nb || (lens[j] == nb && nb > 0 && j < sym) {
                        ((code_of(lens, j as nat) as u32), lens[j] as u32)
                    } else {
                        (0u32, 0u32)
                    }),
            decreases n - sym,
        {
            proof {
                lemma_first_code_fits(lens, nb as nat);
                lemma_count_le(lens, sym as nat, nb as nat);
            }
            if nb > 0 && lengths[sym] as usize == nb {
                proof {
                    assert(count_len(lens, (sym + 1) as nat, nb as nat) == count_len(lens, sym as nat, nb as nat) + 1);
                }
                codes.set(sym, (acode as u32, nb as u32));
                acode = acode - 1;
            } else {
                proof {
                    if nb > 0 {
                        assert(count_len(lens, (sym + 1) as nat, nb as nat) == count_len(lens, sym as nat, nb as nat));
                    }
                }
            }
            sym += 1;
        }
        proof {
            lemma_first_code_fits(lens, nb as nat);
            lemma_first_code_fits(lens, (nb + 1) as nat);
            lemma_count_le(lens, n as nat, nb as nat);
            assert(first_code(lens, (nb + 1) as nat) == 2 * (first_code(lens, nb as nat) - level_size(lens, nb as nat)) + 1);
        }
        acode = 2 * acode + 1;
        nb += 1;
    }
    codes
}

/// The code and length of dictionary symbol `sym`.
pub fn dict_encode(sym: u16) -> (r: (u32, u32))
    requires
        sym < 256,
    ensures
        r.0 as nat == code_of(dict_lengths(), sym as nat),
        r.1 as nat == dict_lengths()[sym as int],
        3 <= r.1 <= 16,
        (r.0 as nat) < pow2(r.1 as nat),
{
    let lens = dict_lengths_vec();
    proof {
        lemma_dict_valid();
        lemma_code_fits(dict_lengths(), sym as nat);
        let l = dict_lengths()[sym as int] as nat;
        lemma2_to64();
        if l < 16 {
            lemma_pow2_strictly_increases(l, 16);
        }
        assert(code_of(dict_lengths(), sym as nat) < 0x1_0000_0000);
    }
    let codes = assign_codes(lens.as_slice());
    codes[sym as usize]
}

// ---------------------------------------------------------------------------
// Code tables in the stream

/// How many of the lengths just below `hi` equal `v`, counting at most `cap`.
pub open spec fn run_below(lens: Seq<u8>, hi: nat, v: u8, cap: nat) -> nat
    decreases cap,
{
    if cap == 0 || hi == 0 || hi > lens.len() || lens[hi - 1] != v {
        0
    } else {
        1 + run_below(lens, (hi - 1) as nat, v, (cap - 1) as nat)
    }
}

/// The dictionary symbol for a run of `count` (1 to 8) lengths `v`.
pub open spec fn run_symbol(v: u8, count: nat) -> nat {
    (v + 32 * (count - 1)) as nat
}

/// The bits of dictionary symbol `sym`.
pub open spec fn dict_bits(sym: nat) -> Seq<bool> {
    bits_of(code_of(dict_lengths(), sym) as nat, dict_lengths()[sym as int] as nat)
}

/// The bits of the lengths below `hi`, from the top down, as runs of at
/// most 8 equal lengths.
pub open spec fn lengths_bits(lens: Seq<u8>, hi: nat) -> Seq<bool>
    decreases hi,
{
    let b = run_below(lens, hi, lens[hi - 1], 8);
    if hi == 0 || hi > lens.len() || b == 0 || b > hi {
        seq![]
    } else {
        dict_bits(run_symbol(lens[hi - 1], b)) + lengths_bits(lens, (hi - b) as nat)
    }
}

/// The bits of a code table: the symbol count in 16 bits, then the lengths.
pub open spec fn tree_bits(lens: Seq<u8>) -> Seq<bool> {
    bits_of(lens.len(), 16) + lengths_bits(lens, lens.len())
}

/// `lengths` cut or padded with zeros to `num` entries.
pub open spec fn padded(lengths: Seq<u8>, num: nat) -> Seq<u8> {
    Seq::new(num, |i: int| if i < lengths.len() { lengths[i] } else { 0u8 })
}

/// Within a maximal run of `v` from `lo` up, the run below `t` is `t - lo` long.
pub proof fn lemma_run_below(lens: Seq<u8>, lo: nat, t: nat, v: u8, cap: nat)
    requires
        lo <= t <= lens.len(),
        forall|j: int| lo <= j < t ==> lens[j] == v,
        lo == 0 || lens[lo - 1] != v,
    ensures
        run_below(lens, t, v, cap) == if cap < t - lo { cap } else { (t - lo) as nat },
    decreases cap,
{
    if cap > 0 && t > lo {
        lemma_run_below(lens, lo, (t - 1) as nat, v, (cap - 1) as nat);
    }
}

/// A run counts equal lengths only.
pub proof fn lemma_run_below_facts(lens: Seq<u8>, hi: nat, v: u8, cap: nat)
    ensures
        run_below(lens, hi, v, cap) <= hi,
        run_below(lens, hi, v, cap) <= cap,
        run_below(lens, hi, v, cap) > 0 ==> hi <= lens.len(),
        forall|j: int| hi - run_below(lens, hi, v, cap) <= j < hi ==> lens[j] == v,
    decreases cap,
{
    if cap > 0 && hi > 0 && hi <= lens.len() && lens[hi - 1] == v {
        lemma_run_below_facts(lens, (hi - 1) as nat, v, (cap - 1) as nat);
    }
}

proof fn lemma_dict_bits(sym: nat)
    requires
        sym < 256,
    ensures
        dict_bits(sym).len() == dict_lengths()[sym as int],
        dict_bits(sym).len() <= 16,
        (code_of(dict_lengths(), sym) as nat) < pow2(dict_lengths()[sym as int] as nat),
        code_of(dict_lengths(), sym) >= 0,
{
    lemma_dict_valid();
    lemma_code_fits(dict_lengths(), sym);
    lemma_bits_of(Seq::<bool>::empty(), code_of(dict_lengths(), sym) as nat, dict_lengths()[sym as int] as nat);
}

/// Each run takes at most 16 bits.
pub proof fn lemma_lengths_bits_len(lens: Seq<u8>, hi: nat)
    requires
        forall|j: int| 0 <= j < lens.len() ==> lens[j] <= 31,
    ensures
        lengths_bits(lens, hi).len() <= 16 * hi,
    decreases hi,
{
    let b = run_below(lens, hi, lens[hi - 1], 8);
    if !(hi == 0 || hi > lens.len() || b == 0 || b > hi) {
        lemma_run_below_facts(lens, hi, lens[hi - 1], 8);
        lemma_dict_bits(run_symbol(lens[hi - 1], b));
        lemma_lengths_bits_len(lens, (hi - b) as nat);
    }
}

/// Writes the code table for the first `num_symbols` of `lengths` (missing
/// ones counting as 0): the count, then runs of equal lengths from the top
/// symbol down, at most 8 to a dictionary symbol.
pub fn encode_tree(lengths: &[u8], num_symbols: usize, bits: &mut BitWriter)
    requires
        old(bits).wf(),
        num_symbols < 0x10000,
        forall|j: int| 0 <= j < lengths.len() ==> lengths@[j] <= 31,
        old(bits).bits().len() + 16 + 16 * num_symbols <= 32 * 0x1_0000_0000_0000,
    ensures
        final(bits).wf(),
        final(bits).bits() == old(bits).bits() + tree_bits(padded(lengths@, num_symbols as nat)),
{
    let ghost lens = padded(lengths@, num_symbols as nat);
    let ghost start = old(bits).bits();
    let dict_lens = dict_lengths_vec();
    proof {
        lemma_dict_valid();
        lemma2_to64();
        lemma_lengths_bits_len(lens, num_symbols as nat);
        lemma_bits_of(start, num_symbols as nat, 16);
    }
    let dict = assign_codes(dict_lens.as_slice());
    bits.write_bits(num_symbols as u32, 16);
    proof {
        assert(bits.bits() + lengths_bits(lens, num_symbols as nat) =~= start + tree_bits(lens));
    }
    let mut i = num_symbols;
    while i > 0
        invariant
            i <= num_symbols < 0x10000,
            lens == padded(lengths@, num_symbols as nat),
            forall|j: int| 0 <= j < lens.len() ==> lens[j] <= 31,
            dict.len() == 256,
            forall|s: int|
                0 <= s < 256 ==> #[trigger] dict@[s] == ((code_of(dict_lengths(), s as nat) as u32), dict_lengths()[s] as u32),
            bits.wf(),
            bits.bits() + lengths_bits(lens, i as nat) == start + tree_bits(lens),
            start.len() + 16 + 16 * num_symbols <= 32 * 0x1_0000_0000_0000,
        decreases i,
    {
        let hi = i;
        i -= 1;
        let nb: u8 = if i < lengths.len() { lengths[i] } else { 0 };
        let mut count: usize = 1;
        while i > 0
            invariant
                1 <= count <= hi <= num_symbols,
                i == hi - count,
                lens == padded(lengths@, num_symbols as nat),
                nb == lens[hi - 1],
                forall|j: int| i <= j < hi ==> lens[j] == nb,
            ensures
                1 <= count <= hi,
                i == hi - count,
                forall|j: int| i <= j < hi ==> lens[j] == nb,
                i == 0 || lens[i - 1] != nb,
            decreases i,
        {
            let prev = i - 1;
            let prev_nb: u8 = if prev < lengths.len() { lengths[prev] } else { 0 };
            if prev_nb == nb {
                count += 1;
                i -= 1;
            } else {
                break;
            }
        }
        let ghost lo = i as nat;
        let mut rem = count;
        while rem > 0
            invariant
                lo + rem <= hi <= num_symbols < 0x10000,
                lo == i,
                lens == padded(lengths@, num_symbols as nat),
                nb == lens[hi - 1],
                nb <= 31,
                forall|j: int| lo <= j < hi ==> lens[j] == nb,
                lo == 0 || lens[lo - 1] != nb,
                forall|j: int| 0 <= j < lens.len() ==> lens[j] <= 31,
                dict.len() == 256,
                forall|s: int|
                    0 <= s < 256 ==> #[trigger] dict@[s] == ((code_of(dict_lengths(), s as nat) as u32), dict_lengths()[s] as u32),
                bits.wf(),
                bits.bits() + lengths_bits(lens, (lo + rem) as nat) == start + tree_bits(lens),
                start.len() + 16 + 16 * num_symbols <= 32 * 0x1_0000_0000_0000,
            decreases rem,
        {
            let batch: usize = if rem < 8 { rem } else { 8 };
            let x = (batch - 1) as u16;
            let v = nb as u16;
            let dict_sym: u16 = v | (x << 5u16);
            proof {
                assert(v | (x << 5u16) == v + 32 * x) by (bit_vector)
                    requires
                        v < 32,
                        x < 8,
                ;
                let t = (lo + rem) as nat;
                lemma_run_below(lens, lo, t, nb, 8);
                assert(lens[t - 1] == nb);
                assert(run_below(lens, t, nb, 8) == batch);
                assert(lengths_bits(lens, t) == dict_bits(run_symbol(nb, batch as nat)) + lengths_bits(lens, (t - batch) as nat));
                lemma_dict_bits(dict_sym as nat);
                lemma_lengths_bits_len(lens, (t - batch) as nat);
                lemma_lengths_bits_len(lens, num_symbols as nat);
                lemma2_to64();
                lemma_bits_of(Seq::<bool>::empty(), num_symbols as nat, 16);
                assert(bits.bits() + lengths_bits(lens, t) == start + tree_bits(lens));
                assert((bits.bits() + lengths_bits(lens, t)).len() == (start + tree_bits(lens)).len());
            }
            let (code, len) = dict[dict_sym as usize];
            let ghost before = bits.bits();
            bits.write_bits(code, len);
            proof {
                let t = (lo + rem) as nat;
                assert(bits.bits() + lengths_bits(lens, (t - batch) as nat) =~= before + lengths_bits(lens, t));
            }
            rem -= batch;
        }
    }
    proof {
        assert(lengths_bits(lens, 0) =~= Seq::<bool>::empty());
        assert(bits.bits() + lengths_bits(lens, 0) =~= bits.bits());
    }
}

// ---------------------------------------------------------------------------
// Reading the written bits back

/// The bits `w` hold `x` from bit `p` on.
pub open spec fn holds_at(w: Seq<bool>, p: nat, x: Seq<bool>) -> bool {
    &&& p + x.len() <= w.len()
    &&& w.subrange(p as int, (p + x.len()) as int) == x
}

/// Where `w` holds `a + b` at `p`, it holds `a` at `p` and `b` right after.
pub proof fn lemma_split_at(w: Seq<bool>, p: nat, a: Seq<bool>, b: Seq<bool>)
    requires
        holds_at(w, p, a + b),
    ensures
        holds_at(w, p, a),
        holds_at(w, p + a.len(), b),
{
    let pa = (p + a.len()) as int;
    let pb = (p + a.len() + b.len()) as int;
    assert(w.subrange(p as int, pa) =~= (a + b).subrange(0, a.len() as int));
    assert(w.subrange(p as int, pa) =~= a);
    assert(w.subrange(pa, pb) =~= (a + b).subrange(a.len() as int, (a.len() + b.len()) as int));
    assert(w.subrange(pa, pb) =~= b);
}

/// Bits written as the number `v` at `p` read back from the bytes as `v`.
pub proof fn lemma_read_back(w: Seq<bool>, p: nat, v: nat, n: nat)
    requires
        v < pow2(n),
        holds_at(w, p, bits_of(v, n)),
    ensures
        stream_value(written_bytes(w), p, n) == v,
{
    lemma_written_value(w, p, n);
    let pre = w.take(p as int);
    lemma_bits_of(pre, v, n);
    assert(w =~= (pre + bits_of(v, n)) + w.skip((p + n) as int)) by {
        assert forall|i: int| p <= i < p + n implies w[i] == bits_of(v, n)[i - p] by {
            assert(w.subrange(p as int, (p + n) as int)[i - p] == w[i]);
        }
    }
    lemma_wvalue_append(pre + bits_of(v, n), w.skip((p + n) as int), p, n);
}

/// The bits of the numbers `items` (each a value and its width) written one
/// after another.
pub open spec fn items_bits(items: Seq<(nat, nat)>) -> Seq<bool>
    decreases items.len(),
{
    if items.len() == 0 {
        seq![]
    } else {
        items_bits(items.drop_last()) + bits_of(items.last().0, items.last().1)
    }
}

/// The bits of the first `k` items stand at the start of those of all.
proof fn lemma_items_prefix(items: Seq<(nat, nat)>, k: nat)
    requires
        k <= items.len(),
    ensures
        items_bits(items.take(k as int)).len() <= items_bits(items).len(),
        items_bits(items).take(items_bits(items.take(k as int)).len() as int) == items_bits(items.take(k as int)),
    decreases items.len(),
{
    if k == items.len() {
        assert(items.take(k as int) =~= items);
    } else {
        lemma_items_prefix(items.drop_last(), k);
        assert(items.drop_last().take(k as int) =~= items.take(k as int));
        let a = items_bits(items.drop_last());
        let b = bits_of(items.last().0, items.last().1);
        assert((a + b).take(a.len() as int) =~= a);
        let c = items_bits(items.take(k as int));
        assert((a + b).take(c.len() as int) =~= a.take(c.len() as int));
    }
}

/// Numbers written one after another read back in turn: from the bytes a
/// writer makes of bits that start with `items`, the `k`-th item's width read
/// at the end of the items before it gives its value, also past the words
/// after which the writer pads and the reader skips 4 bytes.
pub proof fn lemma_items_read_back(w: Seq<bool>, items: Seq<(nat, nat)>, k: nat)
    requires
        forall|i: int| 0 <= i < items.len() ==> #[trigger] items[i].0 < pow2(items[i].1),
        k < items.len(),
        holds_at(w, 0, items_bits(items)),
    ensures
        stream_value(written_bytes(w), items_bits(items.take(k as int)).len(), items[k as int].1) == items[k as int].0,
{
    let first = items.take(k + 1int);
    lemma_items_prefix(items, k + 1);
    assert(first.drop_last() =~= items.take(k as int));
    assert(first.last() == items[k as int]);
    let a = items_bits(items.take(k as int));
    let b = bits_of(items[k as int].0, items[k as int].1);
    assert(items_bits(first) == a + b);
    let all = items_bits(items);
    assert(w.subrange(0, (a + b).len() as int) =~= a + b) by {
        assert(w.subrange(0, all.len() as int) == all);
        assert forall|i: int| 0 <= i < (a + b).len() implies w.subrange(0, (a + b).len() as int)[i] == (a + b)[i] by {
            assert(w.subrange(0, all.len() as int)[i] == all[i]);
            assert(all.take((a + b).len() as int)[i] == all[i]);
        }
    }
    lemma_split_at(w, 0, a, b);
    lemma_read_back(w, a.len(), items[k as int].0, items[k as int].1);
}

/// Written lengths read back: from symbol `hi - 1` down, over a table
/// `cur` that is still zero below `hi`.
pub proof fn lemma_lengths_decode(w: Seq<bool>, p: nat, lens: Seq<u8>, hi: nat, cur: Seq<u8>)
    requires
        hi <= lens.len(),
        cur.len() == lens.len(),
        forall|j: int| hi <= j < lens.len() ==> cur[j] == lens[j],
        forall|j: int| 0 <= j < hi ==> cur[j] == 0,
        forall|j: int| 0 <= j < lens.len() ==> lens[j] <= 31,
        holds_at(w, p, lengths_bits(lens, hi)),
    ensures
        parse_lengths(written_bytes(w), p, hi - 1, cur) == Ok::<(Seq<u8>, nat), Gw2Error>((lens, p + lengths_bits(lens, hi).len())),
    decreases hi,
{
    let data = written_bytes(w);
    lemma_parse_lengths_step(data, p, hi - 1, cur);
    if hi == 0 {
        assert(cur =~= lens);
    } else {
        let v = lens[hi - 1];
        let b = run_below(lens, hi, v, 8);
        lemma_run_below_facts(lens, hi, v, 8);
        lemma_run_below_facts(lens, (hi - 1) as nat, v, 7);
        assert(b >= 1);
        let sym = run_symbol(v, b);
        lemma_dict_bits(sym);
        let l = dict_lengths()[sym as int] as nat;
        let c = code_of(dict_lengths(), sym);
        let rest = lengths_bits(lens, (hi - b) as nat);
        assert(lengths_bits(lens, hi) == dict_bits(sym) + rest);
        lemma_split_at(w, p, dict_bits(sym), rest);
        lemma_read_back(w, p, c as nat, l);
        lemma_dict_valid();
        lemma_decode_canonical(dict_lengths(), data, p, sym);
        assert(tree_read(dict_lengths(), data, p) == Some((sym as u16, l)));
        let code = sym as u16;
        assert(code % 32 == v && code / 32 + 1 == b);
        let (rem2, lens2) = length_run(hi - 1, cur, code);
        assert(rem2 == hi - b - 1);
        assert forall|j: int| (hi - b) <= j < lens.len() implies lens2[j] == lens[j] by {
            if j < hi {
                assert(lens[j] == v);
            }
        }
        lemma_lengths_decode(w, p + l, lens, (hi - b) as nat, lens2);
    }
}

/// A written code table reads back as the lengths it was written from.
pub proof fn lemma_tree_decode(w: Seq<bool>, p: nat, lens: Seq<u8>, max_sym: nat)
    requires
        lens.len() <= max_sym + 1,
        lens.len() < 0x10000,
        forall|j: int| 0 <= j < lens.len() ==> lens[j] <= 31,
        holds_at(w, p, tree_bits(lens)),
    ensures
        parse_tree(written_bytes(w), p, max_sym) == Ok::<(Seq<u8>, nat), Gw2Error>((lens, p + tree_bits(lens).len())),
{
    lemma2_to64();
    lemma_bits_of(Seq::<bool>::empty(), lens.len(), 16);
    lemma_split_at(w, p, bits_of(lens.len(), 16), lengths_bits(lens, lens.len()));
    lemma_read_back(w, p, lens.len(), 16);
    let num = lens.len();
    lemma_lengths_decode(w, p + 16, lens, num, Seq::new(num, |i: int| 0u8));
}

} // verus!
