//! Why canonical codes decode: a symbol's code, followed by any bits, is
//! read back as that symbol by the decoding tables of its code lengths.

use vstd::prelude::*;
use vstd::arithmetic::power2::*;
use vstd::arithmetic::div_mod::*;
use vstd::arithmetic::mul::*;
use crate::bitstream::stream_value;
use crate::bitstream::lemma_value_split;
use crate::bitstream::lemma_value_bound;
use crate::huffman::lengths_ok;
use crate::huffman::code_of;
use crate::huffman::first_code;
use crate::huffman::count_len;
use crate::huffman::syms_with_len;
use crate::huffman::level_size;
use crate::huffman::lemma_count_strict;
use crate::huffman::lemma_syms_with_len;
use crate::huffman::lemma_count_mono;
use crate::huffman::lemma_count_le;
use crate::huffman::long_read;
use crate::huffman::comp_value;
use crate::huffman::long_syms;
use crate::huffman::all_zero;
use crate::huffman::tree_read;
use crate::huffman::short_covers;
use crate::huffman::short_hit;
use crate::huffman::short_sym;
use crate::huffman::lemma_short_unique;
use crate::huffman::lemma_first_code_bounds;

verus! {

/// Code lengths whose codes all fit: every symbol with a length has a
/// code of at least 0 (the lengths do not over-fill the code space).
pub open spec fn lengths_valid(lens: Seq<u8>) -> bool {
    &&& lengths_ok(lens)
    &&& forall|s: nat| s < lens.len() && lens[s as int] > 0 ==> #[trigger] code_of(lens, s) >= 0
}

/// The upper end of the unserved part of the `wd`-bit code space when
/// level `nb` has served the symbols below `k`.
pub open spec fn frontier_w(lens: Seq<u8>, nb: nat, k: nat, wd: nat) -> int {
    (first_code(lens, nb) - count_len(lens, k, nb) + 1) * pow2((wd - nb) as nat)
}

pub proof fn lemma_fw_start(lens: Seq<u8>, nb: nat, wd: nat)
    requires
        1 <= nb <= wd,
    ensures
        nb == 1 ==> frontier_w(lens, nb, 0, wd) == pow2(wd),
        nb > 1 ==> frontier_w(lens, nb, 0, wd) == frontier_w(lens, (nb - 1) as nat, lens.len(), wd),
{
    let e = (wd - nb) as nat;
    if nb > 1 {
        lemma_pow2_adds(e, 1);
        lemma2_to64();
        let x = first_code(lens, (nb - 1) as nat) - count_len(lens, lens.len(), (nb - 1) as nat) + 1;
        assert((2 * x) * pow2(e) == x * (pow2(e) * 2)) by (nonlinear_arith);
        assert((wd - (nb - 1)) as nat == e + 1);
    } else {
        assert(first_code(lens, 0) == 0);
        assert(first_code(lens, 1) == 1);
        assert(syms_with_len(lens, 0, 1) =~= Seq::<u16>::empty());
        lemma_pow2_adds(e, 1);
        lemma2_to64();
        assert((wd - 1) as nat == e);
        assert(frontier_w(lens, 1, 0, wd) == 2 * pow2(e));
    }
}

pub proof fn lemma_fw_step(lens: Seq<u8>, nb: nat, k: nat, wd: nat)
    requires
        1 <= nb <= wd,
        k < lens.len(),
    ensures
        lens[k as int] as nat == nb ==> frontier_w(lens, nb, k + 1, wd) == frontier_w(lens, nb, k, wd) - pow2((wd - nb) as nat),
        lens[k as int] as nat != nb ==> frontier_w(lens, nb, k + 1, wd) == frontier_w(lens, nb, k, wd),
{
    let e = (wd - nb) as nat;
    let c = first_code(lens, nb) - count_len(lens, k, nb);
    assert((c - 1 + 1) * pow2(e) == (c + 1) * pow2(e) - pow2(e)) by (nonlinear_arith);
}

pub proof fn lemma_fw_mono(lens: Seq<u8>, nb1: nat, k1: nat, nb2: nat, k2: nat, wd: nat)
    requires
        1 <= nb1 <= wd,
        1 <= nb2 <= wd,
        k1 <= lens.len(),
        k2 <= lens.len(),
        nb1 < nb2 || (nb1 == nb2 && k1 <= k2),
    ensures
        frontier_w(lens, nb1, k1, wd) >= frontier_w(lens, nb2, k2, wd),
    decreases nb2, k2,
{
    lemma_pow2_pos((wd - nb2) as nat);
    if nb1 == nb2 && k1 == k2 {
    } else if k2 > 0 {
        lemma_fw_mono(lens, nb1, k1, nb2, (k2 - 1) as nat, wd);
        lemma_fw_step(lens, nb2, (k2 - 1) as nat, wd);
    } else {
        lemma_fw_start(lens, nb2, wd);
        lemma_fw_mono(lens, nb1, k1, (nb2 - 1) as nat, lens.len(), wd);
    }
}

/// A symbol's code, as a range of the `wd`-bit space.
pub proof fn lemma_fw_code(lens: Seq<u8>, s: nat, wd: nat)
    requires
        s < lens.len(),
        1 <= lens[s as int] <= wd,
    ensures
        frontier_w(lens, lens[s as int] as nat, s + 1, wd) == code_of(lens, s) * pow2((wd - lens[s as int]) as nat),
        frontier_w(lens, lens[s as int] as nat, s, wd) == (code_of(lens, s) + 1) * pow2((wd - lens[s as int]) as nat),
{
    let l = lens[s as int] as nat;
    lemma_count_strict(lens, s, s + 1);
    assert(count_len(lens, s + 1, l) == count_len(lens, s, l) + 1);
}

/// The symbol with a given rank among those of its length.
pub proof fn lemma_syms_with_len_at(lens: Seq<u8>, s: nat)
    requires
        s < lens.len(),
        lens.len() <= 0x10000,
    ensures
        count_len(lens, s, lens[s as int] as nat) < count_len(lens, lens.len(), lens[s as int] as nat),
        syms_with_len(lens, lens.len(), lens[s as int] as nat)[count_len(lens, s, lens[s as int] as nat) as int] as nat == s,
{
    let l = lens[s as int] as nat;
    let n = lens.len();
    lemma_count_strict(lens, s, n);
    lemma_syms_with_len(lens, n, l);
    let j = count_len(lens, s, l) as int;
    let e = syms_with_len(lens, n, l)[j] as nat;
    assert(count_len(lens, e, l) == j && lens[e as int] as nat == l && e < n);
    if e < s {
        lemma_count_strict(lens, e, s);
    } else if e > s {
        lemma_count_strict(lens, s, e);
    }
}

/// Nonnegative codes of valid lengths stay inside the code space.
pub proof fn lemma_valid_frontier(lens: Seq<u8>, nb: nat, wd: nat)
    requires
        lengths_valid(lens),
        1 <= nb <= wd,
    ensures
        frontier_w(lens, nb, lens.len(), wd) >= 0,
    decreases nb,
{
    lemma_pow2_pos((wd - nb) as nat);
    let n = lens.len();
    if level_size(lens, nb) > 0 {
        lemma_syms_with_len(lens, n, nb);
        let s = syms_with_len(lens, n, nb)[(count_len(lens, n, nb) - 1) as int] as nat;
        assert(lens[s as int] as nat == nb);
        assert(code_of(lens, s) >= 0);
        lemma_fw_code(lens, s, wd);
        lemma_fw_mono(lens, nb, s + 1, nb, n, wd);
        assert(count_len(lens, s + 1, nb) == count_len(lens, n, nb)) by {
            lemma_count_strict(lens, s, s + 1);
            lemma_count_mono(lens, s + 1, n, nb);
            lemma_count_le(lens, n, nb);
            assert(count_len(lens, s, nb) == count_len(lens, n, nb) - 1);
        }
        let c = code_of(lens, s);
        let p = pow2((wd - nb) as nat) as int;
        assert(c * p >= 0) by (nonlinear_arith)
            requires
                c >= 0,
                p > 0,
        ;
    } else if nb > 1 {
        lemma_valid_frontier(lens, (nb - 1) as nat, wd);
        lemma_fw_start(lens, nb, wd);
        assert(count_len(lens, n, nb) == count_len(lens, 0, nb));
    } else {
        lemma_fw_start(lens, nb, wd);
        assert(count_len(lens, n, nb) == 0);
        assert(syms_with_len(lens, 0, 1) =~= Seq::<u16>::empty());
    }
}

proof fn lemma_long_read_finds(lens: Seq<u8>, s: nat, m: nat, peek: nat)
    requires
        lengths_valid(lens),
        s < lens.len(),
        9 <= m <= lens[s as int],
        lens[s as int] <= 31,
        frontier_w(lens, lens[s as int] as nat, s + 1, 32) <= peek < frontier_w(lens, lens[s as int] as nat, s, 32),
    ensures
        long_read(lens, m, peek) == Some((s as u16, lens[s as int] as nat)),
    decreases lens[s as int] - m,
{
    let l = lens[s as int] as nat;
    let n = lens.len();
    lemma_fw_code(lens, s, 32);
    lemma_pow2_pos((32 - m) as nat);
    lemma2_to64();
    if m < l {
        lemma_long_read_finds(lens, s, m + 1, peek);
        if level_size(lens, m) > 0 {
            lemma_fw_mono(lens, m, n, l, s, 32);
            lemma_valid_frontier(lens, m, 32);
            lemma_syms_with_len(lens, n, m);
            let t = syms_with_len(lens, n, m)[0] as nat;
            lemma_fw_step(lens, m, t, 32);
            lemma_fw_mono(lens, m, t + 1, m, n, 32);
            lemma_fw_mono(lens, 1, 0, m, t, 32);
            lemma_fw_start(lens, 1, 32);
            assert(comp_value(lens, m) == frontier_w(lens, m, n, 32)) by {
                lemma_small_mod(frontier_w(lens, m, n, 32) as nat, pow2(32));
            }
        }
    } else {
        let p = pow2((32 - l) as nat) as int;
        let c = code_of(lens, s);
        let last = first_code(lens, l) - level_size(lens, l) + 1;
        lemma_valid_frontier(lens, l, 32);
        lemma_fw_mono(lens, l, s + 1, l, n, 32);
        lemma_fw_mono(lens, 1, 0, l, s, 32);
        lemma_fw_start(lens, 1, 32);
        assert(level_size(lens, l) > 0) by {
            lemma_count_strict(lens, s, n);
        }
        assert(comp_value(lens, l) == frontier_w(lens, l, n, 32)) by {
            lemma_small_mod(frontier_w(lens, l, n, 32) as nat, pow2(32));
        }
        assert(frontier_w(lens, l, n, 32) == last * p);
        let q = c - last;
        let r = peek - c * p;
        assert(0 <= r < p) by {
            assert((c + 1) * p == c * p + p) by (nonlinear_arith);
        }
        assert(peek - last * p == q * p + r) by (nonlinear_arith)
            requires
                q == c - last,
                r == peek - c * p,
        ;
        lemma_fundamental_div_mod_converse(peek - last * p, p, q, r);
        let off = long_syms(lens, l).len() - 1;
        assert(long_syms(lens, l) == long_syms(lens, (l - 1) as nat) + syms_with_len(lens, n, l));
        lemma_syms_with_len_at(lens, s);
        lemma_count_le(lens, s, l);
        assert(q == level_size(lens, l) - 1 - count_len(lens, s, l));
        assert(off - q == long_syms(lens, (l - 1) as nat).len() + count_len(lens, s, l));
    }
}

/// The central fact of canonical codes: after a symbol's code, whatever
/// bits follow, the decoding tables give back that symbol and its length.
pub proof fn lemma_decode_canonical(lens: Seq<u8>, data: Seq<u8>, p: nat, s: nat)
    requires
        lengths_valid(lens),
        s < lens.len(),
        lens[s as int] > 0,
        stream_value(data, p, lens[s as int] as nat) == code_of(lens, s),
    ensures
        tree_read(lens, data, p) == Some((s as u16, lens[s as int] as nat)),
{
    let l = lens[s as int] as nat;
    let c = code_of(lens, s);
    assert(!all_zero(lens));
    let h = stream_value(data, p, 8);
    if l <= 8 {
        let e = (8 - l) as nat;
        lemma_value_split(data, p, l, e);
        lemma_value_bound(data, p + l, e);
        assert(h == c * pow2(e) + stream_value(data, p + l, e));
        assert((c + 1) * pow2(e) == c * pow2(e) + pow2(e)) by (nonlinear_arith);
        assert(short_covers(lens, s, h));
        lemma_short_unique(lens, s, short_sym(lens, h), h);
    } else {
        let peek = stream_value(data, p, 32);
        let e = (32 - l) as nat;
        lemma_value_split(data, p, l, e);
        lemma_value_bound(data, p + l, e);
        lemma_fw_code(lens, s, 32);
        assert((c + 1) * pow2(e) == c * pow2(e) + pow2(e)) by (nonlinear_arith);
        assert(frontier_w(lens, l, s + 1, 32) <= peek < frontier_w(lens, l, s, 32));
        if short_hit(lens, h) {
            let t = short_sym(lens, h);
            let lt = lens[t as int] as nat;
            assert(short_covers(lens, t, h));
            let ct = code_of(lens, t);
            lemma_fw_code(lens, t, 32);
            lemma_fw_mono(lens, lt, t + 1, l, s, 32);
            lemma_value_split(data, p, 8, 24);
            lemma_value_bound(data, p + 8, 24);
            lemma_pow2_adds((8 - lt) as nat, 24);
            assert((32 - lt) as nat == (8 - lt) as nat + 24);
            assert(ct * pow2((32 - lt) as nat) == ct * pow2((8 - lt) as nat) * pow2(24)) by (nonlinear_arith)
                requires
                    pow2((32 - lt) as nat) == pow2((8 - lt) as nat) * pow2(24),
            ;
            assert(ct * pow2((8 - lt) as nat) * pow2(24) <= h * pow2(24)) by (nonlinear_arith)
                requires
                    ct * pow2((8 - lt) as nat) <= h,
            ;
            assert(false);
        }
        lemma_long_read_finds(lens, s, 9, peek);
    }
}

/// The Kraft sum of the lengths 1 to `nb`, in units of `2^-mx`.
pub open spec fn kraft_levels(lens: Seq<u8>, mx: nat, nb: nat) -> int
    decreases nb,
{
    if nb == 0 {
        0
    } else {
        kraft_levels(lens, mx, (nb - 1) as nat) + level_size(lens, nb) * pow2((mx - nb) as nat)
    }
}

proof fn lemma_kraft_frontier(lens: Seq<u8>, mx: nat, nb: nat)
    requires
        1 <= nb <= mx,
    ensures
        frontier_w(lens, nb, lens.len(), mx) == pow2(mx) - kraft_levels(lens, mx, nb),
    decreases nb,
{
    lemma_fw_start(lens, nb, mx);
    if nb > 1 {
        lemma_kraft_frontier(lens, mx, (nb - 1) as nat);
    } else {
        assert(kraft_levels(lens, mx, 0) == 0);
    }
    let e = pow2((mx - nb) as nat) as int;
    let f = first_code(lens, nb);
    let c = count_len(lens, lens.len(), nb) as int;
    assert(count_len(lens, 0, nb) == 0);
    assert((f - c + 1) * e == (f + 1) * e - c * e) by (nonlinear_arith);
}

proof fn lemma_kraft_mono(lens: Seq<u8>, mx: nat, a: nat, b: nat)
    requires
        a <= b,
    ensures
        kraft_levels(lens, mx, a) <= kraft_levels(lens, mx, b),
    decreases b,
{
    if a < b {
        lemma_kraft_mono(lens, mx, a, (b - 1) as nat);
        lemma_pow2_pos((mx - b) as nat);
        assert(level_size(lens, b) * pow2((mx - b) as nat) >= 0) by (nonlinear_arith);
    }
}

/// A tree built for valid code lengths reads a symbol's code, followed by
/// any bits, as that symbol, taking exactly the code's bits: `read_code`
/// inverts the code assignment `code_of`.
pub proof fn lemma_tree_reads_code(t: crate::huffman::HuffmanTree, data: Seq<u8>, p: nat, s: nat)
    requires
        lengths_valid(t.lengths()),
        s < t.lengths().len(),
        t.lengths()[s as int] > 0,
        stream_value(data, p, t.lengths()[s as int] as nat) == code_of(t.lengths(), s),
    ensures
        crate::huffman::tree_decode(t.lengths(), t.single(), data, p) == Some((s as u16, t.lengths()[s as int] as nat)),
{
    lemma_decode_canonical(t.lengths(), data, p, s);
    assert(!crate::huffman::all_zero(t.lengths()));
}

/// Lengths of at most `mx` bits whose Kraft sum is at most 1 are valid.
pub proof fn lemma_kraft_valid(lens: Seq<u8>, mx: nat)
    requires
        lengths_ok(lens),
        1 <= mx <= 31,
        forall|i: int| 0 <= i < lens.len() ==> lens[i] <= mx,
        kraft_levels(lens, mx, mx) <= pow2(mx),
    ensures
        lengths_valid(lens),
{
    assert forall|s: nat| s < lens.len() && lens[s as int] > 0 implies #[trigger] code_of(lens, s) >= 0 by {
        let l = lens[s as int] as nat;
        lemma_fw_code(lens, s, mx);
        lemma_fw_mono(lens, l, s + 1, l, lens.len(), mx);
        lemma_kraft_frontier(lens, mx, l);
        lemma_kraft_mono(lens, mx, l, mx);
        let p = pow2((mx - l) as nat) as int;
        lemma_pow2_pos((mx - l) as nat);
        let c = code_of(lens, s);
        if c < 0 {
            assert(c * p < 0) by (nonlinear_arith)
                requires
                    c < 0,
                    p > 0,
            ;
        }
    }
}

/// Codes of valid lengths fit in their lengths.
pub proof fn lemma_code_fits(lens: Seq<u8>, s: nat)
    requires
        lengths_valid(lens),
        s < lens.len(),
        lens[s as int] > 0,
    ensures
        0 <= code_of(lens, s) < pow2(lens[s as int] as nat),
{
    lemma_first_code_bounds(lens, lens[s as int] as nat);
}

} // verus!
