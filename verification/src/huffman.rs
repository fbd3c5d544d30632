//! GW2's canonical Huffman codes.
//!
//! A table of code lengths determines the codes: lengths are served from
//! the shortest up, symbols of one length in increasing order, and codes
//! are handed out from the top down (the first symbol of the shortest length
//! gets the all-ones code).  Decoding uses a 256-entry table for codes of
//! at most 8 bits and, for longer codes, a comparison per code length.

use vstd::prelude::*;
use vstd::arithmetic::power2::*;
use vstd::arithmetic::div_mod::*;
use vstd::arithmetic::mul::*;
use vstd::bits::*;
use crate::bitstream::BitReader;
use crate::bitstream::stream_value;
use crate::bitstream::lemma_value_split;
use crate::bitstream::lemma_value_bound;
use crate::error::Gw2Error;

verus! {

/// The symbols below `k` whose code length is `l`, in increasing order.
pub open spec fn syms_with_len(lens: Seq<u8>, k: nat, l: nat) -> Seq<u16>
    decreases k,
{
    if k == 0 {
        seq![]
    } else if lens[k - 1] as nat == l {
        syms_with_len(lens, (k - 1) as nat, l).push((k - 1) as u16)
    } else {
        syms_with_len(lens, (k - 1) as nat, l)
    }
}

/// How many symbols below `k` have code length `l`.
pub open spec fn count_len(lens: Seq<u8>, k: nat, l: nat) -> nat {
    syms_with_len(lens, k, l).len()
}

/// How many symbols have the (nonzero) code length `l`.
pub open spec fn level_size(lens: Seq<u8>, l: nat) -> nat {
    if l == 0 { 0 } else { count_len(lens, lens.len(), l) }
}

/// The first (largest) code of length `nb`.
pub open spec fn first_code(lens: Seq<u8>, nb: nat) -> int
    decreases nb,
{
    if nb == 0 {
        0
    } else {
        2 * (first_code(lens, (nb - 1) as nat) - level_size(lens, (nb - 1) as nat)) + 1
    }
}

/// The code of symbol `s` (meaningful when its length is nonzero; a
/// negative value means the lengths over-fill the code space).
pub open spec fn code_of(lens: Seq<u8>, s: nat) -> int {
    first_code(lens, lens[s as int] as nat) - count_len(lens, s, lens[s as int] as nat)
}

/// No symbol has a nonzero length.
pub open spec fn all_zero(lens: Seq<u8>) -> bool {
    forall|i: int| 0 <= i < lens.len() ==> lens[i] == 0
}

/// What a tree with no codes decodes to, without reading a bit: the last symbol.
pub open spec fn single_value(lens: Seq<u8>) -> u16 {
    if lens.len() == 0 { 0xFFFF } else { (lens.len() - 1) as u16 }
}

/// Symbol `s` has a code of at most 8 bits whose 8-bit extensions include `h`.
pub open spec fn short_covers(lens: Seq<u8>, s: nat, h: nat) -> bool {
    let l = lens[s as int] as nat;
    &&& s < lens.len()
    &&& 1 <= l <= 8
    &&& code_of(lens, s) >= 0
    &&& code_of(lens, s) * pow2((8 - l) as nat) <= h
    &&& h < (code_of(lens, s) + 1) * pow2((8 - l) as nat)
}

pub open spec fn short_hit(lens: Seq<u8>, h: nat) -> bool {
    exists|s: nat| short_covers(lens, s, h)
}

pub open spec fn short_sym(lens: Seq<u8>, h: nat) -> nat {
    choose|s: nat| short_covers(lens, s, h)
}

/// The symbols with codes of 9 to `nb` bits, ordered by length, then symbol.
pub open spec fn long_syms(lens: Seq<u8>, nb: nat) -> Seq<u16>
    decreases nb,
{
    if nb <= 8 {
        seq![]
    } else {
        long_syms(lens, (nb - 1) as nat) + syms_with_len(lens, lens.len(), nb)
    }
}

/// The 32-bit threshold for codes of length `nb`: the smallest such code,
/// placed at the top of a 32-bit word (modulo 2^32).
pub open spec fn comp_value(lens: Seq<u8>, nb: nat) -> int {
    ((first_code(lens, nb) - level_size(lens, nb) + 1) * pow2((32 - nb) as nat)) % (pow2(32) as int)
}

/// Decoding a code longer than 8 bits from the 32 bits `peek`: the first
/// length, from `nb` up to 32, whose threshold `peek` reaches decides.
pub open spec fn long_read(lens: Seq<u8>, nb: nat, peek: nat) -> Option<(u16, nat)>
    decreases 33 - nb,
{
    if nb > 32 {
        None
    } else if level_size(lens, nb) > 0 && peek >= comp_value(lens, nb) {
        let idx = (peek - comp_value(lens, nb)) / (pow2((32 - nb) as nat) as int);
        let off = long_syms(lens, nb).len() - 1;
        if idx <= off {
            Some((long_syms(lens, nb)[off - idx], nb))
        } else {
            None
        }
    } else {
        long_read(lens, nb + 1, peek)
    }
}

/// The symbol decoded from the bits `data[p..]` with the code lengths
/// `lens`, and how many bits it takes; `None` where no code applies.
pub open spec fn tree_read(lens: Seq<u8>, data: Seq<u8>, p: nat) -> Option<(u16, nat)> {
    if all_zero(lens) {
        Some((single_value(lens), 0))
    } else {
        let h = stream_value(data, p, 8);
        if short_hit(lens, h) {
            let s = short_sym(lens, h);
            Some((s as u16, lens[s as int] as nat))
        } else {
            long_read(lens, 9, stream_value(data, p, 32))
        }
    }
}

/// Code lengths the stream format carries: fewer than 2^16 symbols,
/// lengths below 32.
pub open spec fn lengths_ok(lens: Seq<u8>) -> bool {
    &&& lens.len() <= 0x10000
    &&& forall|i: int| 0 <= i < lens.len() ==> lens[i] <= 31
}

/// Code lengths a decoding tree accepts: fewer than 2^16 symbols, lengths
/// of at most 32 bits.
pub open spec fn tree_lengths_ok(lens: Seq<u8>) -> bool {
    &&& lens.len() <= 0x10000
    &&& forall|i: int| 0 <= i < lens.len() ==> lens[i] <= 32
}

// ---------------------------------------------------------------------------
// Counting lemmas

pub proof fn lemma_syms_with_len(lens: Seq<u8>, k: nat, l: nat)
    requires
        k <= lens.len(),
        lens.len() <= 0x10000,
    ensures
        count_len(lens, k, l) <= k,
        forall|j: int|
            0 <= j < syms_with_len(lens, k, l).len() ==> {
                let s = #[trigger] syms_with_len(lens, k, l)[j];
                &&& (s as nat) < k
                &&& lens[s as int] as nat == l
                &&& count_len(lens, s as nat, l) == j
            },
    decreases k,
{
    if k > 0 {
        lemma_syms_with_len(lens, (k - 1) as nat, l);
    }
}

pub proof fn lemma_count_le(lens: Seq<u8>, k: nat, l: nat)
    ensures
        count_len(lens, k, l) <= k,
    decreases k,
{
    if k > 0 {
        lemma_count_le(lens, (k - 1) as nat, l);
    }
}

pub proof fn lemma_count_mono(lens: Seq<u8>, j: nat, k: nat, l: nat)
    requires
        j <= k <= lens.len(),
    ensures
        count_len(lens, j, l) <= count_len(lens, k, l),
    decreases k - j,
{
    if j < k {
        lemma_count_mono(lens, j, (k - 1) as nat, l);
    }
}

pub proof fn lemma_count_strict(lens: Seq<u8>, s: nat, k: nat)
    requires
        s < k <= lens.len(),
    ensures
        count_len(lens, s, lens[s as int] as nat) < count_len(lens, k, lens[s as int] as nat),
{
    lemma_count_mono(lens, s + 1, k, lens[s as int] as nat);
}

/// Bounds on the first code of each length.
pub proof fn lemma_first_code_bounds(lens: Seq<u8>, nb: nat)
    ensures
        first_code(lens, nb) <= pow2(nb) - 1,
        first_code(lens, nb) >= -2 * (lens.len() as int) * (pow2(nb) - 1),
    decreases nb,
{
    lemma_pow2_pos(nb);
    if nb == 0 {
        lemma2_to64();
    } else {
        lemma_first_code_bounds(lens, (nb - 1) as nat);
        lemma_pow2_unfold(nb);
        if nb - 1 > 0 {
            lemma_count_le(lens, lens.len(), (nb - 1) as nat);
        }
        let n = lens.len() as int;
        let p = pow2((nb - 1) as nat) as int;
        assert(level_size(lens, (nb - 1) as nat) <= n);
        assert(-2 * n * (2 * p - 1) <= 2 * (-2 * n * (p - 1) - n) + 1) by (nonlinear_arith)
            requires
                p >= 1,
                n >= 0,
        ;
    }
}

// ---------------------------------------------------------------------------
// Short codes: every symbol's range of 8-bit extensions lies below the
// ranges of the symbols served before it.

/// The upper end of the unserved 8-bit space when level `nb` has served the
/// symbols below `k`.
pub open spec fn frontier(lens: Seq<u8>, nb: nat, k: nat) -> int {
    (first_code(lens, nb) - count_len(lens, k, nb) + 1) * pow2((8 - nb) as nat)
}

pub proof fn lemma_frontier_one(lens: Seq<u8>)
    ensures
        frontier(lens, 1, 0) == 256,
{
    assert(first_code(lens, 0) == 0);
    assert(first_code(lens, 1) == 1);
    assert(syms_with_len(lens, 0, 1) =~= Seq::<u16>::empty());
    assert(count_len(lens, 0, 1) == 0);
    lemma2_to64();
    assert(pow2(7) == 128);
    assert(frontier(lens, 1, 0) == (first_code(lens, 1) - count_len(lens, 0, 1) + 1) * pow2(7));
}

pub proof fn lemma_frontier_start(lens: Seq<u8>, nb: nat)
    requires
        1 <= nb <= 8,
    ensures
        nb == 1 ==> frontier(lens, nb, 0) == 256,
        nb > 1 ==> frontier(lens, nb, 0) == frontier(lens, (nb - 1) as nat, lens.len()),
{
    lemma2_to64();
    if nb > 1 {
        let e = (8 - nb) as nat;
        lemma_pow2_adds(e, 1);
        let x = first_code(lens, (nb - 1) as nat) - count_len(lens, lens.len(), (nb - 1) as nat) + 1;
        assert((2 * x) * pow2(e) == x * (pow2(e) * 2)) by (nonlinear_arith);
        assert((9 - nb) as nat == e + 1);
    } else {
        lemma_frontier_one(lens);
    }
}

pub proof fn lemma_frontier_step(lens: Seq<u8>, nb: nat, k: nat)
    requires
        1 <= nb <= 8,
        k < lens.len(),
    ensures
        lens[k as int] as nat == nb ==> frontier(lens, nb, k + 1) == frontier(lens, nb, k) - pow2((8 - nb) as nat),
        lens[k as int] as nat != nb ==> frontier(lens, nb, k + 1) == frontier(lens, nb, k),
{
    let e = (8 - nb) as nat;
    let c = first_code(lens, nb) - count_len(lens, k, nb);
    assert((c - 1 + 1) * pow2(e) == (c + 1) * pow2(e) - pow2(e)) by (nonlinear_arith);
}

/// The frontier never rises as symbols are served.
pub proof fn lemma_frontier_mono(lens: Seq<u8>, nb1: nat, k1: nat, nb2: nat, k2: nat)
    requires
        1 <= nb1 <= 8,
        1 <= nb2 <= 8,
        k1 <= lens.len(),
        k2 <= lens.len(),
        nb1 < nb2 || (nb1 == nb2 && k1 <= k2),
    ensures
        frontier(lens, nb1, k1) >= frontier(lens, nb2, k2),
    decreases nb2, k2,
{
    lemma_pow2_pos((8 - nb2) as nat);
    if nb1 == nb2 && k1 == k2 {
    } else if k2 > 0 {
        if nb1 == nb2 || true {
            if nb1 < nb2 || k1 <= (k2 - 1) as nat {
                lemma_frontier_mono(lens, nb1, k1, nb2, (k2 - 1) as nat);
                lemma_frontier_step(lens, nb2, (k2 - 1) as nat);
            }
        }
    } else {
        lemma_frontier_start(lens, nb2);
        lemma_frontier_mono(lens, nb1, k1, (nb2 - 1) as nat, lens.len());
    }
}

/// Which 8-bit values a short code covers, in terms of the frontier.
pub proof fn lemma_short_covers_frontier(lens: Seq<u8>, s: nat, h: nat)
    requires
        s < lens.len(),
        1 <= lens[s as int] <= 8,
    ensures
        short_covers(lens, s, h) <==> (frontier(lens, lens[s as int] as nat, s + 1) <= h
            && h < frontier(lens, lens[s as int] as nat, s)),
{
    let l = lens[s as int] as nat;
    lemma_count_strict(lens, s, s + 1);
    assert(count_len(lens, s + 1, l) == count_len(lens, s, l) + 1);
    lemma_pow2_pos((8 - l) as nat);
    let c = code_of(lens, s);
    let p = pow2((8 - l) as nat) as int;
    if c < 0 {
        assert((c + 1) * p <= 0) by (nonlinear_arith)
            requires
                c < 0,
                p > 0,
        ;
    }
}

/// At most one symbol covers any 8-bit value.
pub proof fn lemma_short_unique(lens: Seq<u8>, s: nat, t: nat, h: nat)
    requires
        short_covers(lens, s, h),
        short_covers(lens, t, h),
    ensures
        s == t,
{
    lemma_short_covers_frontier(lens, s, h);
    lemma_short_covers_frontier(lens, t, h);
    let ls = lens[s as int] as nat;
    let lt = lens[t as int] as nat;
    if ls < lt || (ls == lt && s < t) {
        lemma_frontier_mono(lens, ls, s + 1, lt, t);
    } else if lt < ls || (ls == lt && t < s) {
        lemma_frontier_mono(lens, lt, t + 1, ls, s);
    }
}

/// The symbols served by the end of level 8 cover exactly the values at or
/// above the frontier.
pub proof fn lemma_short_hit_frontier(lens: Seq<u8>, h: nat)
    requires
        short_hit(lens, h),
    ensures
        h >= frontier(lens, 8, lens.len()),
{
    let s = short_sym(lens, h);
    lemma_short_covers_frontier(lens, s, h);
    lemma_frontier_mono(lens, lens[s as int] as nat, s + 1, 8, lens.len());
}

/// `1 << k` as a `u64`.
pub fn pow2_u64(k: u32) -> (r: u64)
    requires
        k < 64,
    ensures
        r as nat == pow2(k as nat),
{
    proof {
        lemma_u64_pow2_no_overflow(k as nat);
        lemma_u64_shl_is_mul(1, k as u64);
    }
    1u64 << (k as u64)
}

/// `x` modulo 2^32 (the Euclidean remainder).
fn mod_2_32(x: i64) -> (r: u64)
    requires
        x > i64::MIN,
    ensures
        r as int == x as int % (pow2(32) as int),
        r < 0x1_0000_0000,
{
    proof {
        lemma2_to64();
    }
    if x >= 0 {
        (x as u64) % 0x1_0000_0000
    } else {
        let u = ((-x) as u64) % 0x1_0000_0000;
        proof {
            let m = 0x1_0000_0000int;
            let q = (-x) as int / m;
            lemma_fundamental_div_mod((-x) as int, m);
            if u == 0 {
                lemma_fundamental_div_mod_converse(x as int, m, -q, 0);
            } else {
                lemma_fundamental_div_mod_converse(x as int, m, -q - 1, m - u);
            }
        }
        if u == 0 { 0 } else { 0x1_0000_0000 - u }
    }
}

/// `(x * 2^sh) mod 2^32`, the 32-bit threshold of a code level.
fn comp_threshold(x: i64, sh: u32) -> (r: u32)
    requires
        x > i64::MIN,
        sh <= 23,
    ensures
        r as int == (x as int * pow2(sh as nat)) % (pow2(32) as int),
{
    let y = mod_2_32(x);
    let pw = pow2_u64(sh);
    proof {
        lemma2_to64();
        lemma_pow2_strictly_increases(sh as nat, 24);
        lemma_mul_strict_inequality(y as int, 0x1_0000_0000int, pw as int);
        lemma_mul_strict_inequality(pw as int, 0x100_0000int, 0x1_0000_0000int);
        lemma_mul_is_commutative(y as int, pw as int);
        lemma_mul_mod_noop_left(x as int, pw as int, 0x1_0000_0000int);
    }
    ((y * pw) % 0x1_0000_0000) as u32
}

// ---------------------------------------------------------------------------
// The decoding tables

/// A decoding tree: lookup tables for short codes and thresholds for long ones.
pub struct HuffmanTree {
    hash_sym: Vec<u16>,
    hash_nb: Vec<u8>,
    hash_ok: Vec<bool>,
    single_value: Option<u16>,
    comp_vals: Vec<u32>,
    comp_nb_bits: Vec<u8>,
    comp_offset: Vec<usize>,
    comp_syms: Vec<u16>,
    lens: Ghost<Seq<u8>>,
    single: Ghost<u16>,
}

/// What a tree with the code lengths `lens` and the value `single` decodes
/// from `data[p..]`: `single`, without reading a bit, where no symbol has a
/// code; else as `tree_read` says.
pub open spec fn tree_decode(lens: Seq<u8>, single: u16, data: Seq<u8>, p: nat) -> Option<(u16, nat)> {
    if all_zero(lens) {
        Some((single, 0))
    } else {
        tree_read(lens, data, p)
    }
}

impl HuffmanTree {
    /// The code lengths this tree decodes.
    pub closed spec fn lengths(&self) -> Seq<u8> {
        self.lens@
    }

    /// What the tree decodes to when no symbol has a code.
    pub closed spec fn single(&self) -> u16 {
        self.single@
    }

    /// The tables match the code lengths and the single value.
    pub closed spec fn tables_ok(&self) -> bool {
        &&& tree_lengths_ok(self.lens@)
        &&& self.single_value == (if all_zero(self.lens@) {
            Some(self.single@)
        } else {
            None::<u16>
        })
        &&& (!all_zero(self.lens@) ==> {
            &&& hash_state(self.lens@, self.hash_sym@, self.hash_nb@, self.hash_ok@, frontier(self.lens@, 8, self.lens@.len()))
            &&& comp_state(self.lens@, self.comp_vals@, self.comp_nb_bits@, self.comp_offset@, self.comp_syms@, 33)
        })
    }

    /// A tree as the stream format builds it: its single value is the one
    /// `single_value` gives for its lengths.
    pub open spec fn wf(&self) -> bool {
        &&& self.tables_ok()
        &&& self.single() == single_value(self.lengths())
    }

    /// An empty tree.
    pub fn new() -> (r: Self)
        ensures
            r.lengths() == Seq::<u8>::empty(),
            r.wf(),
    {
        let r = HuffmanTree {
            hash_sym: Vec::new(),
            hash_nb: Vec::new(),
            hash_ok: Vec::new(),
            single_value: Some(0xFFFF),
            comp_vals: Vec::new(),
            comp_nb_bits: Vec::new(),
            comp_offset: Vec::new(),
            comp_syms: Vec::new(),
            lens: Ghost(Seq::empty()),
            single: Ghost(0xFFFF),
        };
        r
    }

    /// Builds the decoding tables for the code lengths `lengths`; a tree
    /// with no codes decodes to `single` without reading a bit.
    pub fn build(&mut self, lengths: &Vec<u8>, single: u16)
        requires
            tree_lengths_ok(lengths@),
        ensures
            final(self).tables_ok(),
            final(self).lengths() == lengths@,
            final(self).single() == single,
    {
        let ghost lens = lengths@;
        let n = lengths.len();
        let mut has_any = false;
        let mut i: usize = 0;
        while i < n
            invariant
                i <= n,
                n == lens.len(),
                lens == lengths@,
                has_any <==> exists|j: int| 0 <= j < i && lens[j] > 0,
            decreases n - i,
        {
            if lengths[i] > 0 {
                has_any = true;
            }
            i = i + 1;
        }
        if !has_any {
            *self = HuffmanTree {
                hash_sym: Vec::new(),
                hash_nb: Vec::new(),
                hash_ok: Vec::new(),
                single_value: Some(single),
                comp_vals: Vec::new(),
                comp_nb_bits: Vec::new(),
                comp_offset: Vec::new(),
                comp_syms: Vec::new(),
                lens: Ghost(lens),
                single: Ghost(single),
            };
            return;
        }
        assert(!all_zero(lens));
        let (hash_sym, hash_nb, hash_ok) = build_short(lengths);
        let (comp_vals, comp_nb_bits, comp_offset, comp_syms) = build_long(lengths);
        *self = HuffmanTree {
            hash_sym,
            hash_nb,
            hash_ok,
            single_value: None,
            comp_vals,
            comp_nb_bits,
            comp_offset,
            comp_syms,
            lens: Ghost(lens),
            single: Ghost(single),
        };
    }

    /// Decodes one symbol from `bits`.
    pub fn read_code(&self, bits: &mut BitReader) -> (r: Result<u16, Gw2Error>)
        requires
            self.tables_ok(),
            old(bits).wf(),
        ensures
            final(bits).wf(),
            final(bits).data() == old(bits).data(),
            match tree_decode(self.lengths(), self.single(), old(bits).data(), old(bits).pos()) {
                Some((sym, nb)) => r == Ok::<u16, Gw2Error>(sym) && final(bits).pos() == old(bits).pos() + nb,
                None => r == Err::<u16, Gw2Error>(Gw2Error::NoCode),
            },
    {
        let ghost lens = self.lens@;
        let ghost d = bits.data();
        let ghost p = bits.pos();
        if let Some(v) = self.single_value {
            return Ok(v);
        }
        let h = bits.peek(8) as usize;
        proof {
            lemma_value_bound(d, p, 8);
            lemma2_to64();
        }
        if self.hash_ok[h] {
            let sym = self.hash_sym[h];
            proof {
                assert(short_covers(lens, sym as nat, h as nat));
                lemma_short_unique(lens, sym as nat, short_sym(lens, h as nat), h as nat);
            }
            bits.drop(self.hash_nb[h] as u32);
            return Ok(sym);
        }
        proof {
            if short_hit(lens, h as nat) {
                lemma_short_hit_frontier(lens, h as nat);
            }
        }
        let peek32 = bits.peek(32);
        let n = self.comp_vals.len();
        proof {
            lemma_comp_entry(lens, self.comp_vals@, self.comp_nb_bits@, self.comp_offset@, self.comp_syms@, n as int);
        }
        let mut i: usize = 0;
        while i < n
            invariant
                i <= n,
                n == self.comp_vals.len(),
                comp_state(lens, self.comp_vals@, self.comp_nb_bits@, self.comp_offset@, self.comp_syms@, 33),
                !all_zero(lens),
                lens == self.lens@,
                bits.wf(),
                bits.data() == d,
                bits.pos() == p,
                d == old(bits).data(),
                p == old(bits).pos(),
                tree_read(lens, d, p) == long_read(lens, 9, peek32 as nat),
                peek32 as nat == stream_value(d, p, 32),
                long_read(lens, 9, peek32 as nat) == long_read(lens, comp_start(self.comp_nb_bits@, i as int), peek32 as nat),
            decreases n - i,
        {
            let ghost m = self.comp_nb_bits[i as int] as nat;
            proof {
                lemma_comp_entry(lens, self.comp_vals@, self.comp_nb_bits@, self.comp_offset@, self.comp_syms@, i as int);
                lemma_long_read_skip(lens, comp_start(self.comp_nb_bits@, i as int), m, peek32 as nat);
            }
            if peek32 >= self.comp_vals[i] {
                let nb = self.comp_nb_bits[i] as u32;
                let diff = peek32 - self.comp_vals[i];
                proof {
                    lemma_u32_shr_is_div(diff, (32 - nb) as u32);
                }
                let idx = (diff >> (32 - nb)) as usize;
                let offset = self.comp_offset[i];
                if idx <= offset {
                    proof {
                        lemma_long_syms_prefix(lens, m, 32);
                    }
                    bits.drop(nb);
                    return Ok(self.comp_syms[offset - idx]);
                }
                return Err(Gw2Error::NoCode);
            }
            i = i + 1;
        }
        proof {
            if n > 0 {
                lemma_comp_entry(lens, self.comp_vals@, self.comp_nb_bits@, self.comp_offset@, self.comp_syms@, n - 1);
            }
            lemma_long_read_skip(lens, comp_start(self.comp_nb_bits@, n as int), 33, peek32 as nat);
        }
        Err(Gw2Error::NoCode)
    }
}

/// What a built threshold table says of its entry `i`.
pub proof fn lemma_comp_entry(lens: Seq<u8>, cv: Seq<u32>, cn: Seq<u8>, co: Seq<usize>, cs: Seq<u16>, i: int)
    requires
        comp_state(lens, cv, cn, co, cs, 33),
    ensures
        cn.len() == cv.len(),
        co.len() == cv.len(),
        cs == long_syms(lens, 32),
        0 <= i < cv.len() ==> {
            let m = cn[i] as nat;
            &&& comp_start(cn, i) <= m <= 32
            &&& level_size(lens, m) > 0
            &&& cv[i] as int == comp_value(lens, m)
            &&& co[i] as int == long_syms(lens, m).len() - 1
            &&& forall|j: nat| comp_start(cn, i) <= j < m ==> level_size(lens, j) == 0
        },
        i == cv.len() ==> forall|j: nat| comp_start(cn, i) <= j < 33 ==> level_size(lens, j) == 0,
{
    reveal(comp_state);
}

/// Decoded symbols lie below the tree's symbol count (or are its single value).
pub proof fn lemma_tree_read_symbol(lens: Seq<u8>, data: Seq<u8>, p: nat)
    requires
        tree_lengths_ok(lens),
        !all_zero(lens),
    ensures
        tree_read(lens, data, p) matches Some((s, nb)) ==> (s as nat) < lens.len() && nb <= 32,
{
    let h = stream_value(data, p, 8);
    if short_hit(lens, h) {
        let s = short_sym(lens, h);
        assert(short_covers(lens, s, h));
    } else {
        lemma_long_read_symbol(lens, 9, stream_value(data, p, 32));
    }
}

proof fn lemma_long_read_symbol(lens: Seq<u8>, nb: nat, peek: nat)
    requires
        tree_lengths_ok(lens),
    ensures
        long_read(lens, nb, peek) matches Some((s, m)) ==> (s as nat) < lens.len() && m <= 32,
    decreases 33 - nb,
{
    if nb <= 32 {
        lemma_long_read_symbol(lens, nb + 1, peek);
        lemma_long_syms_bound(lens, nb);
        lemma_pow2_pos((32 - nb) as nat);
        if level_size(lens, nb) > 0 && peek >= comp_value(lens, nb) {
            let idx = (peek - comp_value(lens, nb)) / (pow2((32 - nb) as nat) as int);
            let off = long_syms(lens, nb).len() - 1;
            assert(idx >= 0);
            if idx <= off {
                assert(0 <= off - idx < long_syms(lens, nb).len());
            }
        }
    }
}

proof fn lemma_long_syms_bound(lens: Seq<u8>, nb: nat)
    requires
        tree_lengths_ok(lens),
    ensures
        forall|j: int| 0 <= j < long_syms(lens, nb).len() ==> (#[trigger] long_syms(lens, nb)[j] as nat) < lens.len(),
    decreases nb,
{
    if nb > 8 {
        lemma_long_syms_bound(lens, (nb - 1) as nat);
        lemma_syms_with_len(lens, lens.len(), nb);
        let a = long_syms(lens, (nb - 1) as nat);
        let b = syms_with_len(lens, lens.len(), nb);
        assert forall|j: int| 0 <= j < (a + b).len() implies ((a + b)[j] as nat) < lens.len() by {
            if j >= a.len() {
                assert((a + b)[j] == b[j - a.len()]);
            }
        }
    }
}

/// Where the levels after comparison entry `i - 1` start.
pub open spec fn comp_start(cn: Seq<u8>, i: int) -> nat {
    if i <= 0 { 9 } else { (cn[i - 1] + 1) as nat }
}

/// Levels without codes are passed over.
pub proof fn lemma_long_read_skip(lens: Seq<u8>, a: nat, b: nat, peek: nat)
    requires
        a <= b <= 33,
        forall|j: nat| a <= j < b ==> level_size(lens, j) == 0,
    ensures
        long_read(lens, a, peek) == long_read(lens, b, peek),
    decreases b - a,
{
    if a < b {
        lemma_long_read_skip(lens, a + 1, b, peek);
    }
}

/// The long symbols up to a length start the long symbols up to a greater one.
pub proof fn lemma_long_syms_prefix(lens: Seq<u8>, a: nat, b: nat)
    requires
        a <= b,
    ensures
        long_syms(lens, a).len() <= long_syms(lens, b).len(),
        forall|j: int| 0 <= j < long_syms(lens, a).len() ==> long_syms(lens, b)[j] == long_syms(lens, a)[j],
    decreases b - a,
{
    if a < b {
        lemma_long_syms_prefix(lens, a, (b - 1) as nat);
    }
}

/// Bounds that keep the running code inside an `i64`.
pub proof fn lemma_first_code_small(lens: Seq<u8>, nb: nat)
    requires
        lens.len() <= 0x10000,
        nb <= 32,
    ensures
        -0x4_0000_0000_0000 <= first_code(lens, nb) <= 0x1_0000_0000,
        pow2(nb) <= 0x1_0000_0000,
{
    lemma_first_code_bounds(lens, nb);
    lemma2_to64();
    if nb < 32 {
        lemma_pow2_strictly_increases(nb, 32);
    }
    let n = lens.len() as int;
    let p = pow2(nb) as int;
    lemma_pow2_pos(nb);
    assert(-2 * n * (p - 1) >= -0x4_0000_0000_0000) by (nonlinear_arith)
        requires
            0 <= n <= 0x10000,
            1 <= p <= 0x1_0000_0000,
    ;
}

/// The first code of length `nb`.
pub fn first_code_at(lengths: &Vec<u8>, nb: usize) -> (r: i64)
    requires
        tree_lengths_ok(lengths@),
        1 <= nb <= 32,
    ensures
        r as int == first_code(lengths@, nb as nat),
{
    let ghost lens = lengths@;
    let n = lengths.len();
    proof {
        assert(first_code(lens, 0) == 0);
        assert(first_code(lens, 1) == 1);
    }
    let mut acode: i64 = 1;
    let mut l: usize = 1;
    while l < nb
        invariant
            1 <= l <= nb <= 32,
            n == lens.len(),
            lens == lengths@,
            tree_lengths_ok(lens),
            acode as int == first_code(lens, l as nat),
        decreases nb - l,
    {
        let mut cnt: i64 = 0;
        let mut k: usize = 0;
        while k < n
            invariant
                k <= n,
                n == lens.len(),
                lens == lengths@,
                cnt as int == count_len(lens, k as nat, l as nat),
                cnt <= k,
                n <= 0x10000,
            decreases n - k,
        {
            if lengths[k] as usize == l {
                cnt = cnt + 1;
            }
            k = k + 1;
        }
        proof {
            lemma_first_code_small(lens, l as nat);
            lemma_first_code_small(lens, (l + 1) as nat);
        }
        acode = 2 * (acode - cnt) + 1;
        l = l + 1;
    }
    acode
}

/// The short-code table holds, for each 8-bit value at or above `fr`, the
/// symbol whose code covers it.
pub open spec fn hash_state(lens: Seq<u8>, hs: Seq<u16>, hn: Seq<u8>, ho: Seq<bool>, fr: int) -> bool {
    &&& hs.len() == 256
    &&& hn.len() == 256
    &&& ho.len() == 256
    &&& forall|x: int| 0 <= x < 256 ==> (#[trigger] ho[x] <==> x >= fr)
    &&& forall|x: int|
        0 <= x < 256 && #[trigger] ho[x] ==> {
            &&& short_covers(lens, hs[x] as nat, x as nat)
            &&& hn[x] == lens[hs[x] as int]
        }
}

/// Serves the codes of length `nb` (1 to 8) into the short-code table.
fn fill_short_level(lengths: &Vec<u8>, nb: usize, hash_sym: &mut Vec<u16>, hash_nb: &mut Vec<u8>, hash_ok: &mut Vec<bool>)
    requires
        tree_lengths_ok(lengths@),
        1 <= nb <= 8,
        hash_state(lengths@, old(hash_sym)@, old(hash_nb)@, old(hash_ok)@, frontier(lengths@, nb as nat, 0)),
    ensures
        hash_state(lengths@, final(hash_sym)@, final(hash_nb)@, final(hash_ok)@, frontier(lengths@, nb as nat, lengths@.len())),
{
    let ghost lens = lengths@;
    let n = lengths.len();
    let mut acode = first_code_at(lengths, nb);
    proof {
        lemma_first_code_bounds(lens, nb as nat);
        lemma_first_code_small(lens, nb as nat);
    }
    let mut k: usize = 0;
    while k < n
        invariant
            1 <= nb <= 8,
            k <= n,
            n == lens.len(),
            lens == lengths@,
            tree_lengths_ok(lens),
            n <= 0x10000,
            acode as int == first_code(lens, nb as nat) - count_len(lens, k as nat, nb as nat),
            first_code(lens, nb as nat) <= pow2(nb as nat) - 1,
            -0x4_0000_0000_0000 <= first_code(lens, nb as nat),
            hash_state(lens, hash_sym@, hash_nb@, hash_ok@, frontier(lens, nb as nat, k as nat)),
        decreases n - k,
    {
        let ghost fr = frontier(lens, nb as nat, k as nat);
        proof {
            lemma_frontier_step(lens, nb as nat, k as nat);
            lemma_count_le(lens, k as nat, nb as nat);
            lemma_pow2_strictly_increases(nb as nat, 9);
            lemma2_to64();
        }
        if lengths[k] as usize == nb {
            if acode >= 0 {
                let shift = (8 - nb) as u32;
                let pw = pow2_u64(shift) as usize;
                proof {
                    lemma_pow2_pos(shift as nat);
                    lemma_pow2_adds(nb as nat, shift as nat);
                    assert((acode + 1) * pw <= pow2(nb as nat) * pw) by (nonlinear_arith)
                        requires
                            acode + 1 <= pow2(nb as nat),
                            pw >= 0,
                    ;
                    assert(pow2(nb as nat) * pow2(shift as nat) == 256);
                    assert((acode + 1) * pw == acode * pw + pw) by (nonlinear_arith);
                }
                let base = (acode as usize) * pw;
                let next = base + pw;
                let mut hh = base;
                while hh < next
                    invariant
                        base <= hh <= next,
                        next <= 256,
                        next as int == fr,
                        fr == frontier(lens, nb as nat, k as nat),
                        base as int == frontier(lens, nb as nat, (k + 1) as nat),
                        k < n,
                        n == lens.len(),
                        n <= 0x10000,
                        lens == lengths@,
                        lens[k as int] as nat == nb,
                        1 <= nb <= 8,
                        acode >= 0,
                        acode as int == code_of(lens, k as nat),
                        hash_sym@.len() == 256,
                        hash_nb@.len() == 256,
                        hash_ok@.len() == 256,
                        forall|x: int|
                            0 <= x < 256 ==> (#[trigger] hash_ok@[x] <==> (x >= fr || (base <= x
                                < hh))),
                        forall|x: int|
                            0 <= x < 256 && #[trigger] hash_ok@[x] ==> {
                                &&& short_covers(lens, hash_sym@[x] as nat, x as nat)
                                &&& hash_nb@[x] == lens[hash_sym@[x] as int]
                            },
                    decreases next - hh,
                {
                    proof {
                        lemma_short_covers_frontier(lens, k as nat, hh as nat);
                        assert(short_covers(lens, k as nat, hh as nat));
                    }
                    let ghost old_ok = hash_ok@;
                    let ghost old_sym = hash_sym@;
                    let ghost old_nb = hash_nb@;
                    hash_ok.set(hh, true);
                    hash_sym.set(hh, k as u16);
                    hash_nb.set(hh, nb as u8);
                    proof {
                        assert forall|x: int| 0 <= x < 256 && #[trigger] hash_ok@[x] implies {
                            &&& short_covers(lens, hash_sym@[x] as nat, x as nat)
                            &&& hash_nb@[x] == lens[hash_sym@[x] as int]
                        } by {
                            if x != hh {
                                assert(old_ok[x]);
                                assert(hash_sym@[x] == old_sym[x]);
                                assert(hash_nb@[x] == old_nb[x]);
                            } else {
                                assert(hash_sym@[x] as nat == k);
                            }
                        }
                    }
                    hh = hh + 1;
                }
            } else {
                proof {
                    let pw = pow2((8 - nb) as nat) as int;
                    lemma_pow2_pos((8 - nb) as nat);
                    assert((acode + 1) * pw <= 0) by (nonlinear_arith)
                        requires
                            acode + 1 <= 0,
                            pw > 0,
                    ;
                    assert(fr <= 0);
                }
            }
            acode = acode - 1;
        }
        k = k + 1;
    }
}

/// The short-code table for the lengths `lengths` (which are not all zero).
fn build_short(lengths: &Vec<u8>) -> (r: (Vec<u16>, Vec<u8>, Vec<bool>))
    requires
        tree_lengths_ok(lengths@),
    ensures
        hash_state(lengths@, r.0@, r.1@, r.2@, frontier(lengths@, 8, lengths@.len())),
{
    let ghost lens = lengths@;
    let mut hash_sym: Vec<u16> = Vec::new();
    let mut hash_nb: Vec<u8> = Vec::new();
    let mut hash_ok: Vec<bool> = Vec::new();
    let mut h: usize = 0;
    while h < 256
        invariant
            h <= 256,
            hash_sym.len() == h,
            hash_nb.len() == h,
            hash_ok.len() == h,
            forall|x: int| 0 <= x < h ==> !hash_ok[x],
        decreases 256 - h,
    {
        hash_sym.push(0);
        hash_nb.push(0);
        hash_ok.push(false);
        h = h + 1;
    }
    proof {
        lemma_frontier_start(lens, 1);
    }
    let mut nb: usize = 1;
    while nb <= 8
        invariant
            1 <= nb <= 9,
            lens == lengths@,
            tree_lengths_ok(lens),
            nb <= 8 ==> hash_state(lens, hash_sym@, hash_nb@, hash_ok@, frontier(lens, nb as nat, 0)),
            nb == 9 ==> hash_state(lens, hash_sym@, hash_nb@, hash_ok@, frontier(lens, 8, lens.len())),
        decreases 9 - nb,
    {
        fill_short_level(lengths, nb, &mut hash_sym, &mut hash_nb, &mut hash_ok);
        nb = nb + 1;
        proof {
            if nb <= 8 {
                lemma_frontier_start(lens, nb as nat);
            }
        }
    }
    (hash_sym, hash_nb, hash_ok)
}

/// The thresholds of the levels 9 to `nb - 1` are built.
#[verifier::opaque]
pub open spec fn comp_state(lens: Seq<u8>, cv: Seq<u32>, cn: Seq<u8>, co: Seq<usize>, cs: Seq<u16>, nb: nat) -> bool {
    &&& cn.len() == cv.len()
    &&& co.len() == cv.len()
    &&& cs == long_syms(lens, (nb - 1) as nat)
    &&& forall|i: int|
        0 <= i < cv.len() ==> {
            let m = #[trigger] cn[i] as nat;
            &&& (if i == 0 { 9 } else { cn[i - 1] + 1 }) <= m < nb
            &&& level_size(lens, m) > 0
            &&& cv[i] as int == comp_value(lens, m)
            &&& co[i] as int == long_syms(lens, m).len() - 1
            &&& forall|j: nat| (if i == 0 { 9 } else { cn[i - 1] + 1 }) <= j < m ==> level_size(lens, j) == 0
        }
    &&& forall|j: nat| (if cv.len() == 0 { 9 } else { cn[cv.len() - 1] + 1 }) <= j < nb ==> level_size(lens, j) == 0
}

/// Adds the level of codes of length `nb` (9 to 32).
#[verifier::rlimit(40)]
fn add_long_level(lengths: &Vec<u8>, nb: usize, comp_vals: &mut Vec<u32>, comp_nb_bits: &mut Vec<u8>, comp_offset: &mut Vec<usize>, comp_syms: &mut Vec<u16>)
    requires
        tree_lengths_ok(lengths@),
        9 <= nb <= 32,
        comp_state(lengths@, old(comp_vals)@, old(comp_nb_bits)@, old(comp_offset)@, old(comp_syms)@, nb as nat),
    ensures
        comp_state(lengths@, final(comp_vals)@, final(comp_nb_bits)@, final(comp_offset)@, final(comp_syms)@, (nb + 1) as nat),
{
    let ghost lens = lengths@;
    let n = lengths.len();
    let mut acode = first_code_at(lengths, nb);
    proof {
        lemma_first_code_small(lens, nb as nat);
        reveal(comp_state);
    }
    let start_len = comp_syms.len();
    let mut k: usize = 0;
    while k < n
        invariant
            9 <= nb <= 32,
            k <= n,
            n == lens.len(),
            lens == lengths@,
            tree_lengths_ok(lens),
            acode as int == first_code(lens, nb as nat) - count_len(lens, k as nat, nb as nat),
            -0x4_0000_0000_0000 <= first_code(lens, nb as nat) <= 0x1_0000_0000,
            n <= 0x10000,
            start_len == long_syms(lens, (nb - 1) as nat).len(),
            comp_syms@ == long_syms(lens, (nb - 1) as nat) + syms_with_len(lens, k as nat, nb as nat),
        decreases n - k,
    {
        proof {
            lemma_count_le(lens, k as nat, nb as nat);
        }
        if lengths[k] as usize == nb {
            comp_syms.push(k as u16);
            acode = acode - 1;
        }
        k = k + 1;
    }
    proof {
        lemma_count_le(lens, n as nat, nb as nat);
        assert(long_syms(lens, nb as nat) == long_syms(lens, (nb - 1) as nat) + syms_with_len(
            lens,
            lens.len(),
            nb as nat,
        ));
    }
    if comp_syms.len() > start_len {
        let comp = comp_threshold(acode + 1, (32 - nb) as u32);
        comp_vals.push(comp);
        comp_nb_bits.push(nb as u8);
        comp_offset.push(comp_syms.len() - 1);
    }
    proof {
        reveal(comp_state);
    }
}

/// The long-code thresholds for the lengths `lengths`.
fn build_long(lengths: &Vec<u8>) -> (r: (Vec<u32>, Vec<u8>, Vec<usize>, Vec<u16>))
    requires
        tree_lengths_ok(lengths@),
    ensures
        comp_state(lengths@, r.0@, r.1@, r.2@, r.3@, 33),
{
    let mut comp_vals: Vec<u32> = Vec::new();
    let mut comp_nb_bits: Vec<u8> = Vec::new();
    let mut comp_offset: Vec<usize> = Vec::new();
    let mut comp_syms: Vec<u16> = Vec::new();
    let mut nb: usize = 9;
    proof {
        reveal(comp_state);
    }
    while nb <= 32
        invariant
            9 <= nb <= 33,
            tree_lengths_ok(lengths@),
            comp_state(lengths@, comp_vals@, comp_nb_bits@, comp_offset@, comp_syms@, nb as nat),
        decreases 33 - nb,
    {
        add_long_level(lengths, nb, &mut comp_vals, &mut comp_nb_bits, &mut comp_offset, &mut comp_syms);
        nb = nb + 1;
    }
    (comp_vals, comp_nb_bits, comp_offset, comp_syms)
}

} // verus!
