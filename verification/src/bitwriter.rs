//! Writing a GW2 bit stream: bits are packed into little-endian 32-bit
//! words from the most significant bit down, with a zero 4-byte checksum
//! slot before every 16384th word.

use vstd::prelude::*;
use vstd::arithmetic::power2::*;
use vstd::arithmetic::div_mod::*;
use vstd::arithmetic::mul::*;
use crate::bytes::le16;
use crate::bytes::le32;
use crate::bitstream::word_offset;
use crate::bitstream::has_word;
use crate::bitstream::word_value;
use crate::bitstream::stream_bit;
use crate::bitstream::stream_value;
use crate::bitstream::lemma_word_offset_mono;

verus! {

/// Bit `i` of the written bits `w` (0 or 1); past the end, 0.
pub open spec fn wbit(w: Seq<bool>, i: nat) -> nat {
    if i < w.len() && w[i as int] { 1 } else { 0 }
}

/// The `n` written bits from bit `p`, as a big-endian number.
pub open spec fn wvalue(w: Seq<bool>, p: nat, n: nat) -> nat
    decreases n,
{
    if n == 0 {
        0
    } else {
        2 * wvalue(w, p, (n - 1) as nat) + wbit(w, (p + n - 1) as nat)
    }
}

/// The bits of the number `v` written in `n` bits, most significant first.
pub open spec fn bits_of(v: nat, n: nat) -> Seq<bool>
    decreases n,
{
    if n == 0 {
        seq![]
    } else {
        bits_of(v / 2, (n - 1) as nat).push(v % 2 == 1)
    }
}

/// The four little-endian bytes of `x`.
pub open spec fn le_bytes(x: nat) -> Seq<u8> {
    seq![(x % 256) as u8, ((x / 256) % 256) as u8, ((x / 65536) % 256) as u8, ((x / 16777216) % 256) as u8]
}

/// The bytes holding the first `k` words of the bits `w`.
pub open spec fn emitted(w: Seq<bool>, k: nat) -> Seq<u8>
    decreases k,
{
    if k == 0 {
        seq![]
    } else {
        let j = (k - 1) as nat;
        let gap: Seq<u8> = if j > 0 && j % 16384 == 0 { seq![0u8, 0u8, 0u8, 0u8] } else { seq![] };
        emitted(w, j) + gap + le_bytes(wvalue(w, 32 * j, 32))
    }
}

/// How many words the bits `w` fill, the last one padded with zeros.
pub open spec fn word_count(w: Seq<bool>) -> nat {
    (w.len() + 31) as nat / 32
}

/// The bytes a writer produces for the bits `w`.
pub open spec fn written_bytes(w: Seq<bool>) -> Seq<u8> {
    emitted(w, word_count(w))
}

pub proof fn lemma_wvalue_bound(w: Seq<bool>, p: nat, n: nat)
    ensures
        wvalue(w, p, n) < pow2(n),
    decreases n,
{
    if n == 0 {
        lemma2_to64();
    } else {
        lemma_wvalue_bound(w, p, (n - 1) as nat);
        lemma_pow2_unfold(n);
    }
}

pub proof fn lemma_wvalue_split(w: Seq<bool>, p: nat, a: nat, b: nat)
    ensures
        wvalue(w, p, a + b) == wvalue(w, p, a) * pow2(b) + wvalue(w, p + a, b),
    decreases b,
{
    if b == 0 {
        lemma2_to64();
    } else {
        lemma_wvalue_split(w, p, a, (b - 1) as nat);
        lemma_pow2_unfold(b);
        assert(wvalue(w, p, a + b) == 2 * wvalue(w, p, (a + b - 1) as nat) + wbit(w, (p + a + b - 1) as nat));
        assert(wvalue(w, p + a, b) == 2 * wvalue(w, p + a, (b - 1) as nat) + wbit(w, (p + a + b - 1) as nat));
        let x = wvalue(w, p, a);
        let y = pow2((b - 1) as nat);
        assert(2 * (x * y) == x * (2 * y)) by (nonlinear_arith);
    }
}

/// Appending bits leaves the value of earlier bits unchanged.
pub proof fn lemma_wvalue_append(w: Seq<bool>, x: Seq<bool>, p: nat, n: nat)
    requires
        p + n <= w.len(),
    ensures
        wvalue(w + x, p, n) == wvalue(w, p, n),
    decreases n,
{
    if n > 0 {
        lemma_wvalue_append(w, x, p, (n - 1) as nat);
    }
}

/// Bits past the end read as zero.
pub proof fn lemma_wvalue_past_end(w: Seq<bool>, p: nat, n: nat)
    requires
        p >= w.len(),
    ensures
        wvalue(w, p, n) == 0,
    decreases n,
{
    if n > 0 {
        lemma_wvalue_past_end(w, p, (n - 1) as nat);
    }
}

/// The bits of a number read back as the number.
pub proof fn lemma_bits_of(w: Seq<bool>, v: nat, n: nat)
    requires
        v < pow2(n),
    ensures
        bits_of(v, n).len() == n,
        wvalue(w + bits_of(v, n), w.len(), n) == v,
    decreases n,
{
    if n == 0 {
        lemma2_to64();
        assert(v == 0);
    } else {
        lemma_pow2_unfold(n);
        let b = bits_of(v / 2, (n - 1) as nat);
        lemma_div_is_ordered(v as int, pow2(n) as int - 1, 2);
        assert(v / 2 < pow2((n - 1) as nat)) by {
            lemma_fundamental_div_mod(v as int, 2);
        }
        lemma_bits_of(w, v / 2, (n - 1) as nat);
        let ww = w + b.push(v % 2 == 1);
        assert(w + b.push(v % 2 == 1) == (w + b).push(v % 2 == 1));
        lemma_wvalue_append(w + b, seq![v % 2 == 1], w.len(), (n - 1) as nat);
        assert((w + b) + seq![v % 2 == 1] == (w + b).push(v % 2 == 1));
        assert(wbit(ww, (w.len() + n - 1) as nat) == v % 2);
        lemma_fundamental_div_mod(v as int, 2);
    }
}

pub proof fn lemma_le_bytes(x: nat)
    requires
        x < 0x1_0000_0000,
    ensures
        le_bytes(x).len() == 4,
        le32(le_bytes(x), 0) == x,
{
    let b = le_bytes(x);
    lemma_fundamental_div_mod(x as int, 256);
    lemma_fundamental_div_mod(x as int / 256, 256);
    lemma_fundamental_div_mod(x as int / 65536, 256);
    lemma_div_denominator(x as int, 256, 256);
    lemma_div_denominator(x as int, 65536, 256);
    assert(x / 16777216 < 256) by {
        lemma_div_is_ordered(x as int, 0xFFFF_FFFF, 16777216);
    }
    assert(le16(b, 0) == x % 65536) by {
        lemma_fundamental_div_mod(x as int, 65536);
        lemma_mod_breakdown(x as int, 256, 256);
    }
    assert(le16(b, 2) == x / 65536) by {
        lemma_div_is_ordered(x as int, 0xFFFF_FFFF, 65536);
    }
    lemma_fundamental_div_mod(x as int, 65536);
}

pub proof fn lemma_emitted_len(w: Seq<bool>, k: nat)
    ensures
        k > 0 ==> emitted(w, k).len() == word_offset((k - 1) as nat) + 4,
        k == 0 ==> emitted(w, k).len() == 0,
    decreases k,
{
    if k > 0 {
        let j = (k - 1) as nat;
        lemma_emitted_len(w, j);
        if j > 0 {
            let q = j / 16384;
            let r = j % 16384;
            lemma_fundamental_div_mod(j as int, 16384);
            if r == 0 {
                lemma_fundamental_div_mod_converse((j - 1) as int, 16384, q - 1, 16383);
            } else {
                lemma_fundamental_div_mod_converse((j - 1) as int, 16384, q as int, r - 1);
            }
        }
    }
}

/// Emitting more words keeps the earlier bytes.
pub proof fn lemma_emitted_prefix(w: Seq<bool>, j: nat, k: nat)
    requires
        j <= k,
    ensures
        emitted(w, j).len() <= emitted(w, k).len(),
        forall|i: int| 0 <= i < emitted(w, j).len() ==> emitted(w, k)[i] == emitted(w, j)[i],
    decreases k - j,
{
    if j < k {
        lemma_emitted_prefix(w, j, (k - 1) as nat);
    }
}

/// Word `k` of the written bytes is word `k` of the bits.
pub proof fn lemma_emitted_word(w: Seq<bool>, k: nat, m: nat)
    requires
        k < m,
    ensures
        has_word(emitted(w, m), k),
        word_value(emitted(w, m), k) == wvalue(w, 32 * k, 32),
{
    lemma_emitted_len(w, k + 1);
    lemma_emitted_len(w, m);
    lemma_word_offset_mono(k, (m - 1) as nat);
    lemma_emitted_prefix(w, k + 1, m);
    let e = emitted(w, k + 1);
    let x = wvalue(w, 32 * k, 32);
    lemma_wvalue_bound(w, 32 * k, 32);
    lemma2_to64();
    lemma_le_bytes(x);
    let o = word_offset(k) as int;
    assert(e.subrange(o, o + 4) == le_bytes(x));
    assert(le32(emitted(w, m), o) == le32(le_bytes(x), 0));
}

/// Past the last emitted word there is no word.
pub proof fn lemma_emitted_no_word(w: Seq<bool>, k: nat, m: nat)
    requires
        k >= m,
    ensures
        !has_word(emitted(w, m), k),
{
    lemma_emitted_len(w, m);
    if m > 0 {
        lemma_word_offset_mono(m, k);
        lemma_div_is_ordered((m - 1) as int, m as int, 16384);
    }
}

proof fn lemma_word_bits(w: Seq<bool>, k: nat, j: nat)
    requires
        j < 32,
    ensures
        (wvalue(w, 32 * k, 32) / pow2((31 - j) as nat)) % 2 == wbit(w, 32 * k + j),
{
    let e = (31 - j) as nat;
    lemma_wvalue_split(w, 32 * k, j + 1, e);
    lemma_wvalue_bound(w, 32 * k + j + 1, e);
    lemma_pow2_pos(e);
    lemma_fundamental_div_mod_converse(
        wvalue(w, 32 * k, 32) as int,
        pow2(e) as int,
        wvalue(w, 32 * k, j + 1) as int,
        wvalue(w, 32 * k + j + 1, e) as int,
    );
    let v = wvalue(w, 32 * k, j);
    assert(wvalue(w, 32 * k, j + 1) == 2 * v + wbit(w, 32 * k + j));
    lemma_fundamental_div_mod_converse((2 * v + wbit(w, 32 * k + j)) as int, 2, v as int, wbit(w, 32 * k + j) as int);
}

/// A reader of the written bytes reads the written bits, then zeros.
pub proof fn lemma_written_bit(w: Seq<bool>, i: nat)
    ensures
        stream_bit(written_bytes(w), i) == wbit(w, i),
{
    let m = word_count(w);
    let d = written_bytes(w);
    let k = i / 32;
    let j = i % 32;
    lemma_fundamental_div_mod(i as int, 32);
    if k < m {
        lemma_emitted_word(w, k, m);
        lemma_word_bits(w, k, j);
    } else {
        lemma_emitted_no_word(w, k, m);
        assert(i >= w.len()) by {
            lemma_fundamental_div_mod((w.len() + 31) as int, 32);
        }
    }
}

/// Reading the written bytes gives the written bits (and zeros past them).
pub proof fn lemma_written_value(w: Seq<bool>, p: nat, n: nat)
    ensures
        stream_value(written_bytes(w), p, n) == wvalue(w, p, n),
    decreases n,
{
    if n > 0 {
        lemma_written_value(w, p, (n - 1) as nat);
        lemma_written_bit(w, (p + n - 1) as nat);
    }
}

/// Appending bits leaves the bytes of earlier whole words unchanged.
pub proof fn lemma_emitted_append(w: Seq<bool>, x: Seq<bool>, k: nat)
    requires
        32 * k <= w.len(),
    ensures
        emitted(w + x, k) == emitted(w, k),
    decreases k,
{
    if k > 0 {
        lemma_emitted_append(w, x, (k - 1) as nat);
        lemma_wvalue_append(w, x, (32 * (k - 1)) as nat, 32);
    }
}

/// A writer of GW2 bit streams; `bits()` are the bits written so far.
pub struct BitWriter {
    val: u64,
    nbits: u32,
    out: Vec<u8>,
    words_written: u64,
    bits: Ghost<Seq<bool>>,
}

impl BitWriter {
    pub closed spec fn bits(&self) -> Seq<bool> {
        self.bits@
    }

    pub closed spec fn wf(&self) -> bool {
        &&& self.nbits < 32
        &&& self.bits@.len() == 32 * self.words_written + self.nbits
        &&& self.val as nat == wvalue(self.bits@, 32 * self.words_written as nat, self.nbits as nat)
        &&& self.out@ == emitted(self.bits@, self.words_written as nat)
        &&& self.bits@.len() <= 32 * 0x1_0000_0000_0000
    }

    /// A writer with nothing written.
    pub fn new() -> (r: Self)
        ensures
            r.wf(),
            r.bits() == Seq::<bool>::empty(),
    {
        BitWriter { val: 0, nbits: 0, out: Vec::new(), words_written: 0, bits: Ghost(Seq::empty()) }
    }

    fn push_word(&mut self, word: u32)
        requires
            old(self).words_written < 0x1_0000_0000_0000,
        ensures
            final(self).out@ == old(self).out@ + (if old(self).words_written > 0 && old(self).words_written % 16384 == 0 {
                seq![0u8, 0u8, 0u8, 0u8]
            } else {
                Seq::<u8>::empty()
            }) + le_bytes(word as nat),
            final(self).words_written == old(self).words_written + 1,
            final(self).val == old(self).val,
            final(self).nbits == old(self).nbits,
            final(self).bits == old(self).bits,
    {
        let ghost o = self.out@;
        if self.words_written > 0 && self.words_written % 16384 == 0 {
            self.out.push(0);
            self.out.push(0);
            self.out.push(0);
            self.out.push(0);
        }
        let ghost o2 = self.out@;
        self.out.push((word % 256) as u8);
        self.out.push(((word / 256) % 256) as u8);
        self.out.push(((word / 65536) % 256) as u8);
        self.out.push(((word / 16777216) % 256) as u8);
        self.words_written = self.words_written + 1;
        assert(self.out@ =~= o2 + le_bytes(word as nat));
    }

    fn flush_word(&mut self)
        requires
            old(self).nbits >= 32,
            old(self).nbits < 64,
            old(self).bits@.len() == 32 * old(self).words_written + old(self).nbits,
            old(self).val as nat == wvalue(old(self).bits@, 32 * old(self).words_written as nat, old(self).nbits as nat),
            old(self).out@ == emitted(old(self).bits@, old(self).words_written as nat),
            old(self).words_written < 0x1_0000_0000_0000,
        ensures
            final(self).nbits == old(self).nbits - 32,
            final(self).words_written == old(self).words_written + 1,
            final(self).bits == old(self).bits,
            final(self).bits@.len() == 32 * final(self).words_written + final(self).nbits,
            final(self).val as nat == wvalue(final(self).bits@, 32 * final(self).words_written as nat, final(self).nbits as nat),
            final(self).out@ == emitted(final(self).bits@, final(self).words_written as nat),
    {
        let ghost w = self.bits@;
        let ghost ww = self.words_written as nat;
        let rest = self.nbits - 32;
        let pw = crate::huffman::pow2_u64(rest);
        proof {
            lemma_wvalue_split(w, 32 * ww, 32, rest as nat);
            lemma_wvalue_bound(w, 32 * ww, 32);
            lemma_wvalue_bound(w, 32 * ww + 32, rest as nat);
            lemma_pow2_pos(rest as nat);
            lemma_fundamental_div_mod_converse(
                self.val as int,
                pw as int,
                wvalue(w, 32 * ww, 32) as int,
                wvalue(w, 32 * ww + 32, rest as nat) as int,
            );
            lemma2_to64();
        }
        let word = (self.val / pw) as u32;
        self.val = self.val % pw;
        self.nbits = rest;
        self.push_word(word);
        proof {
            assert(32 * (ww + 1) == 32 * ww + 32);
        }
    }

    /// Writes the low `n` bits of `value`, most significant first.
    pub fn write_bits(&mut self, value: u32, n: u32)
        requires
            old(self).wf(),
            n <= 32,
            (value as nat) < pow2(n as nat),
            old(self).bits().len() + n <= 32 * 0x1_0000_0000_0000,
        ensures
            final(self).wf(),
            final(self).bits() == old(self).bits() + bits_of(value as nat, n as nat),
    {
        if n == 0 {
            proof {
                assert(bits_of(value as nat, 0) =~= Seq::<bool>::empty());
                assert(old(self).bits() + bits_of(value as nat, 0) =~= old(self).bits());
            }
            return;
        }
        let ghost w = self.bits@;
        let ghost ww = self.words_written as nat;
        let ghost x = bits_of(value as nat, n as nat);
        let pw = crate::huffman::pow2_u64(n);
        proof {
            lemma_bits_of(w, value as nat, n as nat);
            lemma_wvalue_split(w + x, 32 * ww, self.nbits as nat, n as nat);
            lemma_wvalue_append(w, x, 32 * ww, self.nbits as nat);
            lemma_wvalue_bound(w, 32 * ww, self.nbits as nat);
            lemma_emitted_append(w, x, ww);
            lemma_pow2_strictly_increases(self.nbits as nat, 32);
            if n < 32 {
                lemma_pow2_strictly_increases(n as nat, 32);
            }
            lemma2_to64();
            assert(self.val * pw + value < 0x1_0000_0000 * 0x1_0000_0000) by (nonlinear_arith)
                requires
                    self.val < 0x8000_0000,
                    pw <= 0x1_0000_0000,
                    value < pw,
            ;
        }
        self.val = self.val * pw + value as u64;
        self.nbits = self.nbits + n;
        self.bits = Ghost(w + x);
        while self.nbits >= 32
            invariant
                self.nbits < 64,
                self.bits@ == w + x,
                self.bits@.len() == 32 * self.words_written + self.nbits,
                self.val as nat == wvalue(self.bits@, 32 * self.words_written as nat, self.nbits as nat),
                self.out@ == emitted(self.bits@, self.words_written as nat),
                self.bits@.len() <= 32 * 0x1_0000_0000_0000,
            decreases self.nbits,
        {
            self.flush_word();
        }
    }

    /// Pads the last word with zeros and hands back the bytes.
    pub fn finish(self) -> (r: Vec<u8>)
        requires
            self.wf(),
        ensures
            r@ == written_bytes(self.bits()),
    {
        let mut me = self;
        let ghost w = me.bits@;
        let ghost ww = me.words_written as nat;
        if me.nbits > 0 {
            let sh = 32 - me.nbits;
            let pw = crate::huffman::pow2_u64(sh);
            proof {
                lemma_wvalue_split(w, 32 * ww, me.nbits as nat, sh as nat);
                lemma_wvalue_past_end(w, (32 * ww + me.nbits) as nat, sh as nat);
                lemma_wvalue_bound(w, 32 * ww, 32);
                lemma2_to64();
                assert(me.val * pw == wvalue(w, 32 * ww, 32));
                assert(word_count(w) == ww + 1) by {
                    lemma_fundamental_div_mod_converse((w.len() + 31) as int, 32, (ww + 1) as int, (me.nbits - 1) as int);
                }
            }
            let word = (me.val * pw) as u32;
            me.push_word(word);
        } else {
            proof {
                assert(word_count(w) == ww) by {
                    lemma_fundamental_div_mod_converse((w.len() + 31) as int, 32, ww as int, 31);
                }
            }
        }
        me.out
    }
}

} // verus!
