//! The bit stream under GW2's compressed entries.
//!
//! Bytes are grouped into little-endian 32-bit words and each word is read
//! from its most significant bit down.  After every 16384 words the stream
//! holds a 4-byte block checksum, which readers skip and writers fill with
//! zero.  Past the last whole word the stream reads as zero bits.

use vstd::prelude::*;
use vstd::arithmetic::power2::*;
use vstd::arithmetic::div_mod::*;
use vstd::arithmetic::mul::*;
use vstd::bits::*;
use crate::bytes::le32;
use crate::bytes::read_le32;

verus! {

/// Byte offset of the `k`-th 32-bit word of the stream (a 4-byte checksum
/// follows every 16384 words).
pub open spec fn word_offset(k: nat) -> nat {
    4 * k + 4 * (k / 16384)
}

/// Whether the `k`-th word lies wholly inside `data`.
pub open spec fn has_word(data: Seq<u8>, k: nat) -> bool {
    word_offset(k) + 4 <= data.len()
}

/// The `k`-th word of the stream.
pub open spec fn word_value(data: Seq<u8>, k: nat) -> nat {
    le32(data, word_offset(k) as int) as nat
}

/// Bit `i` of the stream (0 or 1); bits past the last word are 0.
pub open spec fn stream_bit(data: Seq<u8>, i: nat) -> nat {
    if has_word(data, i / 32) {
        (word_value(data, i / 32) / pow2((31 - i % 32) as nat)) % 2
    } else {
        0
    }
}

/// The `n` bits starting at bit `p`, read as a big-endian number.
pub open spec fn stream_value(data: Seq<u8>, p: nat, n: nat) -> nat
    decreases n,
{
    if n == 0 {
        0
    } else {
        2 * stream_value(data, p, (n - 1) as nat) + stream_bit(data, (p + n - 1) as nat)
    }
}

/// Bytes consumed once `k` words have been loaded.
pub open spec fn bytes_before(k: nat) -> nat {
    if k == 0 { 0 } else { word_offset((k - 1) as nat) + 4 }
}

pub proof fn lemma_le32_bound(data: Seq<u8>, at: int)
    requires
        0 <= at,
        at + 4 <= data.len(),
    ensures
        0 <= le32(data, at) < 0x1_0000_0000,
{
}

pub proof fn lemma_stream_bit_bound(data: Seq<u8>, i: nat)
    ensures
        stream_bit(data, i) <= 1,
{
    if has_word(data, i / 32) {
        lemma_pow2_pos((31 - i % 32) as nat);
    }
}

pub proof fn lemma_value_bound(data: Seq<u8>, p: nat, n: nat)
    ensures
        stream_value(data, p, n) < pow2(n),
    decreases n,
{
    if n == 0 {
        lemma2_to64();
    } else {
        lemma_value_bound(data, p, (n - 1) as nat);
        lemma_stream_bit_bound(data, (p + n - 1) as nat);
        lemma_pow2_unfold(n);
    }
}

/// Splitting a run of bits: the first `a` bits are the high part.
pub proof fn lemma_value_split(data: Seq<u8>, p: nat, a: nat, b: nat)
    ensures
        stream_value(data, p, a + b) == stream_value(data, p, a) * pow2(b) + stream_value(
            data,
            p + a,
            b,
        ),
    decreases b,
{
    if b == 0 {
        lemma2_to64();
    } else {
        lemma_value_split(data, p, a, (b - 1) as nat);
        lemma_pow2_unfold(b);
        assert(stream_value(data, p, a + b) == 2 * stream_value(data, p, (a + b - 1) as nat)
            + stream_bit(data, (p + a + b - 1) as nat));
        assert(stream_value(data, p + a, b) == 2 * stream_value(data, p + a, (b - 1) as nat)
            + stream_bit(data, (p + a + b - 1) as nat));
        let x = stream_value(data, p, a);
        let y = pow2((b - 1) as nat);
        assert(2 * (x * y) == x * (2 * y)) by (nonlinear_arith);
    }
}

pub proof fn lemma_word_offset_mono(j: nat, k: nat)
    requires
        j <= k,
    ensures
        word_offset(j) <= word_offset(k),
{
    lemma_div_is_ordered(j as int, k as int, 16384);
}

/// Once a word is missing, every later bit reads as zero.
pub proof fn lemma_value_past_end(data: Seq<u8>, p: nat, n: nat)
    requires
        !has_word(data, p / 32),
    ensures
        stream_value(data, p, n) == 0,
    decreases n,
{
    if n > 0 {
        lemma_value_past_end(data, p, (n - 1) as nat);
        let i = (p + n - 1) as nat;
        lemma_div_is_ordered(p as int, i as int, 32);
        lemma_word_offset_mono(p / 32, i / 32);
    }
}

proof fn lemma_word_prefix(data: Seq<u8>, k: nat, j: nat)
    requires
        has_word(data, k),
        j <= 32,
    ensures
        stream_value(data, 32 * k, j) == word_value(data, k) / pow2((32 - j) as nat),
    decreases j,
{
    let w = word_value(data, k);
    lemma_le32_bound(data, word_offset(k) as int);
    if j == 0 {
        lemma_pow2(32);
        lemma2_to64();
        lemma_small_div_converse(w as int, pow2(32) as int);
        assert(w / pow2(32) == 0) by {
            lemma_basic_div(w as int, pow2(32) as int);
        }
    } else {
        lemma_word_prefix(data, k, (j - 1) as nat);
        let i = (32 * k + j - 1) as nat;
        lemma_fundamental_div_mod_converse(i as int, 32, k as int, (j - 1) as int);
        assert(i / 32 == k && i % 32 == j - 1);
        let e = (32 - j) as nat;
        lemma_pow2_pos(e);
        let x = w / pow2(e);
        assert(stream_bit(data, i) == x % 2);
        lemma_pow2_adds(e, 1);
        lemma2_to64();
        assert(pow2((32 - (j - 1)) as nat) == pow2(e) * 2);
        lemma_div_denominator(w as int, pow2(e) as int, 2);
        assert(w / pow2((32 - (j - 1)) as nat) == x / 2);
        lemma_fundamental_div_mod(x as int, 2);
    }
}

/// A whole word of the stream reads back as that word.
pub proof fn lemma_word_read(data: Seq<u8>, k: nat)
    requires
        has_word(data, k),
    ensures
        stream_value(data, 32 * k, 32) == word_value(data, k),
{
    lemma_word_prefix(data, k, 32);
    lemma2_to64();
}

proof fn lemma_bytes_before_next(k: nat)
    ensures
        bytes_before(k + 1) == word_offset(k) + 4,
        k > 0 && k % 16384 == 0 ==> word_offset(k) == bytes_before(k) + 4,
        !(k > 0 && k % 16384 == 0) ==> word_offset(k) == bytes_before(k),
{
    if k > 0 {
        let q = k / 16384;
        let r = k % 16384;
        lemma_fundamental_div_mod(k as int, 16384);
        if r == 0 {
            lemma_fundamental_div_mod_converse((k - 1) as int, 16384, q - 1, 16383);
        } else {
            lemma_fundamental_div_mod_converse((k - 1) as int, 16384, q as int, r - 1);
        }
    }
}

proof fn lemma_peek_within(d: Seq<u8>, p: nat, nb: nat, n: nat, val: nat)
    requires
        val == stream_value(d, p, nb),
        0 < n <= nb,
        n <= 32,
    ensures
        val / pow2((nb - n) as nat) == stream_value(d, p, n),
        stream_value(d, p, n) < 0x1_0000_0000,
{
    let s = (nb - n) as nat;
    lemma_value_split(d, p, n, s);
    lemma_value_bound(d, p + n, s);
    lemma_value_bound(d, p, n);
    lemma_pow2_pos(s);
    lemma_fundamental_div_mod_converse(
        val as int,
        pow2(s) as int,
        stream_value(d, p, n) as int,
        stream_value(d, p + n, s) as int,
    );
    if n < 32 {
        lemma_pow2_strictly_increases(n, 32);
    }
    lemma2_to64();
}

proof fn lemma_peek_beyond(d: Seq<u8>, p: nat, nb: nat, n: nat, val: nat)
    requires
        val == stream_value(d, p, nb),
        nb < n <= 32,
        !has_word(d, (p + nb) / 32),
    ensures
        val * pow2((n - nb) as nat) == stream_value(d, p, n),
        stream_value(d, p, n) < 0x1_0000_0000,
        val * pow2((n - nb) as nat) <= u64::MAX,
{
    let s = (n - nb) as nat;
    lemma_value_past_end(d, p + nb, s);
    lemma_value_split(d, p, nb, s);
    lemma_value_bound(d, p, n);
    if n < 32 {
        lemma_pow2_strictly_increases(n, 32);
    }
    lemma2_to64();
}

/// A reader over a GW2 bit stream.  `pos()` is the number of bits consumed.
pub struct BitReader<'a> {
    data: &'a [u8],
    /// The `nbits` buffered bits, the next one as the most significant.
    val: u64,
    nbits: u32,
    byte_pos: usize,
    words_loaded: u64,
    pos: Ghost<nat>,
}

impl<'a> BitReader<'a> {
    pub closed spec fn pos(&self) -> nat {
        self.pos@
    }

    pub closed spec fn data(&self) -> Seq<u8> {
        self.data@
    }

    closed spec fn loader_ok(&self) -> bool {
        let len = self.data@.len();
        let l = self.words_loaded as nat;
        &&& 4 * l <= len
        &&& (l > 0 ==> word_offset((l - 1) as nat) + 4 <= len)
        &&& (self.byte_pos == bytes_before(l) || (self.byte_pos >= bytes_before(l)
            && self.byte_pos + 4 > len && !has_word(self.data@, l)))
    }

    closed spec fn buffer_ok(&self) -> bool {
        let l = self.words_loaded as nat;
        &&& self.nbits <= 64
        &&& self.val as nat == stream_value(self.data@, self.pos@, self.nbits as nat)
        &&& (self.pos@ + self.nbits == 32 * l || (self.nbits == 0 && self.pos@ >= 32 * l
            && !has_word(self.data@, l)))
    }

    /// The reader's internal state is consistent.
    pub closed spec fn wf(&self) -> bool {
        &&& self.loader_ok()
        &&& self.buffer_ok()
        &&& (self.nbits > 32 || !has_word(self.data@, self.words_loaded as nat))
    }

    fn load_word(&mut self) -> (r: Option<u32>)
        requires
            old(self).loader_ok(),
            old(self).buffer_ok(),
        ensures
            final(self).data == old(self).data,
            final(self).val == old(self).val,
            final(self).nbits == old(self).nbits,
            final(self).pos == old(self).pos,
            final(self).loader_ok(),
            match r {
                Some(w) => {
                    &&& has_word(old(self).data@, old(self).words_loaded as nat)
                    &&& w as nat == word_value(old(self).data@, old(self).words_loaded as nat)
                    &&& final(self).words_loaded == old(self).words_loaded + 1
                },
                None => {
                    &&& !has_word(old(self).data@, old(self).words_loaded as nat)
                    &&& final(self).words_loaded == old(self).words_loaded
                },
            },
    {
        proof {
            lemma_bytes_before_next(self.words_loaded as nat);
        }
        if self.words_loaded > 0 && self.words_loaded % 16384 == 0 {
            self.byte_pos = self.byte_pos.saturating_add(4);
        }
        let len = self.data.len();
        if len < 4 || self.byte_pos > len - 4 {
            return None;
        }
        let w = read_le32(self.data, self.byte_pos);
        self.byte_pos = self.byte_pos + 4;
        self.words_loaded = self.words_loaded + 1;
        proof {
            lemma_bytes_before_next(self.words_loaded as nat);
        }
        Some(w)
    }

    fn fill(&mut self)
        requires
            old(self).loader_ok(),
            old(self).buffer_ok(),
        ensures
            final(self).wf(),
            final(self).data == old(self).data,
            final(self).pos == old(self).pos,
    {
        loop
            invariant
                self.loader_ok(),
                self.buffer_ok(),
                self.data == old(self).data,
                self.pos == old(self).pos,
            ensures
                self.wf(),
                self.data == old(self).data,
                self.pos == old(self).pos,
            decreases self.data@.len() - 4 * self.words_loaded,
        {
            if self.nbits > 32 {
                break;
            }
            let ghost l = self.words_loaded as nat;
            match self.load_word() {
                Some(w) => {
                    proof {
                        let p = self.pos@;
                        let nb = self.nbits as nat;
                        assert(p + nb == 32 * l) by {
                            if !(p + nb == 32 * l) {
                                assert(!has_word(self.data@, l));
                            }
                        }
                        lemma_word_read(self.data@, l);
                        lemma_value_split(self.data@, p, nb, 32);
                        lemma_value_bound(self.data@, p, nb);
                        lemma_pow2_strictly_increases(nb, 33);
                        lemma2_to64();
                        assert(self.val < 0x1_0000_0000);
                        assert(self.val * 0x1_0000_0000 + w < 0x1_0000_0000_0000_0000)
                            by (nonlinear_arith)
                            requires
                                self.val < 0x1_0000_0000,
                                w < 0x1_0000_0000,
                        ;
                    }
                    self.val = self.val * 0x1_0000_0000 + w as u64;
                    self.nbits = self.nbits + 32;
                },
                None => {
                    break;
                },
            }
        }
    }

    /// Starts reading `data` at its first bit.
    pub fn new(data: &'a [u8]) -> (r: Self)
        ensures
            r.wf(),
            r.data() == data@,
            r.pos() == 0,
    {
        let mut r = BitReader {
            data,
            val: 0,
            nbits: 0,
            byte_pos: 0,
            words_loaded: 0,
            pos: Ghost(0),
        };
        r.fill();
        r
    }

    /// The next `n` bits, without consuming them.
    pub fn peek(&self, n: u32) -> (r: u32)
        requires
            self.wf(),
            n <= 32,
        ensures
            r as nat == stream_value(self.data(), self.pos(), n as nat),
    {
        if n == 0 {
            return 0;
        }
        if n <= self.nbits {
            let s = self.nbits - n;
            proof {
                lemma_peek_within(self.data@, self.pos@, self.nbits as nat, n as nat, self.val as nat);
                lemma_u64_shr_is_div(self.val, s as u64);
            }
            (self.val >> (s as u64)) as u32
        } else {
            let s = n - self.nbits;
            proof {
                let l = self.words_loaded as nat;
                let p = self.pos@;
                let nb = self.nbits as nat;
                assert(!has_word(self.data@, l));
                if p + nb == 32 * l {
                    lemma_fundamental_div_mod_converse((p + nb) as int, 32, l as int, 0);
                } else {
                    lemma_div_is_ordered((32 * l) as int, p as int, 32);
                    lemma_fundamental_div_mod_converse((32 * l) as int, 32, l as int, 0);
                    lemma_word_offset_mono(l, p / 32);
                }
                lemma_peek_beyond(self.data@, p, nb, n as nat, self.val as nat);
                lemma_u64_shl_is_mul(self.val, s as u64);
            }
            (self.val << (s as u64)) as u32
        }
    }

    /// Consumes `n` bits.
    pub fn drop(&mut self, n: u32)
        requires
            old(self).wf(),
            n <= 32,
        ensures
            final(self).wf(),
            final(self).data() == old(self).data(),
            final(self).pos() == old(self).pos() + n,
    {
        let ghost p = self.pos@;
        let ghost d = self.data@;
        if n > self.nbits {
            proof {
                let l = self.words_loaded as nat;
                assert(!has_word(d, l));
                lemma2_to64();
            }
            self.pos = Ghost((p + n) as nat);
            self.val = 0;
            self.nbits = 0;
            return;
        }
        let rest = self.nbits - n;
        proof {
            lemma_value_split(d, p, n as nat, rest as nat);
            lemma_value_bound(d, (p + n) as nat, rest as nat);
            lemma_pow2_pos(rest as nat);
            lemma_fundamental_div_mod_converse(
                self.val as int,
                pow2(rest as nat) as int,
                stream_value(d, p, n as nat) as int,
                stream_value(d, (p + n) as nat, rest as nat) as int,
            );
        }
        if rest < 64 {
            proof {
                lemma2_to64();
                lemma_pow2_strictly_increases(rest as nat, 64);
                lemma_u64_shl_is_mul(1, rest as u64);
            }
            self.val = self.val % (1u64 << (rest as u64));
        }
        else {
            proof {
                lemma2_to64();
                assert(n == 0);
            }
        }
        self.nbits = rest;
        self.pos = Ghost((p + n) as nat);
        if self.nbits <= 32 {
            self.fill();
        }
    }

    /// Reads and consumes the next `n` bits.
    pub fn read(&mut self, n: u32) -> (r: u32)
        requires
            old(self).wf(),
            n <= 32,
        ensures
            final(self).wf(),
            final(self).data() == old(self).data(),
            final(self).pos() == old(self).pos() + n,
            r as nat == stream_value(old(self).data(), old(self).pos(), n as nat),
    {
        let v = self.peek(n);
        self.drop(n);
        v
    }
}

} // verus!
