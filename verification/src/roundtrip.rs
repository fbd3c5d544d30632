//! What the compressor writes, the decompressor reads back: token by
//! token, block by block, and for a whole stream.

use vstd::prelude::*;
use vstd::arithmetic::power2::*;
use crate::bitwriter::bits_of;
use crate::bitwriter::lemma_bits_of;
use crate::bitwriter::written_bytes;
use crate::bitwriter::word_count;
use crate::bitwriter::lemma_emitted_len;
use crate::bitstream::stream_value;
use crate::huffman::code_of;
use crate::huffman::tree_read;
use crate::canonical::lengths_valid;
use crate::canonical::lemma_code_fits;
use crate::canonical::lemma_decode_canonical;
use crate::codes::holds_at;
use crate::codes::lemma_split_at;
use crate::codes::lemma_read_back;
use crate::codes::lemma_tree_decode;
use crate::codes::tree_bits;
use crate::inflate::decode_code;
use crate::inflate::match_length;
use crate::inflate::match_distance;
use crate::inflate::block_start;
use crate::inflate::parse_tree;
use crate::inflate::inflate_steps;
use crate::inflate::lemma_inflate_steps;
use crate::inflate::inflate;
use crate::inflate::length_base;
use crate::inflate::offset_base;
use crate::lz77::Token;
use crate::lz77::apply_token;
use crate::lz77::expand;
use crate::lz77::token_ok;
use crate::lz77::tokens_ok;
use crate::lz77::lemma_apply_token_len;
use crate::deflate::token_shape;
use crate::deflate::token_symbol;
use crate::deflate::offset_symbol;
use crate::deflate::token_bits;
use crate::deflate::tokens_bits;
use crate::deflate::block_bits;
use crate::deflate::blocks_bits;
use crate::deflate::tables_fit;
use crate::deflate::blocks_ok;
use crate::deflate::join;
use crate::deflate::header_bits;
use crate::deflate::length_code;
use crate::deflate::offset_code;
use crate::deflate::lemma_length_code;
use crate::deflate::lemma_offset_code;
use crate::error::Gw2Error;

verus! {

// ---------------------------------------------------------------------------
// Token sequences

/// Every prefix of acceptable tokens is acceptable.
pub proof fn lemma_tokens_ok_take(ts: Seq<Token>, j: nat)
    requires
        tokens_ok(ts),
        j <= ts.len(),
    ensures
        tokens_ok(ts.take(j as int)),
    decreases ts.len() - j,
{
    if j == ts.len() {
        assert(ts.take(j as int) =~= ts);
    } else {
        lemma_tokens_ok_take(ts, j + 1);
        assert(ts.take((j + 1) as int).drop_last() =~= ts.take(j as int));
    }
}

/// Token `i` applies to what the tokens before it produce.
pub proof fn lemma_token_at(ts: Seq<Token>, i: nat)
    requires
        tokens_ok(ts),
        i < ts.len(),
    ensures
        token_ok(ts[i as int], expand(ts.take(i as int)).len()),
        expand(ts.take((i + 1) as int)) == apply_token(expand(ts.take(i as int)), ts[i as int]),
{
    lemma_tokens_ok_take(ts, i + 1);
    assert(ts.take((i + 1) as int).drop_last() =~= ts.take(i as int));
    assert(ts.take((i + 1) as int).last() == ts[i as int]);
}

/// Each token produces at least one byte.
pub proof fn lemma_expand_grows(ts: Seq<Token>, i: nat)
    requires
        tokens_ok(ts),
        i <= ts.len(),
    ensures
        expand(ts.take(i as int)).len() + (ts.len() - i) <= expand(ts).len(),
    decreases ts.len() - i,
{
    if i == ts.len() {
        assert(ts.take(i as int) =~= ts);
    } else {
        lemma_expand_grows(ts, i + 1);
        lemma_token_at(ts, i);
        lemma_apply_token_len(expand(ts.take(i as int)), ts[i as int]);
    }
}

/// Acceptable tokens have shapes the stream can carry.
pub proof fn lemma_tokens_shape(ts: Seq<Token>)
    requires
        tokens_ok(ts),
    ensures
        forall|i: int| 0 <= i < ts.len() ==> token_shape(#[trigger] ts[i]),
{
    assert forall|i: int| 0 <= i < ts.len() implies token_shape(#[trigger] ts[i]) by {
        lemma_token_at(ts, i as nat);
    }
}

// ---------------------------------------------------------------------------
// Locating written pieces

/// Where the bits of `ts` were written at `q`, so were those of each prefix,
/// and each token's bits follow its prefix's.
pub proof fn lemma_tokens_take(w: Seq<bool>, q: nat, ts: Seq<Token>, sl: Seq<u8>, cl: Seq<u8>, j: nat)
    requires
        holds_at(w, q, tokens_bits(ts, sl, cl)),
        j <= ts.len(),
    ensures
        holds_at(w, q, tokens_bits(ts.take(j as int), sl, cl)),
        j < ts.len() ==> holds_at(w, q + tokens_bits(ts.take(j as int), sl, cl).len(), token_bits(ts[j as int], sl, cl)),
        j < ts.len() ==> tokens_bits(ts.take((j + 1) as int), sl, cl) == tokens_bits(ts.take(j as int), sl, cl) + token_bits(ts[j as int], sl, cl),
    decreases ts.len() - j,
{
    if j == ts.len() {
        assert(ts.take(j as int) =~= ts);
    } else {
        lemma_tokens_take(w, q, ts, sl, cl, j + 1);
        assert(ts.take((j + 1) as int).drop_last() =~= ts.take(j as int));
        assert(ts.take((j + 1) as int).last() == ts[j as int]);
        lemma_split_at(w, q, tokens_bits(ts.take(j as int), sl, cl), token_bits(ts[j as int], sl, cl));
    }
}

/// The same for blocks.
pub proof fn lemma_blocks_take(w: Seq<bool>, q: nat, chunks: Seq<Seq<Token>>, tabs: Seq<(Seq<u8>, Seq<u8>)>, raw: nat, j: nat)
    requires
        chunks.len() == tabs.len(),
        holds_at(w, q, blocks_bits(chunks, tabs, raw)),
        j <= chunks.len(),
    ensures
        holds_at(w, q, blocks_bits(chunks.take(j as int), tabs.take(j as int), raw)),
        j < chunks.len() ==> holds_at(
            w,
            q + blocks_bits(chunks.take(j as int), tabs.take(j as int), raw).len(),
            block_bits(chunks[j as int], tabs[j as int].0, tabs[j as int].1, raw),
        ),
        j < chunks.len() ==> blocks_bits(chunks.take((j + 1) as int), tabs.take((j + 1) as int), raw) == blocks_bits(chunks.take(j as int), tabs.take(j as int), raw)
            + block_bits(chunks[j as int], tabs[j as int].0, tabs[j as int].1, raw),
    decreases chunks.len() - j,
{
    if j == chunks.len() {
        assert(chunks.take(j as int) =~= chunks);
        assert(tabs.take(j as int) =~= tabs);
    } else {
        lemma_blocks_take(w, q, chunks, tabs, raw, j + 1);
        assert(chunks.take((j + 1) as int).drop_last() =~= chunks.take(j as int));
        assert(tabs.take((j + 1) as int).drop_last() =~= tabs.take(j as int));
        assert(chunks.take((j + 1) as int).last() == chunks[j as int]);
        assert(tabs.take((j + 1) as int).last() == tabs[j as int]);
        lemma_split_at(
            w,
            q,
            blocks_bits(chunks.take(j as int), tabs.take(j as int), raw),
            block_bits(chunks[j as int], tabs[j as int].0, tabs[j as int].1, raw),
        );
    }
}

/// The tokens of the first `j` chunks begin the joined tokens, and chunk
/// `j` follows them.
pub proof fn lemma_join_take(chunks: Seq<Seq<Token>>, j: nat)
    requires
        j <= chunks.len(),
    ensures
        join(chunks).take(join(chunks.take(j as int)).len() as int) == join(chunks.take(j as int)),
        j < chunks.len() ==> join(chunks.take((j + 1) as int)) == join(chunks.take(j as int)) + chunks[j as int],
        j < chunks.len() ==> join(chunks).subrange(
            join(chunks.take(j as int)).len() as int,(join(chunks.take(j as int)).len() + chunks[j as int].len()) as int,
        ) == chunks[j as int],
        j < chunks.len() ==> join(chunks.take(j as int)).len() + chunks[j as int].len() <= join(chunks).len(),
    decreases chunks.len() - j,
{
    let t = join(chunks);
    if j == chunks.len() {
        assert(chunks.take(j as int) =~= chunks);
        assert(t.take(t.len() as int) =~= t);
    } else {
        lemma_join_take(chunks, j + 1);
        assert(chunks.take((j + 1) as int).drop_last() =~= chunks.take(j as int));
        assert(chunks.take((j + 1) as int).last() == chunks[j as int]);
        let a = join(chunks.take(j as int));
        let b = chunks[j as int];
        assert(t.take((a.len() + b.len()) as int) == a + b);
        assert(t.take(a.len() as int) =~= (a + b).take(a.len() as int));
        assert(t.take(a.len() as int) =~= a);
        assert(t.subrange(a.len() as int, (a.len() + b.len()) as int) =~= (a + b).subrange(a.len() as int, (a.len() + b.len()) as int));
        assert(t.subrange(a.len() as int, (a.len() + b.len()) as int) =~= b);
    }
}

// ---------------------------------------------------------------------------
// Decoding what was written

/// A token as written in a stream whose minimum match length is `f + 1`:
/// a match's length is stored `f` less.
pub open spec fn shrink_token(t: Token, f: nat) -> Token {
    match t {
        Token::Literal(b) => Token::Literal(b),
        Token::Match { len, offset } => Token::Match { len: (len - f) as u32, offset },
    }
}

/// The tokens `ts` as written with the minimum match length `f + 1`.
pub open spec fn shrink_tokens(ts: Seq<Token>, f: nat) -> Seq<Token> {
    Seq::new(ts.len(), |i: int| shrink_token(ts[i], f))
}

/// Every match of `ts` is longer than `f`.
pub open spec fn matches_above(ts: Seq<Token>, f: nat) -> bool {
    forall|i: int| 0 <= i < ts.len() ==> (#[trigger] ts[i] matches Token::Match { len, .. } ==> len > f)
}

/// The chunks `wchunks` are the chunks `chunks` as written with the
/// minimum match length `f + 1`.
pub open spec fn written_as(chunks: Seq<Seq<Token>>, wchunks: Seq<Seq<Token>>, f: nat) -> bool {
    &&& wchunks.len() == chunks.len()
    &&& forall|c: int| 0 <= c < chunks.len() ==> #[trigger] wchunks[c] == shrink_tokens(chunks[c], f)
}

/// A stream header whose minimum match length is `f + 1`.
pub open spec fn header_bits_with(size: nat, f: nat) -> Seq<bool> {
    bits_of(0, 32) + bits_of(size, 32) + bits_of(0, 4) + bits_of(f, 4)
}

// ---------------------------------------------------------------------------
// Decoding what was written

/// A written token decodes to itself, its match length read `f` short and
/// made up by the stream's minimum.
pub proof fn lemma_token_decode(w: Seq<bool>, p: nat, t: Token, f: nat, sl: Seq<u8>, cl: Seq<u8>, size: nat, out: Seq<u8>)
    requires
        holds_at(w, p, token_bits(shrink_token(t, f), sl, cl)),
        token_shape(shrink_token(t, f)),
        token_symbol(shrink_token(t, f)) < sl.len(),
        sl[token_symbol(shrink_token(t, f)) as int] > 0,
        t is Match ==> offset_symbol(shrink_token(t, f)) < cl.len() && cl[offset_symbol(shrink_token(t, f)) as int] > 0,
        t matches Token::Match { len, .. } ==> len > f,
        lengths_valid(sl),
        lengths_valid(cl),
        token_ok(t, out.len()),
        out.len() < size,
        apply_token(out, t).len() <= size,
    ensures
        decode_code(written_bytes(w), p, sl, cl, size, f, out) == Ok::<(nat, Seq<u8>), Gw2Error>(
            (p + token_bits(shrink_token(t, f), sl, cl).len(), apply_token(out, t)),
        ),
{
    let data = written_bytes(w);
    let e = Seq::<bool>::empty();
    let u = shrink_token(t, f);
    match t {
        Token::Literal(b) => {
            let l = sl[b as int] as nat;
            let c = code_of(sl, b as nat);
            lemma_code_fits(sl, b as nat);
            lemma_bits_of(e, c as nat, l);
            lemma_read_back(w, p, c as nat, l);
            lemma_decode_canonical(sl, data, p, b as nat);
            assert(tree_read(sl, data, p) == Some(((b as nat) as u16, l)));
            assert(((b as nat) as u16) as u8 == b);
        },
        Token::Match { len, offset } => {
            let wlen = (len - f) as nat;
            assert(u == Token::Match { len: wlen as u32, offset });
            let (s, ev, eb) = length_code(wlen);
            let (o, oe, ob) = offset_code(offset as nat);
            lemma_length_code(wlen);
            lemma_offset_code(offset as nat);
            let sym = 256 + s;
            let l1 = sl[sym as int] as nat;
            let c1 = code_of(sl, sym);
            let l2 = cl[o as int] as nat;
            let c2 = code_of(cl, o);
            lemma_code_fits(sl, sym);
            lemma_code_fits(cl, o);
            lemma_bits_of(e, c1 as nat, l1);
            lemma_bits_of(e, c2 as nat, l2);
            lemma_bits_of(e, ev, eb);
            lemma_bits_of(e, oe, ob);
            let b1 = bits_of(c1 as nat, l1);
            let b2 = bits_of(ev, eb);
            let b3 = bits_of(c2 as nat, l2);
            let b4 = bits_of(oe, ob);
            assert(token_bits(u, sl, cl) == b1 + b2 + b3 + b4);
            lemma_split_at(w, p, b1 + b2 + b3, b4);
            lemma_split_at(w, p, b1 + b2, b3);
            lemma_split_at(w, p, b1, b2);
            lemma_read_back(w, p, c1 as nat, l1);
            lemma_read_back(w, p + l1, ev, eb);
            lemma_read_back(w, p + l1 + eb, c2 as nat, l2);
            lemma_read_back(w, p + l1 + eb + l2, oe, ob);
            lemma_decode_canonical(sl, data, p, sym);
            lemma_decode_canonical(cl, data, p + l1 + eb, o);
            let su = sym as u16;
            assert(tree_read(sl, data, p) == Some((su, l1)));
            assert(su >= 256 && (su - 256) as nat == s);
            let base = length_base(s).unwrap();
            assert(match_length(data, p + l1, s) == Ok::<(nat, nat), Gw2Error>((base + ev, p + l1 + eb)));
            let ou = o as u16;
            assert(tree_read(cl, data, p + l1 + eb) == Some((ou, l2)));
            assert(ou as nat == o);
            let obase = offset_base(o).unwrap();
            assert(match_distance(data, p + l1 + eb, cl) == Ok::<(nat, nat), Gw2Error>((obase + oe + 1, p + l1 + eb + l2 + ob)));
            lemma_apply_token_len(out, t);
            assert(base + ev + 1 == wlen);
            assert(base + ev + f + 1 == len);
        },
    }
}

/// A written block header reads back as the block's tables and code count.
pub proof fn lemma_block_start(w: Seq<bool>, p: nat, sl: Seq<u8>, cl: Seq<u8>, raw: nat)
    requires
        1 <= sl.len() <= 285,
        1 <= cl.len() <= 30,
        forall|j: int| 0 <= j < sl.len() ==> sl[j] <= 31,
        forall|j: int| 0 <= j < cl.len() ==> cl[j] <= 31,
        raw < 16,
        holds_at(w, p, tree_bits(sl) + tree_bits(cl) + bits_of(raw, 4)),
    ensures
        block_start(written_bytes(w), p) == Ok::<(Seq<u8>, Seq<u8>, nat, nat), Gw2Error>(
            (sl, cl, p + (tree_bits(sl) + tree_bits(cl) + bits_of(raw, 4)).len(), (raw + 1) * 4096),
        ),
{
    let data = written_bytes(w);
    lemma2_to64();
    lemma_bits_of(Seq::<bool>::empty(), raw, 4);
    lemma_split_at(w, p, tree_bits(sl) + tree_bits(cl), bits_of(raw, 4));
    lemma_split_at(w, p, tree_bits(sl), tree_bits(cl));
    lemma_tree_decode(w, p, sl, 284);
    lemma_tree_decode(w, p + tree_bits(sl).len(), cl, 29);
    lemma_read_back(w, p + tree_bits(sl).len() + tree_bits(cl).len(), raw, 4);
}

/// The tokens `ts` of a block, written as `wts`, from token `k` on, decode
/// one after another.
pub proof fn lemma_chunk_decode(
    w: Seq<bool>,
    all: Seq<Token>,
    i0: nat,
    ts: Seq<Token>,
    wts: Seq<Token>,
    f: nat,
    sl: Seq<u8>,
    cl: Seq<u8>,
    size: nat,
    q0: nat,
    left0: nat,
    k: nat,
)
    requires
        tokens_ok(all),
        expand(all).len() == size,
        i0 + ts.len() <= all.len(),
        all.subrange(i0 as int, (i0 + ts.len()) as int) == ts,
        wts == shrink_tokens(ts, f),
        matches_above(ts, f),
        tables_fit(wts, sl, cl),
        holds_at(w, q0, tokens_bits(wts, sl, cl)),
        k <= ts.len(),
        left0 >= ts.len(),
    ensures
        inflate_steps(
            written_bytes(w),
            q0 + tokens_bits(wts.take(k as int), sl, cl).len(),
            size,
            f,
            expand(all.take((i0 + k) as int)),
            sl,
            cl,
            (left0 - k) as nat,
        ) == inflate_steps(
            written_bytes(w),
            q0 + tokens_bits(wts, sl, cl).len(),
            size,
            f,
            expand(all.take((i0 + ts.len()) as int)),
            sl,
            cl,
            (left0 - ts.len()) as nat,
        ),
    decreases ts.len() - k,
{
    if k == ts.len() {
        assert(wts.take(k as int) =~= wts);
    } else {
        let data = written_bytes(w);
        let i = i0 + k;
        let out = expand(all.take(i as int));
        let t = ts[k as int];
        assert(all[i as int] == t) by {
            assert(all.subrange(i0 as int, (i0 + ts.len()) as int)[k as int] == all[i as int]);
        }
        lemma_expand_grows(all, i);
        lemma_expand_grows(all, i + 1);
        lemma_token_at(all, i);
        lemma_tokens_take(w, q0, wts, sl, cl, k);
        let p = q0 + tokens_bits(wts.take(k as int), sl, cl).len();
        assert(wts[k as int] == shrink_token(t, f));
        assert(token_shape(wts[k as int]));
        assert(t matches Token::Match { len, .. } ==> len > f);
        lemma_token_decode(w, p, t, f, sl, cl, size, out);
        lemma_inflate_steps(data, p, size, f, out, sl, cl, (left0 - k) as nat);
        lemma_chunk_decode(w, all, i0, ts, wts, f, sl, cl, size, q0, left0, k + 1);
    }
}

/// One whole block, from its header to its last token, decodes from the
/// state at its start to the state after it.
#[verifier::spinoff_prover]
#[verifier::rlimit(80)]
pub proof fn lemma_block_decode(
    w: Seq<bool>,
    chunks: Seq<Seq<Token>>,
    wchunks: Seq<Seq<Token>>,
    f: nat,
    tabs: Seq<(Seq<u8>, Seq<u8>)>,
    raw: nat,
    size: nat,
    c: nat,
    sl0: Seq<u8>,
    cl0: Seq<u8>,
)
    requires
        written_as(chunks, wchunks, f),
        matches_above(join(chunks), f),
        blocks_ok(wchunks, tabs, (raw + 1) * 4096),
        raw < 16,
        tokens_ok(join(chunks)),
        expand(join(chunks)).len() == size,
        holds_at(w, 72, blocks_bits(wchunks, tabs, raw)),
        c < chunks.len(),
    ensures
        inflate_steps(
            written_bytes(w),
            72 + blocks_bits(wchunks.take(c as int), tabs.take(c as int), raw).len(),
            size,
            f,
            expand(join(chunks).take(join(chunks.take(c as int)).len() as int)),
            sl0,
            cl0,
            0,
        ) == inflate_steps(
            written_bytes(w),
            72 + blocks_bits(wchunks.take(c + 1int), tabs.take(c + 1int), raw).len(),
            size,
            f,
            expand(join(chunks).take(join(chunks.take(c + 1int)).len() as int)),
            tabs[c as int].0,
            tabs[c as int].1,
            ((raw + 1) * 4096 - chunks[c as int].len()) as nat,
        ),
{
    let data = written_bytes(w);
    let all = join(chunks);
    let per = (raw + 1) * 4096;
    lemma_join_take(chunks, c);
    lemma_blocks_take(w, 72, wchunks, tabs, raw, c);
    let i0 = join(chunks.take(c as int)).len();
    let p = 72 + blocks_bits(wchunks.take(c as int), tabs.take(c as int), raw).len();
    let out = expand(all.take(i0 as int));
    let ts = chunks[c as int];
    let wts = wchunks[c as int];
    assert(wts == shrink_tokens(ts, f));
    let (sl, cl) = tabs[c as int];
    assert(tables_fit(wts, sl, cl));
    assert(1 <= wts.len() <= per);
    assert(matches_above(ts, f)) by {
        assert forall|k: int| 0 <= k < ts.len() implies (#[trigger] ts[k] matches Token::Match { len, .. } ==> len > f) by {
            assert(all.subrange(i0 as int, (i0 + ts.len()) as int)[k] == all[i0 + k]);
        }
    }
    lemma_tokens_ok_take(all, 0);
    lemma_expand_grows(all, i0);
    lemma_inflate_steps(data, p, size, f, out, sl0, cl0, 0);
    let hdr = tree_bits(sl) + tree_bits(cl) + bits_of(raw, 4);
    assert(block_bits(wts, sl, cl, raw) == hdr + tokens_bits(wts, sl, cl));
    lemma_split_at(w, p, hdr, tokens_bits(wts, sl, cl));
    lemma_block_start(w, p, sl, cl, raw);
    let q = p + hdr.len();
    assert(wts.take(0) =~= Seq::<Token>::empty());
    assert(tokens_bits(wts.take(0), sl, cl) =~= Seq::<bool>::empty());
    assert(all.take((i0 + 0) as int) == all.take(i0 as int));
    lemma_chunk_decode(w, all, i0, ts, wts, f, sl, cl, size, q, per, 0);
}

/// From block `c` on, the blocks decode to the rest of the output.
#[verifier::spinoff_prover]
pub proof fn lemma_blocks_decode(
    w: Seq<bool>,
    chunks: Seq<Seq<Token>>,
    wchunks: Seq<Seq<Token>>,
    f: nat,
    tabs: Seq<(Seq<u8>, Seq<u8>)>,
    raw: nat,
    size: nat,
    c: nat,
    sl0: Seq<u8>,
    cl0: Seq<u8>,
)
    requires
        written_as(chunks, wchunks, f),
        matches_above(join(chunks), f),
        blocks_ok(wchunks, tabs, (raw + 1) * 4096),
        raw < 16,
        tokens_ok(join(chunks)),
        expand(join(chunks)).len() == size,
        holds_at(w, 72, blocks_bits(wchunks, tabs, raw)),
        c <= chunks.len(),
    ensures
        inflate_steps(
            written_bytes(w),
            72 + blocks_bits(wchunks.take(c as int), tabs.take(c as int), raw).len(),
            size,
            f,
            expand(join(chunks).take(join(chunks.take(c as int)).len() as int)),
            sl0,
            cl0,
            0,
        ) == Ok::<Seq<u8>, Gw2Error>(expand(join(chunks))),
    decreases chunks.len() - c,
{
    let data = written_bytes(w);
    let all = join(chunks);
    let per = (raw + 1) * 4096;
    lemma_join_take(chunks, c);
    let i0 = join(chunks.take(c as int)).len();
    let p = 72 + blocks_bits(wchunks.take(c as int), tabs.take(c as int), raw).len();
    let out = expand(all.take(i0 as int));
    if c == chunks.len() {
        assert(chunks.take(c as int) =~= chunks);
        assert(all.take(i0 as int) =~= all);
        lemma_inflate_steps(data, p, size, f, out, sl0, cl0, 0);
    } else {
        let ts = chunks[c as int];
        let (sl, cl) = tabs[c as int];
        assert(wchunks[c as int] == shrink_tokens(ts, f));
        lemma_block_decode(w, chunks, wchunks, f, tabs, raw, size, c, sl0, cl0);
        let p2 = 72 + blocks_bits(wchunks.take((c + 1) as int), tabs.take((c + 1) as int), raw).len();
        lemma_join_take(chunks, c + 1);
        let i1 = join(chunks.take((c + 1) as int)).len();
        let out2 = expand(all.take(i1 as int));
        if c + 1 < chunks.len() {
            assert(wchunks[c as int].len() == per);
            assert(ts.len() == per);
            lemma_blocks_decode(w, chunks, wchunks, f, tabs, raw, size, c + 1, sl, cl);
        } else {
            assert(chunks.take((c + 1) as int) =~= chunks);
            assert(all.take(i1 as int) =~= all);
            lemma_inflate_steps(data, p2, size, f, out2, sl, cl, (per - ts.len()) as nat);
        }
    }
}

/// A stream's header reads back: the size at bit 32, the minimum match
/// length less one at bit 68, and at least three words of bytes.
pub proof fn lemma_header_read(w: Seq<bool>, size: nat, f: nat, rest: Seq<bool>)
    requires
        w == header_bits_with(size, f) + rest,
        size < 0x1_0000_0000,
        f < 16,
    ensures
        stream_value(written_bytes(w), 32, 32) == size,
        stream_value(written_bytes(w), 68, 4) == f,
        written_bytes(w).len() >= 12,
        holds_at(w, 72, rest),
{
    let e = Seq::<bool>::empty();
    lemma2_to64();
    lemma_bits_of(e, 0, 32);
    lemma_bits_of(e, size, 32);
    lemma_bits_of(e, 0, 4);
    lemma_bits_of(e, f, 4);
    let h = header_bits_with(size, f);
    assert(holds_at(w, 0, w)) by {
        assert(w.subrange(0, w.len() as int) =~= w);
    }
    lemma_split_at(w, 0, h, rest);
    lemma_split_at(w, 0, bits_of(0, 32) + bits_of(size, 32) + bits_of(0, 4), bits_of(f, 4));
    lemma_split_at(w, 0, bits_of(0, 32) + bits_of(size, 32), bits_of(0, 4));
    lemma_split_at(w, 0, bits_of(0, 32), bits_of(size, 32));
    lemma_read_back(w, 32, size, 32);
    lemma_read_back(w, 68, f, 4);
    let k = word_count(w);
    assert(k >= 3);
    lemma_emitted_len(w, k);
}

/// The decoder honours the stream's minimum match length: a stream whose
/// header says `f + 1` (any `f` below 16), with every match written `f`
/// shorter, reads back as what the tokens expand to (or, for an empty or
/// too large output, as the size error).
pub proof fn lemma_stream_decode_with_min(
    w: Seq<bool>,
    size: nat,
    f: nat,
    chunks: Seq<Seq<Token>>,
    wchunks: Seq<Seq<Token>>,
    tabs: Seq<(Seq<u8>, Seq<u8>)>,
    raw: nat,
)
    requires
        f < 16,
        written_as(chunks, wchunks, f),
        matches_above(join(chunks), f),
        w == header_bits_with(size, f) + blocks_bits(wchunks, tabs, raw),
        blocks_ok(wchunks, tabs, (raw + 1) * 4096),
        raw < 16,
        tokens_ok(join(chunks)),
        expand(join(chunks)).len() == size,
        size < 0x1_0000_0000,
    ensures
        inflate(written_bytes(w)) == if 0 < size <= 256 * 1024 * 1024 {
            Ok::<Seq<u8>, Gw2Error>(expand(join(chunks)))
        } else {
            Err(Gw2Error::BadOutputSize)
        },
{
    lemma_header_read(w, size, f, blocks_bits(wchunks, tabs, raw));
    if 0 < size <= 256 * 1024 * 1024 {
        lemma_blocks_decode(w, chunks, wchunks, f, tabs, raw, size, 0, seq![], seq![]);
        assert(chunks.take(0) =~= Seq::<Seq<Token>>::empty());
        assert(wchunks.take(0) =~= Seq::<Seq<Token>>::empty());
        assert(tabs.take(0) =~= Seq::<(Seq<u8>, Seq<u8>)>::empty());
        assert(join(chunks).take(0) =~= Seq::<Token>::empty());
    }
}

/// A whole stream: the header, then the blocks, reads back as what the
/// tokens expand to (or, for an empty or too large output, as the size error).
pub proof fn lemma_stream_decode(w: Seq<bool>, size: nat, chunks: Seq<Seq<Token>>, tabs: Seq<(Seq<u8>, Seq<u8>)>, raw: nat)
    requires
        w == header_bits(size) + blocks_bits(chunks, tabs, raw),
        blocks_ok(chunks, tabs, (raw + 1) * 4096),
        raw < 16,
        tokens_ok(join(chunks)),
        expand(join(chunks)).len() == size,
        size < 0x1_0000_0000,
    ensures
        inflate(written_bytes(w)) == if 0 < size <= 256 * 1024 * 1024 {
            Ok::<Seq<u8>, Gw2Error>(expand(join(chunks)))
        } else {
            Err(Gw2Error::BadOutputSize)
        },
{
    assert(header_bits(size) =~= header_bits_with(size, 0));
    assert forall|c: int| 0 <= c < chunks.len() implies #[trigger] chunks[c] == shrink_tokens(chunks[c], 0) by {
        assert(chunks[c] =~= shrink_tokens(chunks[c], 0));
    }
    let all = join(chunks);
    assert forall|i: int| 0 <= i < all.len() implies (#[trigger] all[i] matches Token::Match { len, .. } ==> len > 0) by {
        lemma_token_at(all, i as nat);
    }
    lemma_stream_decode_with_min(w, size, 0, chunks, chunks, tabs, raw);
}

} // verus!
