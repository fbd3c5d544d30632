//! LZ77 tokens: what they expand to, and the hash-chain matcher that turns
//! bytes into tokens.

use vstd::prelude::*;
use crate::inflate::lz_copy;
use crate::inflate::lemma_lz_copy;

verus! {

/// A literal byte, or a copy of `len` bytes from `offset` bytes back.
#[derive(Clone, Copy, Debug, PartialEq, Eq, Structural)]
pub enum Token {
    Literal(u8),
    Match { len: u32, offset: u32 },
}

pub const MIN_MATCH: u32 = 3;
pub const MAX_MATCH: u32 = 254;
pub const WINDOW: usize = 32768;
pub const HASH_SIZE: usize = 65536;
pub const CHAIN_DEPTH: usize = 512;

/// `out` followed by what the token `t` produces.
pub open spec fn apply_token(out: Seq<u8>, t: Token) -> Seq<u8> {
    match t {
        Token::Literal(b) => out.push(b),
        Token::Match { len, offset } => lz_copy(out, offset as nat, len as nat),
    }
}

/// The bytes the tokens `ts` stand for.
pub open spec fn expand(ts: Seq<Token>) -> Seq<u8>
    decreases ts.len(),
{
    if ts.len() == 0 {
        seq![]
    } else {
        apply_token(expand(ts.drop_last()), ts.last())
    }
}

/// A token that a decoder with `out_len` bytes of output can apply: a
/// match copies 1 to 256 bytes from at most 32768 bytes back, inside the
/// output.
pub open spec fn token_ok(t: Token, out_len: nat) -> bool {
    match t {
        Token::Literal(_) => true,
        Token::Match { len, offset } => 1 <= len <= 256 && 1 <= offset <= 0x8000 && offset <= out_len,
    }
}

/// Every token can be applied to what the tokens before it produce.
pub open spec fn tokens_ok(ts: Seq<Token>) -> bool
    decreases ts.len(),
{
    ts.len() == 0 || (tokens_ok(ts.drop_last()) && token_ok(ts.last(), expand(ts.drop_last()).len()))
}

pub proof fn lemma_apply_token_len(out: Seq<u8>, t: Token)
    ensures
        apply_token(out, t).len() == out.len() + match t {
            Token::Literal(_) => 1nat,
            Token::Match { len, .. } => len as nat,
        },
        forall|i: int| 0 <= i < out.len() ==> apply_token(out, t)[i] == out[i],
{
    if let Token::Match { len, offset } = t {
        lemma_lz_copy(out, offset as nat, len as nat);
    }
}

pub proof fn lemma_expand_push(ts: Seq<Token>, t: Token)
    ensures
        expand(ts.push(t)) == apply_token(expand(ts), t),
        tokens_ok(ts.push(t)) == (tokens_ok(ts) && token_ok(t, expand(ts).len())),
{
    assert(ts.push(t).drop_last() =~= ts);
}

/// A copy from `offset` back reproduces bytes that repeat at that distance.
pub proof fn lemma_copy_repeats(d: Seq<u8>, pos: nat, offset: nat, k: nat)
    requires
        1 <= offset <= pos,
        pos + k <= d.len(),
        forall|i: int| 0 <= i < k ==> d[pos - offset + i] == #[trigger] d[pos + i],
    ensures
        lz_copy(d.take(pos as int), offset, k) == d.take((pos + k) as int),
    decreases k,
{
    if k > 0 {
        lemma_copy_repeats(d, pos, offset, (k - 1) as nat);
        let o = d.take((pos + k - 1) as int);
        assert(d[pos - offset + (k - 1)] == d[pos + (k - 1)]);
        assert(o.push(o[o.len() - offset]) =~= d.take((pos + k) as int));
    }
}

/// The hash-chain key of position `p`: the low 16 bits of a mix of the
/// three bytes there, or the byte itself within two bytes of the end.
pub open spec fn hash_at(d: Seq<u8>, p: int) -> usize {
    if d.len() - p <= 2 {
        d[p] as usize
    } else {
        (((d[p] as u32).wrapping_mul(2654435761u32) ^ (d[p + 1] as u32).wrapping_mul(40503u32) ^ (d[p + 2] as u32))
            & 0xFFFFu32) as usize
    }
}

/// The hash of the three bytes at `p` (of the one byte, near the end).
fn hash3(d: &[u8], p: usize) -> (r: usize)
    requires
        p < d.len(),
    ensures
        r == hash_at(d@, p as int),
        r < HASH_SIZE,
{
    if d.len() - p <= 2 {
        let b = d[p] as usize;
        assert(b & 0xFFFF < 0x10000) by (bit_vector);
        assert(b < 256 ==> b & 0xFFFF == b) by (bit_vector);
        return b & (HASH_SIZE - 1);
    }
    let v = (d[p] as u32).wrapping_mul(2654435761) ^ (d[p + 1] as u32).wrapping_mul(40503) ^ (d[p + 2] as u32);
    let h = (v & 0xFFFF) as usize;
    assert(v & 0xFFFF < 0x10000) by (bit_vector);
    h
}

/// How many bytes from `b + k` on equal those from `a + k` on, counting
/// from `k`, up to `max`.
pub open spec fn common_len(data: Seq<u8>, a: int, b: int, max: nat, k: nat) -> nat
    decreases max - k,
{
    if k < max && data[a + k] == data[b + k] {
        common_len(data, a, b, max, k + 1)
    } else {
        k
    }
}

/// The longest match a position may take at `pos`: up to the end, at most
/// `MAX_MATCH` bytes.
pub open spec fn match_cap(data: Seq<u8>, pos: int) -> nat {
    if data.len() - pos < MAX_MATCH { (data.len() - pos) as nat } else { MAX_MATCH as nat }
}

/// The search along a hash chain from `cur`, after `steps` steps and with
/// the best match so far of `best_len` bytes at `best_off`: it stops at the
/// chain's end (`usize::MAX`), after `CHAIN_DEPTH` steps, at a position not
/// before `pos` or more than `WINDOW` back, or once a match reaches
/// `MAX_MATCH`; a position's match replaces the best only when longer.
pub open spec fn chain_search(data: Seq<u8>, pos: int, next: Seq<usize>, cur: usize, steps: nat, best_len: nat, best_off: nat) -> (nat, nat)
    decreases CHAIN_DEPTH - steps,
{
    if cur == usize::MAX || steps >= CHAIN_DEPTH || cur >= pos || pos - cur > WINDOW {
        (best_len, best_off)
    } else {
        let ml = common_len(data, cur as int, pos, match_cap(data, pos), 0);
        let bl = if ml > best_len { ml } else { best_len };
        let bo = if ml > best_len { (pos - cur) as nat } else { best_off };
        if bl >= MAX_MATCH {
            (bl, bo)
        } else {
            chain_search(data, pos, next, next[cur as int], steps + 1, bl, bo)
        }
    }
}

/// The longest match for `pos` among the earlier positions on its hash
/// chain (up to `CHAIN_DEPTH` of them, within `WINDOW` bytes): its length
/// and distance; a length below `MIN_MATCH` means none was found.
fn find_match(data: &[u8], pos: usize, head: &Vec<usize>, next: &Vec<usize>) -> (r: (u32, u32))
    requires
        pos < data.len(),
        head.len() == HASH_SIZE,
        next.len() == data.len(),
    ensures
        pos + 3 >= data.len() ==> r == (0u32, 0u32),
        pos + 3 < data.len() ==> (r.0 as nat, r.1 as nat) == chain_search(
            data@,
            pos as int,
            next@,
            head@[hash_at(data@, pos as int) as int],
            0,
            (MIN_MATCH - 1) as nat,
            0,
        ),
        r.0 <= MAX_MATCH,
        r.0 >= MIN_MATCH ==> {
            &&& 1 <= r.1 <= WINDOW
            &&& r.1 <= pos
            &&& pos + r.0 <= data.len()
            &&& forall|i: int| 0 <= i < r.0 ==> data@[pos - r.1 + i] == #[trigger] data@[pos + i]
        },
{
    let n = data.len();
    if n - pos <= 3 {
        return (0, 0);
    }
    let h = hash3(data, pos);
    let mut best_len: u32 = MIN_MATCH - 1;
    let mut best_off: u32 = 0;
    let mut cur: usize = head[h];
    let mut steps: usize = 0;
    let ghost target = chain_search(data@, pos as int, next@, head@[h as int], 0, (MIN_MATCH - 1) as nat, 0);
    while cur != usize::MAX && steps < CHAIN_DEPTH
        invariant
            n == data.len(),
            pos + 3 < n,
            next.len() == n,
            steps <= CHAIN_DEPTH,
            best_len <= MAX_MATCH,
            best_len >= MIN_MATCH ==> {
                &&& 1 <= best_off <= WINDOW
                &&& best_off <= pos
                &&& pos + best_len <= n
                &&& forall|i: int| 0 <= i < best_len ==> data@[pos - best_off + i] == #[trigger] data@[pos + i]
            },
            target == chain_search(data@, pos as int, next@, cur, steps as nat, best_len as nat, best_off as nat),
        ensures
            best_len <= MAX_MATCH,
            best_len >= MIN_MATCH ==> {
                &&& 1 <= best_off <= WINDOW
                &&& best_off <= pos
                &&& pos + best_len <= n
                &&& forall|i: int| 0 <= i < best_len ==> data@[pos - best_off + i] == #[trigger] data@[pos + i]
            },
            target == (best_len as nat, best_off as nat),
        decreases CHAIN_DEPTH - steps,
    {
        if cur >= pos || pos - cur > WINDOW {
            break;
        }
        let offset = (pos - cur) as u32;
        let rest = n - pos;
        let max_ml: usize = if rest < MAX_MATCH as usize { rest } else { MAX_MATCH as usize };
        let mut ml: usize = 0;
        proof {
            assert(max_ml == match_cap(data@, pos as int));
        }
        while ml < max_ml && data[cur + ml] == data[pos + ml]
            invariant
                cur < pos,
                pos - cur == offset,
                max_ml <= n - pos,
                max_ml <= MAX_MATCH,
                n == data.len(),
                ml <= max_ml,
                forall|i: int| 0 <= i < ml ==> data@[pos - offset + i] == #[trigger] data@[pos + i],
                common_len(data@, cur as int, pos as int, max_ml as nat, 0) == common_len(data@, cur as int, pos as int, max_ml as nat, ml as nat),
            decreases max_ml - ml,
        {
            ml += 1;
        }
        proof {
            assert(common_len(data@, cur as int, pos as int, max_ml as nat, ml as nat) == ml);
        }
        if ml as u32 > best_len {
            best_len = ml as u32;
            best_off = offset;
        }
        if best_len >= MAX_MATCH {
            break;
        }
        cur = next[cur];
        steps += 1;
    }
    (best_len, best_off)
}

/// The hash chains after putting `pos` at the head of its chain: `head`
/// maps a key to the latest position with it, `next` a position to the
/// one before it on its chain.  Positions within three bytes of the end
/// are not put on any chain.
pub open spec fn insert_step(head: Seq<usize>, next: Seq<usize>, data: Seq<u8>, pos: int) -> (Seq<usize>, Seq<usize>) {
    if data.len() - pos <= 3 {
        (head, next)
    } else {
        let h = hash_at(data, pos) as int;
        (head.update(h, pos as usize), next.update(pos, head[h]))
    }
}

/// The hash chains after putting the positions `from..to` on them, in order.
pub open spec fn inserted(head: Seq<usize>, next: Seq<usize>, data: Seq<u8>, from: int, to: int) -> (Seq<usize>, Seq<usize>)
    decreases to - from,
{
    if to <= from {
        (head, next)
    } else {
        let (h, n) = inserted(head, next, data, from, to - 1);
        insert_step(h, n, data, to - 1)
    }
}

/// Puts `pos` at the head of its hash chain.
fn insert(pos: usize, head: &mut Vec<usize>, next: &mut Vec<usize>, data: &[u8])
    requires
        pos < data.len(),
        old(head).len() == HASH_SIZE,
        old(next).len() == data.len(),
    ensures
        (final(head)@, final(next)@) == insert_step(old(head)@, old(next)@, data@, pos as int),
        final(head).len() == HASH_SIZE,
        final(next).len() == data.len(),
{
    if data.len() - pos <= 3 {
        return;
    }
    let h = hash3(data, pos);
    next[pos] = head[h];
    head[h] = pos;
}

/// Inserts the positions `from..to` into the hash chains.
fn insert_range(from: usize, to: usize, head: &mut Vec<usize>, next: &mut Vec<usize>, data: &[u8])
    requires
        to <= data.len(),
        old(head).len() == HASH_SIZE,
        old(next).len() == data.len(),
    ensures
        (final(head)@, final(next)@) == inserted(old(head)@, old(next)@, data@, from as int, to as int),
        final(head).len() == HASH_SIZE,
        final(next).len() == data.len(),
{
    let ghost h0 = head@;
    let ghost n0 = next@;
    let mut p = from;
    while p < to
        invariant
            to <= data.len(),
            head.len() == HASH_SIZE,
            next.len() == data.len(),
            from <= to ==> from <= p <= to,
            from > to ==> p == from,
            (head@, next@) == inserted(h0, n0, data@, from as int, p as int),
        decreases to - p,
    {
        insert(p, head, next, data);
        p += 1;
    }
}

/// A common prefix is counted up to its cap.
pub proof fn lemma_common_le(data: Seq<u8>, a: int, b: int, max: nat, k: nat)
    requires
        k <= max,
    ensures
        k <= common_len(data, a, b, max, k) <= max,
    decreases max - k,
{
    if k < max && data[a + k] == data[b + k] {
        lemma_common_le(data, a, b, max, k + 1);
    }
}

/// A chain search finds no match longer than the cap at `pos`.
pub proof fn lemma_chain_bound(data: Seq<u8>, pos: int, next: Seq<usize>, cur: usize, steps: nat, best_len: nat, best_off: nat)
    requires
        best_len <= match_cap(data, pos),
    ensures
        chain_search(data, pos, next, cur, steps, best_len, best_off).0 <= match_cap(data, pos),
    decreases CHAIN_DEPTH - steps,
{
    if !(cur == usize::MAX || steps >= CHAIN_DEPTH || cur >= pos || pos - cur > WINDOW) {
        let ml = common_len(data, cur as int, pos, match_cap(data, pos), 0);
        lemma_common_le(data, cur as int, pos, match_cap(data, pos), 0);
        let bl = if ml > best_len { ml } else { best_len };
        let bo = if ml > best_len { (pos - cur) as nat } else { best_off };
        if bl < MAX_MATCH {
            lemma_chain_bound(data, pos, next, next[cur as int], steps + 1, bl, bo);
        }
    }
}

/// The match `find_match` finds at `pos` with the chains `head`, `next`:
/// none within three bytes of the end, else the chain search from the head
/// of `pos`'s chain.
pub open spec fn match_at(data: Seq<u8>, pos: int, head: Seq<usize>, next: Seq<usize>) -> (nat, nat) {
    if pos + 3 >= data.len() {
        (0, 0)
    } else {
        chain_search(data, pos, next, head[hash_at(data, pos) as int], 0, (MIN_MATCH - 1) as nat, 0)
    }
}

/// The match at `pos` fits in the bytes left.
pub proof fn lemma_match_at_bound(data: Seq<u8>, pos: int, head: Seq<usize>, next: Seq<usize>)
    requires
        0 <= pos,
        pos + 3 < data.len(),
    ensures
        match_at(data, pos, head, next).0 <= data.len() - pos,
        match_at(data, pos, head, next).0 <= MAX_MATCH,
{
    lemma_chain_bound(data, pos, next, head[hash_at(data, pos) as int], 0, (MIN_MATCH - 1) as nat, 0);
}

/// The tokens from `pos` on, after `acc`, with the hash chains `head` and
/// `next`: within three bytes of the end, literals; else the match at
/// `pos` is taken when it is at least `MIN_MATCH` long, unless the match at
/// `pos + 1` is longer, in which case a literal and that match are taken;
/// every position passed is put on the chains.
pub open spec fn lz_run(data: Seq<u8>, pos: nat, head: Seq<usize>, next: Seq<usize>, acc: Seq<Token>) -> Seq<Token>
    decreases data.len() - pos,
{
    if pos >= data.len() {
        acc
    } else if data.len() - pos <= 3 {
        lz_run(data, pos + 1, head, next, acc.push(Token::Literal(data[pos as int])))
    } else {
        let (len0, off0) = match_at(data, pos as int, head, next);
        let (h1, n1) = insert_step(head, next, data, pos as int);
        if len0 < MIN_MATCH {
            lz_run(data, pos + 1, h1, n1, acc.push(Token::Literal(data[pos as int])))
        } else {
            let (len1, off1) = if data.len() - pos > 4 { match_at(data, pos + 1int, h1, n1) } else { (0nat, 0nat) };
            proof {
                lemma_match_at_bound(data, pos as int, head, next);
                if data.len() - pos > 4 {
                    lemma_match_at_bound(data, pos + 1int, h1, n1);
                }
            }
            if len1 > len0 {
                let (h2, n2) = insert_step(h1, n1, data, pos + 1int);
                let (h3, n3) = inserted(h2, n2, data, pos + 2int, pos + 1int + len1);
                lz_run(
                    data,
                    pos + 1 + len1,
                    h3,
                    n3,
                    acc.push(Token::Literal(data[pos as int])).push(Token::Match { len: len1 as u32, offset: off1 as u32 }),
                )
            } else {
                let (h2, n2) = inserted(h1, n1, data, pos + 1int, pos + len0 as int);
                lz_run(data, pos + len0, h2, n2, acc.push(Token::Match { len: len0 as u32, offset: off0 as u32 }))
            }
        }
    }
}

/// The tokens `lz77` gives for `data`, starting from empty hash chains.
pub open spec fn lz_tokens(data: Seq<u8>) -> Seq<Token> {
    lz_run(data, 0, Seq::new(HASH_SIZE as nat, |i: int| usize::MAX), Seq::new(data.len(), |i: int| usize::MAX), seq![])
}

/// Every match is `MIN_MATCH` to `MAX_MATCH` bytes long and reaches at
/// most `WINDOW` bytes back.
pub open spec fn matches_in_range(ts: Seq<Token>) -> bool {
    forall|i: int| 0 <= i < ts.len() ==> (#[trigger] ts[i] matches Token::Match { len, offset } ==> (
        MIN_MATCH <= len <= MAX_MATCH && 1 <= offset <= WINDOW))
}

/// Splits `data` into literals and matches, with a lazy look one byte
/// ahead: a match is put off by a literal when the next position has a
/// longer one.
pub fn lz77(data: &[u8]) -> (r: Vec<Token>)
    ensures
        r@ == lz_tokens(data@),
        tokens_ok(r@),
        expand(r@) == data@,
        matches_in_range(r@),
{
    let n = data.len();
    let mut tokens: Vec<Token> = Vec::new();
    let mut head: Vec<usize> = vec![usize::MAX; HASH_SIZE];
    let mut next: Vec<usize> = vec![usize::MAX; n];
    proof {
        assert forall|i: int| 0 <= i < HASH_SIZE implies #[trigger] head@[i] == usize::MAX by {
            assert(vstd::pervasive::cloned(usize::MAX, head@[i]));
        }
        assert forall|i: int| 0 <= i < n implies #[trigger] next@[i] == usize::MAX by {
            assert(vstd::pervasive::cloned(usize::MAX, next@[i]));
        }
        assert(head@ =~= Seq::new(HASH_SIZE as nat, |i: int| usize::MAX));
        assert(next@ =~= Seq::new(n as nat, |i: int| usize::MAX));
        assert(tokens@ =~= Seq::<Token>::empty());
    }
    let ghost target = lz_tokens(data@);
    let mut pos: usize = 0;
    proof {
        assert(data@.take(0) =~= Seq::<u8>::empty());
    }
    while pos < n
        invariant
            n == data.len(),
            pos <= n,
            head.len() == HASH_SIZE,
            next.len() == n,
            tokens_ok(tokens@),
            expand(tokens@) == data@.take(pos as int),
            matches_in_range(tokens@),
            target == lz_tokens(data@),
            target == lz_run(data@, pos as nat, head@, next@, tokens@),
        decreases n - pos,
    {
        let ghost before = tokens@;
        if n - pos <= 3 {
            tokens.push(Token::Literal(data[pos]));
            proof {
                lemma_expand_push(before, Token::Literal(data[pos as int]));
                assert(data@.take(pos as int).push(data[pos as int]) =~= data@.take(pos + 1));
            }
            pos += 1;
            continue;
        }
        let ghost h0 = head@;
        let ghost n0 = next@;
        let (len0, off0) = find_match(data, pos, &head, &next);
        insert(pos, &mut head, &mut next, data);
        if len0 < MIN_MATCH {
            tokens.push(Token::Literal(data[pos]));
            proof {
                lemma_expand_push(before, Token::Literal(data[pos as int]));
                assert(data@.take(pos as int).push(data[pos as int]) =~= data@.take(pos + 1));
            }
            pos += 1;
            continue;
        }
        let ghost h1 = head@;
        let ghost n1 = next@;
        let (len1, off1) = if n - pos > 4 {
            find_match(data, pos + 1, &head, &next)
        } else {
            (0, 0)
        };
        if len1 > len0 {
            tokens.push(Token::Literal(data[pos]));
            proof {
                lemma_expand_push(before, Token::Literal(data[pos as int]));
                assert(data@.take(pos as int).push(data[pos as int]) =~= data@.take(pos + 1));
            }
            pos += 1;
            insert(pos, &mut head, &mut next, data);
            let ghost mid = tokens@;
            let t = Token::Match { len: len1, offset: off1 };
            tokens.push(t);
            proof {
                lemma_expand_push(mid, t);
                lemma_copy_repeats(data@, pos as nat, off1 as nat, len1 as nat);
                assert forall|i: int| 0 <= i < tokens@.len() implies (#[trigger] tokens@[i] matches Token::Match { len, offset } ==> (
                    MIN_MATCH <= len <= MAX_MATCH && 1 <= offset <= WINDOW)) by {
                    if i < mid.len() {
                        assert(tokens@[i] == mid[i]);
                    }
                }
            }
            insert_range(pos + 1, pos + len1 as usize, &mut head, &mut next, data);
            pos += len1 as usize;
        } else {
            let t = Token::Match { len: len0, offset: off0 };
            tokens.push(t);
            proof {
                lemma_expand_push(before, t);
                lemma_copy_repeats(data@, pos as nat, off0 as nat, len0 as nat);
                assert forall|i: int| 0 <= i < tokens@.len() implies (#[trigger] tokens@[i] matches Token::Match { len, offset } ==> (
                    MIN_MATCH <= len <= MAX_MATCH && 1 <= offset <= WINDOW)) by {
                    if i < before.len() {
                        assert(tokens@[i] == before[i]);
                    }
                }
            }
            insert_range(pos + 1, pos + len0 as usize, &mut head, &mut next, data);
            pos += len0 as usize;
        }
    }
    proof {
        assert(data@.take(n as int) =~= data@);
    }
    tokens
}

} // verus!
