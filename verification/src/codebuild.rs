//! Code lengths from symbol frequencies: Huffman's construction, then
//! lengths capped at a maximum and lengthened until they fit the code space.

use vstd::prelude::*;
use vstd::arithmetic::power2::*;
use crate::huffman::count_len;
use crate::huffman::syms_with_len;
use crate::huffman::level_size;
use crate::huffman::lengths_ok;
use crate::huffman::lemma_count_le;
use crate::canonical::lengths_valid;
use crate::canonical::kraft_levels;
use crate::canonical::lemma_kraft_valid;

verus! {

/// How far the nonzero lengths among the first `k` are below `mx`, summed.
pub open spec fn slack(lens: Seq<u8>, mx: nat, k: nat) -> nat
    decreases k,
{
    if k == 0 || k > lens.len() {
        0
    } else {
        slack(lens, mx, (k - 1) as nat) + if lens[k - 1] > 0 && lens[k - 1] < mx { (mx - lens[k - 1]) as nat } else { 0 }
    }
}

/// Lengthening a length below `mx` lowers the slack by one.
pub proof fn lemma_slack_update(lens: Seq<u8>, mx: nat, k: nat, pos: nat)
    requires
        k <= lens.len(),
        pos < lens.len(),
        0 < lens[pos as int] < mx,
        mx <= 255,
    ensures
        slack(lens.update(pos as int, (lens[pos as int] + 1) as u8), mx, k) + (if pos < k { 1int } else { 0 }) == slack(lens, mx, k),
    decreases k,
{
    if k > 0 {
        lemma_slack_update(lens, mx, (k - 1) as nat, pos);
        let u = lens.update(pos as int, (lens[pos as int] + 1) as u8);
        assert(u.len() == lens.len());
        assert(u[k - 1] == if k - 1 == pos { (lens[pos as int] + 1) as u8 } else { lens[k - 1] });
    }
}

/// No length among the first `k` is `l`: none is counted.
proof fn lemma_count_none(lens: Seq<u8>, k: nat, l: nat)
    requires
        k <= lens.len(),
        forall|j: int| 0 <= j < k ==> lens[j] != l,
    ensures
        count_len(lens, k, l) == 0,
    decreases k,
{
    if k > 0 {
        lemma_count_none(lens, (k - 1) as nat, l);
    }
}

/// Lengths that are all 0 or `mx` fill at most one unit per symbol.
proof fn lemma_kraft_all_max(lens: Seq<u8>, mx: nat, nb: nat)
    requires
        1 <= nb <= mx,
        forall|j: int| 0 <= j < lens.len() ==> lens[j] == 0 || lens[j] == mx,
    ensures
        kraft_levels(lens, mx, nb) <= (if nb == mx { lens.len() as int } else { 0 }),
    decreases nb,
{
    if nb > 1 {
        lemma_kraft_all_max(lens, mx, (nb - 1) as nat);
    }
    assert(kraft_levels(lens, mx, 0) == 0);
    let prev = kraft_levels(lens, mx, (nb - 1) as nat);
    assert(prev <= 0);
    assert(kraft_levels(lens, mx, nb) == prev + level_size(lens, nb) * pow2((mx - nb) as nat));
    if nb < mx {
        lemma_count_none(lens, lens.len(), nb);
        assert(level_size(lens, nb) == 0);
        let z = level_size(lens, nb) as int;
        let q = pow2((mx - nb) as nat) as int;
        assert(z * q == 0) by (nonlinear_arith)
            requires
                z == 0,
        ;
    } else {
        lemma_count_le(lens, lens.len(), nb);
        assert(pow2(0) == 1) by {
            lemma2_to64();
        }
        assert((mx - nb) as nat == 0);
        let z = level_size(lens, nb) as int;
        let q = pow2((mx - nb) as nat) as int;
        assert(q == 1);
        assert(z * q == z) by (nonlinear_arith)
            requires
                q == 1,
        ;
    }
}

/// The count of lengths `l` among the first `k`.
fn count_length(lengths: &Vec<u8>, l: u8) -> (r: u64)
    ensures
        r == count_len(lengths@, lengths.len() as nat, l as nat),
        r <= lengths.len(),
{
    let mut cnt: u64 = 0;
    let mut k: usize = 0;
    while k < lengths.len()
        invariant
            k <= lengths.len(),
            cnt == count_len(lengths@, k as nat, l as nat),
            cnt <= k,
        decreases lengths.len() - k,
    {
        if lengths[k] == l {
            cnt += 1;
        }
        k += 1;
    }
    cnt
}

/// The Kraft sum only grows with the levels added.
proof fn lemma_kraft_mono(lens: Seq<u8>, mx: nat, a: nat, b: nat)
    requires
        a <= b,
    ensures
        kraft_levels(lens, mx, a) <= kraft_levels(lens, mx, b),
    decreases b - a,
{
    if a < b {
        lemma_kraft_mono(lens, mx, a, (b - 1) as nat);
        lemma_pow2_pos((mx - b) as nat);
        let z = level_size(lens, b) as int;
        let q = pow2((mx - b) as nat) as int;
        assert(z * q >= 0) by (nonlinear_arith)
            requires
                z >= 0,
                q >= 0,
        ;
    }
}

/// Whether the lengths over-fill the `max_len`-bit code space (their Kraft
/// sum in units of `2^-max_len` is above `2^max_len`); the sum is given up
/// on as soon as it is over.
fn kraft_over(lengths: &Vec<u8>, max_len: u8) -> (r: bool)
    requires
        max_len <= 62,
    ensures
        r == (kraft_levels(lengths@, max_len as nat, max_len as nat) > pow2(max_len as nat)),
{
    let limit = crate::huffman::pow2_u64(max_len as u32);
    let mut sum: u64 = 0;
    let mut nb: u8 = 1;
    proof {
        lemma2_to64();
        lemma_pow2_strictly_increases(max_len as nat, 63);
        lemma2_to64_rest();
        assert(pow2(63) == 0x8000_0000_0000_0000);
        assert(kraft_levels(lengths@, max_len as nat, 0) == 0);
    }
    while nb <= max_len
        invariant
            1 <= nb <= max_len + 1,
            max_len <= 62,
            limit == pow2(max_len as nat),
            limit < 0x8000_0000_0000_0000,
            sum == kraft_levels(lengths@, max_len as nat, (nb - 1) as nat),
            sum <= limit,
        decreases max_len + 1 - nb,
    {
        let cnt = count_length(lengths, nb);
        let pw = crate::huffman::pow2_u64((max_len - nb) as u32);
        proof {
            assert(level_size(lengths@, nb as nat) == cnt);
            lemma_pow2_pos((max_len - nb) as nat);
        }
        let room = (limit - sum) / pw;
        proof {
            vstd::arithmetic::div_mod::lemma_fundamental_div_mod((limit - sum) as int, pw as int);
        }
        if cnt > room {
            proof {
                assert(cnt * pw > limit - sum) by (nonlinear_arith)
                    requires
                        cnt >= room + 1,
                        pw >= 1,
                        limit - sum == pw * room + (limit - sum) % (pw as int),
                        (limit - sum) % (pw as int) < pw,
                ;
                lemma_kraft_mono(lengths@, max_len as nat, nb as nat, max_len as nat);
            }
            return true;
        }
        proof {
            assert(cnt * pw <= limit - sum) by (nonlinear_arith)
                requires
                    cnt <= room,
                    pw >= 1,
                    limit - sum == pw * room + (limit - sum) % (pw as int),
                    (limit - sum) % (pw as int) >= 0,
            ;
        }
        sum = sum + cnt * pw;
        nb = nb + 1;
    }
    false
}

/// The occurring symbols among the first `k`, as (frequency, symbol), in
/// symbol order.
pub open spec fn active_upto(freqs: Seq<u32>, k: nat) -> Seq<(u32, usize)>
    decreases k,
{
    if k == 0 || k > freqs.len() {
        seq![]
    } else {
        let prev = active_upto(freqs, (k - 1) as nat);
        if freqs[k - 1] > 0 {
            prev.push((freqs[k - 1], (k - 1) as usize))
        } else {
            prev
        }
    }
}

/// The position in `alive`, from `k` on with `best` the best so far, of
/// the node with the least (frequency, number).
pub open spec fn least_from(alive: Seq<usize>, nf: Seq<u32>, k: nat, best: nat) -> nat
    decreases alive.len() - k,
{
    if k >= alive.len() {
        best
    } else {
        let a = alive[k as int];
        let b = alive[best as int];
        if nf[a as int] < nf[b as int] || (nf[a as int] == nf[b as int] && a < b) {
            least_from(alive, nf, k + 1, k)
        } else {
            least_from(alive, nf, k + 1, best)
        }
    }
}

/// The position found lies in `alive`.
pub proof fn lemma_least_from(alive: Seq<usize>, nf: Seq<u32>, k: nat, best: nat)
    requires
        best < alive.len(),
    ensures
        least_from(alive, nf, k, best) < alive.len(),
    decreases alive.len() - k,
{
    if k < alive.len() {
        let a = alive[k as int];
        let b = alive[best as int];
        if nf[a as int] < nf[b as int] || (nf[a as int] == nf[b as int] && a < b) {
            lemma_least_from(alive, nf, k + 1, k);
        } else {
            lemma_least_from(alive, nf, k + 1, best);
        }
    }
}

/// Huffman's merging: while two nodes are alive, the two with the least
/// (frequency, number) become the children of node `next`, whose frequency
/// is their sum (saturating); gives the node frequencies, children and the
/// number of nodes.
pub open spec fn merge_run(alive: Seq<usize>, nf: Seq<u32>, lc: Seq<usize>, rc: Seq<usize>, next: nat) -> (Seq<u32>, Seq<usize>, Seq<usize>, nat)
    decreases alive.len(),
{
    if alive.len() <= 1 {
        (nf, lc, rc, next)
    } else {
        let i1 = least_from(alive, nf, 1, 0);
        let n1 = alive[i1 as int];
        let a1 = alive.remove(i1 as int);
        let i2 = least_from(a1, nf, 1, 0);
        let n2 = a1[i2 as int];
        let a2 = a1.remove(i2 as int);
        proof {
            lemma_least_from(alive, nf, 1, 0);
            lemma_least_from(a1, nf, 1, 0);
        }
        merge_run(
            a2.push(next as usize),
            nf.update(next as int, nf[n1 as int].saturating_add(nf[n2 as int])),
            lc.update(next as int, n1),
            rc.update(next as int, n2),
            next + 1,
        )
    }
}

/// The depths of the nodes: from node `node - 1` down to node `m`, each
/// node's children lie one deeper than it.
pub open spec fn depth_run(depth: Seq<usize>, lc: Seq<usize>, rc: Seq<usize>, node: nat, m: nat) -> Seq<usize>
    decreases node,
{
    if node <= m {
        depth
    } else {
        let nd = (node - 1) as nat;
        let d = (depth[nd as int] + 1) as usize;
        depth_run(depth.update(lc[nd as int] as int, d).update(rc[nd as int] as int, d), lc, rc, nd, m)
    }
}

/// A depth as a code length: raised to at least 1, then cut to `max_len`.
pub open spec fn clamp_len(d: usize, max_len: u8) -> u8 {
    let x = if d < 1 { 1 } else { d };
    if x > max_len {
        max_len
    } else {
        x as u8
    }
}

/// The lengths of the first `k` occurring symbols from their leaves' depths.
pub open spec fn lengths_from(n: nat, active: Seq<(u32, usize)>, depth: Seq<usize>, max_len: u8, k: nat) -> Seq<u8>
    decreases k,
{
    if k == 0 {
        Seq::new(n, |i: int| 0u8)
    } else {
        lengths_from(n, active, depth, max_len, (k - 1) as nat).update(
            active[k - 1].1 as int,
            clamp_len(depth[k - 1], max_len),
        )
    }
}

/// The first length from `k` on that is above 0 and below `mx`.
pub open spec fn first_short(lens: Seq<u8>, mx: nat, k: nat) -> Option<nat>
    decreases lens.len() - k,
{
    if k >= lens.len() {
        None
    } else if 0 < lens[k as int] < mx {
        Some(k)
    } else {
        first_short(lens, mx, k + 1)
    }
}

/// What `first_short` finds is such a length.
pub proof fn lemma_first_short(lens: Seq<u8>, mx: nat, k: nat)
    ensures
        first_short(lens, mx, k) matches Some(p) ==> k <= p < lens.len() && 0 < lens[p as int] < mx,
        first_short(lens, mx, k) is None ==> forall|j: int| k <= j < lens.len() ==> !(0 < #[trigger] lens[j] < mx),
    decreases lens.len() - k,
{
    if k < lens.len() {
        lemma_first_short(lens, mx, k + 1);
    }
}

/// While the lengths over-fill the `mx`-bit code space, the first length
/// above 0 and below `mx` grows by one.
pub open spec fn kraft_fix(lens: Seq<u8>, mx: u8) -> Seq<u8>
    decreases slack(lens, mx as nat, lens.len()),
{
    if kraft_levels(lens, mx as nat, mx as nat) <= pow2(mx as nat) {
        lens
    } else {
        match first_short(lens, mx as nat, 0) {
            None => lens,
            Some(p) => {
                proof {
                    lemma_first_short(lens, mx as nat, 0);
                    lemma_slack_update(lens, mx as nat, lens.len(), p);
                }
                kraft_fix(lens.update(p as int, (lens[p as int] + 1) as u8), mx)
            },
        }
    }
}

/// The code lengths for `freqs`: no symbol occurs, all 0; one occurs, it
/// gets 1; else the depths of its leaf in Huffman's tree (`merge_run`,
/// `depth_run`), clamped to 1..`max_len`; then `kraft_fix`.
pub open spec fn huffman_lengths(freqs: Seq<u32>, max_len: u8) -> Seq<u8> {
    let n = freqs.len();
    let active = active_upto(freqs, n);
    let m = active.len();
    let base = if m == 0 {
        Seq::new(n, |i: int| 0u8)
    } else if m == 1 {
        Seq::new(n, |i: int| 0u8).update(active[0].1 as int, 1u8)
    } else {
        let (nf, lc, rc, next) = merge_run(
            Seq::new(m, |i: int| i as usize),
            Seq::new(2 * m, |i: int| if i < m { active[i].0 } else { 0u32 }),
            Seq::new(2 * m, |i: int| 0usize),
            Seq::new(2 * m, |i: int| 0usize),
            m,
        );
        let depth = depth_run(Seq::new(next, |i: int| 0usize), lc, rc, next, m);
        lengths_from(n, active, depth, max_len, m)
    };
    kraft_fix(base, max_len)
}

/// Code lengths for symbols with the frequencies `freqs`: a lone symbol
/// gets 1; else the depths of a
/// Huffman tree (merging the two least frequent nodes, ties to the lower
/// node number), between 1 and `max_len` for each symbol that occurs; then,
/// while the lengths over-fill the code space, the first length below
/// `max_len` grows by one.
pub fn build_code_lengths(freqs: &[u32], max_len: u8) -> (r: Vec<u8>)
    requires
        max_len <= 62,
        freqs.len() <= usize::MAX / 4,
    ensures
        r@ == huffman_lengths(freqs@, max_len),
        r.len() == freqs.len(),
        max_len == 0 && active_upto(freqs@, freqs.len() as nat).len() != 1 ==> forall|i: int|
            0 <= i < freqs.len() ==> #[trigger] r@[i] == 0,
        max_len >= 1 || active_upto(freqs@, freqs.len() as nat).len() == 1 ==> forall|i: int|
            0 <= i < freqs.len() ==> (#[trigger] r@[i] == 0) == (freqs@[i] == 0),
        forall|i: int| 0 <= i < freqs.len() ==> #[trigger] r@[i] <= (if max_len == 0 { 1u8 } else { max_len }),
        kraft_levels(r@, max_len as nat, max_len as nat) <= pow2(max_len as nat)
            || forall|i: int| 0 <= i < freqs.len() ==> #[trigger] r@[i] == 0 || r@[i] == max_len,
        max_len <= 31 && freqs.len() <= 0x10000 && freqs.len() <= pow2(max_len as nat) ==> lengths_valid(r@),
{
    let n = freqs.len();
    let mut lengths: Vec<u8> = vec![0u8; n];
    let mut active: Vec<(u32, usize)> = Vec::new();
    let mut i: usize = 0;
    // Where each occurring symbol stands in `active`.
    let ghost mut slot: Seq<int> = Seq::empty();
    while i < n
        invariant
            i <= n,
            n == freqs.len(),
            active.len() <= i,
            slot.len() == i,
            active@ == active_upto(freqs@, i as nat),
            forall|j: int| 0 <= j < active.len() ==> #[trigger] active@[j].1 < n && freqs@[active@[j].1 as int] > 0,
            forall|j: int| 0 <= j < active.len() ==> (#[trigger] active@[j]).0 == freqs@[active@[j].1 as int],
            forall|k: int| 0 <= k < i && freqs@[k] > 0 ==> 0 <= #[trigger] slot[k] < active.len() && active@[slot[k]].1 == k,
        decreases n - i,
    {
        if freqs[i] > 0 {
            proof {
                slot = slot.push(active.len() as int);
            }
            active.push((freqs[i], i));
        } else {
            proof {
                slot = slot.push(0);
            }
        }
        i += 1;
    }
    let m = active.len();
    proof {
        assert forall|j: int| 0 <= j < n implies #[trigger] lengths@[j] == 0 by {
            assert(vstd::pervasive::cloned(0u8, lengths@[j]));
        }
        assert(lengths@ =~= Seq::new(n as nat, |i: int| 0u8));
    }
    let ghost zeros = lengths@;
    if m == 1 {
        lengths.set(active[0].1, 1);
        if max_len == 0 {
            // A lone symbol gets a 1-bit code whatever the limit.
            proof {
                assert(lengths@ =~= zeros.update(active@[0].1 as int, 1u8));
                assert(kraft_levels(lengths@, 0, 0) == 0);
                assert(kraft_fix(lengths@, 0) == lengths@);
                assert forall|i: int| 0 <= i < n implies (#[trigger] lengths@[i] == 0) == (freqs@[i] == 0) by {
                    if freqs@[i] > 0 {
                        assert(0 <= slot[i] < active.len() && active@[slot[i]].1 == i);
                    }
                }
                lemma2_to64();
                if n <= 1 {
                    assert(lengths@ =~= seq![1u8]);
                    assert(lengths@[0] as nat == 1);
                    assert(syms_with_len(lengths@, 0, 1) =~= Seq::<u16>::empty());
                    assert(syms_with_len(lengths@, 1, 1) =~= seq![0u16]);
                    lemma2_to64();
                    assert(level_size(lengths@, 1) == 1);
                    assert(kraft_levels(lengths@, 1, 0) == 0);
                    assert(kraft_levels(lengths@, 1, 1) == 1);
                    lemma_kraft_valid(lengths@, 1);
                }
            }
            return lengths;
        }
    } else if m >= 2 {
        let mut lchild: Vec<usize> = vec![0usize; 2 * m];
        let mut rchild: Vec<usize> = vec![0usize; 2 * m];
        let mut node_freq: Vec<u32> = vec![0u32; 2 * m];
        proof {
            assert forall|j: int| 0 <= j < 2 * m implies #[trigger] lchild@[j] == 0 && rchild@[j] == 0 && node_freq@[j] == 0 by {
                assert(vstd::pervasive::cloned(0usize, lchild@[j]));
                assert(vstd::pervasive::cloned(0usize, rchild@[j]));
                assert(vstd::pervasive::cloned(0u32, node_freq@[j]));
            }
            assert(lchild@ =~= Seq::new((2 * m) as nat, |i: int| 0usize));
            assert(rchild@ =~= Seq::new((2 * m) as nat, |i: int| 0usize));
        }
        let mut k: usize = 0;
        while k < m
            invariant
                k <= m,
                m == active.len(),
                node_freq.len() == 2 * m,
                forall|j: int| 0 <= j < 2 * m ==> #[trigger] node_freq@[j] == (if j < k { active@[j].0 } else { 0u32 }),
            decreases m - k,
        {
            node_freq.set(k, active[k].0);
            k += 1;
        }
        proof {
            assert(node_freq@ =~= Seq::new((2 * m) as nat, |i: int| if i < m { active@[i].0 } else { 0u32 }));
        }
        // The nodes still to be merged.
        let mut alive: Vec<usize> = Vec::new();
        k = 0;
        while k < m
            invariant
                k <= m,
                alive.len() == k,
                forall|j: int| 0 <= j < alive.len() ==> #[trigger] alive@[j] == j,
            decreases m - k,
        {
            alive.push(k);
            k += 1;
        }
        proof {
            assert(alive@ =~= Seq::new(m as nat, |i: int| i as usize));
        }
        let ghost merged = merge_run(alive@, node_freq@, lchild@, rchild@, m as nat);
        let mut next: usize = m;
        while alive.len() > 1
            invariant
                2 <= m <= usize::MAX / 4,
                lchild.len() == 2 * m,
                rchild.len() == 2 * m,
                node_freq.len() == 2 * m,
                m <= next,
                alive.len() >= 1,
                next + alive.len() == 2 * m,
                forall|j: int| 0 <= j < alive.len() ==> #[trigger] alive@[j] < next,
                forall|j: int| m <= j < next ==> #[trigger] lchild@[j] < j && rchild@[j] < j,
                merged == merge_run(alive@, node_freq@, lchild@, rchild@, next as nat),
            decreases alive.len(),
        {
            let ghost a0 = alive@;
            let n1 = pop_least(&mut alive, &node_freq);
            let ghost a1 = alive@;
            let n2 = pop_least(&mut alive, &node_freq);
            proof {
                let j1 = choose|j: int| 0 <= j < a0.len() && a0[j] == n1;
                assert(a0[j1] < next);
                let j2 = choose|j: int| 0 <= j < a1.len() && a1[j] == n2;
                assert(a0.contains(a1[j2]));
                let j3 = choose|j: int| 0 <= j < a0.len() && a0[j] == a1[j2];
                assert(a0[j3] < next);
            }
            let f = node_freq[n1].saturating_add(node_freq[n2]);
            node_freq.set(next, f);
            lchild.set(next, n1);
            rchild.set(next, n2);
            alive.push(next);
            next += 1;
        }
        // Depths, from the root down: a parent's number is above its children's.
        let root = next - 1;
        let mut depth: Vec<usize> = vec![0usize; next];
        proof {
            assert forall|j: int| 0 <= j < next implies #[trigger] depth@[j] == 0 by {
                assert(vstd::pervasive::cloned(0usize, depth@[j]));
            }
            assert(depth@ =~= Seq::new(next as nat, |i: int| 0usize));
        }
        let ghost depths = depth_run(depth@, lchild@, rchild@, next as nat, m as nat);
        let mut node = root + 1;
        while node > m
            invariant
                m <= node <= root + 1,
                root + 1 == next,
                next == 2 * m - 1,
                depth.len() == next,
                lchild.len() == 2 * m,
                rchild.len() == 2 * m,
                forall|j: int| m <= j < next ==> #[trigger] lchild@[j] < j && rchild@[j] < j,
                forall|j: int| 0 <= j < next ==> #[trigger] depth@[j] <= root - j,
                depths == depth_run(depth@, lchild@, rchild@, node as nat, m as nat),
            decreases node,
        {
            node -= 1;
            let d = depth[node] + 1;
            let lc = lchild[node];
            let rc = rchild[node];
            depth.set(lc, d);
            depth.set(rc, d);
        }
        k = 0;
        proof {
            assert(lengths@ == lengths_from(n as nat, active@, depth@, max_len, 0));
        }
        while k < m
            invariant
                k <= m,
                m == active.len(),
                lengths.len() == n,
                depth.len() == 2 * m - 1,
                max_len <= 62,
                forall|j: int| 0 <= j < active.len() ==> #[trigger] active@[j].1 < n && freqs@[active@[j].1 as int] > 0,
                forall|j: int| 0 <= j < n && #[trigger] lengths@[j] > 0 ==> freqs@[j] > 0 && lengths@[j] <= max_len,
                max_len >= 1 ==> forall|j: int| 0 <= j < k ==> lengths@[#[trigger] active@[j].1 as int] > 0,
                lengths@ == lengths_from(n as nat, active@, depth@, max_len, k as nat),
            decreases m - k,
        {
            let d = depth[k];
            let x: usize = if d < 1 { 1 } else { d };
            let l: u8 = if x > max_len as usize { max_len } else { x as u8 };
            let sym = active[k].1;
            lengths.set(sym, l);
            k += 1;
        }
    }
    proof {
        if max_len >= 1 {
            assert forall|i: int| 0 <= i < n && freqs@[i] > 0 implies lengths@[i] > 0 by {
                assert(0 <= slot[i] < active.len() && active@[slot[i]].1 == i);
            }
        } else {
            assert forall|i: int| 0 <= i < n implies lengths@[i] == 0 by {}
        }
    }
    let ghost base = lengths@;
    fix_kraft(&mut lengths, max_len);
    proof {
        if max_len >= 1 && n <= pow2(max_len as nat) && !(kraft_levels(lengths@, max_len as nat, max_len as nat) <= pow2(max_len as nat)) {
            lemma_kraft_all_max(lengths@, max_len as nat, max_len as nat);
        }
        if 1 <= max_len <= 31 && n <= 0x10000 && kraft_levels(lengths@, max_len as nat, max_len as nat) <= pow2(max_len as nat) {
            lemma_kraft_valid(lengths@, max_len as nat);
        }
    }
    lengths
}

/// Removes and returns the alive node with the least (frequency, number).
fn pop_least(alive: &mut Vec<usize>, node_freq: &Vec<u32>) -> (r: usize)
    requires
        old(alive).len() >= 1,
        forall|j: int| 0 <= j < old(alive).len() ==> #[trigger] old(alive)@[j] < node_freq.len(),
    ensures
        final(alive).len() == old(alive).len() - 1,
        old(alive)@.contains(r),
        forall|j: int| 0 <= j < final(alive).len() ==> old(alive)@.contains(#[trigger] final(alive)@[j]),
        least_from(old(alive)@, node_freq@, 1, 0) < old(alive).len(),
        r == old(alive)@[least_from(old(alive)@, node_freq@, 1, 0) as int],
        final(alive)@ == old(alive)@.remove(least_from(old(alive)@, node_freq@, 1, 0) as int),
{
    let mut best: usize = 0;
    let mut k: usize = 1;
    proof {
        lemma_least_from(alive@, node_freq@, 1, 0);
    }
    while k < alive.len()
        invariant
            1 <= k <= alive.len(),
            best < alive.len(),
            best < k,
            forall|j: int| 0 <= j < alive.len() ==> #[trigger] alive@[j] < node_freq.len(),
            least_from(alive@, node_freq@, 1, 0) == least_from(alive@, node_freq@, k as nat, best as nat),
        decreases alive.len() - k,
    {
        let a = alive[k];
        let b = alive[best];
        if node_freq[a] < node_freq[b] || (node_freq[a] == node_freq[b] && a < b) {
            best = k;
        }
        k += 1;
    }
    let ghost before = alive@;
    let r = alive.remove(best);
    proof {
        assert(before[best as int] == r);
        assert forall|j: int| 0 <= j < alive.len() implies before.contains(#[trigger] alive@[j]) by {
            if j < best {
                assert(alive@[j] == before[j]);
            } else {
                assert(alive@[j] == before[j + 1]);
            }
        }
    }
    r
}

/// Lengthens the first length below `max_len` until the lengths fit the
/// code space or none is left to lengthen.
fn fix_kraft(lengths: &mut Vec<u8>, max_len: u8)
    requires
        max_len <= 62,
        forall|j: int| 0 <= j < old(lengths).len() ==> #[trigger] old(lengths)@[j] <= max_len,
    ensures
        final(lengths)@ == kraft_fix(old(lengths)@, max_len),
        final(lengths).len() == old(lengths).len(),
        forall|j: int| 0 <= j < old(lengths).len() ==> (#[trigger] final(lengths)@[j] == 0) == (old(lengths)@[j] == 0),
        forall|j: int| 0 <= j < old(lengths).len() ==> #[trigger] final(lengths)@[j] <= max_len,
        kraft_levels(final(lengths)@, max_len as nat, max_len as nat) <= pow2(max_len as nat)
            || forall|j: int| 0 <= j < old(lengths).len() ==> #[trigger] final(lengths)@[j] == 0 || final(lengths)@[j] == max_len,
{
    let ghost orig = lengths@;
    let n = lengths.len();
    loop
        invariant
            max_len <= 62,
            n == lengths.len() == orig.len(),
            forall|j: int| 0 <= j < n ==> (#[trigger] lengths@[j] == 0) == (orig[j] == 0),
            forall|j: int| 0 <= j < n ==> #[trigger] lengths@[j] <= max_len,
            kraft_fix(orig, max_len) == kraft_fix(lengths@, max_len),
        ensures
            kraft_fix(orig, max_len) == lengths@,
            n == lengths.len(),
            forall|j: int| 0 <= j < n ==> (#[trigger] lengths@[j] == 0) == (orig[j] == 0),
            forall|j: int| 0 <= j < n ==> #[trigger] lengths@[j] <= max_len,
            kraft_levels(lengths@, max_len as nat, max_len as nat) <= pow2(max_len as nat)
                || forall|j: int| 0 <= j < n ==> #[trigger] lengths@[j] == 0 || lengths@[j] == max_len,
        decreases slack(lengths@, max_len as nat, n as nat),
    {
        if !kraft_over(lengths, max_len) {
            break;
        }
        let mut pos: usize = 0;
        while pos < n && !(lengths[pos] > 0 && lengths[pos] < max_len)
            invariant
                pos <= n,
                n == lengths.len(),
                forall|j: int| 0 <= j < pos ==> #[trigger] lengths@[j] == 0 || lengths@[j] >= max_len,
                first_short(lengths@, max_len as nat, 0) == first_short(lengths@, max_len as nat, pos as nat),
            decreases n - pos,
        {
            pos += 1;
        }
        if pos == n {
            break;
        }
        let ghost before = lengths@;
        let l = lengths[pos];
        lengths.set(pos, l + 1);
        proof {
            lemma_slack_update(before, max_len as nat, n as nat, pos as nat);
            assert(lengths@ == before.update(pos as int, (before[pos as int] + 1) as u8));
        }
    }
}

} // verus!
