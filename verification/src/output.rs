//! The files the patch commands write: the atlas blob read by the in-memory
//! injector and the patch metadata record.

use vstd::prelude::*;
use crate::patch::pow256;
use crate::bytes::le32;
use crate::bytes::le64;
use vstd::arithmetic::div_mod::*;

verus! {

/// The `n` little-endian bytes of `v`.
pub open spec fn le_bytes(v: nat, n: nat) -> Seq<u8> {
    Seq::new(n, |i: int| ((v as int / pow256(i)) % 256) as u8)
}

proof fn lemma_pow256_pos(i: int)
    ensures
        pow256(i) >= 1,
    decreases i,
{
    if i > 0 {
        lemma_pow256_pos(i - 1);
    }
}

/// Appends the `n` little-endian bytes of `v`.
fn push_le(out: &mut Vec<u8>, v: u64, n: usize)
    requires
        n <= 8,
    ensures
        final(out)@ == old(out)@ + le_bytes(v as nat, n as nat),
{
    let ghost start = out@;
    let mut rest = v;
    let mut i: usize = 0;
    while i < n
        invariant
            i <= n,
            rest as int == v as int / pow256(i as int),
            out@ == start + le_bytes(v as nat, i as nat),
        decreases n - i,
    {
        out.push((rest % 256) as u8);
        proof {
            lemma_pow256_pos(i as int);
            vstd::arithmetic::div_mod::lemma_div_denominator(v as int, pow256(i as int), 256);
            assert(out@ =~= start + le_bytes(v as nat, (i + 1) as nat));
        }
        rest = rest / 256;
        i += 1;
    }
}

/// The records of the atlas blob: for each, the file id it replaces, the
/// atlas length and the atlas.
pub open spec fn atlas_records(records: Seq<(u32, Seq<u8>)>) -> Seq<u8>
    decreases records.len(),
{
    if records.len() == 0 {
        seq![]
    } else {
        let r = records.last();
        atlas_records(records.drop_last()) + le_bytes(r.0 as nat, 4) + le_bytes(r.1.len(), 4) + r.1
    }
}

/// A record as (file id, atlas bytes).
pub open spec fn record_view(r: (u32, Vec<u8>)) -> (u32, Seq<u8>) {
    (r.0, r.1@)
}

/// The atlas blob: the record count, then the records (`atlas_records`).
pub fn atlas_blob(records: &[(u32, Vec<u8>)]) -> (r: Vec<u8>)
    requires
        records.len() <= u32::MAX,
        forall|i: int| 0 <= i < records.len() ==> (#[trigger] records@[i]).1.len() <= u32::MAX,
    ensures
        r@ == le_bytes(records.len() as nat, 4) + atlas_records(records@.map_values(|x: (u32, Vec<u8>)| record_view(x))),
{
    let ghost views = records@.map_values(|x: (u32, Vec<u8>)| record_view(x));
    let mut out: Vec<u8> = Vec::new();
    push_le(&mut out, records.len() as u64, 4);
    proof {
        assert(views.take(0) =~= Seq::<(u32, Seq<u8>)>::empty());
        assert(out@ =~= le_bytes(records.len() as nat, 4) + atlas_records(views.take(0)));
    }
    let mut i: usize = 0;
    while i < records.len()
        invariant
            i <= records.len(),
            views == records@.map_values(|x: (u32, Vec<u8>)| record_view(x)),
            forall|j: int| 0 <= j < records.len() ==> (#[trigger] records@[j]).1.len() <= u32::MAX,
            out@ == le_bytes(records.len() as nat, 4) + atlas_records(views.take(i as int)),
        decreases records.len() - i,
    {
        let ghost before = out@;
        let rec = &records[i];
        push_le(&mut out, rec.0 as u64, 4);
        push_le(&mut out, rec.1.len() as u64, 4);
        let ghost mid = out@;
        let mut k: usize = 0;
        while k < rec.1.len()
            invariant
                k <= rec.1.len(),
                out@ == mid + rec.1@.take(k as int),
            decreases rec.1.len() - k,
        {
            out.push(rec.1[k]);
            proof {
                assert(out@ =~= mid + rec.1@.take(k + 1));
            }
            k += 1;
        }
        proof {
            assert(rec.1@.take(rec.1.len() as int) =~= rec.1@);
            assert(views.take(i + 1).drop_last() =~= views.take(i as int));
            assert(views.take(i + 1).last() == record_view(records@[i as int]));
            assert(out@ =~= le_bytes(records.len() as nat, 4) + atlas_records(views.take(i + 1)));
        }
        i += 1;
    }
    proof {
        assert(views.take(records.len() as int) =~= views);
    }
    out
}

/// Where the patched files go in the archive and what they replace.
pub struct PatchMeta {
    pub afnt_offset: u64,
    pub afnt_stored_size: u32,
    pub mft_offset: u64,
    pub afnt_index: u32,
    pub glyph_file_id: u32,
    pub atoc_offset: u64,
    pub atoc_size: u32,
    pub mft_size: u32,
    pub glyph_index: u32,
    pub glyph_offset: u64,
    pub glyph_stored_size: u32,
    pub afnt_compressed_size: u32,
}

/// The metadata record: its fields in order, each little-endian.
pub open spec fn meta_bytes(m: PatchMeta) -> Seq<u8> {
    le_bytes(m.afnt_offset as nat, 8) + le_bytes(m.afnt_stored_size as nat, 4) + le_bytes(m.mft_offset as nat, 8)
        + le_bytes(m.afnt_index as nat, 4) + le_bytes(m.glyph_file_id as nat, 4) + le_bytes(m.atoc_offset as nat, 8)
        + le_bytes(m.atoc_size as nat, 4) + le_bytes(m.mft_size as nat, 4) + le_bytes(m.glyph_index as nat, 4)
        + le_bytes(m.glyph_offset as nat, 8) + le_bytes(m.glyph_stored_size as nat, 4) + le_bytes(m.afnt_compressed_size as nat, 4)
}

/// The four little-endian bytes of any number read back as it, modulo 2^32.
pub proof fn lemma_le_bytes4(v: nat)
    ensures
        le_bytes(v, 4).len() == 4,
        le32(le_bytes(v, 4), 0) == v % 0x1_0000_0000,
{
    let b = le_bytes(v, 4);
    assert(pow256(0) == 1);
    assert(pow256(1) == 256);
    assert(pow256(2) == 65536);
    assert(pow256(3) == 16777216);
    let x = v as int;
    lemma_fundamental_div_mod(x, 256);
    lemma_fundamental_div_mod(x / 256, 256);
    lemma_fundamental_div_mod(x / 65536, 256);
    lemma_fundamental_div_mod(x / 16777216, 256);
    lemma_fundamental_div_mod(x, 0x1_0000_0000);
    lemma_div_denominator(x, 256, 256);
    lemma_div_denominator(x, 65536, 256);
    lemma_div_denominator(x, 16777216, 256);
    assert(b[0] == x % 256);
    assert(b[1] == (x / 256) % 256);
    assert(b[2] == (x / 65536) % 256);
    assert(b[3] == (x / 16777216) % 256);
}

/// The eight little-endian bytes of a number below 2^64 read back as it.
pub proof fn lemma_le_bytes8(v: nat)
    requires
        v < 0x1_0000_0000_0000_0000,
    ensures
        le_bytes(v, 8).len() == 8,
        le64(le_bytes(v, 8), 0) == v,
{
    let b = le_bytes(v, 8);
    let x = v as int;
    let hi = x / 0x1_0000_0000;
    assert(pow256(0) == 1);
    assert(pow256(1) == 256);
    assert(pow256(2) == 65536);
    assert(pow256(3) == 16777216);
    assert(pow256(4) == 0x1_0000_0000);
    assert(pow256(5) == 0x1_0000_0000 * 256);
    assert(pow256(6) == 0x1_0000_0000 * 65536);
    assert(pow256(7) == 0x1_0000_0000 * 16777216);
    lemma_div_denominator(x, 0x1_0000_0000, 256);
    lemma_div_denominator(x, 0x1_0000_0000, 65536);
    lemma_div_denominator(x, 0x1_0000_0000, 16777216);
    assert(b.take(4) =~= le_bytes(v, 4));
    assert(b.subrange(4, 8) =~= le_bytes(hi as nat, 4));
    lemma_le_bytes4(v);
    lemma_le_bytes4(hi as nat);
    assert(le32(b, 0) == le32(b.take(4), 0));
    assert(le32(b, 4) == le32(b.subrange(4, 8), 0));
    lemma_fundamental_div_mod(x, 0x1_0000_0000);
    assert(hi < 0x1_0000_0000) by {
        lemma_div_is_ordered(x, 0xFFFF_FFFF_FFFF_FFFF, 0x1_0000_0000);
    }
    lemma_small_mod(hi as nat, 0x1_0000_0000);
}

/// Where `s` holds the four bytes of `v` at `at`, the `u32` read there is `v`.
pub proof fn lemma_le32_at(s: Seq<u8>, at: int, v: u32)
    requires
        0 <= at,
        at + 4 <= s.len(),
        s.subrange(at, at + 4) == le_bytes(v as nat, 4),
    ensures
        le32(s, at) == v,
{
    lemma_le_bytes4(v as nat);
    lemma_small_mod(v as nat, 0x1_0000_0000);
    let b = le_bytes(v as nat, 4);
    assert(s[at] == b[0] && s[at + 1] == b[1] && s[at + 2] == b[2] && s[at + 3] == b[3]) by {
        assert(s.subrange(at, at + 4)[0] == s[at]);
        assert(s.subrange(at, at + 4)[1] == s[at + 1]);
        assert(s.subrange(at, at + 4)[2] == s[at + 2]);
        assert(s.subrange(at, at + 4)[3] == s[at + 3]);
    }
}

/// Where `s` holds the eight bytes of `v` at `at`, the `u64` read there is `v`.
pub proof fn lemma_le64_at(s: Seq<u8>, at: int, v: u64)
    requires
        0 <= at,
        at + 8 <= s.len(),
        s.subrange(at, at + 8) == le_bytes(v as nat, 8),
    ensures
        le64(s, at) == v,
{
    lemma_le_bytes8(v as nat);
    let b = le_bytes(v as nat, 8);
    assert forall|i: int| 0 <= i < 8 implies s[at + i] == b[i] by {
        assert(s.subrange(at, at + 8)[i] == s[at + i]);
    }
    assert(s[at] == b[0] && s[at + 1] == b[1] && s[at + 2] == b[2] && s[at + 3] == b[3]);
    assert(s[at + 4] == b[4] && s[at + 5] == b[5] && s[at + 6] == b[6] && s[at + 7] == b[7]);
}

/// The metadata record's layout: 64 bytes, each field little-endian at its
/// fixed offset, in the order the injector reads them.
pub proof fn lemma_meta_fields(m: PatchMeta)
    ensures
        meta_bytes(m).len() == 64,
        le64(meta_bytes(m), 0) == m.afnt_offset,
        le32(meta_bytes(m), 8) == m.afnt_stored_size,
        le64(meta_bytes(m), 12) == m.mft_offset,
        le32(meta_bytes(m), 20) == m.afnt_index,
        le32(meta_bytes(m), 24) == m.glyph_file_id,
        le64(meta_bytes(m), 28) == m.atoc_offset,
        le32(meta_bytes(m), 36) == m.atoc_size,
        le32(meta_bytes(m), 40) == m.mft_size,
        le32(meta_bytes(m), 44) == m.glyph_index,
        le64(meta_bytes(m), 48) == m.glyph_offset,
        le32(meta_bytes(m), 56) == m.glyph_stored_size,
        le32(meta_bytes(m), 60) == m.afnt_compressed_size,
{
    let r = meta_bytes(m);
    assert(r.subrange(0, 8) =~= le_bytes(m.afnt_offset as nat, 8));
    lemma_le64_at(r, 0, m.afnt_offset);
    assert(r.subrange(8, 12) =~= le_bytes(m.afnt_stored_size as nat, 4));
    lemma_le32_at(r, 8, m.afnt_stored_size);
    assert(r.subrange(12, 20) =~= le_bytes(m.mft_offset as nat, 8));
    lemma_le64_at(r, 12, m.mft_offset);
    assert(r.subrange(20, 24) =~= le_bytes(m.afnt_index as nat, 4));
    lemma_le32_at(r, 20, m.afnt_index);
    assert(r.subrange(24, 28) =~= le_bytes(m.glyph_file_id as nat, 4));
    lemma_le32_at(r, 24, m.glyph_file_id);
    assert(r.subrange(28, 36) =~= le_bytes(m.atoc_offset as nat, 8));
    lemma_le64_at(r, 28, m.atoc_offset);
    assert(r.subrange(36, 40) =~= le_bytes(m.atoc_size as nat, 4));
    lemma_le32_at(r, 36, m.atoc_size);
    assert(r.subrange(40, 44) =~= le_bytes(m.mft_size as nat, 4));
    lemma_le32_at(r, 40, m.mft_size);
    assert(r.subrange(44, 48) =~= le_bytes(m.glyph_index as nat, 4));
    lemma_le32_at(r, 44, m.glyph_index);
    assert(r.subrange(48, 56) =~= le_bytes(m.glyph_offset as nat, 8));
    lemma_le64_at(r, 48, m.glyph_offset);
    assert(r.subrange(56, 60) =~= le_bytes(m.glyph_stored_size as nat, 4));
    lemma_le32_at(r, 56, m.glyph_stored_size);
    assert(r.subrange(60, 64) =~= le_bytes(m.afnt_compressed_size as nat, 4));
    lemma_le32_at(r, 60, m.afnt_compressed_size);
}

/// Writes the metadata record (`meta_bytes`).
pub fn patch_meta(m: &PatchMeta) -> (r: Vec<u8>)
    ensures
        r@ == meta_bytes(*m),
        r@.len() == 64,
        le64(r@, 0) == m.afnt_offset,
        le32(r@, 8) == m.afnt_stored_size,
        le64(r@, 12) == m.mft_offset,
        le32(r@, 20) == m.afnt_index,
        le32(r@, 24) == m.glyph_file_id,
        le64(r@, 28) == m.atoc_offset,
        le32(r@, 36) == m.atoc_size,
        le32(r@, 40) == m.mft_size,
        le32(r@, 44) == m.glyph_index,
        le64(r@, 48) == m.glyph_offset,
        le32(r@, 56) == m.glyph_stored_size,
        le32(r@, 60) == m.afnt_compressed_size,
{
    proof {
        lemma_meta_fields(*m);
    }
    let mut out: Vec<u8> = Vec::new();
    push_le(&mut out, m.afnt_offset, 8);
    push_le(&mut out, m.afnt_stored_size as u64, 4);
    push_le(&mut out, m.mft_offset, 8);
    push_le(&mut out, m.afnt_index as u64, 4);
    push_le(&mut out, m.glyph_file_id as u64, 4);
    push_le(&mut out, m.atoc_offset, 8);
    push_le(&mut out, m.atoc_size as u64, 4);
    push_le(&mut out, m.mft_size as u64, 4);
    push_le(&mut out, m.glyph_index as u64, 4);
    push_le(&mut out, m.glyph_offset, 8);
    push_le(&mut out, m.glyph_stored_size as u64, 4);
    push_le(&mut out, m.afnt_compressed_size as u64, 4);
    proof {
        assert(out@ =~= meta_bytes(*m));
    }
    out
}


/// An ATOC record mapping `file_id` to the 1-based file-table index `index`.
pub fn atoc_record(file_id: u32, index: u32) -> (r: Vec<u8>)
    ensures
        r@ == le_bytes(file_id as nat, 4) + le_bytes(index as nat, 4),
{
    let mut out: Vec<u8> = Vec::new();
    push_le(&mut out, file_id as u64, 4);
    push_le(&mut out, index as u64, 4);
    out
}

} // verus!
