//! The `Gw2.dat` archive's structures: its header, its file table (MFT),
//! the ATOC file-id table, and the stored form of an entry.

use vstd::prelude::*;
use byteorder::ByteOrder;
use std::collections::HashMap;
use crate::bytes::le16;
use crate::bytes::le32;
use crate::bytes::le64;
use crate::error::Gw2Error;
use crate::inflate::decompress_gw2;
use crate::inflate::inflate;

verus! {

broadcast use vstd::std_specs::hash::group_hash_axioms;

/// Size of the archive header.
pub const DAT_HEADER_SIZE: usize = 40;
/// Size of the file table's header, and of each of its entries.
pub const MFT_RECORD_SIZE: usize = 24;
/// Payload bytes of a block of an uncompressed entry (a 4-byte checksum follows).
pub const RAW_BLOCK_DATA: usize = 65532;
/// Size of a block of an uncompressed entry, checksum included.
pub const RAW_BLOCK_TOTAL: usize = 65536;

/// The archive header.
pub struct DatHeader {
    pub version: u8,
    pub chunk_size: u32,
    pub mft_offset: u64,
    pub mft_size: u32,
}

/// A file-table entry as the tool keeps it.
pub struct MftEntry {
    pub offset: u64,
    pub size: u32,
    pub compressed: bool,
    pub _crc: u32,
    pub file_type: Option<String>,
}

/// A file-table entry as stored: 24 bytes.
pub struct RawMftEntry {
    pub offset: u64,
    pub size: u32,
    pub compression_flag: u16,
    pub entry_flags: u16,
    pub counter: u32,
    pub crc: u32,
}

/// `byteorder`'s `LittleEndian::read_u16` on `buf[at..]`; the contract
/// claims the little-endian value of the two bytes at `at`.
#[verifier::external_body]
fn le_u16_at(buf: &[u8], at: usize) -> (r: u16)
    requires
        at + 2 <= buf.len(),
    ensures
        r as int == le16(buf@, at as int),
{
    byteorder::LittleEndian::read_u16(&buf[at..])
}

/// `byteorder`'s `LittleEndian::read_u32` on `buf[at..]`; the contract
/// claims the little-endian value of the four bytes at `at`.
#[verifier::external_body]
fn le_u32_at(buf: &[u8], at: usize) -> (r: u32)
    requires
        at + 4 <= buf.len(),
    ensures
        r as int == le32(buf@, at as int),
{
    byteorder::LittleEndian::read_u32(&buf[at..])
}

/// `byteorder`'s `LittleEndian::read_u64` on `buf[at..]`; the contract
/// claims the little-endian value of the eight bytes at `at`.
#[verifier::external_body]
fn le_u64_at(buf: &[u8], at: usize) -> (r: u64)
    requires
        at + 8 <= buf.len(),
    ensures
        r as int == le64(buf@, at as int),
{
    byteorder::LittleEndian::read_u64(&buf[at..])
}

/// The header's signature `AN\x1a` after the version byte.
pub open spec fn dat_magic_ok(b: Seq<u8>) -> bool {
    b[1] == 0x41u8 && b[2] == 0x4Eu8 && b[3] == 0x1Au8
}

/// Reads the 40-byte archive header from the archive's first bytes: the
/// version, the `AN\x1a` signature, and the chunk size, file-table offset
/// and file-table size at bytes 12, 24 and 32.
pub fn parse_dat_header(bytes: &[u8]) -> (r: Result<DatHeader, Gw2Error>)
    ensures
        bytes.len() < 4 ==> r == Err::<DatHeader, Gw2Error>(Gw2Error::Truncated),
        bytes.len() >= 4 && !dat_magic_ok(bytes@) ==> r == Err::<DatHeader, Gw2Error>(Gw2Error::BadDatMagic),
        bytes.len() >= 4 && dat_magic_ok(bytes@) && bytes.len() < 40 ==> r == Err::<DatHeader, Gw2Error>(Gw2Error::Truncated),
        bytes.len() >= 40 && dat_magic_ok(bytes@) ==> (r matches Ok(h) && h.version == bytes@[0]
            && h.chunk_size == le32(bytes@, 12) && h.mft_offset == le64(bytes@, 24) && h.mft_size == le32(bytes@, 32)),
{
    if bytes.len() < 4 {
        return Err(Gw2Error::Truncated);
    }
    let version = bytes[0];
    if !(bytes[1] == 0x41 && bytes[2] == 0x4E && bytes[3] == 0x1A) {
        return Err(Gw2Error::BadDatMagic);
    }
    if bytes.len() < DAT_HEADER_SIZE {
        return Err(Gw2Error::Truncated);
    }
    let chunk_size = le_u32_at(bytes, 12);
    let mft_offset = le_u64_at(bytes, 24);
    let mft_size = le_u32_at(bytes, 32);
    Ok(DatHeader { version, chunk_size, mft_offset, mft_size })
}

/// The file table's signature `Mft\x1a`.
pub open spec fn mft_magic_ok(b: Seq<u8>) -> bool {
    b[0] == 0x4Du8 && b[1] == 0x66u8 && b[2] == 0x74u8 && b[3] == 0x1Au8
}

/// Reads the file table's 24-byte header: after the `Mft\x1a` signature, its
/// entry count (at byte 12) counts the header itself; gives the number of
/// entries that follow.
pub fn parse_mft_header(bytes: &[u8]) -> (r: Result<u32, Gw2Error>)
    ensures
        bytes.len() < 4 ==> r == Err::<u32, Gw2Error>(Gw2Error::Truncated),
        bytes.len() >= 4 && !mft_magic_ok(bytes@) ==> r == Err::<u32, Gw2Error>(Gw2Error::BadMftMagic),
        bytes.len() >= 4 && mft_magic_ok(bytes@) && bytes.len() < 24 ==> r == Err::<u32, Gw2Error>(Gw2Error::Truncated),
        bytes.len() >= 24 && mft_magic_ok(bytes@) ==> r == Ok::<u32, Gw2Error>(
            (if le32(bytes@, 12) > 0 { le32(bytes@, 12) - 1 } else { 0 }) as u32,
        ),
{
    if bytes.len() < 4 {
        return Err(Gw2Error::Truncated);
    }
    if !(bytes[0] == 0x4D && bytes[1] == 0x66 && bytes[2] == 0x74 && bytes[3] == 0x1A) {
        return Err(Gw2Error::BadMftMagic);
    }
    if bytes.len() < MFT_RECORD_SIZE {
        return Err(Gw2Error::Truncated);
    }
    let num_entries = le_u32_at(bytes, 12);
    Ok(if num_entries > 0 { num_entries - 1 } else { 0 })
}

/// Reads one stored file-table entry from `bytes[at..at + 24]`: offset,
/// size, compression flag, entry flags, counter and checksum.
pub fn parse_mft_entry(bytes: &[u8], at: usize) -> (r: RawMftEntry)
    requires
        at + 24 <= bytes.len(),
    ensures
        r.offset == le64(bytes@, at as int),
        r.size == le32(bytes@, at + 8),
        r.compression_flag == le16(bytes@, at + 12),
        r.entry_flags == le16(bytes@, at + 14),
        r.counter == le32(bytes@, at + 16),
        r.crc == le32(bytes@, at + 20),
{
    RawMftEntry {
        offset: le_u64_at(bytes, at),
        size: le_u32_at(bytes, at + 8),
        compression_flag: le_u16_at(bytes, at + 12),
        entry_flags: le_u16_at(bytes, at + 14),
        counter: le_u32_at(bytes, at + 16),
        crc: le_u32_at(bytes, at + 20),
    }
}

/// The tool's view of a stored entry, with the type read from its content;
/// compression flag 8 marks a compressed entry.
pub fn mft_entry_from_raw(raw: &RawMftEntry, file_type: Option<String>) -> (r: MftEntry)
    ensures
        r.offset == raw.offset,
        r.size == raw.size,
        r.compressed == (raw.compression_flag == 0x0008),
        r._crc == raw.crc,
        r.file_type == file_type,
{
    MftEntry {
        offset: raw.offset,
        size: raw.size,
        compressed: raw.compression_flag == 0x0008,
        _crc: raw.crc,
        file_type,
    }
}

/// A byte shown as itself if it is a visible ASCII character, else as `.`.
pub open spec fn shown(b: u8) -> u8 {
    if 0x21 <= b <= 0x7E { b } else { 0x2Eu8 }
}

/// The first four bytes of `bytes[at..]` as a printable FourCC.
pub fn fourcc_text(bytes: &[u8], at: usize) -> (r: Vec<u8>)
    requires
        at + 4 <= bytes.len(),
    ensures
        r@ == Seq::new(4, |i: int| shown(bytes@[at + i])),
{
    let mut out: Vec<u8> = Vec::new();
    let mut i: usize = 0;
    while i < 4
        invariant
            i <= 4,
            at + 4 <= bytes.len(),
            out@ == Seq::new(i as nat, |k: int| shown(bytes@[at + k])),
        decreases 4 - i,
    {
        let b = bytes[at + i];
        out.push(if 0x21 <= b && b <= 0x7E { b } else { 0x2E });
        proof {
            assert(out@ =~= Seq::new((i + 1) as nat, |k: int| shown(bytes@[at + k])));
        }
        i += 1;
    }
    out
}

/// The type of an entry's content, as shown: the chunk FourCC at byte 8 of a
/// `PF` file, else the first four bytes; `None` under four bytes.
pub fn entry_type(data: &[u8]) -> (r: Option<Vec<u8>>)
    ensures
        data.len() < 4 ==> r is None,
        data.len() >= 4 ==> (r matches Some(t) && t@ == Seq::new(4, |i: int| shown(
            data@[(if data.len() >= 12 && data@[0] == 0x50 && data@[1] == 0x46 { 8int } else { 0int }) + i],
        ))),
{
    if data.len() < 4 {
        return None;
    }
    let at: usize = if data.len() >= 12 && data[0] == 0x50 && data[1] == 0x46 { 8 } else { 0 };
    Some(fourcc_text(data, at))
}

/// The payload of an uncompressed entry: every 65536-byte block ends with a
/// 4-byte checksum, which is dropped (entries of at most 65532 bytes have none).
pub open spec fn strip_blocks(data: Seq<u8>) -> Seq<u8>
    decreases data.len(),
{
    if data.len() <= RAW_BLOCK_DATA {
        data
    } else if data.len() <= RAW_BLOCK_TOTAL {
        data.take(RAW_BLOCK_DATA as int)
    } else {
        data.take(RAW_BLOCK_DATA as int) + strip_blocks(data.skip(RAW_BLOCK_TOTAL as int))
    }
}

/// How many payload bytes an uncompressed entry of `n` bytes holds: 65532
/// of each whole 65536-byte block, and up to 65532 of the last one.
pub open spec fn payload_len(n: nat) -> nat {
    (n / 65536) * 65532 + if n % 65536 < 65532 { n % 65536 } else { 65532 }
}

/// Every block's checksum is dropped, and only those: payload byte `j` is
/// byte `j % 65532` of block `j / 65532`.
pub proof fn lemma_strip_blocks_layout(data: Seq<u8>)
    ensures
        strip_blocks(data).len() == payload_len(data.len()),
        forall|j: int| 0 <= j < strip_blocks(data).len() ==> #[trigger] strip_blocks(data)[j] == data[65536 * (j / 65532) + j % 65532],
    decreases data.len(),
{
    let n = data.len();
    if n <= RAW_BLOCK_DATA {
        assert forall|j: int| 0 <= j < strip_blocks(data).len() implies #[trigger] strip_blocks(data)[j] == data[65536 * (j / 65532) + j % 65532] by {
            assert(j / 65532 == 0 && j % 65532 == j);
        }
    } else if n <= RAW_BLOCK_TOTAL {
        assert forall|j: int| 0 <= j < strip_blocks(data).len() implies #[trigger] strip_blocks(data)[j] == data[65536 * (j / 65532) + j % 65532] by {
            assert(j / 65532 == 0 && j % 65532 == j);
        }
    } else {
        let rest = data.skip(RAW_BLOCK_TOTAL as int);
        lemma_strip_blocks_layout(rest);
        assert((n - 65536) as nat / 65536 == n / 65536 - 1);
        assert((n - 65536) as nat % 65536 == n % 65536);
        let s = strip_blocks(data);
        assert forall|j: int| 0 <= j < s.len() implies #[trigger] s[j] == data[65536 * (j / 65532) + j % 65532] by {
            if j < 65532 {
                assert(j / 65532 == 0 && j % 65532 == j);
            } else {
                let k = j - 65532;
                assert(j / 65532 == k / 65532 + 1 && j % 65532 == k % 65532);
                assert(s[j] == strip_blocks(rest)[k]);
                assert(k / 65532 >= 0);
                assert(65536 * (k / 65532) + k % 65532 < rest.len()) by {
                    assert(k % 65532 < 65532);
                }
            }
        }
    }
}

/// Drops the checksum after each 65532 payload bytes of an uncompressed entry.
pub fn strip_raw_crc_blocks(data: &[u8]) -> (r: Result<Vec<u8>, Gw2Error>)
    ensures
        r is Ok,
        r->Ok_0@ == strip_blocks(data@),
        r->Ok_0@.len() == payload_len(data@.len()),
        forall|j: int| 0 <= j < r->Ok_0@.len() ==> #[trigger] r->Ok_0@[j] == data@[65536 * (j / 65532) + j % 65532],
{
    proof {
        lemma_strip_blocks_layout(data@);
    }
    let mut out: Vec<u8> = Vec::new();
    if data.len() <= RAW_BLOCK_DATA {
        let mut i: usize = 0;
        while i < data.len()
            invariant
                i <= data.len(),
                out@ == data@.take(i as int),
            decreases data.len() - i,
        {
            out.push(data[i]);
            proof {
                assert(out@ =~= data@.take(i + 1));
            }
            i += 1;
        }
        proof {
            assert(data@.take(data.len() as int) =~= data@);
        }
        return Ok(out);
    }
    let mut pos: usize = 0;
    proof {
        assert(data@.skip(0) =~= data@);
    }
    while pos < data.len()
        invariant
            pos <= data.len(),
            data.len() > RAW_BLOCK_DATA,
            pos < data.len() ==> out@ + strip_blocks(data@.skip(pos as int)) == strip_blocks(data@),
            pos == data.len() ==> out@ == strip_blocks(data@),
        decreases data.len() - pos,
    {
        let rest = data.len() - pos;
        let take = if rest < RAW_BLOCK_DATA { rest } else { RAW_BLOCK_DATA };
        let ghost before = out@;
        let ghost tail = data@.skip(pos as int);
        let mut i: usize = 0;
        while i < take
            invariant
                i <= take,
                pos + take <= data.len(),
                out@ == before + data@.subrange(pos as int, pos + i),
            decreases take - i,
        {
            out.push(data[pos + i]);
            proof {
                assert(out@ =~= before + data@.subrange(pos as int, pos + i + 1));
            }
            i += 1;
        }
        proof {
            assert(data@.subrange(pos as int, pos + take) =~= tail.take(take as int));
            if rest <= RAW_BLOCK_TOTAL {
                if rest > RAW_BLOCK_DATA {
                    assert(strip_blocks(tail) == tail.take(RAW_BLOCK_DATA as int));
                } else {
                    assert(tail.take(take as int) =~= tail);
                }
            } else {
                assert(tail.skip(RAW_BLOCK_TOTAL as int) =~= data@.skip(pos + RAW_BLOCK_TOTAL));
                assert(out@ + strip_blocks(data@.skip(pos + RAW_BLOCK_TOTAL)) =~= before + strip_blocks(tail));
            }
        }
        if rest <= RAW_BLOCK_TOTAL {
            pos = data.len();
        } else {
            pos += RAW_BLOCK_TOTAL;
        }
    }
    Ok(out)
}

/// An entry's content from its stored bytes: decompressed, or with the
/// block checksums dropped.
pub fn decode_entry(raw: &[u8], compressed: bool) -> (r: Result<Vec<u8>, Gw2Error>)
    ensures
        compressed ==> match inflate(raw@) {
            Ok(out) => r is Ok && r->Ok_0@ == out,
            Err(e) => r == Err::<Vec<u8>, Gw2Error>(e),
        },
        !compressed ==> r is Ok && r->Ok_0@ == strip_blocks(raw@),
{
    if compressed {
        decompress_gw2(raw)
    } else {
        strip_raw_crc_blocks(raw)
    }
}

/// The ATOC table: 8-byte records of (file id, 1-based file-table index);
/// records with a zero id or index are skipped, and a later record for an id
/// replaces an earlier one.  Maps each id to its 0-based index.
pub open spec fn atoc_map(data: Seq<u8>, n: nat) -> Map<u32, u32>
    decreases n,
{
    if n == 0 {
        Map::empty()
    } else {
        let m = atoc_map(data, (n - 1) as nat);
        let at = 8 * (n - 1);
        let id = le32(data, at) as u32;
        let idx = le32(data, at + 4) as u32;
        if id != 0 && idx > 0 { m.insert(id, (idx - 1) as u32) } else { m }
    }
}

/// Reads the ATOC table (see `atoc_map`).
pub fn parse_atoc(data: &[u8]) -> (r: HashMap<u32, u32>)
    ensures
        r@ == atoc_map(data@, data.len() as nat / 8),
{
    let mut map: HashMap<u32, u32> = HashMap::new();
    let mut pos: usize = 0;
    let mut k: usize = 0;
    while data.len() >= 8 && pos <= data.len() - 8
        invariant
            pos == 8 * k,
            pos <= data.len(),
            k <= data.len() / 8,
            map@ == atoc_map(data@, k as nat),
        decreases data.len() - pos,
    {
        let id = le_u32_at(data, pos);
        let mft_index = le_u32_at(data, pos + 4);
        if id != 0 && mft_index > 0 {
            map.insert(id, mft_index - 1);
        }
        pos += 8;
        k += 1;
    }
    proof {
        assert(k == data.len() / 8);
    }
    map
}

} // verus!
