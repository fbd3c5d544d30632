//! GW2 `strs` string tables: the signature `strs`, then entries of a 6-byte
//! header (size in bytes including the header, decoded character count,
//! encoding tag) and their payload.  Raw entries (tag 0x10) hold UTF-16LE
//! text; the others hold Huffman-packed text this library does not decode.

use vstd::prelude::*;
use crate::bytes::le16;
use crate::error::Gw2Error;

verus! {

/// The encoding tag of an entry holding plain UTF-16LE text.
pub const ENC_RAW_UTF16: u16 = 0x10;

/// One entry of a string table.
#[derive(Debug, Clone)]
pub struct StrEntry {
    /// Where the entry starts in the table (its size field).
    pub offset: usize,
    /// The entry's size in bytes, its 6-byte header included.
    pub size: u16,
    /// The decoded character count (for Huffman entries; 0 for raw ones).
    pub count: u16,
    /// The encoding tag.
    pub enc: u16,
    /// The payload after the header.
    pub data: Vec<u8>,
}

/// An entry as (offset, size, count, tag, payload).
pub open spec fn entry_view(e: StrEntry) -> (usize, u16, u16, u16, Seq<u8>) {
    (e.offset, e.size, e.count, e.enc, e.data@)
}

// ---------------------------------------------------------------------------
// UTF-16

/// A high (leading) surrogate.
pub open spec fn is_high(u: u16) -> bool {
    0xD800 <= u < 0xDC00
}

/// A low (trailing) surrogate.
pub open spec fn is_low(u: u16) -> bool {
    0xDC00 <= u < 0xE000
}

/// UTF-16 decoding with each unpaired surrogate read as U+FFFD.
pub open spec fn utf16_decode(us: Seq<u16>) -> Seq<char>
    decreases us.len(),
{
    if us.len() == 0 {
        seq![]
    } else if us.len() >= 2 && is_high(us[0]) && is_low(us[1]) {
        seq![((0x10000 + (us[0] - 0xD800) * 0x400 + (us[1] - 0xDC00)) as char)] + utf16_decode(us.skip(2))
    } else if is_high(us[0]) || is_low(us[0]) {
        seq!['\u{FFFD}'] + utf16_decode(us.skip(1))
    } else {
        seq![(us[0] as char)] + utf16_decode(us.skip(1))
    }
}

/// The UTF-16 code units of one character.
pub open spec fn char_units(c: char) -> Seq<u16> {
    let v = c as int;
    if v < 0x10000 {
        seq![v as u16]
    } else {
        seq![(0xD800 + (v - 0x10000) / 0x400) as u16, (0xDC00 + (v - 0x10000) % 0x400) as u16]
    }
}

/// The UTF-16 encoding of a string.
pub open spec fn utf16_encode(s: Seq<char>) -> Seq<u16>
    decreases s.len(),
{
    if s.len() == 0 {
        seq![]
    } else {
        char_units(s[0]) + utf16_encode(s.skip(1))
    }
}

/// `String::from_utf16_lossy`; the contract claims UTF-16 decoding with
/// every unpaired surrogate replaced by U+FFFD, as `char::decode_utf16`
/// documents it.
#[verifier::external_body]
fn string_from_utf16_lossy(units: &[u16]) -> (r: String)
    ensures
        r@ == utf16_decode(units@),
{
    String::from_utf16_lossy(units)
}

/// `str::encode_utf16`, collected; the contract claims the string's UTF-16
/// code units.
#[verifier::external_body]
fn encode_utf16_units(text: &str) -> (r: Vec<u16>)
    ensures
        r@ == utf16_encode(text@),
{
    text.encode_utf16().collect()
}

/// The little-endian `u16`s of `b`, two bytes each (a trailing odd byte is
/// ignored).
pub open spec fn units_le(b: Seq<u8>) -> Seq<u16> {
    Seq::new(b.len() / 2, |i: int| le16(b, 2 * i) as u16)
}

impl StrEntry {
    /// Whether the entry holds plain UTF-16LE text.
    pub fn is_raw(&self) -> (r: bool)
        ensures
            r == (self.enc == ENC_RAW_UTF16),
    {
        self.enc == ENC_RAW_UTF16
    }

    /// The entry's text, if it is a raw entry.
    pub fn text(&self) -> (r: Option<String>)
        ensures
            self.enc != ENC_RAW_UTF16 ==> r is None,
            self.enc == ENC_RAW_UTF16 ==> (r matches Some(s) && s@ == utf16_decode(units_le(self.data@))),
    {
        if !self.is_raw() {
            return None;
        }
        let mut units: Vec<u16> = Vec::new();
        let n = self.data.len() / 2;
        let mut i: usize = 0;
        while i < n
            invariant
                i <= n,
                n == self.data.len() / 2,
                units@ == units_le(self.data@).take(i as int),
            decreases n - i,
        {
            let lo = self.data[2 * i] as u16;
            let hi = self.data[2 * i + 1] as u16;
            units.push(lo + hi * 256);
            proof {
                assert(units@ =~= units_le(self.data@).take(i + 1));
            }
            i += 1;
        }
        proof {
            assert(units_le(self.data@).take(n as int) =~= units_le(self.data@));
        }
        Some(string_from_utf16_lossy(units.as_slice()))
    }
}

// ---------------------------------------------------------------------------
// Tables

/// The table starts with `strs`.
pub open spec fn strs_magic_ok(data: Seq<u8>) -> bool {
    data.len() >= 4 && data[0] == 0x73u8 && data[1] == 0x74u8 && data[2] == 0x72u8 && data[3] == 0x73u8
}

/// The entries from `pos` on, after `acc`: entries follow one another while
/// a full header remains; the list ends at fewer than 6 bytes left (a
/// trailing footer) or at a size under 6, and an entry whose size runs past
/// the end is an error.
pub open spec fn strs_entries(data: Seq<u8>, pos: nat, acc: Seq<(usize, u16, u16, u16, Seq<u8>)>) -> Result<Seq<(usize, u16, u16, u16, Seq<u8>)>, Gw2Error>
    decreases data.len() - pos,
{
    if pos + 6 > data.len() {
        Ok(acc)
    } else {
        let size = le16(data, pos as int);
        if size < 6 {
            Ok(acc)
        } else if pos + size > data.len() {
            Err(Gw2Error::EntryPastEnd)
        } else {
            strs_entries(
                data,
                (pos + size) as nat,
                acc.push((pos as usize, size as u16, le16(data, pos + 2int) as u16, le16(data, pos + 4int) as u16, data.subrange(pos + 6int, pos + size))),
            )
        }
    }
}

/// Reads a string table's entries; an entry whose size runs past the end
/// of the table is an error.
pub fn parse(data: &[u8]) -> (r: Result<Vec<StrEntry>, Gw2Error>)
    ensures
        !strs_magic_ok(data@) ==> r == Err::<Vec<StrEntry>, Gw2Error>(Gw2Error::NotStrs),
        strs_magic_ok(data@) ==> match strs_entries(data@, 4, seq![]) {
            Ok(es) => r matches Ok(v) && v@.map_values(|e: StrEntry| entry_view(e)) == es,
            Err(e) => r == Err::<Vec<StrEntry>, Gw2Error>(e),
        },
{
    if data.len() < 4 || !(data[0] == 0x73 && data[1] == 0x74 && data[2] == 0x72 && data[3] == 0x73) {
        return Err(Gw2Error::NotStrs);
    }
    let mut entries: Vec<StrEntry> = Vec::new();
    let mut pos: usize = 4;
    proof {
        assert(entries@.map_values(|e: StrEntry| entry_view(e)) =~= Seq::<(usize, u16, u16, u16, Seq<u8>)>::empty());
    }
    while pos <= data.len() && data.len() - pos >= 6
        invariant
            4 <= pos <= data.len(),
            strs_magic_ok(data@),
            strs_entries(data@, 4, seq![]) == strs_entries(data@, pos as nat, entries@.map_values(|e: StrEntry| entry_view(e))),
        ensures
            strs_entries(data@, 4, seq![]) == Ok::<Seq<(usize, u16, u16, u16, Seq<u8>)>, Gw2Error>(entries@.map_values(|e: StrEntry| entry_view(e))),
        decreases data.len() - pos,
    {
        let size = crate::bytes::read_le16(data, pos) as usize;
        if size < 6 {
            break;
        }
        if size > data.len() - pos {
            return Err(Gw2Error::EntryPastEnd);
        }
        let end = pos + size;
        let count = crate::bytes::read_le16(data, pos + 2);
        let enc = crate::bytes::read_le16(data, pos + 4);
        let mut payload: Vec<u8> = Vec::new();
        let mut i = pos + 6;
        while i < end
            invariant
                pos + 6 <= i <= end,
                end <= data.len(),
                payload@ == data@.subrange(pos + 6, i as int),
            decreases end - i,
        {
            payload.push(data[i]);
            proof {
                assert(payload@ =~= data@.subrange(pos + 6, i + 1));
            }
            i += 1;
        }
        let ghost before = entries@.map_values(|e: StrEntry| entry_view(e));
        let e = StrEntry { offset: pos, size: size as u16, count, enc, data: payload };
        proof {
            assert(entry_view(e) == (pos, size as u16, count, enc, data@.subrange(pos + 6, end as int)));
        }
        entries.push(e);
        proof {
            assert(entries@.map_values(|e: StrEntry| entry_view(e)) =~= before.push(entry_view(e)));
        }
        pos = end;
    }
    Ok(entries)
}

/// The language byte of a string table: the byte before its last, for a
/// table of at least 6 bytes that starts with `strs`.
pub fn strs_language(data: &[u8]) -> (r: Option<u8>)
    ensures
        data.len() >= 6 && strs_magic_ok(data@) ==> r == Some(data@[data.len() - 2]),
        !(data.len() >= 6 && strs_magic_ok(data@)) ==> r is None,
{
    if data.len() < 6 || !(data[0] == 0x73 && data[1] == 0x74 && data[2] == 0x72 && data[3] == 0x73) {
        return None;
    }
    Some(data[data.len() - 2])
}

/// The bytes of a raw entry for the code units `us`: the size (6 plus two
/// bytes a unit, cut to 16 bits), count 0, tag 0x10, then the units, each
/// little-endian.
pub open spec fn raw_entry_bytes(us: Seq<u16>) -> Seq<u8> {
    let size = ((6 + 2 * us.len()) % 0x10000) as nat;
    seq![(size % 256) as u8, (size / 256) as u8, 0u8, 0u8, 0x10u8, 0u8] + units_bytes(us)
}

/// The code units `us`, each as two little-endian bytes.
pub open spec fn units_bytes(us: Seq<u16>) -> Seq<u8>
    decreases us.len(),
{
    if us.len() == 0 {
        seq![]
    } else {
        units_bytes(us.drop_last()) + seq![(us.last() % 256) as u8, (us.last() / 256) as u8]
    }
}

/// A raw entry holding `text` (any entry can be written back this way).
pub fn build_raw_entry(text: &str) -> (r: Vec<u8>)
    ensures
        r@ == raw_entry_bytes(utf16_encode(text@)),
{
    let units = encode_utf16_units(text);
    let mut out: Vec<u8> = Vec::new();
    let m = (units.len() % 32768) as u32;
    let size = ((6 + 2 * m) % 0x10000) as u16;
    proof {
        let n = units.len() as int;
        let q = n / 32768;
        vstd::arithmetic::div_mod::lemma_fundamental_div_mod(n, 32768);
        assert(6 + 2 * n == 65536 * q + (6 + 2 * m));
        vstd::arithmetic::div_mod::lemma_mod_multiples_vanish(q, 6 + 2 * m, 65536);
        assert(size == (6 + 2 * units@.len()) % 0x10000);
    }
    out.push((size % 256) as u8);
    out.push((size / 256) as u8);
    out.push(0);
    out.push(0);
    out.push((ENC_RAW_UTF16 % 256) as u8);
    out.push((ENC_RAW_UTF16 / 256) as u8);
    let ghost hdr = out@;
    let mut i: usize = 0;
    proof {
        assert(units@.take(0) =~= Seq::<u16>::empty());
        assert(hdr + units_bytes(units@.take(0)) =~= hdr);
    }
    while i < units.len()
        invariant
            i <= units.len(),
            out@ == hdr + units_bytes(units@.take(i as int)),
        decreases units.len() - i,
    {
        let w = units[i];
        out.push((w % 256) as u8);
        out.push((w / 256) as u8);
        proof {
            assert(units@.take(i + 1).drop_last() =~= units@.take(i as int));
            assert(out@ =~= hdr + units_bytes(units@.take(i + 1)));
        }
        i += 1;
    }
    proof {
        assert(units@.take(units.len() as int) =~= units@);
        assert(hdr =~= seq![(size % 256) as u8, (size / 256) as u8, 0u8, 0u8, 0x10u8, 0u8]);
    }
    out
}


// ---------------------------------------------------------------------------
// Laws

proof fn lemma_char_units(c: char)
    ensures
        ({
            let us = char_units(c);
            &&& (c as int) < 0x10000 ==> us.len() == 1 && !is_high(us[0]) && !is_low(us[0]) && (us[0] as char) == c
            &&& (c as int) >= 0x10000 ==> us.len() == 2 && is_high(us[0]) && is_low(us[1])
                && ((0x10000 + (us[0] - 0xD800) * 0x400 + (us[1] - 0xDC00)) as char) == c
        }),
{
    let v = c as int;
    assert(0 <= v <= 0xD7FF || 0xE000 <= v <= 0x10FFFF);
    if v >= 0x10000 {
        let q = (v - 0x10000) / 0x400;
        let r = (v - 0x10000) % 0x400;
        assert(0 <= q < 0x400 && 0 <= r < 0x400 && 0x400 * q + r == v - 0x10000);
        assert((0x10000 + q * 0x400 + r) == v);
    }
}

/// UTF-16 decoding undoes UTF-16 encoding.
pub proof fn lemma_utf16_roundtrip(s: Seq<char>)
    ensures
        utf16_decode(utf16_encode(s)) == s,
    decreases s.len(),
{
    if s.len() > 0 {
        let c = s[0];
        let rest = utf16_encode(s.skip(1));
        let us = char_units(c) + rest;
        lemma_char_units(c);
        lemma_utf16_roundtrip(s.skip(1));
        if (c as int) < 0x10000 {
            assert(us.skip(1) =~= rest);
            assert(us[0] == char_units(c)[0]);
        } else {
            assert(us.skip(2) =~= rest);
            assert(us[0] == char_units(c)[0] && us[1] == char_units(c)[1]);
        }
        assert(seq![c] + s.skip(1) =~= s);
    }
}

proof fn lemma_units_bytes(us: Seq<u16>)
    ensures
        units_bytes(us).len() == 2 * us.len(),
        forall|i: int| 0 <= i < us.len() ==> #[trigger] le16(units_bytes(us), 2 * i) == us[i],
    decreases us.len(),
{
    if us.len() > 0 {
        let init = us.drop_last();
        lemma_units_bytes(init);
        let w = us.last();
        assert forall|i: int| 0 <= i < us.len() implies #[trigger] le16(units_bytes(us), 2 * i) == us[i] by {
            if i < us.len() - 1 {
                assert(le16(units_bytes(init), 2 * i) == init[i]);
            } else {
                assert((w % 256) as int + 256 * ((w / 256) as int) == w as int);
            }
        }
    }
}

/// Reading the code units back from their little-endian bytes gives them.
pub proof fn lemma_units_roundtrip(us: Seq<u16>)
    ensures
        units_le(units_bytes(us)) == us,
{
    lemma_units_bytes(us);
    assert forall|i: int| 0 <= i < us.len() implies #[trigger] units_le(units_bytes(us))[i] == us[i] by {
        assert(le16(units_bytes(us), 2 * i) == us[i]);
    }
    assert(units_le(units_bytes(us)) =~= us);
}

/// A table made of the signature and one raw entry written for `s` reads
/// back as exactly that entry, a raw one at offset 4 whose text is `s`,
/// when the entry's size fits its 16-bit field.
pub proof fn lemma_raw_entry_roundtrip(s: Seq<char>)
    requires
        6 + 2 * utf16_encode(s).len() <= 0xFFFF,
    ensures
        ({
            let table = seq![0x73u8, 0x74u8, 0x72u8, 0x73u8] + raw_entry_bytes(utf16_encode(s));
            &&& strs_magic_ok(table)
            &&& strs_entries(table, 4, seq![]) matches Ok(es)
            &&& es.len() == 1
            &&& es[0].0 == 4
            &&& es[0].2 == 0
            &&& es[0].3 == ENC_RAW_UTF16
            &&& utf16_decode(units_le(es[0].4)) == s
        }),
{
    let us = utf16_encode(s);
    let table = seq![0x73u8, 0x74u8, 0x72u8, 0x73u8] + raw_entry_bytes(us);
    let size: int = 6 + 2 * (us.len() as int);
    lemma_units_bytes(us);
    lemma_units_roundtrip(us);
    lemma_utf16_roundtrip(s);
    assert(table.len() == 4 + size);
    assert(le16(table, 4) == size);
    assert(le16(table, 6) == 0);
    assert(le16(table, 8) == 0x10);
    assert(table.subrange(10, 4 + size) =~= units_bytes(us));
    let acc = seq![(4usize, size as u16, 0u16, 0x10u16, units_bytes(us))];
    assert(strs_entries(table, 4, seq![]) == strs_entries(table, (4 + size) as nat, acc));
    assert(strs_entries(table, (4 + size) as nat, acc) == Ok::<Seq<(usize, u16, u16, u16, Seq<u8>)>, Gw2Error>(acc));
}

} // verus!
