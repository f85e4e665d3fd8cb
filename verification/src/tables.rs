//! The three table-of-contents tables and their binary layout.
//!
//! The directory and metadata tables hold fixed-width entries behind a
//! 32-bit count; string table entries are variable width, carrying their
//! name bytes inline.  Each table's parse spec reads a chunk body range
//! `[a, b)` of the package buffer; trailing body bytes after a table are
//! ignored, as the reader only consumes what the count claims.

use vstd::prelude::*;

use crate::bytes::{dec_u128, dec_u32, dec_u64, enc_u128, enc_u32, enc_u64, push_u128, push_u32,
    push_u64, read_u128, read_u32, read_u64, Endian};
use crate::fourcc::{cc_at, cc_bytes, push_cc, read_cc, spec_swap, FourCC};

verus! {

broadcast use vstd::slice::group_slice_axioms;

/// Bytes of one directory entry on disk.
pub const ADIR_ENTRY_LEN: usize = 52;

/// Bytes of one metadata entry on disk.
pub const META_ENTRY_LEN: usize = 20;

/// Bytes of a string entry before its name bytes.
pub const STRG_ENTRY_HEAD_LEN: usize = 24;

/// One asset's placement and identity: type tag, 128-bit identity, version
/// pair, absolute byte offset into the package, decompressed size and
/// stored (possibly compressed) size.
#[derive(Clone, Copy, PartialEq, Eq, Structural, Debug)]
pub struct AssetDirectoryEntry {
    pub asset_type: FourCC,
    pub asset_id: u128,
    pub version: u32,
    pub other_version: u32,
    pub offset: u64,
    pub decompressed_size: u64,
    pub size: u64,
}

/// Ordered directory; entry order is the canonical asset order.
#[derive(Clone, Debug)]
pub struct AssetDirectory {
    pub entries: Vec<AssetDirectoryEntry>,
}

/// Points one asset at its metadata blob; `offset` is relative to the
/// metadata chunk body start.  The blob length is not stored: it is the
/// next entry's offset minus this one's, or the rest of the body.
#[derive(Clone, Copy, PartialEq, Eq, Structural, Debug)]
pub struct MetadataTableEntry {
    pub asset_id: u128,
    pub offset: u32,
}

/// Ordered metadata entries, ascending by offset.
#[derive(Clone, Debug)]
pub struct MetadataTable {
    pub entries: Vec<MetadataTableEntry>,
}

/// An asset's display name: byte-swapped type tag, identity, raw name
/// bytes (validated as text only when the package is assembled).
#[derive(Clone, Debug)]
pub struct StringTableEntry {
    pub kind: FourCC,
    pub asset_id: u128,
    pub name: Vec<u8>,
}

/// Ordered name entries.
#[derive(Clone, Debug)]
pub struct StringTable {
    pub entries: Vec<StringTableEntry>,
}

/// Mathematical value of a string table entry.
pub ghost struct StringTableEntryV {
    pub kind: FourCC,
    pub asset_id: u128,
    pub name: Seq<u8>,
}

impl View for StringTableEntry {
    type V = StringTableEntryV;

    open spec fn view(&self) -> StringTableEntryV {
        StringTableEntryV { kind: self.kind, asset_id: self.asset_id, name: self.name@ }
    }
}

/// The views of a sequence of string entries.
pub open spec fn strg_views(s: Seq<StringTableEntry>) -> Seq<StringTableEntryV> {
    Seq::new(s.len(), |i: int| s[i]@)
}

// ---------------------------------------------------------------------------
// Asset directory codec.
// ---------------------------------------------------------------------------

pub open spec fn adir_entry_at(s: Seq<u8>, i: int, e: Endian) -> AssetDirectoryEntry {
    AssetDirectoryEntry {
        asset_type: cc_at(s, i),
        asset_id: dec_u128(e, s, i + 4),
        version: dec_u32(e, s, i + 20),
        other_version: dec_u32(e, s, i + 24),
        offset: dec_u64(e, s, i + 28),
        decompressed_size: dec_u64(e, s, i + 36),
        size: dec_u64(e, s, i + 44),
    }
}

pub open spec fn adir_entry_bytes(en: AssetDirectoryEntry, e: Endian) -> Seq<u8> {
    cc_bytes(en.asset_type) + enc_u128(e, en.asset_id) + enc_u32(e, en.version) + enc_u32(
        e,
        en.other_version,
    ) + enc_u64(e, en.offset) + enc_u64(e, en.decompressed_size) + enc_u64(e, en.size)
}

/// The directory table held at the front of the chunk body `[a, b)`.
pub open spec fn spec_adir_parse(s: Seq<u8>, a: int, b: int, e: Endian) -> Option<
    Seq<AssetDirectoryEntry>,
> {
    if a + 4 <= b && b <= s.len() {
        let n = dec_u32(e, s, a) as int;
        if a + 4 + 52 * n <= b {
            Some(Seq::new(n as nat, |j: int| adir_entry_at(s, a + 4 + 52 * j, e)))
        } else {
            None
        }
    } else {
        None
    }
}

pub fn adir_parse(data: &[u8], a: usize, b: usize, e: Endian) -> (r: Option<AssetDirectory>)
    requires
        a <= b <= data@.len(),
    ensures
        match r {
            Some(t) => spec_adir_parse(data@, a as int, b as int, e) == Some(t.entries@),
            None => spec_adir_parse(data@, a as int, b as int, e) is None,
        },
{
    proof {
        assert(vstd::slice::spec_slice_len(data) == data@.len());
    }
    if b - a < 4 {
        return None;
    }
    let n32 = read_u32(data, a, e);
    if (n32 as u64) * 52 > ((b - a - 4) as u64) {
        return None;
    }
    let n = n32 as usize;
    let mut entries: Vec<AssetDirectoryEntry> = Vec::new();
    let mut j: usize = 0;
    while j < n
        invariant
            j <= n,
            a + 4 + 52 * n <= b <= data@.len() <= usize::MAX,
            entries@.len() == j,
            forall|t: int|
                0 <= t < j ==> entries@[t] == adir_entry_at(data@, a + 4 + 52 * t, e),
        decreases n - j,
    {
        let base = a + 4 + 52 * j;
        let en = AssetDirectoryEntry {
            asset_type: read_cc(data, base),
            asset_id: read_u128(data, base + 4, e),
            version: read_u32(data, base + 20, e),
            other_version: read_u32(data, base + 24, e),
            offset: read_u64(data, base + 28, e),
            decompressed_size: read_u64(data, base + 36, e),
            size: read_u64(data, base + 44, e),
        };
        entries.push(en);
        j = j + 1;
    }
    proof {
        assert(entries@ =~= Seq::new(n as nat, |t: int| adir_entry_at(data@, a + 4 + 52 * t, e)));
    }
    Some(AssetDirectory { entries })
}

/// The directory entries one after another.
pub open spec fn adir_entries_bytes(entries: Seq<AssetDirectoryEntry>, e: Endian) -> Seq<u8>
    decreases entries.len(),
{
    if entries.len() == 0 {
        Seq::empty()
    } else {
        adir_entries_bytes(entries.drop_last(), e) + adir_entry_bytes(entries.last(), e)
    }
}

/// The whole directory chunk body: count, then the entries.
pub open spec fn adir_table_bytes(entries: Seq<AssetDirectoryEntry>, e: Endian) -> Seq<u8> {
    enc_u32(e, entries.len() as u32) + adir_entries_bytes(entries, e)
}

pub fn push_adir_entry(out: &mut Vec<u8>, en: AssetDirectoryEntry, e: Endian)
    ensures
        final(out)@ == old(out)@ + adir_entry_bytes(en, e),
{
    push_cc(out, en.asset_type);
    push_u128(out, en.asset_id, e);
    push_u32(out, en.version, e);
    push_u32(out, en.other_version, e);
    push_u64(out, en.offset, e);
    push_u64(out, en.decompressed_size, e);
    push_u64(out, en.size, e);
    proof {
        assert(out@ =~= old(out)@ + adir_entry_bytes(en, e));
    }
}

pub fn push_adir_table(out: &mut Vec<u8>, d: &AssetDirectory, e: Endian)
    requires
        d.entries@.len() <= u32::MAX,
    ensures
        final(out)@ == old(out)@ + adir_table_bytes(d.entries@, e),
{
    push_u32(out, d.entries.len() as u32, e);
    proof {
        assert(d.entries@.take(0) =~= Seq::<AssetDirectoryEntry>::empty());
    }
    let mut j: usize = 0;
    while j < d.entries.len()
        invariant
            j <= d.entries@.len() <= u32::MAX,
            out@ == old(out)@ + enc_u32(e, d.entries@.len() as u32) + adir_entries_bytes(
                d.entries@.take(j as int),
                e,
            ),
        decreases d.entries@.len() - j,
    {
        let en = d.entries[j];
        push_adir_entry(out, en, e);
        proof {
            assert(d.entries@.take(j + 1).drop_last() =~= d.entries@.take(j as int));
            assert(d.entries@.take(j + 1).last() == d.entries@[j as int]);
        }
        j = j + 1;
    }
    proof {
        assert(d.entries@.take(d.entries@.len() as int) =~= d.entries@);
    }
}

// ---------------------------------------------------------------------------
// Metadata table codec and blob span derivation.
// ---------------------------------------------------------------------------

pub open spec fn meta_entry_at(s: Seq<u8>, i: int, e: Endian) -> MetadataTableEntry {
    MetadataTableEntry { asset_id: dec_u128(e, s, i), offset: dec_u32(e, s, i + 16) }
}

pub open spec fn meta_entry_bytes(en: MetadataTableEntry, e: Endian) -> Seq<u8> {
    enc_u128(e, en.asset_id) + enc_u32(e, en.offset)
}

pub open spec fn spec_meta_parse(s: Seq<u8>, a: int, b: int, e: Endian) -> Option<
    Seq<MetadataTableEntry>,
> {
    if a + 4 <= b && b <= s.len() {
        let n = dec_u32(e, s, a) as int;
        if a + 4 + 20 * n <= b {
            Some(Seq::new(n as nat, |j: int| meta_entry_at(s, a + 4 + 20 * j, e)))
        } else {
            None
        }
    } else {
        None
    }
}

pub fn meta_parse(data: &[u8], a: usize, b: usize, e: Endian) -> (r: Option<MetadataTable>)
    requires
        a <= b <= data@.len(),
    ensures
        match r {
            Some(t) => spec_meta_parse(data@, a as int, b as int, e) == Some(t.entries@),
            None => spec_meta_parse(data@, a as int, b as int, e) is None,
        },
{
    proof {
        assert(vstd::slice::spec_slice_len(data) == data@.len());
    }
    if b - a < 4 {
        return None;
    }
    let n32 = read_u32(data, a, e);
    if (n32 as u64) * 20 > ((b - a - 4) as u64) {
        return None;
    }
    let n = n32 as usize;
    let mut entries: Vec<MetadataTableEntry> = Vec::new();
    let mut j: usize = 0;
    while j < n
        invariant
            j <= n,
            a + 4 + 20 * n <= b <= data@.len() <= usize::MAX,
            entries@.len() == j,
            forall|t: int| 0 <= t < j ==> entries@[t] == meta_entry_at(data@, a + 4 + 20 * t, e),
        decreases n - j,
    {
        let base = a + 4 + 20 * j;
        let en = MetadataTableEntry {
            asset_id: read_u128(data, base, e),
            offset: read_u32(data, base + 16, e),
        };
        entries.push(en);
        j = j + 1;
    }
    proof {
        assert(entries@ =~= Seq::new(n as nat, |t: int| meta_entry_at(data@, a + 4 + 20 * t, e)));
    }
    Some(MetadataTable { entries })
}

/// Where entry `i`'s blob ends, relative to the chunk body start: the next
/// entry's offset, or the body length for the last entry.
pub open spec fn meta_end(entries: Seq<MetadataTableEntry>, i: int, len: int) -> int {
    if i + 1 < entries.len() {
        entries[i + 1].offset as int
    } else {
        len
    }
}

/// The derived-length rule is sound: offsets ascend and stay inside the
/// body of length `len`.
pub open spec fn meta_offsets_ok(entries: Seq<MetadataTableEntry>, len: int) -> bool {
    &&& forall|i: int|
        0 <= i < entries.len() ==> (#[trigger] entries[i].offset as int) <= meta_end(
            entries,
            i,
            len,
        )
    &&& forall|i: int| 0 <= i < entries.len() ==> (#[trigger] entries[i].offset as int) <= len
}

/// The identity-to-blob pairs a metadata chunk body `[a, b)` contributes.
pub open spec fn meta_pairs(entries: Seq<MetadataTableEntry>, s: Seq<u8>, a: int, b: int) -> Seq<
    (u128, Seq<u8>),
> {
    Seq::new(
        entries.len(),
        |i: int|
            (
                entries[i].asset_id,
                s.subrange(a + entries[i].offset, a + meta_end(entries, i, b - a)),
            ),
    )
}

pub open spec fn meta_entries_bytes(entries: Seq<MetadataTableEntry>, e: Endian) -> Seq<u8>
    decreases entries.len(),
{
    if entries.len() == 0 {
        Seq::empty()
    } else {
        meta_entries_bytes(entries.drop_last(), e) + meta_entry_bytes(entries.last(), e)
    }
}

/// The metadata table itself (blobs follow it inside the chunk body).
pub open spec fn meta_table_bytes(entries: Seq<MetadataTableEntry>, e: Endian) -> Seq<u8> {
    enc_u32(e, entries.len() as u32) + meta_entries_bytes(entries, e)
}

pub fn push_meta_table(out: &mut Vec<u8>, t: &MetadataTable, e: Endian)
    requires
        t.entries@.len() <= u32::MAX,
    ensures
        final(out)@ == old(out)@ + meta_table_bytes(t.entries@, e),
{
    push_u32(out, t.entries.len() as u32, e);
    proof {
        assert(t.entries@.take(0) =~= Seq::<MetadataTableEntry>::empty());
    }
    let mut j: usize = 0;
    while j < t.entries.len()
        invariant
            j <= t.entries@.len() <= u32::MAX,
            out@ == old(out)@ + enc_u32(e, t.entries@.len() as u32) + meta_entries_bytes(
                t.entries@.take(j as int),
                e,
            ),
        decreases t.entries@.len() - j,
    {
        let en = t.entries[j];
        push_u128(out, en.asset_id, e);
        push_u32(out, en.offset, e);
        proof {
            assert(t.entries@.take(j + 1).drop_last() =~= t.entries@.take(j as int));
            assert(t.entries@.take(j + 1).last() == t.entries@[j as int]);
            assert(out@ =~= old(out)@ + enc_u32(e, t.entries@.len() as u32) + meta_entries_bytes(
                t.entries@.take(j + 1),
                e,
            ));
        }
        j = j + 1;
    }
    proof {
        assert(t.entries@.take(t.entries@.len() as int) =~= t.entries@);
    }
}

// ---------------------------------------------------------------------------
// String table codec.
// ---------------------------------------------------------------------------

/// Parses `cnt` variable-width name entries from `pos`, bounded by `b`.
pub open spec fn spec_strg_entries_parse(s: Seq<u8>, pos: int, b: int, cnt: int, e: Endian) -> Option<
    Seq<StringTableEntryV>,
>
    decreases cnt,
{
    if cnt <= 0 {
        Some(Seq::empty())
    } else if pos + 24 <= b && b <= s.len() {
        let len = dec_u32(e, s, pos + 20) as int;
        if pos + 24 + len <= b {
            let en = StringTableEntryV {
                kind: spec_swap(cc_at(s, pos)),
                asset_id: dec_u128(e, s, pos + 4),
                name: s.subrange(pos + 24, pos + 24 + len),
            };
            match spec_strg_entries_parse(s, pos + 24 + len, b, cnt - 1, e) {
                Some(rest) => Some(seq![en] + rest),
                None => None,
            }
        } else {
            None
        }
    } else {
        None
    }
}

/// The string table held in the chunk body `[a, b)`.
pub open spec fn spec_strg_parse(s: Seq<u8>, a: int, b: int, e: Endian) -> Option<
    Seq<StringTableEntryV>,
> {
    if a + 4 <= b && b <= s.len() {
        spec_strg_entries_parse(s, a + 4, b, dec_u32(e, s, a) as int, e)
    } else {
        None
    }
}

pub fn strg_parse(data: &[u8], a: usize, b: usize, e: Endian) -> (r: Option<StringTable>)
    requires
        a <= b <= data@.len(),
    ensures
        match r {
            Some(t) => spec_strg_parse(data@, a as int, b as int, e) == Some(strg_views(t.entries@)),
            None => spec_strg_parse(data@, a as int, b as int, e) is None,
        },
{
    proof {
        assert(vstd::slice::spec_slice_len(data) == data@.len());
    }
    if b - a < 4 {
        return None;
    }
    let n32 = read_u32(data, a, e);
    let n = n32 as usize;
    let mut entries: Vec<StringTableEntry> = Vec::new();
    let mut pos: usize = a + 4;
    let mut j: usize = 0;
    while j < n
        invariant
            j <= n,
            a + 4 <= pos <= b <= data@.len() <= usize::MAX,
            entries@.len() == j,
            spec_strg_parse(data@, a as int, b as int, e) == (match spec_strg_entries_parse(
                data@,
                pos as int,
                b as int,
                n - j,
                e,
            ) {
                Some(rest) => Some(strg_views(entries@) + rest),
                None => None::<Seq<StringTableEntryV>>,
            }),
        decreases n - j,
    {
        if b - pos < 24 {
            return None;
        }
        let len32 = read_u32(data, pos + 20, e);
        if (len32 as u64) > ((b - pos - 24) as u64) {
            return None;
        }
        let len = len32 as usize;
        let stored = read_cc(data, pos);
        let en = StringTableEntry {
            kind: stored.swap(),
            asset_id: read_u128(data, pos + 4, e),
            name: crate::bytes::copy_range(data, pos + 24, pos + 24 + len),
        };
        entries.push(en);
        proof {
            assert(strg_views(entries@).drop_last() =~= strg_views(entries@.drop_last()));
            assert(forall|x: Seq<StringTableEntryV>, y: Seq<StringTableEntryV>, z: Seq<
                StringTableEntryV,
            >| (x + y) + z =~= x + (y + z));
            assert(strg_views(entries@) =~= strg_views(entries@.drop_last()) + seq![
                entries@.last()@,
            ]);
        }
        pos = pos + 24 + len;
        j = j + 1;
    }
    proof {
        assert(strg_views(entries@) + Seq::<StringTableEntryV>::empty() =~= strg_views(entries@));
    }
    Some(StringTable { entries })
}

pub open spec fn strg_entry_bytes(en: StringTableEntryV, e: Endian) -> Seq<u8> {
    cc_bytes(spec_swap(en.kind)) + enc_u128(e, en.asset_id) + enc_u32(e, en.name.len() as u32)
        + en.name
}

pub open spec fn strg_entries_bytes(entries: Seq<StringTableEntryV>, e: Endian) -> Seq<u8>
    decreases entries.len(),
{
    if entries.len() == 0 {
        Seq::empty()
    } else {
        strg_entries_bytes(entries.drop_last(), e) + strg_entry_bytes(entries.last(), e)
    }
}

/// The whole string chunk body: count, then the variable-width entries.
pub open spec fn strg_table_bytes(entries: Seq<StringTableEntryV>, e: Endian) -> Seq<u8> {
    enc_u32(e, entries.len() as u32) + strg_entries_bytes(entries, e)
}

pub fn push_strg_table(out: &mut Vec<u8>, t: &StringTable, e: Endian)
    requires
        t.entries@.len() <= u32::MAX,
        forall|i: int|
            0 <= i < t.entries@.len() ==> (#[trigger] t.entries@[i]@.name.len()) <= u32::MAX,
    ensures
        final(out)@ == old(out)@ + strg_table_bytes(strg_views(t.entries@), e),
{
    push_u32(out, t.entries.len() as u32, e);
    proof {
        assert(strg_views(t.entries@).take(0) =~= Seq::<StringTableEntryV>::empty());
    }
    let mut j: usize = 0;
    while j < t.entries.len()
        invariant
            j <= t.entries@.len() <= u32::MAX,
            forall|i: int|
                0 <= i < t.entries@.len() ==> (#[trigger] t.entries@[i]@.name.len()) <= u32::MAX,
            out@ == old(out)@ + enc_u32(e, t.entries@.len() as u32) + strg_entries_bytes(
                strg_views(t.entries@).take(j as int),
                e,
            ),
        decreases t.entries@.len() - j,
    {
        let en = &t.entries[j];
        let swapped = en.kind.swap();
        push_cc(out, swapped);
        push_u128(out, en.asset_id, e);
        push_u32(out, en.name.len() as u32, e);
        crate::bytes::push_slice(out, &en.name);
        proof {
            assert(strg_views(t.entries@).take(j + 1).drop_last() =~= strg_views(
                t.entries@,
            ).take(j as int));
            assert(strg_views(t.entries@).take(j + 1).last() == t.entries@[j as int]@);
            assert(out@ =~= old(out)@ + enc_u32(e, t.entries@.len() as u32) + strg_entries_bytes(
                strg_views(t.entries@).take(j + 1),
                e,
            ));
        }
        j = j + 1;
    }
    proof {
        assert(strg_views(t.entries@).take(t.entries@.len() as int) =~= strg_views(t.entries@));
    }
}

// ---------------------------------------------------------------------------
// Last-write-wins association lists, as the side-table lookups behave.
// ---------------------------------------------------------------------------

/// The value the most recent pair with key `k` holds, if any.
pub open spec fn assoc_get<V>(s: Seq<(u128, V)>, k: u128) -> Option<V>
    decreases s.len(),
{
    if s.len() == 0 {
        None
    } else if s.last().0 == k {
        Some(s.last().1)
    } else {
        assoc_get(s.drop_last(), k)
    }
}

/// Metadata span derivation: with ascending offsets inside a chunk body
/// `[a, b)`, entry `i`'s blob runs from its own offset to the next
/// entry's, and the last entry's to the end of the body, so its length is
/// the difference of the two.
pub proof fn lemma_meta_span_lengths(entries: Seq<MetadataTableEntry>, s: Seq<u8>, a: int, b: int)
    requires
        0 <= a <= b <= s.len(),
        meta_offsets_ok(entries, b - a),
    ensures
        forall|i: int|
            0 <= i < entries.len() ==> (#[trigger] meta_pairs(entries, s, a, b)[i]).1.len()
                == meta_end(entries, i, b - a) - entries[i].offset,
{
}

pub broadcast proof fn lemma_adir_entry_len(en: AssetDirectoryEntry, e: Endian)
    ensures
        (#[trigger] adir_entry_bytes(en, e)).len() == 52,
{
    broadcast use crate::bytes::lemma_enc_u32_len, crate::bytes::lemma_enc_u64_len,
        crate::bytes::lemma_enc_u128_len, crate::fourcc::lemma_cc_len;

}

pub broadcast proof fn lemma_meta_entry_len(en: MetadataTableEntry, e: Endian)
    ensures
        (#[trigger] meta_entry_bytes(en, e)).len() == 20,
{
    broadcast use crate::bytes::lemma_enc_u32_len, crate::bytes::lemma_enc_u128_len;

}

pub broadcast proof fn lemma_strg_entry_len(en: StringTableEntryV, e: Endian)
    ensures
        (#[trigger] strg_entry_bytes(en, e)).len() == 24 + en.name.len(),
{
    broadcast use crate::bytes::lemma_enc_u32_len, crate::bytes::lemma_enc_u128_len,
        crate::fourcc::lemma_cc_len;

}

pub broadcast proof fn lemma_adir_entries_len(s: Seq<AssetDirectoryEntry>, e: Endian)
    ensures
        (#[trigger] adir_entries_bytes(s, e)).len() == 52 * s.len(),
    decreases s.len(),
{
    broadcast use lemma_adir_entry_len;

    if s.len() > 0 {
        lemma_adir_entries_len(s.drop_last(), e);
    }
}

pub broadcast proof fn lemma_meta_entries_len(s: Seq<MetadataTableEntry>, e: Endian)
    ensures
        (#[trigger] meta_entries_bytes(s, e)).len() == 20 * s.len(),
    decreases s.len(),
{
    broadcast use lemma_meta_entry_len;

    if s.len() > 0 {
        lemma_meta_entries_len(s.drop_last(), e);
    }
}

} // verus!
