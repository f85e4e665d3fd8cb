//! The package aggregate: assets, and the read / write algorithms.
//!
//! `spec_read` is the mathematical parser the executable `Package::read`
//! is proved against, clause for clause: the same bytes give the same
//! assets or the same error.  The write path is specified by a direct
//! byte-layout function further below.

use vstd::prelude::*;
use vstd::string::StrSliceExecFns;
use vstd::utf8::{decode_utf8, encode_utf8, valid_utf8};

use crate::bytes::{copy_range, dec_u32, enc_u128, enc_u32, enc_u64, push_slice, push_zeros, zeros,
    Endian};
use crate::fourcc::{cc_bytes, chunk_adir, chunk_meta, chunk_strg, form_pack, form_tocc, adir_tag,
    meta_tag, pack_tag, strg_tag, tocc_tag, FourCC};
use crate::framing::{chunk_parse, form_parse, push_chunk_header, push_form_header,
    chunk_header_bytes, form_header_bytes, spec_chunk_parse, spec_form_parse, ChunkDescriptor,
    FormDescriptor};
use crate::lzss::{decompress, lzss_run};
use crate::tables::{adir_entries_bytes, adir_entry_bytes, adir_parse, adir_table_bytes, assoc_get,
    meta_end, meta_entries_bytes, meta_entry_bytes, meta_offsets_ok, meta_pairs, meta_parse,
    meta_table_bytes, push_adir_table, push_meta_table, push_strg_table, spec_adir_parse,
    spec_meta_parse, spec_strg_parse, strg_entries_bytes, strg_entry_bytes, strg_parse,
    strg_table_bytes, strg_views, AssetDirectory, AssetDirectoryEntry, MetadataTable,
    MetadataTableEntry, StringTable, StringTableEntry, StringTableEntryV};

verus! {

broadcast use vstd::slice::group_slice_axioms, crate::bytes::lemma_enc_u32_len,
    crate::bytes::lemma_enc_u64_len, crate::bytes::lemma_enc_u128_len,
    crate::fourcc::lemma_cc_len, crate::framing::lemma_form_header_len,
    crate::framing::lemma_chunk_header_len, crate::tables::lemma_adir_entry_len,
    crate::tables::lemma_meta_entry_len, crate::tables::lemma_strg_entry_len,
    crate::tables::lemma_adir_entries_len, crate::tables::lemma_meta_entries_len;

/// Why a read or a write failed.  No partial package is ever produced.
#[derive(Clone, Copy, PartialEq, Eq, Structural, Debug)]
pub enum PackError {
    /// A header, table, byte range or compressed stream is malformed:
    /// truncated, out of bounds, or not decodable.
    Malformed,
    /// The outer or inner form's tag or version is not the expected one.
    StructuralMismatch,
    /// A table-of-contents chunk carries a tag none of the three table
    /// decoders accepts; nothing is skipped.
    UnknownSection(FourCC),
    /// The table of contents holds no directory chunk.
    MissingDirectory,
    /// A compressed payload selects a mode outside 1 to 3.
    UnsupportedCompression(u32),
    /// A payload's embedded form header disagrees with its directory
    /// entry on tag, version, second version, or size.
    CrossValidation,
    /// A name entry's bytes are not valid text.
    Encoding,
    /// A table exceeds its on-disk count or offset field, or the output
    /// cannot fit in memory.
    CapacityOverflow,
}

/// Read-time provenance of one asset: the compression mode its payload
/// used (0 for none), its position in the directory, and its original
/// absolute offset, which drives payload placement on write.
#[derive(Clone, Copy, PartialEq, Eq, Structural, Debug)]
pub struct AssetInfo {
    pub id: u128,
    pub compression_mode: u32,
    pub entry_idx: u32,
    pub orig_offset: u64,
}

/// One fully materialised asset.
#[derive(Clone, Debug)]
pub struct Asset {
    pub id: u128,
    pub kind: FourCC,
    pub name: Option<String>,
    pub data: Vec<u8>,
    pub meta: Option<Vec<u8>>,
    pub info: AssetInfo,
    pub version: u32,
    pub other_version: u32,
}

/// Mathematical value of an asset.
pub ghost struct AssetV {
    pub id: u128,
    pub kind: FourCC,
    pub name: Option<Seq<char>>,
    pub data: Seq<u8>,
    pub meta: Option<Seq<u8>>,
    pub info: AssetInfo,
    pub version: u32,
    pub other_version: u32,
}

impl View for Asset {
    type V = AssetV;

    open spec fn view(&self) -> AssetV {
        AssetV {
            id: self.id,
            kind: self.kind,
            name: match self.name {
                Some(s) => Some(s@),
                None => None,
            },
            data: self.data@,
            meta: match self.meta {
                Some(m) => Some(m@),
                None => None,
            },
            info: self.info,
            version: self.version,
            other_version: self.other_version,
        }
    }
}

/// The views of an asset list.
pub open spec fn asset_views(s: Seq<Asset>) -> Seq<AssetV> {
    Seq::new(s.len(), |i: int| s[i]@)
}

/// The whole container: assets in canonical (directory) order.
#[derive(Clone, Debug)]
pub struct Package {
    pub assets: Vec<Asset>,
}

impl View for Package {
    type V = Seq<AssetV>;

    open spec fn view(&self) -> Seq<AssetV> {
        asset_views(self.assets@)
    }
}

// ---------------------------------------------------------------------------
// The read specification.
// ---------------------------------------------------------------------------

/// What the table-of-contents scan accumulates: the directory (last chunk
/// wins), and identity-keyed metadata and name pairs in insertion order.
pub ghost struct TocV {
    pub dir: Option<Seq<AssetDirectoryEntry>>,
    pub metas: Seq<(u128, Seq<u8>)>,
    pub names: Seq<(u128, Seq<char>)>,
}

/// The identity-to-name pairs of a string table, in entry order; `None`
/// when some name is not valid text.
pub open spec fn spec_name_pairs(entries: Seq<StringTableEntryV>) -> Option<
    Seq<(u128, Seq<char>)>,
>
    decreases entries.len(),
{
    if entries.len() == 0 {
        Some(Seq::empty())
    } else {
        match spec_name_pairs(entries.drop_last()) {
            Some(pre) => if valid_utf8(entries.last().name) {
                Some(pre.push((entries.last().asset_id, decode_utf8(entries.last().name))))
            } else {
                None
            },
            None => None,
        }
    }
}

/// What a metadata chunk body `[ba, bb)` contributes: its table parsed,
/// the derived-length rule's precondition checked, and the blob pairs.
pub open spec fn spec_meta_chunk(s: Seq<u8>, ba: int, bb: int, e: Endian) -> Result<
    Seq<(u128, Seq<u8>)>,
    PackError,
> {
    match spec_meta_parse(s, ba, bb, e) {
        None => Err(PackError::Malformed),
        Some(ents) => if meta_offsets_ok(ents, bb - ba) {
            Ok(meta_pairs(ents, s, ba, bb))
        } else {
            Err(PackError::Malformed)
        },
    }
}

/// What a string chunk body `[ba, bb)` contributes: its table parsed and
/// every name decoded as text.
pub open spec fn spec_strg_chunk(s: Seq<u8>, ba: int, bb: int, e: Endian) -> Result<
    Seq<(u128, Seq<char>)>,
    PackError,
> {
    match spec_strg_parse(s, ba, bb, e) {
        None => Err(PackError::Malformed),
        Some(ents) => match spec_name_pairs(ents) {
            None => Err(PackError::Encoding),
            Some(pairs) => Ok(pairs),
        },
    }
}

/// Scans the chunks of the table-of-contents body `[pos, end)`.
pub open spec fn spec_scan(s: Seq<u8>, pos: int, end: int, e: Endian, acc: TocV) -> Result<
    TocV,
    PackError,
>
    decreases end - pos,
{
    if pos >= end {
        Ok(acc)
    } else {
        match spec_chunk_parse(s, pos, end, e) {
            None => Err(PackError::Malformed),
            Some((c, ba, bb)) => {
                if c.id == adir_tag() {
                    match spec_adir_parse(s, ba, bb, e) {
                        None => Err(PackError::Malformed),
                        Some(dir) => spec_scan(
                            s,
                            bb,
                            end,
                            e,
                            TocV { dir: Some(dir), metas: acc.metas, names: acc.names },
                        ),
                    }
                } else if c.id == meta_tag() {
                    match spec_meta_chunk(s, ba, bb, e) {
                        Err(er) => Err(er),
                        Ok(pairs) => spec_scan(
                            s,
                            bb,
                            end,
                            e,
                            TocV { dir: acc.dir, metas: acc.metas + pairs, names: acc.names },
                        ),
                    }
                } else if c.id == strg_tag() {
                    match spec_strg_chunk(s, ba, bb, e) {
                        Err(er) => Err(er),
                        Ok(pairs) => spec_scan(
                            s,
                            bb,
                            end,
                            e,
                            TocV { dir: acc.dir, metas: acc.metas, names: acc.names + pairs },
                        ),
                    }
                } else {
                    Err(PackError::UnknownSection(c.id))
                }
            },
        }
    }
}

/// The scan's starting accumulator.
pub open spec fn empty_toc() -> TocV {
    TocV { dir: None, metas: Seq::empty(), names: Seq::empty() }
}

/// The outer and inner forms of a package buffer, then the chunk scan.
pub open spec fn spec_toc(s: Seq<u8>, e: Endian) -> Result<TocV, PackError> {
    match spec_form_parse(s, 0, s.len() as int, e) {
        None => Err(PackError::Malformed),
        Some((ph, pa, pb)) => {
            if !(ph.id == pack_tag() && ph.version == 1) {
                Err(PackError::StructuralMismatch)
            } else {
                match spec_form_parse(s, pa, pb, e) {
                    None => Err(PackError::Malformed),
                    Some((th, ta, tb)) => {
                        if !(th.id == tocc_tag() && th.version == 3) {
                            Err(PackError::StructuralMismatch)
                        } else {
                            spec_scan(s, ta, tb, e, empty_toc())
                        }
                    },
                }
            }
        },
    }
}

/// The asset directory entry `en` (at directory position `idx`) describes,
/// assembled against the side tables: its payload sliced out of the buffer
/// and decompressed if the stored size differs from the decompressed one,
/// cross-validated against the form header embedded in the payload.
pub open spec fn spec_asset(
    s: Seq<u8>,
    en: AssetDirectoryEntry,
    idx: int,
    metas: Seq<(u128, Seq<u8>)>,
    names: Seq<(u128, Seq<char>)>,
) -> Result<AssetV, PackError> {
    if en.offset + en.size > s.len() || en.decompressed_size > usize::MAX {
        Err(PackError::Malformed)
    } else {
        let off = en.offset as int;
        let payload_or = if en.size != en.decompressed_size {
            if en.size < 4 {
                Err(PackError::Malformed)
            } else {
                let mode = dec_u32(Endian::Little, s, off);
                if 1 <= mode <= 3 {
                    match lzss_run(
                        mode,
                        s.subrange(off + 4, off + en.size),
                        Seq::empty(),
                        en.decompressed_size as int,
                    ) {
                        Some(p) => Ok((p, mode)),
                        None => Err(PackError::Malformed),
                    }
                } else {
                    Err(PackError::UnsupportedCompression(mode))
                }
            }
        } else {
            Ok((s.subrange(off, off + en.size), 0u32))
        };
        match payload_or {
            Err(er) => Err(er),
            Ok((payload, mode)) => match spec_form_parse(
                payload,
                0,
                payload.len() as int,
                Endian::Little,
            ) {
                None => Err(PackError::Malformed),
                Some((ih, iba, ibb)) => {
                    if ih.id == en.asset_type && ih.version == en.version && ih.other_version
                        == en.other_version && ih.size + 32 == en.decompressed_size {
                        Ok(
                            AssetV {
                                id: en.asset_id,
                                kind: en.asset_type,
                                name: assoc_get(names, en.asset_id),
                                data: payload,
                                meta: assoc_get(metas, en.asset_id),
                                info: AssetInfo {
                                    id: en.asset_id,
                                    compression_mode: mode,
                                    entry_idx: idx as u32,
                                    orig_offset: en.offset,
                                },
                                version: en.version,
                                other_version: en.other_version,
                            },
                        )
                    } else {
                        Err(PackError::CrossValidation)
                    }
                },
            },
        }
    }
}

/// Assembles the assets of directory entries `idx..`, in directory order.
pub open spec fn spec_assemble(
    s: Seq<u8>,
    dir: Seq<AssetDirectoryEntry>,
    idx: int,
    metas: Seq<(u128, Seq<u8>)>,
    names: Seq<(u128, Seq<char>)>,
) -> Result<Seq<AssetV>, PackError>
    decreases dir.len() - idx,
{
    if idx >= dir.len() {
        Ok(Seq::empty())
    } else {
        match spec_asset(s, dir[idx], idx, metas, names) {
            Err(er) => Err(er),
            Ok(av) => match spec_assemble(s, dir, idx + 1, metas, names) {
                Err(er) => Err(er),
                Ok(rest) => Ok(seq![av] + rest),
            },
        }
    }
}

/// What `Package::read` returns on `s` under byte order `e`: the asset
/// list in directory order, or the first failure.
pub open spec fn spec_read(s: Seq<u8>, e: Endian) -> Result<Seq<AssetV>, PackError> {
    match spec_toc(s, e) {
        Err(er) => Err(er),
        Ok(toc) => match toc.dir {
            None => Err(PackError::MissingDirectory),
            Some(dir) => spec_assemble(s, dir, 0, toc.metas, toc.names),
        },
    }
}

// ---------------------------------------------------------------------------
// Side-table views and lookups.
// ---------------------------------------------------------------------------

/// The view pairs of the collected metadata blobs.
pub open spec fn meta_views(v: Seq<(u128, Vec<u8>)>) -> Seq<(u128, Seq<u8>)> {
    Seq::new(v.len(), |i: int| (v[i].0, v[i].1@))
}

/// The view pairs of the collected names.
pub open spec fn name_views(v: Seq<(u128, String)>) -> Seq<(u128, Seq<char>)> {
    Seq::new(v.len(), |i: int| (v[i].0, v[i].1@))
}

/// The directory view an optional directory holds.
pub open spec fn dir_view(d: Option<AssetDirectory>) -> Option<Seq<AssetDirectoryEntry>> {
    match d {
        Some(x) => Some(x.entries@),
        None => None,
    }
}

/// Relies on `str::from_utf8` of std: it succeeds exactly on valid UTF-8
/// and returns the text those bytes encode, per vstd's UTF-8 model.
#[verifier::external_body]
fn utf8_to_string(bytes: &Vec<u8>) -> (r: Option<String>)
    ensures
        r is Some <==> valid_utf8(bytes@),
        r is Some ==> r.unwrap()@ == decode_utf8(bytes@),
{
    match std::str::from_utf8(bytes.as_slice()) {
        Ok(s) => Some(s.to_owned()),
        Err(_) => None,
    }
}

fn lookup_meta(v: &Vec<(u128, Vec<u8>)>, k: u128) -> (r: Option<Vec<u8>>)
    ensures
        match r {
            Some(b) => assoc_get(meta_views(v@), k) == Some(b@),
            None => assoc_get(meta_views(v@), k) is None,
        },
{
    let mut j: usize = v.len();
    proof {
        assert(meta_views(v@).take(v@.len() as int) =~= meta_views(v@));
    }
    while j > 0
        invariant
            j <= v@.len(),
            assoc_get(meta_views(v@), k) == assoc_get(meta_views(v@).take(j as int), k),
        decreases j,
    {
        j = j - 1;
        proof {
            assert(meta_views(v@).take(j + 1).drop_last() =~= meta_views(v@).take(j as int));
            assert(meta_views(v@).take(j + 1).last() == (v@[j as int].0, v@[j as int].1@));
        }
        if v[j].0 == k {
            let mut b: Vec<u8> = Vec::new();
            push_slice(&mut b, &v[j].1);
            return Some(b);
        }
    }
    proof {
        assert(meta_views(v@).take(0) =~= Seq::<(u128, Seq<u8>)>::empty());
    }
    None
}

fn lookup_name(v: &Vec<(u128, String)>, k: u128) -> (r: Option<String>)
    ensures
        match r {
            Some(b) => assoc_get(name_views(v@), k) == Some(b@),
            None => assoc_get(name_views(v@), k) is None,
        },
{
    let mut j: usize = v.len();
    proof {
        assert(name_views(v@).take(v@.len() as int) =~= name_views(v@));
    }
    while j > 0
        invariant
            j <= v@.len(),
            assoc_get(name_views(v@), k) == assoc_get(name_views(v@).take(j as int), k),
        decreases j,
    {
        j = j - 1;
        proof {
            assert(name_views(v@).take(j + 1).drop_last() =~= name_views(v@).take(j as int));
            assert(name_views(v@).take(j + 1).last() == (v@[j as int].0, v@[j as int].1@));
        }
        if v[j].0 == k {
            return Some(v[j].1.clone());
        }
    }
    proof {
        assert(name_views(v@).take(0) =~= Seq::<(u128, Seq<char>)>::empty());
    }
    None
}

/// `spec_name_pairs` fails on the whole table as soon as it fails on a
/// prefix.
proof fn lemma_name_pairs_prefix_none(s: Seq<StringTableEntryV>, k: int)
    requires
        0 <= k <= s.len(),
        spec_name_pairs(s.take(k)) is None,
    ensures
        spec_name_pairs(s) is None,
    decreases s.len(),
{
    if k == s.len() {
        assert(s.take(k) =~= s);
    } else {
        assert(s.drop_last().take(k) =~= s.take(k));
        lemma_name_pairs_prefix_none(s.drop_last(), k);
    }
}

/// Collects a metadata chunk's blob pairs into `metas`, by the
/// derived-length rule.
#[verifier::loop_isolation(false)]
#[verifier::rlimit(100)]
fn read_meta_chunk(data: &[u8], ba: usize, bb: usize, e: Endian, metas: &mut Vec<(u128, Vec<u8>)>)
    -> (r: Result<(), PackError>)
    requires
        ba <= bb <= data@.len(),
    ensures
        match r {
            Ok(u) => spec_meta_chunk(data@, ba as int, bb as int, e) matches Ok(pairs)
                && meta_views(final(metas)@) == meta_views(old(metas)@) + pairs,
            Err(er) => spec_meta_chunk(data@, ba as int, bb as int, e) == Err::<
                Seq<(u128, Seq<u8>)>,
                PackError,
            >(er) && final(metas)@ == old(metas)@,
        },
{
    proof {
        assert(vstd::slice::spec_slice_len(data) == data@.len());
    }
    let mt = match meta_parse(data, ba, bb, e) {
        Some(t) => t,
        None => {
            return Err(PackError::Malformed);
        },
    };
    let m = mt.entries.len();
    let body_len = bb - ba;
    // First pass: the offsets must ascend and stay inside the body.
    let mut j: usize = 0;
    while j < m
        invariant
            j <= m == mt.entries@.len(),
            ba <= bb <= data@.len() <= usize::MAX,
            body_len == bb - ba,
            forall|t: int|
                0 <= t < j ==> (#[trigger] mt.entries@[t].offset as int) <= meta_end(
                    mt.entries@,
                    t,
                    bb - ba,
                ),
            forall|t: int| 0 <= t < j ==> (#[trigger] mt.entries@[t].offset as int) <= bb - ba,
        decreases m - j,
    {
        let o = mt.entries[j].offset;
        let nxt: u64 = if j + 1 < m {
            mt.entries[j + 1].offset as u64
        } else {
            body_len as u64
        };
        if (o as u64) > nxt || (o as u64) > (body_len as u64) {
            proof {
                assert(!meta_offsets_ok(mt.entries@, bb - ba));
            }
            return Err(PackError::Malformed);
        }
        j = j + 1;
    }
    proof {
        assert(meta_offsets_ok(mt.entries@, bb - ba));
    }
    // Second pass: slice each blob out of the body.
    let ghost pre_metas = meta_views(metas@);
    let mut j: usize = 0;
    while j < m
        invariant
            j <= m == mt.entries@.len(),
            ba <= bb <= data@.len() <= usize::MAX,
            body_len == bb - ba,
            meta_offsets_ok(mt.entries@, bb - ba),
            pre_metas == meta_views(old(metas)@),
            meta_views(metas@) =~~= pre_metas + meta_pairs(
                mt.entries@,
                data@,
                ba as int,
                bb as int,
            ).take(j as int),
        decreases m - j,
    {
        let o = mt.entries[j].offset as usize;
        let end_rel: usize = if j + 1 < m {
            mt.entries[j + 1].offset as usize
        } else {
            body_len
        };
        let blob = copy_range(data, ba + o, ba + end_rel);
        let ghost mv_before = meta_views(metas@);
        metas.push((mt.entries[j].asset_id, blob));
        proof {
            let pairs = meta_pairs(mt.entries@, data@, ba as int, bb as int);
            assert((mt.entries@[j as int].asset_id, blob@) == pairs[j as int]);
            assert(meta_views(metas@) =~~= mv_before.push(pairs[j as int]));
            assert(pairs.take(j + 1) =~= pairs.take(j as int).push(pairs[j as int]));
            assert(pre_metas + pairs.take(j as int).push(pairs[j as int]) =~= (pre_metas
                + pairs.take(j as int)).push(pairs[j as int]));
        }
        j = j + 1;
    }
    proof {
        let pairs = meta_pairs(mt.entries@, data@, ba as int, bb as int);
        assert(pairs.take(m as int) =~= pairs);
        assert(meta_views(metas@) =~~= pre_metas + pairs);
    }
    Ok(())
}

/// Collects a string chunk's decoded name pairs into `names`.
#[verifier::loop_isolation(false)]
fn read_strg_chunk(data: &[u8], ba: usize, bb: usize, e: Endian, names: &mut Vec<(u128, String)>)
    -> (r: Result<(), PackError>)
    requires
        ba <= bb <= data@.len(),
    ensures
        match r {
            Ok(u) => spec_strg_chunk(data@, ba as int, bb as int, e) matches Ok(pairs)
                && name_views(final(names)@) == name_views(old(names)@) + pairs,
            Err(er) => spec_strg_chunk(data@, ba as int, bb as int, e) == Err::<
                Seq<(u128, Seq<char>)>,
                PackError,
            >(er),
        },
{
    proof {
        assert(vstd::slice::spec_slice_len(data) == data@.len());
    }
    let st = match strg_parse(data, ba, bb, e) {
        Some(t) => t,
        None => {
            return Err(PackError::Malformed);
        },
    };
    let n = st.entries.len();
    let ghost pre_names = name_views(names@);
    proof {
        assert(strg_views(st.entries@).take(0) =~= Seq::<StringTableEntryV>::empty());
        assert(name_views(names@) =~= pre_names + Seq::<(u128, Seq<char>)>::empty());
    }
    let mut j: usize = 0;
    while j < n
        invariant
            j <= n == st.entries@.len(),
            pre_names == name_views(old(names)@),
            spec_strg_parse(data@, ba as int, bb as int, e) == Some(strg_views(st.entries@)),
            spec_name_pairs(strg_views(st.entries@).take(j as int)) matches Some(p)
                && name_views(names@) =~= pre_names + p,
        decreases n - j,
    {
        let ghost pre_pairs = spec_name_pairs(strg_views(st.entries@).take(j as int)).unwrap();
        proof {
            assert(strg_views(st.entries@).take(j + 1).drop_last() =~= strg_views(
                st.entries@,
            ).take(j as int));
            assert(strg_views(st.entries@).take(j + 1).last() == st.entries@[j as int]@);
        }
        let nm = match utf8_to_string(&st.entries[j].name) {
            Some(s) => s,
            None => {
                proof {
                    assert(spec_name_pairs(strg_views(st.entries@).take(j + 1)) is None);
                    lemma_name_pairs_prefix_none(strg_views(st.entries@), j + 1);
                }
                return Err(PackError::Encoding);
            },
        };
        names.push((st.entries[j].asset_id, nm));
        proof {
            assert(name_views(names@) =~= (pre_names + pre_pairs).push(
                (st.entries@[j as int]@.asset_id, decode_utf8(st.entries@[j as int]@.name)),
            ));
            assert(name_views(names@) =~= pre_names + spec_name_pairs(
                strg_views(st.entries@).take(j + 1),
            ).unwrap());
        }
        j = j + 1;
    }
    proof {
        assert(strg_views(st.entries@).take(n as int) =~= strg_views(st.entries@));
        let pairs = spec_name_pairs(strg_views(st.entries@)).unwrap();
        assert(name_views(names@) == pre_names + pairs);
    }
    Ok(())
}

/// Assembles the asset directory entry `en` (at position `idx`) describes.
fn read_one_asset(
    data: &[u8],
    en: AssetDirectoryEntry,
    idx: usize,
    metas: &Vec<(u128, Vec<u8>)>,
    names: &Vec<(u128, String)>,
) -> (r: Result<Asset, PackError>)
    requires
        idx <= u32::MAX,
    ensures
        match r {
            Ok(a) => spec_asset(data@, en, idx as int, meta_views(metas@), name_views(names@))
                == Ok::<AssetV, PackError>(a@),
            Err(er) => spec_asset(data@, en, idx as int, meta_views(metas@), name_views(names@))
                == Err::<AssetV, PackError>(er),
        },
{
    proof {
        assert(vstd::slice::spec_slice_len(data) == data@.len());
    }
    let dlen64: u64 = data.len() as u64;
    if en.offset > dlen64 || en.size > dlen64 - en.offset {
        return Err(PackError::Malformed);
    }
    if en.decompressed_size > usize::MAX as u64 {
        return Err(PackError::Malformed);
    }
    let off = en.offset as usize;
    let sz = en.size as usize;
    let (payload, mode): (Vec<u8>, u32) = if en.size != en.decompressed_size {
        if sz < 4 {
            return Err(PackError::Malformed);
        }
        let mode = crate::bytes::read_u32(data, off, Endian::Little);
        if !(1 <= mode && mode <= 3) {
            return Err(PackError::UnsupportedCompression(mode));
        }
        let stream = vstd::slice::slice_subrange(data, off + 4, off + sz);
        match decompress(mode, stream, en.decompressed_size as usize) {
            Some(p) => (p, mode),
            None => {
                return Err(PackError::Malformed);
            },
        }
    } else {
        (copy_range(data, off, off + sz), 0u32)
    };
    let plen = payload.len();
    let inner = form_parse(payload.as_slice(), 0, plen, Endian::Little);
    let (ih, _iba, _ibb) = match inner {
        Some(t) => t,
        None => {
            return Err(PackError::Malformed);
        },
    };
    if !(ih.id == en.asset_type && ih.version == en.version && ih.other_version
        == en.other_version) {
        return Err(PackError::CrossValidation);
    }
    if ih.size > u64::MAX - 32 || ih.size + 32 != en.decompressed_size {
        return Err(PackError::CrossValidation);
    }
    let name = lookup_name(names, en.asset_id);
    let meta = lookup_meta(metas, en.asset_id);
    let asset = Asset {
        id: en.asset_id,
        kind: en.asset_type,
        name,
        data: payload,
        meta,
        info: AssetInfo {
            id: en.asset_id,
            compression_mode: mode,
            entry_idx: idx as u32,
            orig_offset: en.offset,
        },
        version: en.version,
        other_version: en.other_version,
    };
    Ok(asset)
}

/// Parses the outer and inner forms and scans the table of contents,
/// yielding the directory and the side tables.
#[verifier::loop_isolation(false)]
#[verifier::rlimit(100)]
fn read_toc(data: &[u8], e: Endian) -> (r: Result<
    (AssetDirectory, Vec<(u128, Vec<u8>)>, Vec<(u128, String)>),
    PackError,
>)
    ensures
        match r {
            Ok(t) => spec_toc(data@, e) == Ok::<TocV, PackError>(
                TocV {
                    dir: Some(t.0.entries@),
                    metas: meta_views(t.1@),
                    names: name_views(t.2@),
                },
            ) && t.0.entries@.len() <= u32::MAX,
            Err(er) => match spec_toc(data@, e) {
                Err(x) => x == er,
                Ok(toc) => toc.dir is None && er == PackError::MissingDirectory,
            },
        },
{
    proof {
        assert(vstd::slice::spec_slice_len(data) == data@.len());
    }
    let dlen = data.len();
    let (ph, pa, pb) = match form_parse(data, 0, dlen, e) {
        Some(t) => t,
        None => {
            return Err(PackError::Malformed);
        },
    };
    if !(ph.id == form_pack() && ph.version == 1) {
        return Err(PackError::StructuralMismatch);
    }
    let (th, ta, tb) = match form_parse(data, pa, pb, e) {
        Some(t) => t,
        None => {
            return Err(PackError::Malformed);
        },
    };
    if !(th.id == form_tocc() && th.version == 3) {
        return Err(PackError::StructuralMismatch);
    }
    let mut dir_opt: Option<AssetDirectory> = None;
    let mut metas: Vec<(u128, Vec<u8>)> = Vec::new();
    let mut names: Vec<(u128, String)> = Vec::new();
    let mut pos: usize = ta;
    proof {
        assert(meta_views(metas@) =~= Seq::<(u128, Seq<u8>)>::empty());
        assert(name_views(names@) =~= Seq::<(u128, Seq<char>)>::empty());
    }
    while pos < tb
        invariant
            ta <= pos <= tb <= data@.len() <= usize::MAX,
            spec_scan(
                data@,
                pos as int,
                tb as int,
                e,
                TocV {
                    dir: dir_view(dir_opt),
                    metas: meta_views(metas@),
                    names: name_views(names@),
                },
            ) == spec_scan(data@, ta as int, tb as int, e, empty_toc()),
            match dir_view(dir_opt) {
                Some(d) => d.len() <= u32::MAX,
                None => true,
            },
        decreases tb - pos,
    {
        let ghost acc_in = TocV {
            dir: dir_view(dir_opt),
            metas: meta_views(metas@),
            names: name_views(names@),
        };
        let (c, ba, bb) = match chunk_parse(data, pos, tb, e) {
            Some(t) => t,
            None => {
                return Err(PackError::Malformed);
            },
        };
        if c.id == chunk_adir() {
            let d = match adir_parse(data, ba, bb, e) {
                Some(d) => d,
                None => {
                    return Err(PackError::Malformed);
                },
            };
            dir_opt = Some(d);
        } else if c.id == chunk_meta() {
            match read_meta_chunk(data, ba, bb, e, &mut metas) {
                Ok(u) => u,
                Err(er) => {
                    return Err(er);
                },
            };
        } else if c.id == chunk_strg() {
            match read_strg_chunk(data, ba, bb, e, &mut names) {
                Ok(u) => u,
                Err(er) => {
                    return Err(er);
                },
            };
        } else {
            return Err(PackError::UnknownSection(c.id));
        }
        proof {
            let acc_out = TocV {
                dir: dir_view(dir_opt),
                metas: meta_views(metas@),
                names: name_views(names@),
            };
            assert(spec_scan(data@, pos as int, tb as int, e, acc_in) == spec_scan(
                data@,
                bb as int,
                tb as int,
                e,
                acc_out,
            ));
        }
        pos = bb;
    }
    let dir = match dir_opt {
        Some(d) => d,
        None => {
            return Err(PackError::MissingDirectory);
        },
    };
    Ok((dir, metas, names))
}

impl Package {
    /// Decodes a package buffer into its assets, in directory order,
    /// decompressing payloads whose stored size differs from their
    /// decompressed size and cross-validating each payload's embedded
    /// form header against its directory entry.  The result is exactly
    /// what `spec_read` gives on the same bytes.
    #[verifier::loop_isolation(false)]
    #[verifier::rlimit(100)]
    pub fn read(data: &[u8], e: Endian) -> (r: Result<Package, PackError>)
        ensures
            match spec_read(data@, e) {
                Ok(avs) => r matches Ok(p) && p@ == avs,
                Err(er) => r matches Err(x) && x == er,
            },
    {
        proof {
            assert(vstd::slice::spec_slice_len(data) == data@.len());
        }
        let (dir, metas, names) = match read_toc(data, e) {
            Ok(t) => t,
            Err(er) => {
                return Err(er);
            },
        };
        let ghost gm = meta_views(metas@);
        let ghost gn = name_views(names@);
        let mut assets: Vec<Asset> = Vec::new();
        let mut idx: usize = 0;
        let n = dir.entries.len();
        proof {
            assert(asset_views(assets@) =~= Seq::<AssetV>::empty());
        }
        while idx < n
            invariant
                idx <= n == dir.entries@.len(),
                dir.entries@.len() <= u32::MAX,
                gm == meta_views(metas@),
                gn == name_views(names@),
                spec_assemble(data@, dir.entries@, 0, gm, gn) == (match spec_assemble(
                    data@,
                    dir.entries@,
                    idx as int,
                    gm,
                    gn,
                ) {
                    Ok(rest) => Ok::<Seq<AssetV>, PackError>(asset_views(assets@) + rest),
                    Err(er) => Err::<Seq<AssetV>, PackError>(er),
                }),
            decreases n - idx,
        {
            let en = dir.entries[idx];
            let asset = match read_one_asset(data, en, idx, &metas, &names) {
                Ok(a) => a,
                Err(er) => {
                    return Err(er);
                },
            };
            let ghost prev_assets = assets@;
            let ghost av = asset@;
            assets.push(asset);
            proof {
                let prev = asset_views(prev_assets);
                assert(asset_views(assets@) =~= prev + seq![av]);
                let r2 = spec_assemble(data@, dir.entries@, idx + 1, gm, gn);
                if r2 is Ok {
                    let rest = r2->Ok_0;
                    assert(spec_assemble(data@, dir.entries@, idx as int, gm, gn)
                        == Ok::<Seq<AssetV>, PackError>(seq![av] + rest));
                    assert((prev + seq![av]) + rest =~= prev + (seq![av] + rest));
                } else {
                    assert(spec_assemble(data@, dir.entries@, idx as int, gm, gn) == r2);
                }
            }
            idx = idx + 1;
        }
        proof {
            assert(asset_views(assets@) + Seq::<AssetV>::empty() =~= asset_views(assets@));
        }
        let p = Package { assets };
        Ok(p)
    }
}


// ---------------------------------------------------------------------------
// The write specification: a direct byte layout.
// ---------------------------------------------------------------------------

/// The strict order payloads are emitted in on write: ascending original
/// offset, list position breaking ties.
pub open spec fn key_lt(a: (u64, int), b: (u64, int)) -> bool {
    a.0 < b.0 || (a.0 == b.0 && a.1 < b.1)
}

/// Inserts a key into a sorted run, before the first strictly greater key.
pub open spec fn insert_pair(s: Seq<(u64, int)>, x: (u64, int)) -> Seq<(u64, int)>
    decreases s.len(),
{
    if s.len() == 0 {
        seq![x]
    } else if key_lt(x, s[0]) {
        seq![x] + s
    } else {
        seq![s[0]] + insert_pair(s.skip(1), x)
    }
}

/// Insertion sort of (original offset, list index) pairs.
pub open spec fn sort_pairs(s: Seq<(u64, int)>) -> Seq<(u64, int)>
    decreases s.len(),
{
    if s.len() == 0 {
        Seq::empty()
    } else {
        insert_pair(sort_pairs(s.drop_last()), s.last())
    }
}

/// The (original offset, index) pair of every asset, in list order.
pub open spec fn offset_pairs(assets: Seq<AssetV>) -> Seq<(u64, int)> {
    Seq::new(assets.len(), |i: int| (assets[i].info.orig_offset, i))
}

/// The payload emission order.
pub open spec fn write_order(assets: Seq<AssetV>) -> Seq<(u64, int)> {
    sort_pairs(offset_pairs(assets))
}

/// The payload section: each listed asset's bytes, in `ord` order.
pub open spec fn payload_cat(assets: Seq<AssetV>, ord: Seq<(u64, int)>) -> Seq<u8>
    decreases ord.len(),
{
    if ord.len() == 0 {
        Seq::empty()
    } else {
        payload_cat(assets, ord.drop_last()) + assets[ord.last().1].data
    }
}

/// The identity-and-blob pairs of the metadata-bearing assets, in list
/// order.
pub open spec fn meta_pairs_of(assets: Seq<AssetV>) -> Seq<(u128, Seq<u8>)>
    decreases assets.len(),
{
    if assets.len() == 0 {
        Seq::empty()
    } else {
        let pre = meta_pairs_of(assets.drop_last());
        match assets.last().meta {
            Some(b) => pre.push((assets.last().id, b)),
            None => pre,
        }
    }
}

/// The metadata blobs one after another, as the chunk body holds them
/// behind the table.
pub open spec fn cat_blobs(pairs: Seq<(u128, Seq<u8>)>) -> Seq<u8>
    decreases pairs.len(),
{
    if pairs.len() == 0 {
        Seq::empty()
    } else {
        cat_blobs(pairs.drop_last()) + pairs.last().1
    }
}

/// The string entries of the name table, one per named asset, in list
/// order, names stored as their UTF-8 bytes.
pub open spec fn strg_entries_of(assets: Seq<AssetV>) -> Seq<StringTableEntryV>
    decreases assets.len(),
{
    if assets.len() == 0 {
        Seq::empty()
    } else {
        let pre = strg_entries_of(assets.drop_last());
        match assets.last().name {
            Some(nm) => pre.push(
                StringTableEntryV {
                    kind: assets.last().kind,
                    asset_id: assets.last().id,
                    name: encode_utf8(nm),
                },
            ),
            None => pre,
        }
    }
}

/// The metadata table entries: each metadata-bearing asset's identity and
/// its blob's offset relative to the chunk body start (table, then blobs).
pub open spec fn meta_entries_of(assets: Seq<AssetV>) -> Seq<MetadataTableEntry> {
    let pairs = meta_pairs_of(assets);
    Seq::new(
        pairs.len(),
        |i: int|
            MetadataTableEntry {
                asset_id: pairs[i].0,
                offset: (4 + 20 * pairs.len() + cat_blobs(pairs.take(i)).len()) as u32,
            },
    )
}

/// The metadata chunk body: the table, then the blobs.
pub open spec fn meta_seg(assets: Seq<AssetV>, e: Endian) -> Seq<u8> {
    meta_table_bytes(meta_entries_of(assets), e) + cat_blobs(meta_pairs_of(assets))
}

/// The string chunk body.
pub open spec fn strg_seg(assets: Seq<AssetV>, e: Endian) -> Seq<u8> {
    strg_table_bytes(strg_entries_of(assets), e)
}

/// The table-of-contents body length: three chunk headers, the directory
/// table (whose width is fixed by the asset count alone), and the other
/// two bodies.
pub open spec fn toc_len(assets: Seq<AssetV>, e: Endian) -> int {
    72 + (4 + 52 * assets.len() as int) + meta_seg(assets, e).len() as int + strg_seg(
        assets,
        e,
    ).len() as int
}

/// Where the payload section starts: the two form headers and the
/// table-of-contents body.
pub open spec fn payload_start(assets: Seq<AssetV>, e: Endian) -> int {
    64 + toc_len(assets, e)
}

/// The directory offsets after the first `k` ordered payloads are placed:
/// `init` updated at each placed asset's index with its absolute offset.
pub open spec fn offsets_after(
    assets: Seq<AssetV>,
    ord: Seq<(u64, int)>,
    start: int,
    k: int,
    init: Seq<u64>,
) -> Seq<u64>
    decreases k,
{
    if k <= 0 {
        init
    } else {
        offsets_after(assets, ord, start, k - 1, init).update(
            ord[k - 1].1,
            (start + payload_cat(assets, ord.take(k - 1)).len()) as u64,
        )
    }
}

/// A directory-sized run of zero offsets.
pub open spec fn zero_u64s(n: int) -> Seq<u64> {
    Seq::new(n as nat, |i: int| 0u64)
}

/// The final directory offsets.
pub open spec fn offsets_final(assets: Seq<AssetV>, e: Endian) -> Seq<u64> {
    offsets_after(
        assets,
        write_order(assets),
        payload_start(assets, e),
        write_order(assets).len() as int,
        zero_u64s(assets.len() as int),
    )
}

/// The directory entry written for asset `i`: stored size equals
/// decompressed size equals the payload length — the writer never
/// re-compresses.
pub open spec fn dir_entry_of(assets: Seq<AssetV>, e: Endian, i: int) -> AssetDirectoryEntry {
    AssetDirectoryEntry {
        asset_type: assets[i].kind,
        asset_id: assets[i].id,
        version: assets[i].version,
        other_version: assets[i].other_version,
        offset: offsets_final(assets, e)[i],
        decompressed_size: assets[i].data.len() as u64,
        size: assets[i].data.len() as u64,
    }
}

pub open spec fn dir_entries_of(assets: Seq<AssetV>, e: Endian) -> Seq<AssetDirectoryEntry> {
    Seq::new(assets.len(), |i: int| dir_entry_of(assets, e, i))
}

/// The directory chunk body.
pub open spec fn adir_seg(assets: Seq<AssetV>, e: Endian) -> Seq<u8> {
    adir_table_bytes(dir_entries_of(assets, e), e)
}

/// The payload section in emission order.
pub open spec fn payload_seg(assets: Seq<AssetV>) -> Seq<u8> {
    payload_cat(assets, write_order(assets))
}

/// Bytes before the closing alignment padding.
pub open spec fn pre_pad_len(assets: Seq<AssetV>, e: Endian) -> int {
    64 + toc_len(assets, e) + payload_seg(assets).len() as int
}

/// Zero bytes up to the next 16-byte boundary.
pub open spec fn write_pad(assets: Seq<AssetV>, e: Endian) -> int {
    (16 - (pre_pad_len(assets, e) % 16)) % 16
}

/// Everything before the payload section: the two form headers and the
/// three chunks of the table of contents.
pub open spec fn toc_stream(assets: Seq<AssetV>, e: Endian) -> Seq<u8> {
    form_header_bytes(
        FormDescriptor {
            size: (32 + toc_len(assets, e) + payload_seg(assets).len()) as u64,
            unk1: 0,
            id: pack_tag(),
            version: 1,
            other_version: 1,
        },
        e,
    ) + form_header_bytes(
        FormDescriptor {
            size: toc_len(assets, e) as u64,
            unk1: 0,
            id: tocc_tag(),
            version: 3,
            other_version: 3,
        },
        e,
    ) + chunk_header_bytes(
        ChunkDescriptor {
            id: adir_tag(),
            size: (4 + 52 * assets.len()) as u64,
            unk: 1,
            skip: 0,
        },
        e,
    ) + adir_seg(assets, e) + chunk_header_bytes(
        ChunkDescriptor { id: meta_tag(), size: meta_seg(assets, e).len() as u64, unk: 1, skip: 0 },
        e,
    ) + meta_seg(assets, e) + chunk_header_bytes(
        ChunkDescriptor { id: strg_tag(), size: strg_seg(assets, e).len() as u64, unk: 1, skip: 0 },
        e,
    ) + strg_seg(assets, e)
}

/// The whole output byte stream.
pub open spec fn spec_write_bytes(assets: Seq<AssetV>, e: Endian) -> Seq<u8> {
    toc_stream(assets, e) + payload_seg(assets) + zeros(write_pad(assets, e))
}

/// When a package can be written at all: every count and recorded offset
/// fits its on-disk field, and the stream fits in memory.
pub open spec fn write_ok(assets: Seq<AssetV>, e: Endian) -> bool {
    &&& assets.len() <= u32::MAX
    &&& forall|i: int|
        0 <= i < assets.len() && assets[i].name is Some ==> (#[trigger] encode_utf8(
            assets[i].name.unwrap(),
        )).len() <= u32::MAX
    &&& forall|i: int|
        0 <= i < meta_pairs_of(assets).len() ==> 4 + 20 * meta_pairs_of(assets).len() + (
        #[trigger] cat_blobs(meta_pairs_of(assets).take(i))).len() <= u32::MAX
    &&& pre_pad_len(assets, e) + write_pad(assets, e) <= usize::MAX
}

/// What `Package::write` returns.
pub open spec fn spec_write(assets: Seq<AssetV>, e: Endian) -> Result<Seq<u8>, PackError> {
    if write_ok(assets, e) {
        Ok(spec_write_bytes(assets, e))
    } else {
        Err(PackError::CapacityOverflow)
    }
}


/// `insert_pair` places the key at the first position whose element is
/// strictly greater.
proof fn lemma_insert_pair_at(s: Seq<(u64, int)>, x: (u64, int), p: int)
    requires
        0 <= p <= s.len(),
        forall|t: int| 0 <= t < p ==> !key_lt(x, #[trigger] s[t]),
        p < s.len() ==> key_lt(x, s[p]),
    ensures
        insert_pair(s, x) == s.take(p) + seq![x] + s.skip(p),
    decreases p,
{
    if p == 0 {
        if s.len() == 0 {
            assert(insert_pair(s, x) =~= s.take(0) + seq![x] + s.skip(0));
        } else {
            assert(insert_pair(s, x) == seq![x] + s);
            assert(seq![x] + s =~= s.take(0) + seq![x] + s.skip(0));
        }
    } else {
        lemma_insert_pair_at(s.skip(1), x, p - 1);
        assert(s.skip(1).take(p - 1) =~= s.subrange(1, p));
        assert(s.skip(1).skip(p - 1) =~= s.skip(p));
        assert(seq![s[0]] + (s.subrange(1, p) + seq![x] + s.skip(p)) =~= s.take(p) + seq![x]
            + s.skip(p));
    }
}

fn key_lt_exec(a: (u64, usize), b: (u64, usize)) -> (r: bool)
    ensures
        r == key_lt((a.0, a.1 as int), (b.0, b.1 as int)),
{
    a.0 < b.0 || (a.0 == b.0 && a.1 < b.1)
}

/// The mathematical pairs of an executable pair list.
pub open spec fn pair_views(v: Seq<(u64, usize)>) -> Seq<(u64, int)> {
    Seq::new(v.len(), |i: int| (v[i].0, v[i].1 as int))
}

/// Insertion sort by (offset, index); the indices stay below `nb`.
#[verifier::loop_isolation(false)]
fn sort_offset_pairs(pairs: &Vec<(u64, usize)>, Ghost(nb): Ghost<int>) -> (r: Vec<(u64, usize)>)
    requires
        forall|t: int| 0 <= t < pairs@.len() ==> (#[trigger] pairs@[t]).1 < nb,
    ensures
        pair_views(r@) == sort_pairs(pair_views(pairs@)),
        r@.len() == pairs@.len(),
        forall|t: int| 0 <= t < r@.len() ==> (#[trigger] r@[t]).1 < nb,
{
    let mut sorted: Vec<(u64, usize)> = Vec::new();
    proof {
        assert(pair_views(pairs@).take(0) =~= Seq::<(u64, int)>::empty());
        assert(pair_views(sorted@) =~= Seq::<(u64, int)>::empty());
    }
    let mut j: usize = 0;
    while j < pairs.len()
        invariant
            j <= pairs@.len(),
            pair_views(sorted@) == sort_pairs(pair_views(pairs@).take(j as int)),
            sorted@.len() == j,
            forall|t: int| 0 <= t < sorted@.len() ==> (#[trigger] sorted@[t]).1 < nb,
        decreases pairs@.len() - j,
    {
        let x = pairs[j];
        let mut p: usize = 0;
        while p < sorted.len() && !key_lt_exec(x, sorted[p])
            invariant
                p <= sorted@.len(),
                forall|t: int|
                    0 <= t < p ==> !key_lt(
                        (x.0, x.1 as int),
                        #[trigger] pair_views(sorted@)[t],
                    ),
            decreases sorted@.len() - p,
        {
            p = p + 1;
        }
        let ghost sv = pair_views(sorted@);
        sorted.insert(p, x);
        proof {
            lemma_insert_pair_at(sv, (x.0, x.1 as int), p as int);
            assert(pair_views(sorted@) =~= sv.take(p as int) + seq![(x.0, x.1 as int)] + sv.skip(
                p as int,
            ));
            assert(pair_views(pairs@).take(j + 1).drop_last() =~= pair_views(pairs@).take(
                j as int,
            ));
            assert(pair_views(pairs@).take(j + 1).last() == (x.0, x.1 as int));
        }
        j = j + 1;
    }
    proof {
        assert(pair_views(pairs@).take(pairs@.len() as int) =~= pair_views(pairs@));
    }
    sorted
}

/// The pairs an index list selects out of the asset list.
pub open spec fn midx_pairs(assets: Seq<AssetV>, idxs: Seq<usize>) -> Seq<(u128, Seq<u8>)> {
    Seq::new(
        idxs.len(),
        |i: int| (assets[idxs[i] as int].id, assets[idxs[i] as int].meta.unwrap()),
    )
}

/// A payload prefix never outgrows the whole payload section.
proof fn lemma_payload_prefix_len(assets: Seq<AssetV>, ord: Seq<(u64, int)>, k: int)
    requires
        0 <= k <= ord.len(),
    ensures
        payload_cat(assets, ord.take(k)).len() <= payload_cat(assets, ord).len(),
    decreases ord.len(),
{
    if k == ord.len() {
        assert(ord.take(k) =~= ord);
    } else {
        assert(ord.drop_last().take(k) =~= ord.take(k));
        lemma_payload_prefix_len(assets, ord.drop_last(), k);
    }
}


/// Builds the string table of every named asset, in list order, with the
/// string chunk body length; fails when a name is too long for its count
/// field.
#[verifier::loop_isolation(false)]
#[verifier::rlimit(50)]
fn build_strg_table(assets: &Vec<Asset>, e: Endian) -> (r: Result<
    (Vec<StringTableEntry>, u128),
    PackError,
>)
    ensures
        match r {
            Ok(t) => {
                &&& strg_views(t.0@) == strg_entries_of(asset_views(assets@))
                &&& t.1 == strg_seg(asset_views(assets@), e).len()
                &&& t.1 <= 4 + 0x1_0000_0018u128 * (assets@.len() as u128)
                &&& forall|i: int|
                    0 <= i < asset_views(assets@).len() && asset_views(assets@)[i].name is Some
                        ==> (#[trigger] encode_utf8(
                        asset_views(assets@)[i].name.unwrap(),
                    )).len() <= u32::MAX
                &&& forall|i: int|
                    0 <= i < t.0@.len() ==> (#[trigger] t.0@[i]@.name.len()) <= u32::MAX
                &&& t.0@.len() <= assets@.len()
            },
            Err(er) => er == PackError::CapacityOverflow && !write_ok(asset_views(assets@), e),
        },
{
    let ghost avs = asset_views(assets@);
    let n = assets.len();
    let mut sentries: Vec<StringTableEntry> = Vec::new();
    let mut strg_len: u128 = 4;
    proof {
        assert(avs.take(0) =~= Seq::<AssetV>::empty());
        assert(strg_views(sentries@) =~= Seq::<StringTableEntryV>::empty());
    }
    let mut j: usize = 0;
    while j < n
        invariant
            j <= n == assets@.len(),
            avs == asset_views(assets@),
            strg_views(sentries@) == strg_entries_of(avs.take(j as int)),
            sentries@.len() <= j,
            strg_len == 4 + strg_entries_bytes(strg_views(sentries@), e).len(),
            strg_len <= 4 + 0x1_0000_0018u128 * (j as u128),
            forall|t: int|
                0 <= t < j && avs[t].name is Some ==> (#[trigger] encode_utf8(
                    avs[t].name.unwrap(),
                )).len() <= u32::MAX,
            forall|t: int| 0 <= t < sentries@.len() ==> (#[trigger] sentries@[t]@.name.len())
                <= u32::MAX,
        decreases n - j,
    {
        proof {
            assert(avs.take(j + 1).drop_last() =~= avs.take(j as int));
            assert(avs.take(j + 1).last() == avs[j as int]);
        }
        let a = &assets[j];
        if let Some(nm) = &a.name {
            let nb = nm.as_str().as_bytes_vec();
            let nblen = nb.len();
            proof {
                assert(avs[j as int].name.unwrap() == nm@);
                assert(nb@ == encode_utf8(nm@));
            }
            if (nblen as u64) > (u32::MAX as u64) {
                proof {
                    assert(!write_ok(avs, e));
                }
                return Err(PackError::CapacityOverflow);
            }
            let ghost pre = strg_views(sentries@);
            sentries.push(StringTableEntry { kind: a.kind, asset_id: a.id, name: nb });
            strg_len = strg_len + 24 + (nblen as u128);
            proof {
                assert(strg_views(sentries@) =~= pre.push(sentries@.last()@));
                assert(pre.push(sentries@.last()@).drop_last() =~= pre);
                assert(strg_views(sentries@) == strg_entries_of(avs.take(j + 1)));
                assert(strg_entries_bytes(strg_views(sentries@), e) == strg_entries_bytes(pre, e)
                    + strg_entry_bytes(sentries@.last()@, e));
            }
        }
        j = j + 1;
    }
    proof {
        assert(avs.take(n as int) =~= avs);
    }
    Ok((sentries, strg_len))
}

/// Builds the metadata index list and table, with the metadata chunk body
/// length; fails when a recorded blob offset overflows its field.
#[verifier::loop_isolation(false)]
#[verifier::rlimit(50)]
fn build_meta_table(assets: &Vec<Asset>, e: Endian) -> (r: Result<
    (Vec<usize>, Vec<MetadataTableEntry>, u128),
    PackError,
>)
    requires
        assets@.len() <= u32::MAX,
    ensures
        match r {
            Ok(t) => {
                &&& midx_pairs(asset_views(assets@), t.0@) == meta_pairs_of(asset_views(assets@))
                &&& forall|i: int|
                    0 <= i < t.0@.len() ==> (#[trigger] t.0@[i]) < assets@.len()
                        && asset_views(assets@)[t.0@[i] as int].meta is Some
                &&& t.1@ == meta_entries_of(asset_views(assets@))
                &&& t.1@.len() <= assets@.len()
                &&& t.2 == meta_seg(asset_views(assets@), e).len()
                &&& t.2 <= 4 + 0x1_0000_0000_0000_0014u128 * (assets@.len() as u128)
                &&& forall|i: int|
                    0 <= i < meta_pairs_of(asset_views(assets@)).len() ==> 4 + 20 * meta_pairs_of(
                        asset_views(assets@),
                    ).len() + (#[trigger] cat_blobs(
                        meta_pairs_of(asset_views(assets@)).take(i),
                    )).len() <= u32::MAX
            },
            Err(er) => er == PackError::CapacityOverflow && !write_ok(asset_views(assets@), e),
        },
{
    let ghost avs = asset_views(assets@);
    let n = assets.len();
    let mut midx: Vec<usize> = Vec::new();
    proof {
        assert(avs.take(0) =~= Seq::<AssetV>::empty());
        assert(midx_pairs(avs, midx@) =~~= meta_pairs_of(avs.take(0)));
    }
    let mut j: usize = 0;
    while j < n
        invariant
            j <= n == assets@.len(),
            avs == asset_views(assets@),
            midx_pairs(avs, midx@) == meta_pairs_of(avs.take(j as int)),
            midx@.len() <= j,
            forall|t: int|
                0 <= t < midx@.len() ==> (#[trigger] midx@[t]) < j && avs[midx@[t] as int].meta
                    is Some,
        decreases n - j,
    {
        proof {
            assert(avs.take(j + 1).drop_last() =~= avs.take(j as int));
            assert(avs.take(j + 1).last() == avs[j as int]);
        }
        if assets[j].meta.is_some() {
            let ghost pre = midx_pairs(avs, midx@);
            midx.push(j);
            proof {
                assert(midx_pairs(avs, midx@) =~~= pre.push(
                    (avs[j as int].id, avs[j as int].meta.unwrap()),
                ));
            }
        }
        j = j + 1;
    }
    proof {
        assert(avs.take(n as int) =~= avs);
    }
    let m = midx.len();
    proof {
        assert(meta_pairs_of(avs).len() == m);
    }
    let mtable_len: u64 = 4 + 20 * (m as u64);
    let mut mentries: Vec<MetadataTableEntry> = Vec::new();
    let mut macc: u128 = mtable_len as u128;
    proof {
        assert(meta_pairs_of(avs).take(0) =~= Seq::<(u128, Seq<u8>)>::empty());
    }
    let mut t: usize = 0;
    while t < m
        invariant
            t <= m == midx@.len(),
            avs == asset_views(assets@),
            midx_pairs(avs, midx@) == meta_pairs_of(avs),
            meta_pairs_of(avs).len() == m,
            forall|q: int|
                0 <= q < midx@.len() ==> (#[trigger] midx@[q]) < assets@.len() && avs[midx@[
                    q
                ] as int].meta is Some,
            mentries@.len() == t,
            forall|q: int| 0 <= q < t ==> mentries@[q] == meta_entries_of(avs)[q],
            macc == mtable_len + cat_blobs(meta_pairs_of(avs).take(t as int)).len(),
            macc <= mtable_len as u128 + 0x1_0000_0000_0000_0000u128 * (t as u128),
            forall|q: int|
                0 <= q < t ==> 4 + 20 * meta_pairs_of(avs).len() + (#[trigger] cat_blobs(
                    meta_pairs_of(avs).take(q),
                )).len() <= u32::MAX,
        decreases m - t,
    {
        let ai = midx[t];
        let blob_len: usize = if let Some(b) = &assets[ai].meta {
            b.len()
        } else {
            0
        };
        proof {
            assert(blob_len == avs[ai as int].meta.unwrap().len());
            assert(meta_pairs_of(avs)[t as int] == (avs[ai as int].id, avs[
                ai as int
            ].meta.unwrap()));
        }
        if macc > (u32::MAX as u128) {
            proof {
                assert(!write_ok(avs, e));
            }
            return Err(PackError::CapacityOverflow);
        }
        mentries.push(MetadataTableEntry { asset_id: assets[ai].id, offset: macc as u32 });
        macc = macc + (blob_len as u128);
        proof {
            let pairs = meta_pairs_of(avs);
            assert(pairs.take(t + 1).drop_last() =~= pairs.take(t as int));
            assert(pairs.take(t + 1).last() == pairs[t as int]);
            assert(cat_blobs(pairs.take(t + 1)) == cat_blobs(pairs.take(t as int)) + pairs[
                t as int
            ].1);
            assert(mentries@.last() == meta_entries_of(avs)[t as int]);
        }
        t = t + 1;
    }
    proof {
        assert(meta_pairs_of(avs).take(m as int) =~= meta_pairs_of(avs));
        assert(mentries@ =~= meta_entries_of(avs));
    }
    Ok((midx, mentries, macc))
}


/// Computes the payload order, the final directory, and the stream
/// lengths; fails when the stream cannot fit in memory.
#[verifier::loop_isolation(false)]
#[verifier::rlimit(100)]
fn plan_layout(assets: &Vec<Asset>, e: Endian, strg_len: u128, meta_body_len: u128) -> (r: Result<
    (Vec<(u64, usize)>, Vec<AssetDirectoryEntry>, u128, u128),
    PackError,
>)
    requires
        assets@.len() <= u32::MAX,
        strg_len == strg_seg(asset_views(assets@), e).len(),
        strg_len <= 4 + 0x1_0000_0018u128 * (assets@.len() as u128),
        meta_body_len == meta_seg(asset_views(assets@), e).len(),
        meta_body_len <= 4 + 0x1_0000_0000_0000_0014u128 * (assets@.len() as u128),
    ensures
        match r {
            Ok(t) => {
                &&& pair_views(t.0@) == write_order(asset_views(assets@))
                &&& forall|q: int|
                    0 <= q < t.0@.len() ==> (#[trigger] t.0@[q]).1 < assets@.len()
                &&& t.1@ == dir_entries_of(asset_views(assets@), e)
                &&& t.1@.len() == assets@.len()
                &&& t.2 == pre_pad_len(asset_views(assets@), e)
                &&& t.3 == write_pad(asset_views(assets@), e)
                &&& t.2 + t.3 <= usize::MAX
            },
            Err(er) => er == PackError::CapacityOverflow && !write_ok(asset_views(assets@), e),
        },
{
    let ghost avs = asset_views(assets@);
    let n = assets.len();
        let adir_len: u64 = 4 + 52 * (n as u64);
        let toc128: u128 = 72 + (adir_len as u128) + meta_body_len + strg_len;
        proof {
            assert(toc128 == toc_len(avs, e));
        }
        // Payload order and total length.
        let mut pairs: Vec<(u64, usize)> = Vec::new();
        proof {
            assert(pair_views(pairs@) =~= offset_pairs(avs).take(0));
        }
        let mut i: usize = 0;
        while i < n
            invariant
                i <= n == avs.len(),
                avs == asset_views(assets@),
                pair_views(pairs@) == offset_pairs(avs).take(i as int),
                pairs@.len() == i,
                forall|t: int| 0 <= t < pairs@.len() ==> (#[trigger] pairs@[t]).1 < n,
            decreases n - i,
        {
            pairs.push((assets[i].info.orig_offset, i));
            proof {
                assert(pair_views(pairs@) =~= offset_pairs(avs).take(i + 1));
            }
            i = i + 1;
        }
        proof {
            assert(offset_pairs(avs).take(n as int) =~= offset_pairs(avs));
        }
        let sp = sort_offset_pairs(&pairs, Ghost(n as int));
        let ghost ordv = pair_views(sp@);
        proof {
            assert(ordv == write_order(avs));
        }
        let mut ptotal: u128 = 0;
        proof {
            assert(ordv.take(0) =~= Seq::<(u64, int)>::empty());
        }
        let mut k: usize = 0;
        while k < sp.len()
            invariant
                k <= sp@.len(),
                ordv == pair_views(sp@),
                forall|t: int| 0 <= t < sp@.len() ==> (#[trigger] sp@[t]).1 < n,
                sp@.len() == n,
                ptotal == payload_cat(avs, ordv.take(k as int)).len(),
                ptotal <= 0x1_0000_0000_0000_0000u128 * (k as u128),
            decreases sp@.len() - k,
        {
            let ai = sp[k].1;
            let dl = assets[ai].data.len();
            ptotal = ptotal + (dl as u128);
            proof {
                assert(ordv.take(k + 1).drop_last() =~= ordv.take(k as int));
                assert(ordv.take(k + 1).last() == ordv[k as int]);
                assert(payload_cat(avs, ordv.take(k + 1)) == payload_cat(avs, ordv.take(k as int))
                    + avs[ordv[k as int].1].data);
            }
            k = k + 1;
        }
        proof {
            assert(ordv.take(sp@.len() as int) =~= ordv);
            assert(ptotal == payload_seg(avs).len());
        }
        let total128: u128 = 64 + toc128 + ptotal;
        let pad128: u128 = (16 - (total128 % 16)) % 16;
        proof {
            assert(total128 == pre_pad_len(avs, e));
            assert(pad128 == write_pad(avs, e));
        }
        if total128 + pad128 > (usize::MAX as u128) {
            proof {
                assert(!write_ok(avs, e));
            }
            return Err(PackError::CapacityOverflow);
        }
        // Directory offsets: walk the payloads in emission order.
        let start64: u64 = (64 + toc128) as u64;
        let mut offsets: Vec<u64> = Vec::new();
        let mut i: usize = 0;
        while i < n
            invariant
                i <= n,
                offsets@ =~= zero_u64s(i as int),
            decreases n - i,
        {
            offsets.push(0u64);
            proof {
                assert(offsets@ =~= zero_u64s(i + 1));
            }
            i = i + 1;
        }
        let mut pos64: u64 = start64;
        let mut k: usize = 0;
        while k < sp.len()
            invariant
                k <= sp@.len(),
                ordv == pair_views(sp@),
                forall|t: int| 0 <= t < sp@.len() ==> (#[trigger] sp@[t]).1 < n,
                offsets@ == offsets_after(avs, ordv, start64 as int, k as int, zero_u64s(n as int)),
                offsets@.len() == n,
                pos64 == start64 + payload_cat(avs, ordv.take(k as int)).len(),
            decreases sp@.len() - k,
        {
            let ai = sp[k].1;
            proof {
                lemma_payload_prefix_len(avs, ordv, k + 1);
                assert(ordv.take(k + 1).drop_last() =~= ordv.take(k as int));
                assert(ordv.take(k + 1).last() == ordv[k as int]);
                assert(payload_cat(avs, ordv.take(k + 1)) == payload_cat(avs, ordv.take(k as int))
                    + avs[ordv[k as int].1].data);
            }
            offsets[ai] = pos64;
            pos64 = pos64 + (assets[ai].data.len() as u64);
            k = k + 1;
        }
        proof {
            assert(offsets@ == offsets_final(avs, e));
        }
        // The final directory.
        let mut dents: Vec<AssetDirectoryEntry> = Vec::new();
        let mut i: usize = 0;
        while i < n
            invariant
                i <= n == avs.len(),
                avs == asset_views(assets@),
                offsets@ == offsets_final(avs, e),
                offsets@.len() == n,
                dents@.len() == i,
                forall|t: int| 0 <= t < i ==> dents@[t] == dir_entries_of(avs, e)[t],
            decreases n - i,
        {
            let a = &assets[i];
            let dl = a.data.len() as u64;
            dents.push(
                AssetDirectoryEntry {
                    asset_type: a.kind,
                    asset_id: a.id,
                    version: a.version,
                    other_version: a.other_version,
                    offset: offsets[i],
                    decompressed_size: dl,
                    size: dl,
                },
            );
            i = i + 1;
        }
        proof {
            assert(dents@ =~= dir_entries_of(avs, e));
        }
    Ok((sp, dents, total128, pad128))
}

/// Emits everything before the payload section.
#[verifier::loop_isolation(false)]
#[verifier::rlimit(100)]
#[verifier::spinoff_prover]
fn emit_toc(
    assets: &Vec<Asset>,
    e: Endian,
    dents: Vec<AssetDirectoryEntry>,
    mentries: Vec<MetadataTableEntry>,
    sentries: Vec<StringTableEntry>,
    midx: &Vec<usize>,
    adir_len: u64,
    toc128: u128,
    meta_body_len: u128,
    strg_len: u128,
    total128: u128,
) -> (out: Vec<u8>)
    requires
        assets@.len() <= u32::MAX,
        dents@ == dir_entries_of(asset_views(assets@), e),
        mentries@ == meta_entries_of(asset_views(assets@)),
        mentries@.len() <= assets@.len(),
        strg_views(sentries@) == strg_entries_of(asset_views(assets@)),
        sentries@.len() <= assets@.len(),
        forall|i: int| 0 <= i < sentries@.len() ==> (#[trigger] sentries@[i]@.name.len())
            <= u32::MAX,
        midx_pairs(asset_views(assets@), midx@) == meta_pairs_of(asset_views(assets@)),
        meta_pairs_of(asset_views(assets@)).len() == midx@.len(),
        forall|q: int|
            0 <= q < midx@.len() ==> (#[trigger] midx@[q]) < assets@.len() && asset_views(
                assets@,
            )[midx@[q] as int].meta is Some,
        adir_len == 4 + 52 * (assets@.len() as int),
        toc128 == toc_len(asset_views(assets@), e),
        meta_body_len == meta_seg(asset_views(assets@), e).len(),
        strg_len == strg_seg(asset_views(assets@), e).len(),
        total128 == pre_pad_len(asset_views(assets@), e),
        total128 <= usize::MAX,
    ensures
        out@ == toc_stream(asset_views(assets@), e),
{
    let ghost avs = asset_views(assets@);
    let n = assets.len();
        let mut out: Vec<u8> = Vec::new();
        push_form_header(
            &mut out,
            FormDescriptor {
                size: (total128 - 32) as u64,
                unk1: 0,
                id: form_pack(),
                version: 1,
                other_version: 1,
            },
            e,
        );
        push_form_header(
            &mut out,
            FormDescriptor {
                size: toc128 as u64,
                unk1: 0,
                id: form_tocc(),
                version: 3,
                other_version: 3,
            },
            e,
        );
        push_chunk_header(
            &mut out,
            ChunkDescriptor { id: chunk_adir(), size: adir_len, unk: 1, skip: 0 },
            e,
        );
        let adir = AssetDirectory { entries: dents };
        push_adir_table(&mut out, &adir, e);
        push_chunk_header(
            &mut out,
            ChunkDescriptor { id: chunk_meta(), size: meta_body_len as u64, unk: 1, skip: 0 },
            e,
        );
        let mtable = MetadataTable { entries: mentries };
        push_meta_table(&mut out, &mtable, e);
        let ghost blob_base = out@;
        let mut t: usize = 0;
        while t < midx.len()
            invariant
                t <= midx@.len(),
                midx_pairs(avs, midx@) == meta_pairs_of(avs),
                meta_pairs_of(avs).len() == midx@.len(),
                forall|q: int|
                    0 <= q < midx@.len() ==> (#[trigger] midx@[q]) < n && avs[midx@[q] as int].meta
                        is Some,
                out@ == blob_base + cat_blobs(meta_pairs_of(avs).take(t as int)),
            decreases midx@.len() - t,
        {
            let ai = midx[t];
            proof {
                let mps = meta_pairs_of(avs);
                assert(mps.take(t + 1).drop_last() =~= mps.take(t as int));
                assert(mps.take(t + 1).last() == mps[t as int]);
            }
            if let Some(b) = &assets[ai].meta {
                push_slice(&mut out, b);
            } else {
                proof {
                    assert(false);
                }
            }
            t = t + 1;
        }
        proof {
            assert(meta_pairs_of(avs).take(midx@.len() as int) =~= meta_pairs_of(avs));
        }
        push_chunk_header(
            &mut out,
            ChunkDescriptor { id: chunk_strg(), size: strg_len as u64, unk: 1, skip: 0 },
            e,
        );
        let stable = StringTable { entries: sentries };
        push_strg_table(&mut out, &stable, e);
        proof {
        assert(out@ =~= toc_stream(avs, e));
    }
    out
}

/// Emits the stream: the table of contents, the payloads in emission
/// order, and the closing padding.
#[verifier::loop_isolation(false)]
#[verifier::rlimit(100)]
#[verifier::spinoff_prover]
fn emit_stream(
    assets: &Vec<Asset>,
    e: Endian,
    sp: &Vec<(u64, usize)>,
    dents: Vec<AssetDirectoryEntry>,
    mentries: Vec<MetadataTableEntry>,
    sentries: Vec<StringTableEntry>,
    midx: &Vec<usize>,
    adir_len: u64,
    toc128: u128,
    meta_body_len: u128,
    strg_len: u128,
    total128: u128,
    pad128: u128,
) -> (out: Vec<u8>)
    requires
        assets@.len() <= u32::MAX,
        pair_views(sp@) == write_order(asset_views(assets@)),
        forall|q: int| 0 <= q < sp@.len() ==> (#[trigger] sp@[q]).1 < assets@.len(),
        dents@ == dir_entries_of(asset_views(assets@), e),
        mentries@ == meta_entries_of(asset_views(assets@)),
        mentries@.len() <= assets@.len(),
        strg_views(sentries@) == strg_entries_of(asset_views(assets@)),
        sentries@.len() <= assets@.len(),
        forall|i: int| 0 <= i < sentries@.len() ==> (#[trigger] sentries@[i]@.name.len())
            <= u32::MAX,
        midx_pairs(asset_views(assets@), midx@) == meta_pairs_of(asset_views(assets@)),
        meta_pairs_of(asset_views(assets@)).len() == midx@.len(),
        forall|q: int|
            0 <= q < midx@.len() ==> (#[trigger] midx@[q]) < assets@.len() && asset_views(
                assets@,
            )[midx@[q] as int].meta is Some,
        adir_len == 4 + 52 * (assets@.len() as int),
        toc128 == toc_len(asset_views(assets@), e),
        meta_body_len == meta_seg(asset_views(assets@), e).len(),
        strg_len == strg_seg(asset_views(assets@), e).len(),
        total128 == pre_pad_len(asset_views(assets@), e),
        pad128 == write_pad(asset_views(assets@), e),
        total128 + pad128 <= usize::MAX,
    ensures
        out@ == spec_write_bytes(asset_views(assets@), e),
        out@.len() == total128 + pad128,
{
    let ghost avs = asset_views(assets@);
    let ghost ordv = pair_views(sp@);
    let n = assets.len();
    let mut out = emit_toc(
        assets,
        e,
        dents,
        mentries,
        sentries,
        midx,
        adir_len,
        toc128,
        meta_body_len,
        strg_len,
        total128,
    );
    let ghost pay_base = out@;
        let mut k: usize = 0;
        while k < sp.len()
            invariant
                k <= sp@.len(),
                ordv == pair_views(sp@),
                forall|q: int| 0 <= q < sp@.len() ==> (#[trigger] sp@[q]).1 < n,
                out@ == pay_base + payload_cat(avs, ordv.take(k as int)),
            decreases sp@.len() - k,
        {
            let ai = sp[k].1;
            proof {
                assert(ordv.take(k + 1).drop_last() =~= ordv.take(k as int));
                assert(ordv.take(k + 1).last() == ordv[k as int]);
            }
            push_slice(&mut out, &assets[ai].data);
            k = k + 1;
        }
        proof {
            assert(ordv.take(sp@.len() as int) =~= ordv);
        }
        push_zeros(&mut out, pad128 as usize);
    proof {
        assert(out@ =~= spec_write_bytes(avs, e));
        assert(out@.len() == total128 + pad128);
    }
    out
}

impl Package {
    /// Serialises the asset list: the directory, metadata and name tables
    /// in list order inside the table-of-contents form, every payload
    /// stored uncompressed in ascending original-offset order, directory
    /// offsets set to the payload positions, and the stream zero-padded
    /// to a 16-byte boundary.  The result is exactly what `spec_write`
    /// gives on the package's value.
    #[verifier::loop_isolation(false)]
    #[verifier::rlimit(100)]
    pub fn write(&self, e: Endian) -> (r: Result<Vec<u8>, PackError>)
        ensures
            match r {
                Ok(out) => spec_write(self@, e) == Ok::<Seq<u8>, PackError>(out@) && out@.len()
                    % 16 == 0,
                Err(er) => spec_write(self@, e) == Err::<Seq<u8>, PackError>(er),
            },
    {
        let ghost avs = self@;
        let n = self.assets.len();
        if (n as u64) > (u32::MAX as u64) {
            proof {
                assert(!write_ok(avs, e));
            }
            return Err(PackError::CapacityOverflow);
        }
        let (sentries, strg_len) = match build_strg_table(&self.assets, e) {
            Ok(t) => t,
            Err(er) => {
                return Err(er);
            },
        };
        let (midx, mentries, meta_body_len) = match build_meta_table(&self.assets, e) {
            Ok(t) => t,
            Err(er) => {
                return Err(er);
            },
        };
        let m = mentries.len();
        let (sp, dents, total128, pad128) = match plan_layout(
            &self.assets,
            e,
            strg_len,
            meta_body_len,
        ) {
            Ok(t) => t,
            Err(er) => {
                return Err(er);
            },
        };
        let ghost ordv = pair_views(sp@);
        let adir_len: u64 = 4 + 52 * (n as u64);
        let toc128: u128 = 72 + (adir_len as u128) + meta_body_len + strg_len;
        proof {
            assert(toc128 == toc_len(avs, e));
            assert(write_ok(avs, e));
        }
        let out = emit_stream(
            &self.assets,
            e,
            &sp,
            dents,
            mentries,
            sentries,
            &midx,
            adir_len,
            toc128,
            meta_body_len,
            strg_len,
            total128,
            pad128,
        );
        proof {
            assert(out@.len() == total128 + pad128);
            assert((total128 + pad128) % 16 == 0);
        }
        Ok(out)
    }
}


/// Every asset assembled from directory entries `idx..` records its own
/// directory position and provenance, its payload has the entry's
/// decompressed size, an uncompressed payload is the entry's exact byte
/// range of the buffer, and the payload's embedded form header agrees
/// with the entry.
proof fn lemma_assemble_props(
    data: Seq<u8>,
    dir: Seq<AssetDirectoryEntry>,
    idx: int,
    metas: Seq<(u128, Seq<u8>)>,
    names: Seq<(u128, Seq<char>)>,
)
    requires
        0 <= idx <= dir.len(),
        spec_assemble(data, dir, idx, metas, names) is Ok,
    ensures
        ({
            let avs = spec_assemble(data, dir, idx, metas, names).unwrap();
            &&& avs.len() == dir.len() - idx
            &&& forall|k: int|
                0 <= k < avs.len() ==> {
                    let en = dir[idx + k];
                    let a = #[trigger] avs[k];
                    &&& a.info.entry_idx == ((idx + k) as u32)
                    &&& a.id == en.asset_id
                    &&& a.kind == en.asset_type
                    &&& a.version == en.version
                    &&& a.other_version == en.other_version
                    &&& a.info.orig_offset == en.offset
                    &&& a.data.len() == en.decompressed_size
                    &&& (en.size == en.decompressed_size ==> a.data == data.subrange(
                        en.offset as int,
                        en.offset + en.size,
                    ) && a.info.compression_mode == 0)
                    &&& (en.size != en.decompressed_size ==> 1 <= a.info.compression_mode <= 3)
                    &&& (spec_form_parse(a.data, 0, a.data.len() as int, Endian::Little) matches
                        Some(t) && t.0.id == a.kind && t.0.version == a.version
                        && t.0.other_version == a.other_version && t.0.size + 32 == a.data.len())
                }
        }),
    decreases dir.len() - idx,
{
    if idx < dir.len() {
        let en = dir[idx];
        let av = spec_asset(data, en, idx, metas, names).unwrap();
        if en.size != en.decompressed_size {
            crate::lzss::lemma_lzss_run_len(
                dec_u32(Endian::Little, data, en.offset as int),
                data.subrange(en.offset + 4, en.offset + en.size),
                Seq::empty(),
                en.decompressed_size as int,
            );
        }
        lemma_assemble_props(data, dir, idx + 1, metas, names);
        let rest = spec_assemble(data, dir, idx + 1, metas, names).unwrap();
        let avs = spec_assemble(data, dir, idx, metas, names).unwrap();
        assert(avs == seq![av] + rest);
        assert forall|k: int| 0 < k < avs.len() implies avs[k] == rest[k - 1] by {}
        assert(avs[0] == av);
    }
}

/// Order preservation: a read package lists its assets in directory
/// order, and each asset's `entry_idx` is its position in that order.
pub proof fn lemma_read_order(data: Seq<u8>, e: Endian)
    requires
        spec_read(data, e) is Ok,
    ensures
        forall|k: int|
            0 <= k < spec_read(data, e).unwrap().len() ==> (#[trigger] spec_read(
                data,
                e,
            ).unwrap()[k]).info.entry_idx == k as u32,
{
    let dir = spec_toc(data, e).unwrap().dir.unwrap();
    lemma_assemble_props(data, dir, 0, spec_toc(data, e).unwrap().metas, spec_toc(data, e).unwrap().names);
}

/// Cross-validation: every asset of a read package embeds a form header
/// that agrees with the asset on tag, version, second version, and size
/// plus the fixed header overhead; a buffer mutated in any one of those
/// fields cannot read back as the same package.
pub proof fn lemma_read_cross_validated(data: Seq<u8>, e: Endian)
    requires
        spec_read(data, e) is Ok,
    ensures
        forall|k: int|
            0 <= k < spec_read(data, e).unwrap().len() ==> {
                let a = #[trigger] spec_read(data, e).unwrap()[k];
                spec_form_parse(a.data, 0, a.data.len() as int, Endian::Little) matches Some(t)
                    && t.0.id == a.kind && t.0.version == a.version && t.0.other_version
                    == a.other_version && t.0.size + 32 == a.data.len()
            },
{
    let dir = spec_toc(data, e).unwrap().dir.unwrap();
    lemma_assemble_props(data, dir, 0, spec_toc(data, e).unwrap().metas, spec_toc(data, e).unwrap().names);
}

/// Borrowed versus owned payloads: an asset whose directory entry stores
/// equal sizes carries exactly the entry's byte range of the source
/// buffer (and compression mode 0); a compressed one carries a fresh
/// buffer of exactly the decompressed size.
pub proof fn lemma_read_zero_copy(data: Seq<u8>, e: Endian)
    requires
        spec_read(data, e) is Ok,
    ensures
        ({
            let avs = spec_read(data, e).unwrap();
            let dir = spec_toc(data, e).unwrap().dir.unwrap();
            &&& avs.len() == dir.len()
            &&& forall|k: int|
                0 <= k < dir.len() ==> {
                    let en = #[trigger] dir[k];
                    let a = avs[k];
                    &&& a.data.len() == en.decompressed_size
                    &&& (en.size == en.decompressed_size ==> a.data == data.subrange(
                        en.offset as int,
                        en.offset + en.size,
                    ) && a.info.compression_mode == 0)
                    &&& (en.size != en.decompressed_size ==> 1 <= a.info.compression_mode <= 3)
                }
        }),
{
    let dir = spec_toc(data, e).unwrap().dir.unwrap();
    lemma_assemble_props(data, dir, 0, spec_toc(data, e).unwrap().metas, spec_toc(data, e).unwrap().names);
}

/// No recompression on write: every directory entry written stores its
/// payload uncompressed — stored size and decompressed size both equal
/// the asset's payload length.
pub proof fn lemma_write_no_recompress(assets: Seq<AssetV>, e: Endian)
    ensures
        forall|i: int|
            0 <= i < assets.len() ==> {
                let en = #[trigger] dir_entries_of(assets, e)[i];
                en.size == en.decompressed_size && en.decompressed_size == assets[i].data.len()
                    as u64
            },
{
}

/// The payload section of a written stream is exactly the assets' payload
/// bytes, unchanged, in emission order.
pub proof fn lemma_write_payload_section(assets: Seq<AssetV>, e: Endian)
    ensures
        spec_write_bytes(assets, e).subrange(
            64 + toc_len(assets, e),
            64 + toc_len(assets, e) + payload_seg(assets).len() as int,
        ) == payload_seg(assets),
{
    assert(toc_stream(assets, e).len() == 64 + toc_len(assets, e));
    assert(spec_write_bytes(assets, e).subrange(
        64 + toc_len(assets, e),
        64 + toc_len(assets, e) + payload_seg(assets).len() as int,
    ) =~= payload_seg(assets));
}

/// The emission order is strictly ascending: original offset first, list
/// position breaking ties.
pub proof fn lemma_insert_pair_order(s: Seq<(u64, int)>, x: (u64, int))
    requires
        forall|a: int, b: int| 0 <= a < b < s.len() ==> key_lt(#[trigger] s[a], #[trigger] s[b]),
        forall|t: int| 0 <= t < s.len() ==> #[trigger] s[t] != x,
    ensures
        forall|a: int, b: int|
            0 <= a < b < insert_pair(s, x).len() ==> key_lt(
                #[trigger] insert_pair(s, x)[a],
                #[trigger] insert_pair(s, x)[b],
            ),
        insert_pair(s, x).len() == s.len() + 1,
        forall|t: int|
            0 <= t < insert_pair(s, x).len() ==> (#[trigger] insert_pair(s, x)[t] == x || exists|
                q: int,
            | 0 <= q < s.len() && s[q] == insert_pair(s, x)[t]),
    decreases s.len(),
{
    if s.len() == 0 {
    } else if key_lt(x, s[0]) {
    } else {
        assert(forall|a: int, b: int|
            0 <= a < b < s.skip(1).len() ==> key_lt(#[trigger] s.skip(1)[a], #[trigger] s.skip(1)[b]));
        lemma_insert_pair_order(s.skip(1), x);
        assert(!key_lt(x, s[0]) && x != s[0] ==> key_lt(s[0], x));
    }
}

} // verus!
