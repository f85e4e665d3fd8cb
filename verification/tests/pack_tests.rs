use assetpack::bytes::{push_u32, Endian};
use assetpack::fourcc::FourCC;
use assetpack::framing::{push_chunk_header, push_form_header, ChunkDescriptor, FormDescriptor};
use assetpack::pack::{Asset, AssetInfo, PackError, Package};
use assetpack::tables::{push_adir_entry, AssetDirectoryEntry};

fn make_payload(kind: FourCC, version: u32, other_version: u32, body: &[u8]) -> Vec<u8> {
    let mut p: Vec<u8> = Vec::new();
    push_form_header(
        &mut p,
        FormDescriptor {
            size: body.len() as u64,
            unk1: 0,
            id: kind,
            version,
            other_version,
        },
        Endian::Little,
    );
    p.extend_from_slice(body);
    p
}

fn make_asset(
    id: u128,
    kind: FourCC,
    name: Option<&str>,
    meta: Option<&[u8]>,
    body: &[u8],
    orig_offset: u64,
) -> Asset {
    Asset {
        id,
        kind,
        name: name.map(|s| s.to_string()),
        data: make_payload(kind, 1, 2, body),
        meta: meta.map(|m| m.to_vec()),
        info: AssetInfo {
            id,
            compression_mode: 0,
            entry_idx: 0,
            orig_offset,
        },
        version: 1,
        other_version: 2,
    }
}

#[test]
fn round_trip_uncompressed_single() {
    let kind = FourCC(0x54, 0x58, 0x54, 0x52);
    let a = make_asset(7, kind, None, None, b"hello world!", 0);
    let pkg = Package { assets: vec![a] };
    let out = pkg.write(Endian::Little).unwrap();
    assert_eq!(out.len() % 16, 0);
    let back = Package::read(&out, Endian::Little).unwrap();
    assert_eq!(back.assets.len(), 1);
    let b = &back.assets[0];
    assert_eq!(b.id, 7);
    assert_eq!(b.kind, kind);
    assert!(b.name.is_none());
    assert!(b.meta.is_none());
    assert_eq!(b.data, make_payload(kind, 1, 2, b"hello world!"));
    assert_eq!(b.info.compression_mode, 0);
    assert_eq!(b.info.entry_idx, 0);
}

#[test]
fn round_trip_names_and_metadata() {
    let k1 = FourCC(0x41, 0x41, 0x41, 0x41);
    let k2 = FourCC(0x42, 0x42, 0x42, 0x42);
    let a1 = make_asset(1, k1, Some("first"), Some(b"m-one"), b"body one", 0);
    let a2 = make_asset(2, k2, Some("second"), Some(b"metadata-two"), b"body two!", 100);
    let pkg = Package { assets: vec![a1, a2] };
    let out = pkg.write(Endian::Little).unwrap();
    assert_eq!(out.len() % 16, 0);
    let back = Package::read(&out, Endian::Little).unwrap();
    assert_eq!(back.assets.len(), 2);
    assert_eq!(back.assets[0].name.as_deref(), Some("first"));
    assert_eq!(back.assets[1].name.as_deref(), Some("second"));
    assert_eq!(back.assets[0].meta.as_deref(), Some(b"m-one".as_slice()));
    assert_eq!(
        back.assets[1].meta.as_deref(),
        Some(b"metadata-two".as_slice())
    );
}

#[test]
fn round_trip_big_endian() {
    let kind = FourCC(0x54, 0x58, 0x54, 0x52);
    let a = make_asset(99, kind, Some("be"), None, b"big endian body", 0);
    let pkg = Package { assets: vec![a] };
    let out = pkg.write(Endian::Big).unwrap();
    let back = Package::read(&out, Endian::Big).unwrap();
    assert_eq!(back.assets.len(), 1);
    assert_eq!(back.assets[0].name.as_deref(), Some("be"));
    // The same bytes under the wrong byte order must not parse cleanly.
    assert!(Package::read(&out, Endian::Little).is_err());
}

#[test]
fn order_preserved_and_indexed() {
    let kind = FourCC(0x4F, 0x52, 0x44, 0x52);
    let mut assets = Vec::new();
    for i in 0..5u32 {
        assets.push(make_asset(
            1000 + i as u128,
            kind,
            None,
            None,
            format!("body number {i}").as_bytes(),
            (1000 - 10 * i) as u64,
        ));
    }
    let pkg = Package { assets };
    let out = pkg.write(Endian::Little).unwrap();
    let back = Package::read(&out, Endian::Little).unwrap();
    assert_eq!(back.assets.len(), 5);
    for (i, a) in back.assets.iter().enumerate() {
        assert_eq!(a.info.entry_idx as usize, i);
        assert_eq!(a.id, 1000 + i as u128);
    }
}

#[test]
fn payloads_follow_original_offsets() {
    // Logical order disagrees with the original on-disk order: the asset
    // listed first sat later in its source file.
    let kind = FourCC(0x4C, 0x41, 0x59, 0x4F);
    let a1 = make_asset(1, kind, None, None, b"was second on disk", 900);
    let a2 = make_asset(2, kind, None, None, b"was first on disk", 100);
    let pkg = Package { assets: vec![a1, a2] };
    let out = pkg.write(Endian::Little).unwrap();
    let back = Package::read(&out, Endian::Little).unwrap();
    // Logical order is kept ...
    assert_eq!(back.assets[0].id, 1);
    assert_eq!(back.assets[1].id, 2);
    // ... but asset 2's payload lies earlier in the new file.
    assert!(back.assets[1].info.orig_offset < back.assets[0].info.orig_offset);
}

#[test]
fn alignment_always_sixteen() {
    let kind = FourCC(0x50, 0x41, 0x44, 0x44);
    for len in 0..40usize {
        let body: Vec<u8> = (0..len).map(|i| i as u8).collect();
        let a = make_asset(5, kind, None, None, &body, 0);
        let pkg = Package { assets: vec![a] };
        let out = pkg.write(Endian::Little).unwrap();
        assert_eq!(out.len() % 16, 0, "body length {len}");
    }
}

#[test]
fn cross_validation_rejects_each_mutated_field() {
    let kind = FourCC(0x43, 0x52, 0x4F, 0x53);
    let a = make_asset(3, kind, None, None, b"validated body", 0);
    let pkg = Package { assets: vec![a] };
    let out = pkg.write(Endian::Little).unwrap();
    let back = Package::read(&out, Endian::Little).unwrap();
    let off = back.assets[0].info.orig_offset as usize;
    // Embedded form header layout: size at +4, tag at +20, version at +24,
    // second version at +28.  The size shrinks by one so that the header
    // still parses and only the cross-check disagrees.
    for field_off in [4usize, 20, 24, 28] {
        let mut bad = out.clone();
        if field_off == 4 {
            bad[off + field_off] -= 1;
        } else {
            bad[off + field_off] ^= 0x01;
        }
        let err = Package::read(&bad, Endian::Little).unwrap_err();
        assert_eq!(err, PackError::CrossValidation, "field at +{field_off}");
    }
}

fn build_compressed_package(mode: u32) -> Vec<u8> {
    let kind = FourCC(0x43, 0x4D, 0x50, 0x52);
    // Decompressed payload: a 32-byte embedded header and a 10-byte body.
    let payload = make_payload(kind, 1, 2, b"0123456789");
    assert_eq!(payload.len(), 42);
    // One mode-2 literal command covers (20 + 1) * 2 = 42 bytes.
    let mut stream: Vec<u8> = Vec::new();
    push_u32(&mut stream, mode, Endian::Little);
    stream.push(20);
    stream.extend_from_slice(&payload);
    let size = stream.len() as u64; // 47: differs from 42, so compressed
    let mut out: Vec<u8> = Vec::new();
    let toc_len = 24 + 4 + 52;
    push_form_header(
        &mut out,
        FormDescriptor {
            size: 32 + toc_len + size,
            unk1: 0,
            id: FourCC(0x50, 0x41, 0x43, 0x4B),
            version: 1,
            other_version: 1,
        },
        Endian::Little,
    );
    push_form_header(
        &mut out,
        FormDescriptor {
            size: toc_len,
            unk1: 0,
            id: FourCC(0x54, 0x4F, 0x43, 0x43),
            version: 3,
            other_version: 3,
        },
        Endian::Little,
    );
    push_chunk_header(
        &mut out,
        ChunkDescriptor {
            id: FourCC(0x41, 0x44, 0x49, 0x52),
            size: 56,
            unk: 1,
            skip: 0,
        },
        Endian::Little,
    );
    push_u32(&mut out, 1, Endian::Little);
    push_adir_entry(
        &mut out,
        AssetDirectoryEntry {
            asset_type: kind,
            asset_id: 77,
            version: 1,
            other_version: 2,
            offset: (64 + toc_len) as u64,
            decompressed_size: 42,
            size,
        },
        Endian::Little,
    );
    out.extend_from_slice(&stream);
    out
}

#[test]
fn compressed_mode_two_round_trip() {
    let bytes = build_compressed_package(2);
    let pkg = Package::read(&bytes, Endian::Little).unwrap();
    assert_eq!(pkg.assets.len(), 1);
    let a = &pkg.assets[0];
    assert_eq!(a.info.compression_mode, 2);
    assert_eq!(a.data.len(), 42);
    let kind = FourCC(0x43, 0x4D, 0x50, 0x52);
    assert_eq!(a.data, make_payload(kind, 1, 2, b"0123456789"));
    // Writing it back stores the payload uncompressed.
    let pkg2 = Package { assets: pkg.assets };
    let out = pkg2.write(Endian::Little).unwrap();
    let again = Package::read(&out, Endian::Little).unwrap();
    assert_eq!(again.assets[0].info.compression_mode, 0);
    assert_eq!(again.assets[0].data.len(), 42);
    assert_eq!(
        again.assets[0].data,
        make_payload(kind, 1, 2, b"0123456789")
    );
}

#[test]
fn unsupported_compression_mode_rejected() {
    let bytes = build_compressed_package(5);
    let err = Package::read(&bytes, Endian::Little).unwrap_err();
    assert_eq!(err, PackError::UnsupportedCompression(5));
}

#[test]
fn unknown_chunk_rejected() {
    let mut out: Vec<u8> = Vec::new();
    // An outer and inner form holding one chunk tagged "XYZZ".
    push_form_header(
        &mut out,
        FormDescriptor {
            size: 32 + 24,
            unk1: 0,
            id: FourCC(0x50, 0x41, 0x43, 0x4B),
            version: 1,
            other_version: 1,
        },
        Endian::Little,
    );
    push_form_header(
        &mut out,
        FormDescriptor {
            size: 24,
            unk1: 0,
            id: FourCC(0x54, 0x4F, 0x43, 0x43),
            version: 3,
            other_version: 3,
        },
        Endian::Little,
    );
    push_chunk_header(
        &mut out,
        ChunkDescriptor {
            id: FourCC(0x58, 0x59, 0x5A, 0x5A),
            size: 0,
            unk: 1,
            skip: 0,
        },
        Endian::Little,
    );
    let err = Package::read(&out, Endian::Little).unwrap_err();
    assert_eq!(
        err,
        PackError::UnknownSection(FourCC(0x58, 0x59, 0x5A, 0x5A))
    );
}

#[test]
fn missing_directory_rejected() {
    let mut out: Vec<u8> = Vec::new();
    push_form_header(
        &mut out,
        FormDescriptor {
            size: 32,
            unk1: 0,
            id: FourCC(0x50, 0x41, 0x43, 0x4B),
            version: 1,
            other_version: 1,
        },
        Endian::Little,
    );
    push_form_header(
        &mut out,
        FormDescriptor {
            size: 0,
            unk1: 0,
            id: FourCC(0x54, 0x4F, 0x43, 0x43),
            version: 3,
            other_version: 3,
        },
        Endian::Little,
    );
    let err = Package::read(&out, Endian::Little).unwrap_err();
    assert_eq!(err, PackError::MissingDirectory);
}

#[test]
fn wrong_outer_version_rejected() {
    let kind = FourCC(0x56, 0x45, 0x52, 0x53);
    let a = make_asset(4, kind, None, None, b"body", 0);
    let pkg = Package { assets: vec![a] };
    let mut out = pkg.write(Endian::Little).unwrap();
    // The outer form's version field sits at offset 24.
    out[24] = 9;
    let err = Package::read(&out, Endian::Little).unwrap_err();
    assert_eq!(err, PackError::StructuralMismatch);
}

#[test]
fn invalid_name_bytes_rejected() {
    let kind = FourCC(0x4E, 0x41, 0x4D, 0x45);
    let a = make_asset(8, kind, Some("zq"), None, b"named body", 0);
    let pkg = Package { assets: vec![a] };
    let mut out = pkg.write(Endian::Little).unwrap();
    // Replace the two name bytes with an invalid UTF-8 sequence.
    let pos = out
        .windows(2)
        .position(|w| w == b"zq")
        .expect("name bytes present");
    out[pos] = 0xC3;
    out[pos + 1] = 0x28;
    let err = Package::read(&out, Endian::Little).unwrap_err();
    assert_eq!(err, PackError::Encoding);
}

#[test]
fn metadata_span_derivation_round_trip() {
    // Three metadata blobs of different lengths: each is recovered exactly
    // by the next-offset / end-of-body rule.
    let kind = FourCC(0x4D, 0x53, 0x50, 0x4E);
    let blobs: [&[u8]; 3] = [b"a", b"bb-and-more", b""];
    let mut assets = Vec::new();
    for (i, blob) in blobs.iter().enumerate() {
        assets.push(make_asset(
            50 + i as u128,
            kind,
            None,
            Some(blob),
            b"span body",
            (i * 64) as u64,
        ));
    }
    let pkg = Package { assets };
    let out = pkg.write(Endian::Little).unwrap();
    let back = Package::read(&out, Endian::Little).unwrap();
    for (i, blob) in blobs.iter().enumerate() {
        assert_eq!(back.assets[i].meta.as_deref(), Some(*blob));
    }
}
