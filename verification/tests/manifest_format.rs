use std::mem::size_of;

use symgen::util::manifest::{
    build_manifest, build_manifest_payload, build_manifest_with_options, fnv1a64, EmbeddedManifest,
    LookupError, ManifestCompression, ManifestEntry, ManifestError, ManifestHeader, ManifestInput,
    ManifestLookup, ManifestOptions, ManifestSymbol, FLAG_CODE, FLAG_DATA, FLAG_DISPLAY,
    FLAG_DUP_NAME, FLAG_LOCAL, FLAG_MULTI_NAME, MAGIC, VERSION,
};

#[test]
fn test_fnv1a64() {
    assert_eq!(fnv1a64(b""), 0xcbf29ce484222325);
    assert_eq!(fnv1a64(b"a"), 0xaf63dc4c8601ec8c);
    assert_eq!(fnv1a64(b"foobar"), 0x85944171f73967e8);
}

#[test]
fn test_build_manifest() {
    let input = ManifestInput {
        build_id: vec![0xAA; 20],
        symbols: vec![
            // Public + module record for the same symbol: flags merge, LOCAL clears.
            ManifestSymbol { name: "foo".into(), rva: 0x1000, flags: FLAG_CODE },
            ManifestSymbol { name: "foo".into(), rva: 0x1000, flags: FLAG_CODE | FLAG_LOCAL },
            ManifestSymbol { name: "bar".into(), rva: 0x2000, flags: FLAG_DATA },
            // Same name at two RVAs: both kept, flagged DUP_NAME.
            ManifestSymbol { name: "dup".into(), rva: 0x3000, flags: FLAG_CODE | FLAG_LOCAL },
            ManifestSymbol { name: "dup".into(), rva: 0x4000, flags: FLAG_CODE | FLAG_LOCAL },
            // Second name at bar's RVA: both flagged MULTI_NAME.
            ManifestSymbol { name: "bar_alias".into(), rva: 0x2000, flags: FLAG_DATA },
            // Display alias for foo: resolvable, no MULTI_NAME on either entry.
            ManifestSymbol {
                name: "Foo::foo".into(),
                rva: 0x1000,
                flags: FLAG_CODE | FLAG_DISPLAY,
            },
            // Display alias colliding with the real name "bar" elsewhere: dropped.
            ManifestSymbol { name: "bar".into(), rva: 0x5000, flags: FLAG_CODE | FLAG_DISPLAY },
            // Two display aliases at distinct RVAs (overload set): kept, DUP_NAME.
            ManifestSymbol {
                name: "Foo::over".into(),
                rva: 0x6000,
                flags: FLAG_CODE | FLAG_DISPLAY,
            },
            ManifestSymbol {
                name: "Foo::over".into(),
                rva: 0x7000,
                flags: FLAG_CODE | FLAG_DISPLAY,
            },
        ],
    };
    let (data, count) = build_manifest_payload(&input).unwrap();
    assert_eq!(count, 8);

    let strings_off = count * size_of::<ManifestEntry>();
    assert!(strings_off <= data.len());
    let mut entries = Vec::new();
    let mut rest = &data[..strings_off];
    while !rest.is_empty() {
        let (entry, r) = ManifestEntry::read_from_prefix(rest).unwrap();
        entries.push(entry);
        rest = r;
    }
    assert_eq!(entries.len(), 8);
    assert!(entries.is_sorted_by_key(|e| (e.hash, e.name_off, e.rva)));

    let strings = &data[strings_off..];
    let find = |name: &str| -> Vec<&ManifestEntry> {
        entries
            .iter()
            .filter(|e| {
                e.hash == fnv1a64(name.as_bytes())
                    && strings[e.name_off as usize..].starts_with(name.as_bytes())
                    && strings[e.name_off as usize + name.len()] == 0
            })
            .collect()
    };

    let foo = find("foo");
    assert_eq!(foo.len(), 1);
    assert_eq!(foo[0].rva, 0x1000);
    assert_eq!(foo[0].flags, FLAG_CODE);

    let dup = find("dup");
    assert_eq!(dup.len(), 2);
    assert!(dup.iter().all(|e| e.flags == FLAG_CODE | FLAG_LOCAL | FLAG_DUP_NAME));

    let bar = find("bar");
    assert_eq!(bar.len(), 1);
    assert_eq!(bar[0].rva, 0x2000, "display alias must not displace the real 'bar'");
    assert_eq!(bar[0].flags, FLAG_DATA | FLAG_MULTI_NAME);

    // foo's display alias resolves, and doesn't drag MULTI_NAME onto foo.
    let foo_display = find("Foo::foo");
    assert_eq!(foo_display.len(), 1);
    assert_eq!(foo_display[0].rva, 0x1000);
    assert_eq!(foo_display[0].flags, FLAG_CODE | FLAG_DISPLAY);
    assert_eq!(find("foo")[0].flags, FLAG_CODE);

    // Overload set: both display entries kept and marked ambiguous.
    let over = find("Foo::over");
    assert_eq!(over.len(), 2);
    assert!(over.iter().all(|e| e.flags == FLAG_CODE | FLAG_DISPLAY | FLAG_DUP_NAME));
}

#[test]
fn test_build_manifest_v2_zstd() {
    let input = ManifestInput {
        build_id: vec![0xBB; 16],
        symbols: vec![
            ManifestSymbol { name: "_ZN3Foo3barEv".into(), rva: 0x1000, flags: FLAG_CODE },
            ManifestSymbol {
                name: "Foo::bar".into(),
                rva: 0x1000,
                flags: FLAG_CODE | FLAG_DISPLAY,
            },
        ],
    };

    let (data, count) = build_manifest(&input).unwrap();
    assert_eq!(count, 2);

    let (header, compressed) = ManifestHeader::read_from_prefix(&data).unwrap();
    assert_eq!(header.magic, MAGIC);
    assert_eq!(header.version, VERSION);
    assert_eq!(header.compression, ManifestCompression::Zstd.code());
    assert_eq!(header.build_id_len, 16);
    assert_eq!(header.build_id[..16], [0xBB; 16]);
    assert_eq!(header.entry_count, 2);
    assert_eq!(header.compressed_len as usize, compressed.len());

    let payload = zstd::stream::decode_all(compressed).unwrap();
    assert_eq!(header.uncompressed_len as usize, payload.len());
    let strings_off = header.entry_count as usize * size_of::<ManifestEntry>();
    assert!(strings_off <= payload.len());
}

#[test]
fn test_build_manifest_v2_uncompressed() {
    let input = ManifestInput {
        build_id: vec![0xCC; 16],
        symbols: vec![
            ManifestSymbol { name: "foo".into(), rva: 0x1000, flags: FLAG_CODE },
            ManifestSymbol { name: "bar".into(), rva: 0x2000, flags: FLAG_DATA },
        ],
    };

    let (expected_payload, expected_count) = build_manifest_payload(&input).unwrap();
    let (data, count) = build_manifest_with_options(&input, ManifestOptions {
        compression: ManifestCompression::Uncompressed,
    })
    .unwrap();
    assert_eq!(count, expected_count);

    let (header, payload) = ManifestHeader::read_from_prefix(&data).unwrap();
    assert_eq!(header.magic, MAGIC);
    assert_eq!(header.version, VERSION);
    assert_eq!(header.compression, ManifestCompression::Uncompressed.code());
    assert_eq!(header.uncompressed_len as usize, expected_payload.len());
    assert_eq!(header.compressed_len as usize, expected_payload.len());
    assert_eq!(header.entry_count, count as u32);
    assert_eq!(payload, expected_payload.as_slice());
}

#[test]
fn embedded_lookup_matches_complete_names_and_rejects_duplicates() {
    let input = ManifestInput {
        build_id: vec![0xDD; 16],
        symbols: vec![
            ManifestSymbol { name: "foo".into(), rva: 0x1000, flags: FLAG_CODE },
            ManifestSymbol { name: "foobar".into(), rva: 0x2000, flags: FLAG_CODE },
            ManifestSymbol { name: "duplicate".into(), rva: 0x3000, flags: FLAG_CODE },
            ManifestSymbol { name: "duplicate".into(), rva: 0x4000, flags: FLAG_CODE },
        ],
    };
    let (payload, entry_count) = build_manifest_payload(&input).unwrap();
    let manifest = EmbeddedManifest {
        strings_off: entry_count * size_of::<ManifestEntry>(),
        payload,
        entry_count,
        build_uuid: [0xDD; 16],
    };

    assert_eq!(manifest.lookup("foo"), Ok(ManifestLookup { vmaddr: 0x1000, flags: FLAG_CODE }));
    assert_eq!(
        manifest.lookup("foobar"),
        Ok(ManifestLookup { vmaddr: 0x2000, flags: FLAG_CODE })
    );
    assert_eq!(manifest.lookup("fo"), Err(LookupError::NotFound));
    assert_eq!(manifest.lookup("duplicate"), Err(LookupError::Ambiguous));
}

const ID: [u8; 16] = [0xEE; 16];

fn small_manifest(compression: ManifestCompression) -> Vec<u8> {
    let input = ManifestInput {
        build_id: ID.to_vec(),
        symbols: vec![
            ManifestSymbol { name: "foo".into(), rva: 0x1000, flags: FLAG_CODE },
            ManifestSymbol { name: "bar".into(), rva: 0x2000, flags: FLAG_DATA },
        ],
    };
    build_manifest_with_options(&input, ManifestOptions { compression }).unwrap().0
}

#[test]
fn a_written_manifest_is_read_back() {
    for compression in [ManifestCompression::Uncompressed, ManifestCompression::Zstd] {
        let manifest = EmbeddedManifest::parse_blob(&small_manifest(compression), ID).unwrap();
        assert_eq!(manifest.build_uuid, ID);
        assert_eq!(manifest.lookup("foo").unwrap().vmaddr, 0x1000);
        assert_eq!(manifest.lookup("bar").unwrap().flags, FLAG_DATA);
        assert_eq!(manifest.lookup("baz"), Err(LookupError::NotFound));
    }
    assert_eq!(ManifestCompression::Zstd.name(), "zstd");
    assert_eq!(ManifestCompression::Uncompressed.name(), "none");
}

#[test]
fn the_order_of_the_symbols_does_not_matter() {
    let mut symbols = [
        ("foo", 0x1000, FLAG_CODE | FLAG_LOCAL),
        ("foo", 0x1000, FLAG_CODE),
        ("bar", 0x2000, FLAG_DATA),
        ("bar", 0x3000, FLAG_CODE | FLAG_DISPLAY),
        ("bar_alias", 0x2000, FLAG_DATA),
        ("dup", 0x5000, FLAG_CODE),
        ("dup", 0x4000, FLAG_CODE),
    ];
    let written = |symbols: &[(&str, u64, u32)]| {
        let symbols = symbols
            .iter()
            .map(|(name, rva, flags)| ManifestSymbol {
                name: (*name).into(),
                rva: *rva,
                flags: *flags,
            })
            .collect();
        let input = ManifestInput { build_id: ID.to_vec(), symbols };
        let options = ManifestOptions { compression: ManifestCompression::Uncompressed };
        build_manifest_with_options(&input, options).unwrap().0
    };
    let first = written(&symbols);
    for _ in 0..symbols.len() {
        symbols.rotate_left(1);
        assert_eq!(written(&symbols), first);
    }
    symbols.reverse();
    assert_eq!(written(&symbols), first);
}

#[test]
fn a_stale_manifest_is_refused() {
    let blob = small_manifest(ManifestCompression::Uncompressed);
    assert_eq!(
        EmbeddedManifest::parse_blob(&blob, [0xEF; 16]).err(),
        Some(ManifestError::UuidMismatch)
    );
}

fn blob_error(at: usize, value: &[u8]) -> Option<ManifestError> {
    let mut blob = small_manifest(ManifestCompression::Uncompressed);
    blob[at..at + value.len()].copy_from_slice(value);
    EmbeddedManifest::parse_blob(&blob, ID).err()
}

#[test]
fn manifest_errors() {
    // magic, version, compression, uncompressed and compressed length, id length, id, entry count
    assert_eq!(blob_error(0, b"X"), Some(ManifestError::WrongMagic));
    assert_eq!(blob_error(8, &[3]), Some(ManifestError::WrongMagic));
    assert_eq!(blob_error(12, &[9]), Some(ManifestError::UnsupportedCompression(9)));
    assert_eq!(blob_error(16, &[0]), Some(ManifestError::LengthMismatch));
    assert_eq!(blob_error(24, &[0xff]), Some(ManifestError::PayloadTruncated));
    assert_eq!(blob_error(32, &[20]), Some(ManifestError::UuidMismatch));
    assert_eq!(blob_error(68, &[200]), Some(ManifestError::EntryTableTruncated));
    assert_eq!(blob_error(72 + 16, &[0xff]), Some(ManifestError::NameOutOfBounds));
    let swapped = {
        let blob = small_manifest(ManifestCompression::Uncompressed);
        let mut entries = blob[72 + 24..72 + 48].to_vec();
        entries.extend_from_slice(&blob[72..72 + 24]);
        entries
    };
    assert_eq!(blob_error(72, &swapped), Some(ManifestError::NotSorted));
    assert_eq!(blob_error(72 + 48, &[0xff]), Some(ManifestError::NameNotUtf8));
    let whole = small_manifest(ManifestCompression::Uncompressed);
    assert_eq!(
        EmbeddedManifest::parse_blob(&whole[..71], ID).err(),
        Some(ManifestError::Truncated)
    );
    let last = whole.len() - 1;
    assert_eq!(blob_error(last, b"x"), Some(ManifestError::NameUnterminated));

    let mut packed = small_manifest(ManifestCompression::Zstd);
    packed[16] ^= 1;
    let expected = u64::from_le_bytes(packed[16..24].try_into().unwrap()) as usize;
    assert_eq!(
        EmbeddedManifest::parse_blob(&packed, ID).err(),
        Some(ManifestError::DecompressedLength { found: expected ^ 1, expected })
    );
    packed[72] ^= 0xff;
    assert_eq!(
        EmbeddedManifest::parse_blob(&packed, ID).err(),
        Some(ManifestError::DecompressFailed)
    );
}

#[test]
fn only_macho_images_have_embedded_manifests() {
    assert_eq!(EmbeddedManifest::parse_macho(b"no image").err(), Some(ManifestError::ParseFailed));
}
