use apfsrelic::apfs::checksum::{compute, is_valid, stored};
use apfsrelic::apfs::jrec::{DirRec, FileExtent, Inode, SnapMetadata, SnapName, Xattr};
use apfsrelic::apfs::nx::{CheckpointMap, NxSuperblock};
use apfsrelic::apfs::obj::{
    object_type_name, ObjPhys, StorageType, OBJECT_TYPE_NX_SUPERBLOCK, OBJ_EPHEMERAL,
};
use apfsrelic::apfs::omap::{OmapEntry, OmapKey, OmapPhys, OmapVal, OMAP_VAL_DELETED, OMAP_VAL_ENCRYPTED};
use apfsrelic::apfs::path::casefold;
use apfsrelic::apfs::raw::{cstr_utf8, slice, u16_at, u32_at, u64_at};
use apfsrelic::apfs::resolver::{classify, ResolveStatus};
use apfsrelic::apfs::time::iso8601;
use apfsrelic::apfs::volume::ApfsSuperblock;
use apfsrelic::apfs::xfield::{parse_xfields, INO_EXT_TYPE_DSTREAM, INO_EXT_TYPE_NAME};
use apfsrelic::device::partition::{decode_utf16le_name, format_guid};

/// On-disk bytes of the Apple_APFS partition type GUID.
const APFS_TYPE_GUID: [u8; 16] = [
    0xEF, 0x57, 0x34, 0x7C, 0x00, 0x00, 0xAA, 0x11, 0xAA, 0x11, 0x00, 0x30, 0x65, 0x43, 0xEC, 0xAC,
];
use apfsrelic::error::{Error, ErrorKind};

#[test]
fn roundtrip_makes_block_valid() {
    let mut block = vec![0u8; 4096];
    for (i, byte) in block.iter_mut().enumerate().skip(8) {
        *byte = (i * 7 + 3) as u8;
    }
    let ck = compute(&block);
    block[..8].copy_from_slice(&ck.to_le_bytes());
    assert!(is_valid(&block));

    block[100] ^= 0xFF;
    assert!(!is_valid(&block));
}

#[test]
fn short_block_is_invalid_not_panic() {
    assert!(!is_valid(&[0u8; 4]));
}

#[test]
fn checksum_ignores_stored_field_and_reads_it_back() {
    let mut a = vec![0u8; 64];
    for (i, byte) in a.iter_mut().enumerate() {
        *byte = (i * 13 + 1) as u8;
    }
    let mut b = a.clone();
    b[..8].copy_from_slice(&[0xAB; 8]);
    assert_eq!(compute(&a), compute(&b));
    assert_eq!(stored(&b), 0xABAB_ABAB_ABAB_ABAB);
    // An all-zero body: both running sums stay zero, so the low half is the
    // modulus and the high half (the second sum) is zero.
    assert_eq!(compute(&[0u8; 16]), 0x0000_0000_FFFF_FFFF);
}

#[test]
fn parses_header_and_storage_type() {
    let mut b = vec![0u8; 32];
    b[8..16].copy_from_slice(&1u64.to_le_bytes());
    b[16..24].copy_from_slice(&7u64.to_le_bytes());
    b[24..28].copy_from_slice(&(OBJ_EPHEMERAL | OBJECT_TYPE_NX_SUPERBLOCK).to_le_bytes());
    let o = ObjPhys::parse(&b).unwrap();
    assert_eq!(o.oid, 1);
    assert_eq!(o.xid, 7);
    assert_eq!(o.type_id(), OBJECT_TYPE_NX_SUPERBLOCK);
    assert_eq!(o.storage_type(), StorageType::Ephemeral);
}

#[test]
fn short_header_errors() {
    assert!(ObjPhys::parse(&[0u8; 16]).is_err());
}

#[test]
fn object_type_names() {
    assert_eq!(object_type_name(1), "nx_superblock");
    assert_eq!(object_type_name(0x0b), "omap");
    assert_eq!(object_type_name(0x1f), "fext_tree");
    assert_eq!(object_type_name(0x99), "unknown");
}

#[test]
fn le_reads() {
    let b = [0x01, 0x02, 0x03, 0x04, 0x05, 0x06, 0x07, 0x08];
    assert_eq!(u16_at(&b, 0).unwrap(), 0x0201);
    assert_eq!(u32_at(&b, 0).unwrap(), 0x04030201);
    assert_eq!(u64_at(&b, 0).unwrap(), 0x0807060504030201);
}

#[test]
fn short_buffer_errors_not_panics() {
    let b = [0u8; 4];
    assert!(u32_at(&b, 0).is_ok());
    assert!(u64_at(&b, 0).is_err());
    assert!(u16_at(&b, 3).is_err());
    assert!(slice(&b, 2, 4).is_err());
}

#[test]
fn out_of_range_reads_are_corrupt_errors() {
    let b = [0u8; 4];
    assert_eq!(u64_at(&b, 0).unwrap_err().kind(), ErrorKind::Corrupt);
    assert_eq!(slice(&b, usize::MAX, 2).unwrap_err().kind(), ErrorKind::Corrupt);
    assert_eq!(slice(&b, 1, 3).unwrap(), &[0u8, 0, 0][..]);
}

#[test]
fn cstr_stops_at_nul() {
    assert_eq!(cstr_utf8(b"hello\0world"), "hello");
    assert_eq!(cstr_utf8(b"nonul"), "nonul");
}

#[test]
fn cstr_replaces_invalid_utf8() {
    assert_eq!(cstr_utf8(&[0x61, 0xFF, 0x62, 0]), "a\u{FFFD}b");
}

#[test]
fn casefold_is_unicode_aware() {
    assert_eq!(casefold("ABCé"), "abcé");
    assert!(!casefold("İ").is_empty());
}

#[test]
fn casefold_lowers_non_ascii_capitals() {
    assert_eq!(casefold("ÉCOLE"), "école");
    assert_eq!(casefold("straße"), "straße");
}

fn entry(flags: u32) -> OmapEntry {
    OmapEntry {
        key: OmapKey { oid: 5, xid: 9 },
        val: OmapVal { flags, size: 4096, paddr: 0x1234 },
    }
}

#[test]
fn classifies_statuses() {
    assert_eq!(classify(None), ResolveStatus::NotFound);
    assert_eq!(classify(Some(entry(OMAP_VAL_DELETED))), ResolveStatus::Deleted);
    assert_eq!(classify(Some(entry(OMAP_VAL_ENCRYPTED))), ResolveStatus::Encrypted);
    assert_eq!(
        classify(Some(entry(0))),
        ResolveStatus::Found { paddr: 0x1234, xid: 9 }
    );
}

#[test]
fn deleted_wins_over_encrypted() {
    assert_eq!(
        classify(Some(entry(OMAP_VAL_DELETED | OMAP_VAL_ENCRYPTED))),
        ResolveStatus::Deleted
    );
}

#[test]
fn known_timestamps() {
    assert_eq!(iso8601(0), None);
    assert_eq!(
        iso8601(1_609_459_200 * 1_000_000_000).unwrap(),
        "2021-01-01T00:00:00Z"
    );
    assert_eq!(
        iso8601(1_609_459_200 * 1_000_000_000 + 500).unwrap(),
        "2021-01-01T00:00:00.000000500Z"
    );
}

#[test]
fn leap_day_and_epoch_timestamps() {
    // 2020-02-29T12:34:56Z = 1582979696 s.
    assert_eq!(
        iso8601(1_582_979_696 * 1_000_000_000).unwrap(),
        "2020-02-29T12:34:56Z"
    );
    assert_eq!(iso8601(1).unwrap(), "1970-01-01T00:00:00.000000001Z");
}

#[test]
fn parses_two_fields_with_alignment() {
    let mut b = Vec::new();
    b.extend_from_slice(&2u16.to_le_bytes());
    b.extend_from_slice(&0u16.to_le_bytes());
    b.extend_from_slice(&[INO_EXT_TYPE_NAME, 0, 5, 0]);
    b.extend_from_slice(&[INO_EXT_TYPE_DSTREAM, 0, 8, 0]);
    b.extend_from_slice(b"file\0");
    b.extend_from_slice(&[0u8; 3]);
    b.extend_from_slice(&0x1122u64.to_le_bytes());

    let fields = parse_xfields(&b).unwrap();
    assert_eq!(fields.len(), 2);
    assert_eq!(fields[0].x_type, INO_EXT_TYPE_NAME);
    assert_eq!(fields[0].data, b"file\0");
    assert_eq!(fields[1].x_type, INO_EXT_TYPE_DSTREAM);
    assert_eq!(
        u64::from_le_bytes(fields[1].data[..8].try_into().unwrap()),
        0x1122
    );
}

#[test]
fn truncated_blob_does_not_panic() {
    let b = [1u8, 0, 0, 0, INO_EXT_TYPE_NAME, 0, 200, 0];
    let fields = parse_xfields(&b).unwrap();
    assert!(fields.is_empty());
}

#[test]
fn descriptors_past_the_blob_keep_no_field() {
    let b = [2u8, 0, 0, 0, 4, 0, 0, 0];
    assert!(parse_xfields(&b).unwrap().is_empty());
}

#[test]
fn apfs_guid_formats_canonically() {
    assert_eq!(
        format_guid(&APFS_TYPE_GUID),
        "7C3457EF-0000-11AA-AA11-00306543ECAC"
    );
}

#[test]
fn distinct_exit_codes_for_major_classes() {
    let codes = [
        ErrorKind::Usage.exit_code(),
        ErrorKind::Io.exit_code(),
        ErrorKind::UnsupportedFeature.exit_code(),
        ErrorKind::Corrupt.exit_code(),
        ErrorKind::PartialRecovery.exit_code(),
    ];
    let mut sorted = codes.to_vec();
    sorted.sort_unstable();
    sorted.dedup();
    assert_eq!(sorted.len(), codes.len(), "exit codes must be distinct");
}

#[test]
fn io_error_maps_to_kind() {
    let e: Error = std::io::Error::new(std::io::ErrorKind::PermissionDenied, "nope").into();
    assert_eq!(e.kind(), ErrorKind::PermissionDenied);
}

#[test]
fn io_error_keeps_its_message_and_other_kinds_are_io() {
    let e: Error = std::io::Error::new(std::io::ErrorKind::NotFound, "gone").into();
    assert_eq!(e.kind(), ErrorKind::NotFound);
    assert!(e.to_display_string().contains("gone"));
    let e: Error = std::io::Error::new(std::io::ErrorKind::UnexpectedEof, "short").into();
    assert_eq!(e.kind(), ErrorKind::Io);
}

#[test]
fn error_context_is_prefixed() {
    let e = Error::new(ErrorKind::Corrupt, "bad node".to_string()).with_context("reading omap".to_string());
    assert_eq!(e.kind(), ErrorKind::Corrupt);
    assert_eq!(e.to_display_string(), "bad node (reading omap)");
}

/// A tiny deterministic LCG so the test is reproducible.
struct Lcg(u64);
impl Lcg {
    fn next_u8(&mut self) -> u8 {
        self.0 = self
            .0
            .wrapping_mul(6364136223846793005)
            .wrapping_add(1442695040888963407);
        (self.0 >> 33) as u8
    }
    fn fill(&mut self, buf: &mut [u8]) {
        for b in buf.iter_mut() {
            *b = self.next_u8();
        }
    }
}

fn hammer_parsers(buf: &[u8]) {
    let _ = ObjPhys::parse(buf);
    let _ = NxSuperblock::parse(buf);
    let _ = CheckpointMap::parse(buf);
    let _ = OmapPhys::parse(buf);
    let _ = OmapKey::parse(buf);
    let _ = OmapVal::parse(buf);
    let _ = ApfsSuperblock::parse(buf);
    let _ = parse_xfields(buf);
    let _ = Inode::parse(buf);
    let _ = SnapMetadata::parse(buf);
    let mid = buf.len() / 2;
    let (k, v) = buf.split_at(mid);
    let _ = DirRec::parse(k, v);
    let _ = FileExtent::parse(k, v);
    let _ = Xattr::parse(k, v);
    let _ = SnapName::parse(k, v);
}

#[test]
fn parsers_never_panic_on_arbitrary_bytes() {
    let mut rng = Lcg(0x1234_5678_9abc_def0);
    let sizes = [
        0usize, 1, 2, 3, 4, 7, 8, 15, 16, 17, 18, 23, 24, 31, 32, 40, 56, 92, 108, 256, 1024, 4096,
    ];
    for &n in &sizes {
        hammer_parsers(&vec![0u8; n]);
        hammer_parsers(&vec![0xFFu8; n]);
        for _ in 0..16 {
            let mut buf = vec![0u8; n];
            rng.fill(&mut buf);
            hammer_parsers(&buf);
        }
    }
}

#[test]
fn partition_names_decode_utf16_up_to_nul() {
    let mut b = Vec::new();
    for u in "EFI Système".encode_utf16() {
        b.extend_from_slice(&u.to_le_bytes());
    }
    b.extend_from_slice(&[0, 0, 0x41, 0]);
    assert_eq!(decode_utf16le_name(&b), "EFI Système");
    // An unpaired surrogate becomes the replacement character.
    assert_eq!(decode_utf16le_name(&[0x00, 0xD8, 0x41, 0x00]), "\u{FFFD}A");
}
