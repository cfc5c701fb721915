use apfsrelic::apfs::btree::{split_obj_id_and_type, BtreeReader, RecordCollector, RecordVisitor};
use apfsrelic::apfs::checksum;
use apfsrelic::apfs::jrec::{self, DirRec, Inode};
use apfsrelic::device::mem::MemDevice;
use apfsrelic::device::BlockDevice;
use apfsrelic::error::{Error, ErrorKind, Result};
use apfsrelic::device::partition::{resolve_container_window, PartitionSelector, PartitionTable};

/// Block size used by the synthetic fixtures.
const BS: usize = 4096;
const BTREE_INFO: usize = 40;
const BTN_DATA: usize = 56;

fn put_u16(b: &mut [u8], off: usize, v: u16) {
    b[off..off + 2].copy_from_slice(&v.to_le_bytes());
}
fn put_u32(b: &mut [u8], off: usize, v: u32) {
    b[off..off + 4].copy_from_slice(&v.to_le_bytes());
}
fn put_u64(b: &mut [u8], off: usize, v: u64) {
    b[off..off + 8].copy_from_slice(&v.to_le_bytes());
}

fn stamp(b: &mut [u8]) {
    let ck = checksum::compute(b);
    b[0..8].copy_from_slice(&ck.to_le_bytes());
}

/// A single root+leaf object-map node (fixed kv) from sorted `(oid, xid, paddr)`.
fn build_omap_root_leaf(entries: &[(u64, u64, u64)]) -> Vec<u8> {
    let mut b = vec![0u8; BS];
    put_u32(&mut b, 24, 0x4000_0002);
    put_u16(&mut b, 32, 0x0007);
    put_u16(&mut b, 34, 0);
    let n = entries.len() as u32;
    put_u32(&mut b, 36, n);
    put_u16(&mut b, 40, 0);
    put_u16(&mut b, 42, (n * 4) as u16);

    let toc = BTN_DATA;
    let key_area = BTN_DATA + n as usize * 4;
    let val_end = BS - BTREE_INFO;

    for (i, &(oid, xid, paddr)) in entries.iter().enumerate() {
        put_u16(&mut b, toc + i * 4, (i * 16) as u16);
        put_u16(&mut b, toc + i * 4 + 2, ((i + 1) * 16) as u16);
        let kpos = key_area + i * 16;
        put_u64(&mut b, kpos, oid);
        put_u64(&mut b, kpos + 8, xid);
        let vpos = val_end - (i + 1) * 16;
        put_u32(&mut b, vpos, 0);
        put_u32(&mut b, vpos + 4, BS as u32);
        put_u64(&mut b, vpos + 8, paddr);
    }
    stamp(&mut b);
    b
}

/// A single root+leaf filesystem node (variable kv) from sorted records.
fn build_fs_root_leaf(records: &[(Vec<u8>, Vec<u8>)]) -> Vec<u8> {
    let mut b = vec![0u8; BS];
    put_u32(&mut b, 24, 0x0000_000e);
    put_u16(&mut b, 32, 0x0003);
    put_u16(&mut b, 34, 0);
    let n = records.len() as u32;
    put_u32(&mut b, 36, n);
    put_u16(&mut b, 40, 0);
    put_u16(&mut b, 42, (n * 8) as u16);

    let toc = BTN_DATA;
    let key_area = BTN_DATA + n as usize * 8;
    let val_end = BS - BTREE_INFO;

    let mut key_cursor = 0usize;
    let mut val_cursor = 0usize;
    for (i, (key, val)) in records.iter().enumerate() {
        let koff = key_cursor;
        b[key_area + koff..key_area + koff + key.len()].copy_from_slice(key);
        val_cursor += val.len();
        let vpos = val_end - val_cursor;
        b[vpos..vpos + val.len()].copy_from_slice(val);

        let t = toc + i * 8;
        put_u16(&mut b, t, koff as u16);
        put_u16(&mut b, t + 2, key.len() as u16);
        put_u16(&mut b, t + 4, val_cursor as u16);
        put_u16(&mut b, t + 6, val.len() as u16);

        key_cursor += key.len();
    }
    stamp(&mut b);
    b
}

/// Compose `obj_id_and_type` from an object id and a type nibble.
fn obj_id_and_type(oid: u64, ty: u8) -> u64 {
    (oid & 0x0fff_ffff_ffff_ffff) | ((ty as u64) << 60)
}

#[test]
fn omap_get_picks_correct_version() {
    let block = build_omap_root_leaf(&[(5, 1, 0x100), (5, 3, 0x200), (9, 2, 0x300)]);
    let dev = MemDevice::new(block);
    let mut bt = BtreeReader::new(&dev, BS as u32);

    let e = bt.omap_get(0, 5, 2).unwrap().unwrap();
    assert_eq!(e.val.paddr, 0x100);
    assert_eq!(e.key.xid, 1);

    let e = bt.omap_get(0, 5, 10).unwrap().unwrap();
    assert_eq!(e.val.paddr, 0x200);

    assert_eq!(bt.omap_get(0, 9, 10).unwrap().unwrap().val.paddr, 0x300);

    assert!(bt.omap_get(0, 7, 10).unwrap().is_none());
}

#[test]
fn omap_get_below_every_version_is_none() {
    let block = build_omap_root_leaf(&[(5, 4, 0x100), (5, 6, 0x200)]);
    let dev = MemDevice::new(block);
    let mut bt = BtreeReader::new(&dev, BS as u32);
    assert!(bt.omap_get(0, 5, 3).unwrap().is_none());
    assert_eq!(bt.omap_get(0, 5, 6).unwrap().unwrap().key.xid, 6);
    assert!(bt.take_warnings().is_empty());
}

fn drec(name: &str, file_id: u64, dt: u16) -> (Vec<u8>, Vec<u8>) {
    let mut key = obj_id_and_type(2, jrec::APFS_TYPE_DIR_REC).to_le_bytes().to_vec();
    let name_bytes = {
        let mut v = name.as_bytes().to_vec();
        v.push(0);
        v
    };
    key.extend_from_slice(&(name_bytes.len() as u32).to_le_bytes());
    key.extend_from_slice(&name_bytes);
    let mut val = Vec::new();
    val.extend_from_slice(&file_id.to_le_bytes());
    val.extend_from_slice(&0u64.to_le_bytes());
    val.extend_from_slice(&dt.to_le_bytes());
    (key, val)
}

#[test]
fn fs_collect_and_parse_directory_records() {
    let inode_key = obj_id_and_type(2, jrec::APFS_TYPE_INODE).to_le_bytes().to_vec();
    let mut inode_val = vec![0u8; 92];
    inode_val[80..82].copy_from_slice(&0o040755u16.to_le_bytes());
    inode_val[56..60].copy_from_slice(&2i32.to_le_bytes());

    let records = vec![
        (inode_key, inode_val),
        drec("alpha", 0x10, jrec::DT_DIR),
        drec("béta", 0x11, jrec::DT_REG),
    ];
    let block = build_fs_root_leaf(&records);
    let dev = MemDevice::new(block);
    let mut bt = BtreeReader::new(&dev, BS as u32);

    let recs = bt.fs_collect(None, 0, 2, u64::MAX).unwrap();
    assert_eq!(recs.len(), 3);

    let inode_rec = &recs[0];
    let (_oid, ty) =
        split_obj_id_and_type(u64::from_le_bytes(inode_rec.key[..8].try_into().unwrap()));
    assert_eq!(ty, jrec::APFS_TYPE_INODE);
    let inode = Inode::parse(&inode_rec.val).unwrap();
    assert!(inode.is_dir());

    let mut names = Vec::new();
    for rec in &recs {
        let (_oid, ty) =
            split_obj_id_and_type(u64::from_le_bytes(rec.key[..8].try_into().unwrap()));
        if ty == jrec::APFS_TYPE_DIR_REC {
            let d = DirRec::parse(&rec.key, &rec.val).unwrap();
            let kind = d.entry_type();
            names.push((d.name, d.file_id, kind));
        }
    }
    assert_eq!(names.len(), 2);
    assert_eq!(names[0], ("alpha".to_string(), 0x10, "dir"));
    assert_eq!(names[1], ("béta".to_string(), 0x11, "file"));
}

#[test]
fn fs_collect_keeps_only_the_requested_object() {
    let records = vec![drec("alpha", 0x10, jrec::DT_DIR)];
    let block = build_fs_root_leaf(&records);
    let dev = MemDevice::new(block);
    let mut bt = BtreeReader::new(&dev, BS as u32);
    assert_eq!(bt.fs_collect(None, 0, 2, u64::MAX).unwrap().len(), 1);
    assert!(bt.fs_collect(None, 0, 3, u64::MAX).unwrap().is_empty());
}

#[test]
fn corrupt_checksum_is_a_warning_not_a_panic() {
    let mut block = build_omap_root_leaf(&[(1, 1, 0x100)]);
    block[100] ^= 0xFF;
    let dev = MemDevice::new(block);
    let mut bt = BtreeReader::new(&dev, BS as u32);
    let _ = bt.omap_get(0, 1, 10).unwrap();
    assert!(!bt.take_warnings().is_empty());
}

#[test]
fn malformed_node_geometry_errors_cleanly() {
    let mut block = vec![0u8; BS];
    block[32..34].copy_from_slice(&0x0007u16.to_le_bytes());
    block[36..40].copy_from_slice(&0xffff_ffffu32.to_le_bytes());
    block[42..44].copy_from_slice(&8u16.to_le_bytes());
    let ck = checksum::compute(&block);
    block[0..8].copy_from_slice(&ck.to_le_bytes());
    let dev = MemDevice::new(block);
    let mut bt = BtreeReader::new(&dev, BS as u32);
    assert!(bt.omap_get(0, 1, 10).is_err());
}

#[test]
fn fs_walk_visits_every_record_in_order() {
    let records = vec![drec("alpha", 0x10, jrec::DT_DIR), drec("beta", 0x11, jrec::DT_REG)];
    let block = build_fs_root_leaf(&records);
    let dev = MemDevice::new(block);
    let mut bt = BtreeReader::new(&dev, BS as u32);
    let mut v = RecordCollector::new();
    bt.fs_walk(None, 0, u64::MAX, &mut v).unwrap();
    let recs = v.into_records();
    assert_eq!(recs.len(), 2);
    assert_eq!(recs[0].key, records[0].0);
    assert_eq!(recs[0].val, records[0].1);
    assert_eq!(recs[1].key, records[1].0);
}

struct Lcg(u64);
impl Lcg {
    fn next_u8(&mut self) -> u8 {
        self.0 = self
            .0
            .wrapping_mul(6364136223846793005)
            .wrapping_add(1442695040888963407);
        (self.0 >> 33) as u8
    }
    fn fill(&mut self, buf: &mut [u8]) {
        for b in buf.iter_mut() {
            *b = self.next_u8();
        }
    }
}

#[test]
fn btree_engine_never_panics_on_arbitrary_blocks() {
    let mut rng = Lcg(0xdead_beef_cafe_babe);
    let mut data = vec![0u8; 4096 * 4];
    for _ in 0..64 {
        rng.fill(&mut data);
        let dev = MemDevice::new(data.clone());
        let mut bt = BtreeReader::new(&dev, 4096);
        let _ = bt.omap_get(0, 1, u64::MAX);
        let _ = bt.fs_collect(None, 0, 1, u64::MAX);
        let mut v = RecordCollector::new();
        let _ = bt.fs_walk(None, 0, u64::MAX, &mut v);
    }
}

const LBA: usize = 512;

const APFS_GUID: [u8; 16] = [
    0xEF, 0x57, 0x34, 0x7C, 0x00, 0x00, 0xAA, 0x11, 0xAA, 0x11, 0x00, 0x30, 0x65, 0x43, 0xEC, 0xAC,
];
const EFI_GUID: [u8; 16] = [
    0x28, 0x73, 0x2A, 0xC1, 0x1F, 0xF8, 0xD2, 0x11, 0xBA, 0x4B, 0x00, 0xA0, 0xC9, 0x3E, 0xC9, 0x3B,
];

fn build_gpt_image() -> Vec<u8> {
    let mut img = vec![0u8; 64 * LBA];
    let h = LBA;
    img[h..h + 8].copy_from_slice(b"EFI PART");
    put_u64(&mut img, h + 72, 2);
    put_u32(&mut img, h + 80, 4);
    put_u32(&mut img, h + 84, 128);

    let e0 = 2 * LBA;
    img[e0..e0 + 16].copy_from_slice(&EFI_GUID);
    img[e0 + 16..e0 + 32].copy_from_slice(&[0x11; 16]);
    put_u64(&mut img, e0 + 32, 6);
    put_u64(&mut img, e0 + 40, 9);

    let e1 = e0 + 128;
    img[e1..e1 + 16].copy_from_slice(&APFS_GUID);
    img[e1 + 16..e1 + 32].copy_from_slice(&[0x22; 16]);
    put_u64(&mut img, e1 + 32, 10);
    put_u64(&mut img, e1 + 40, 40);

    img
}

#[test]
fn parses_gpt_and_finds_apfs_partition() {
    let dev = MemDevice::new(build_gpt_image());
    let table = PartitionTable::parse(&dev).unwrap().expect("has GPT");
    assert_eq!(table.entries.len(), 2);

    let apfs = table.apfs_partitions();
    assert_eq!(apfs.len(), 1);
    assert_eq!(apfs[0].type_guid, "7C3457EF-0000-11AA-AA11-00306543ECAC");
    assert_eq!(apfs[0].first_lba, 10);
    assert_eq!(apfs[0].byte_offset(), 10 * 512);

    let (off, len, idx) = resolve_container_window(&dev, PartitionSelector::Auto, None).unwrap();
    assert_eq!(off, 10 * 512);
    assert_eq!(len, (40 - 10 + 1) * 512);
    assert_eq!(idx, Some(2));
}

#[test]
fn explicit_offset_overrides_gpt() {
    let dev = MemDevice::new(build_gpt_image());
    let (off, _len, idx) =
        resolve_container_window(&dev, PartitionSelector::Auto, Some(2048)).unwrap();
    assert_eq!(off, 2048);
    assert_eq!(idx, None);
}

#[test]
fn no_gpt_means_bare_container() {
    let dev = MemDevice::new(vec![0u8; 8192]);
    assert!(PartitionTable::parse(&dev).unwrap().is_none());
    let (off, len, idx) = resolve_container_window(&dev, PartitionSelector::Auto, None).unwrap();
    assert_eq!(off, 0);
    assert_eq!(len, 8192);
    assert_eq!(idx, None);
}

#[test]
fn explicit_partition_index_and_bad_index() {
    let dev = MemDevice::new(build_gpt_image());
    let (off, len, idx) =
        resolve_container_window(&dev, PartitionSelector::Index(1), None).unwrap();
    assert_eq!(off, 6 * 512);
    assert_eq!(len, 4 * 512);
    assert_eq!(idx, Some(1));
    assert!(resolve_container_window(&dev, PartitionSelector::Index(9), None).is_err());
    assert!(resolve_container_window(&dev, PartitionSelector::Auto, Some(64 * 512)).is_err());
}

/// A device implemented by a caller of the library.
struct SliceDevice {
    data: Vec<u8>,
}

impl BlockDevice for SliceDevice {
    fn size(&self) -> u64 {
        self.data.len() as u64
    }
    fn read_at(&self, offset: u64, buf: &mut [u8]) -> Result<()> {
        let o = offset as usize;
        let end = o + buf.len();
        if end > self.data.len() {
            return Err(Error::new(ErrorKind::Io, "read past end".to_string()));
        }
        buf.copy_from_slice(&self.data[o..end]);
        Ok(())
    }
    fn description(&self) -> &str {
        "slice"
    }
}

/// A visitor implemented by a caller of the library: counts records and
/// stops after the first.
struct FirstOnly {
    seen: usize,
}

impl RecordVisitor for FirstOnly {
    fn visit(&mut self, _key: &[u8], _val: &[u8]) -> Result<bool> {
        self.seen += 1;
        Ok(false)
    }
}

#[test]
fn caller_devices_and_visitors_work_with_the_engine() {
    let block = build_omap_root_leaf(&[(5, 1, 0x100), (5, 3, 0x200)]);
    let dev = SliceDevice { data: block };
    assert_eq!(dev.read_block(0, BS as u32).unwrap().len(), BS);
    assert!(dev.read_block(1, BS as u32).is_err());
    let mut bt = BtreeReader::new(&dev, BS as u32);
    assert_eq!(bt.omap_get(0, 5, 2).unwrap().unwrap().val.paddr, 0x100);

    let records = vec![drec("alpha", 0x10, jrec::DT_DIR), drec("beta", 0x11, jrec::DT_REG)];
    let fs = MemDevice::new(build_fs_root_leaf(&records));
    let mut bt = BtreeReader::new(&fs, BS as u32);
    let mut v = FirstOnly { seen: 0 };
    bt.fs_walk(None, 0, u64::MAX, &mut v).unwrap();
    assert_eq!(v.seen, 1);
}

#[test]
fn devices_describe_their_source() {
    let mem = MemDevice::new(vec![0u8; 64]);
    assert_eq!(mem.description(), "mem");
    let win = apfsrelic::device::OffsetDevice::new(&mem, 16, 32);
    assert_eq!(win.description(), "mem @ offset 16 (32 bytes)");
    let part = apfsrelic::device::partition::PartitionedImageDevice::new(&mem, 8, 8);
    assert_eq!(part.description(), "mem @ offset 8 (8 bytes)");
}

#[test]
fn implausible_gpt_geometry_decodes_no_slot() {
    let mut img = build_gpt_image();
    put_u32(&mut img, LBA + 84, 64);
    let table = PartitionTable::parse(&MemDevice::new(img)).unwrap().expect("has GPT");
    assert!(table.entries.is_empty());
    let mut img = build_gpt_image();
    put_u32(&mut img, LBA + 80, 0);
    let table = PartitionTable::parse(&MemDevice::new(img)).unwrap().expect("has GPT");
    assert!(table.entries.is_empty());
    let mut img = build_gpt_image();
    put_u32(&mut img, LBA + 80, 5000);
    let table = PartitionTable::parse(&MemDevice::new(img)).unwrap().expect("has GPT");
    assert_eq!(table.entries.len(), 2);
}

#[test]
fn checksum_mismatch_leaves_exactly_one_warning() {
    let mut block = build_omap_root_leaf(&[(1, 1, 0x100)]);
    block[100] ^= 0xFF;
    let dev = MemDevice::new(block);
    let mut bt = BtreeReader::new(&dev, BS as u32);
    let e = bt.omap_get(0, 1, 10).unwrap().unwrap();
    assert_eq!(e.val.paddr, 0x100);
    assert_eq!(bt.take_warnings().len(), 1);
    assert!(bt.take_warnings().is_empty());
}

#[test]
fn malformed_root_node_is_corrupt_and_missing_root_is_io() {
    let mut block = vec![0u8; BS];
    block[32..34].copy_from_slice(&0x0007u16.to_le_bytes());
    block[36..40].copy_from_slice(&0xffff_ffffu32.to_le_bytes());
    block[42..44].copy_from_slice(&8u16.to_le_bytes());
    let ck = checksum::compute(&block);
    block[0..8].copy_from_slice(&ck.to_le_bytes());
    let dev = MemDevice::new(block);
    let mut bt = BtreeReader::new(&dev, BS as u32);
    assert_eq!(bt.omap_get(0, 1, 10).unwrap_err().kind(), ErrorKind::Corrupt);
    assert_eq!(bt.omap_get(7, 1, 10).unwrap_err().kind(), ErrorKind::Io);
}

#[test]
fn reads_outside_a_device_are_io_errors() {
    let mem = MemDevice::new((0u8..64).collect());
    let mut buf = [0u8; 8];
    assert_eq!(mem.read_at(60, &mut buf).unwrap_err().kind(), ErrorKind::Io);
    assert_eq!(mem.read_at(u64::MAX, &mut buf).unwrap_err().kind(), ErrorKind::Io);
    let win = apfsrelic::device::OffsetDevice::new(&mem, 16, 32);
    assert_eq!(win.read_at(28, &mut buf).unwrap_err().kind(), ErrorKind::Io);
    win.read_at(24, &mut buf).unwrap();
    assert_eq!(buf, [40, 41, 42, 43, 44, 45, 46, 47]);
    assert_eq!(mem.read_block(1, 64).unwrap_err().kind(), ErrorKind::Io);
    assert_eq!(mem.read_block(u64::MAX, 64).unwrap_err().kind(), ErrorKind::Corrupt);
}

#[test]
fn partition_byte_range_fits_only_when_addressable() {
    let mut p = apfsrelic::device::partition::Partition {
        index: 1,
        type_guid: String::new(),
        unique_guid: String::new(),
        first_lba: 6,
        last_lba: 9,
        name: String::new(),
        is_apfs: true,
    };
    assert!(p.addressable());
    assert_eq!(p.byte_offset(), 6 * 512);
    assert_eq!(p.byte_len(), 4 * 512);
    p.first_lba = u64::MAX / 512 + 1;
    p.last_lba = p.first_lba;
    assert!(!p.addressable());
    p.first_lba = 0;
    p.last_lba = u64::MAX;
    assert!(!p.addressable());
    p.last_lba = 0;
    p.first_lba = 5;
    assert!(p.addressable());
}

/// A visitor that fails on its second record.
struct FailsSecond {
    seen: usize,
}

impl RecordVisitor for FailsSecond {
    fn visit(&mut self, _key: &[u8], _val: &[u8]) -> Result<bool> {
        self.seen += 1;
        if self.seen == 2 {
            return Err(Error::new(ErrorKind::Usage, "visitor gave up".to_string()));
        }
        Ok(true)
    }
}

#[test]
fn a_visitor_error_is_handed_back_unchanged() {
    let records = vec![drec("alpha", 0x10, jrec::DT_DIR), drec("beta", 0x11, jrec::DT_REG), drec("gamma", 0x12, jrec::DT_REG)];
    let fs = MemDevice::new(build_fs_root_leaf(&records));
    let mut bt = BtreeReader::new(&fs, BS as u32);
    let mut v = FailsSecond { seen: 0 };
    let e = bt.fs_walk(None, 0, u64::MAX, &mut v).unwrap_err();
    assert_eq!(e.kind(), ErrorKind::Usage);
    assert_eq!(e.message, "visitor gave up");
    assert_eq!(v.seen, 2);
}

#[test]
fn json_strings_escape_quotes_backslashes_and_controls() {
    let mut out = String::new();
    apfsrelic::text::push_json_string(&mut out, "a\"b\\c\nd\tÉ走\u{01}\u{08}\u{0c}\r");
    assert_eq!(out, "\"a\\\"b\\\\c\\nd\\tÉ走\\u0001\\b\\f\\r\"");
}

#[test]
fn error_codes_and_case_folding() {
    assert_eq!(ErrorKind::Corrupt.code(), "corrupt");
    assert_ne!(ErrorKind::ChecksumFailed.code(), ErrorKind::NotADirectory.code());
    assert_eq!(apfsrelic::apfs::path::casefold("Hello/WORLD-42"), "hello/world-42");
    assert_eq!(apfsrelic::apfs::path::casefold("ÉCOLE"), "école");
}

#[test]
fn recoverability_labels() {
    assert_eq!(apfsrelic::gui::RecoverStatus::Directory.label(), "ok");
    assert_eq!(apfsrelic::gui::RecoverStatus::RecoverableSparse.label(), "ok-sparse");
    assert_eq!(apfsrelic::gui::RecoverStatus::NoExtents.label(), "no-extents");
    assert_eq!(apfsrelic::gui::RecoverStatus::Encrypted.label(), "encrypted");
}
