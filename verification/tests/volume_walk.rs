use apfsrelic::apfs::checksum;
use apfsrelic::apfs::container::Container;
use apfsrelic::apfs::jrec;
use apfsrelic::apfs::path::resolve;
use apfsrelic::apfs::snapshot::{find_by_name, find_by_xid, list_snapshots};
use apfsrelic::apfs::vol::Volume;
use apfsrelic::cli::parse;
use apfsrelic::commands::{open_volume_view, resolve_volume_index};
use apfsrelic::device::mem::MemDevice;
use apfsrelic::device::{BlockDevice, OffsetDevice};
use apfsrelic::device::partition::PartitionSelector;
use apfsrelic::error::ErrorKind;
use apfsrelic::gui::{batch_precheck, batch_target, recoverability, stat_records, BatchTarget, RecoverStatus};
use apfsrelic::integrity::{all_passed, container_checks, verify_report, volume_checks};
use apfsrelic::listing::{sort_by_name, sort_for_browser};
use apfsrelic::recover::{
    check_plaintext_allowed, completion_status, folder_output, guard_overwrite, skipped_result, note_recovered, object_action,
    plan_folder, recover_target, single_file_plan, FileStatus, LinkMap, ObjectAction, PlanItem, RecoverTarget,
    SingleFilePlan, SkipReason,
};
use apfsrelic::source::{self, ImageKind};

const BS: usize = 4096;
const BTREE_INFO: usize = 40;
const BTN_DATA: usize = 56;

fn put_u16(b: &mut [u8], off: usize, v: u16) {
    b[off..off + 2].copy_from_slice(&v.to_le_bytes());
}
fn put_u32(b: &mut [u8], off: usize, v: u32) {
    b[off..off + 4].copy_from_slice(&v.to_le_bytes());
}
fn put_u64(b: &mut [u8], off: usize, v: u64) {
    b[off..off + 8].copy_from_slice(&v.to_le_bytes());
}

fn stamp(b: &mut [u8]) {
    let ck = checksum::compute(b);
    b[0..8].copy_from_slice(&ck.to_le_bytes());
}

fn header(b: &mut [u8], oid: u64, xid: u64, otype: u32) {
    put_u64(b, 8, oid);
    put_u64(b, 16, xid);
    put_u32(b, 24, otype);
}

/// A root+leaf object-map node from sorted `(oid, xid, paddr)`.
fn omap_leaf(entries: &[(u64, u64, u64)]) -> Vec<u8> {
    let mut b = vec![0u8; BS];
    put_u32(&mut b, 24, 0x4000_0003);
    put_u16(&mut b, 32, 0x0007);
    let n = entries.len() as u32;
    put_u32(&mut b, 36, n);
    put_u16(&mut b, 42, (n * 4) as u16);
    let key_area = BTN_DATA + n as usize * 4;
    let val_end = BS - BTREE_INFO;
    for (i, &(oid, xid, paddr)) in entries.iter().enumerate() {
        put_u16(&mut b, BTN_DATA + i * 4, (i * 16) as u16);
        put_u16(&mut b, BTN_DATA + i * 4 + 2, ((i + 1) * 16) as u16);
        put_u64(&mut b, key_area + i * 16, oid);
        put_u64(&mut b, key_area + i * 16 + 8, xid);
        let vpos = val_end - (i + 1) * 16;
        put_u32(&mut b, vpos + 4, BS as u32);
        put_u64(&mut b, vpos + 8, paddr);
    }
    stamp(&mut b);
    b
}

/// A root+leaf node with variable-size records, sorted by key.
fn var_leaf(otype: u32, records: &[(Vec<u8>, Vec<u8>)]) -> Vec<u8> {
    let mut b = vec![0u8; BS];
    put_u32(&mut b, 24, otype);
    put_u16(&mut b, 32, 0x0003);
    let n = records.len() as u32;
    put_u32(&mut b, 36, n);
    put_u16(&mut b, 42, (n * 8) as u16);
    let key_area = BTN_DATA + n as usize * 8;
    let val_end = BS - BTREE_INFO;
    let mut key_cursor = 0usize;
    let mut val_cursor = 0usize;
    for (i, (key, val)) in records.iter().enumerate() {
        b[key_area + key_cursor..key_area + key_cursor + key.len()].copy_from_slice(key);
        val_cursor += val.len();
        let vpos = val_end - val_cursor;
        b[vpos..vpos + val.len()].copy_from_slice(val);
        let t = BTN_DATA + i * 8;
        put_u16(&mut b, t, key_cursor as u16);
        put_u16(&mut b, t + 2, key.len() as u16);
        put_u16(&mut b, t + 4, val_cursor as u16);
        put_u16(&mut b, t + 6, val.len() as u16);
        key_cursor += key.len();
    }
    stamp(&mut b);
    b
}

fn obj_key(oid: u64, ty: u8) -> Vec<u8> {
    ((oid & 0x0fff_ffff_ffff_ffff) | ((ty as u64) << 60)).to_le_bytes().to_vec()
}

fn inode(oid: u64, parent: u64, mode: u16, size: u64, nlink: i32) -> (Vec<u8>, Vec<u8>) {
    let mut v = vec![0u8; 92];
    put_u64(&mut v, 0, parent);
    put_u64(&mut v, 8, oid);
    put_u64(&mut v, 48, 0x0004_0000); // INODE_HAS_UNCOMPRESSED_SIZE
    v[56..60].copy_from_slice(&nlink.to_le_bytes());
    put_u16(&mut v, 80, mode);
    put_u64(&mut v, 84, size);
    (obj_key(oid, jrec::APFS_TYPE_INODE), v)
}

fn drec(dir: u64, name: &str, file_id: u64, dt: u16) -> (Vec<u8>, Vec<u8>) {
    let mut key = obj_key(dir, jrec::APFS_TYPE_DIR_REC);
    let mut nb = name.as_bytes().to_vec();
    nb.push(0);
    key.extend_from_slice(&(nb.len() as u32).to_le_bytes());
    key.extend_from_slice(&nb);
    let mut val = Vec::new();
    val.extend_from_slice(&file_id.to_le_bytes());
    val.extend_from_slice(&0u64.to_le_bytes());
    val.extend_from_slice(&dt.to_le_bytes());
    (key, val)
}

fn extent(oid: u64, logical: u64, len: u64, phys: u64) -> (Vec<u8>, Vec<u8>) {
    let mut key = obj_key(oid, jrec::APFS_TYPE_FILE_EXTENT);
    key.extend_from_slice(&logical.to_le_bytes());
    let mut val = Vec::new();
    val.extend_from_slice(&len.to_le_bytes());
    val.extend_from_slice(&phys.to_le_bytes());
    val.extend_from_slice(&0u64.to_le_bytes());
    (key, val)
}

fn symlink_xattr(oid: u64, target: &str) -> (Vec<u8>, Vec<u8>) {
    let mut key = obj_key(oid, jrec::APFS_TYPE_XATTR);
    let mut name = b"com.apple.fs.symlink".to_vec();
    name.push(0);
    key.extend_from_slice(&(name.len() as u16).to_le_bytes());
    key.extend_from_slice(&name);
    let mut data = target.as_bytes().to_vec();
    data.push(0);
    let mut val = Vec::new();
    val.extend_from_slice(&jrec::XATTR_DATA_EMBEDDED.to_le_bytes());
    val.extend_from_slice(&(data.len() as u16).to_le_bytes());
    val.extend_from_slice(&data);
    (key, val)
}

fn snap_meta(xid: u64, name: &str, create: u64) -> (Vec<u8>, Vec<u8>) {
    let mut v = vec![0u8; 50];
    put_u64(&mut v, 8, 5); // the snapshot's volume superblock block
    put_u64(&mut v, 16, create);
    let mut nb = name.as_bytes().to_vec();
    nb.push(0);
    put_u16(&mut v, 48, nb.len() as u16);
    v.extend_from_slice(&nb);
    (obj_key(xid, jrec::APFS_TYPE_SNAP_METADATA), v)
}

const ROOT: u64 = 2;
const DOCS: u64 = 0x10;
const HELLO: u64 = 0x11;
const LINK: u64 = 0x12;
const ATXT: u64 = 0x13;
const HARD: u64 = 0x14;

/// A one-volume container: block 0 and the checkpoint area hold the
/// container superblock, then the container and volume object maps, the
/// volume superblock, the filesystem tree, file data and the snapshot tree.
fn build_container(case_insensitive: bool, encrypted: bool) -> Vec<u8> {
    let nblocks = 13;
    let mut img = vec![0u8; nblocks * BS];

    // Container superblock.
    let mut nx = vec![0u8; BS];
    header(&mut nx, 1, 7, 0x8000_0001);
    put_u32(&mut nx, 32, 0x4253_584E);
    put_u32(&mut nx, 36, BS as u32);
    put_u64(&mut nx, 40, nblocks as u64);
    nx[72..88].copy_from_slice(&[0xAB; 16]);
    put_u32(&mut nx, 104, 2); // xp_desc_blocks
    put_u64(&mut nx, 112, 1); // xp_desc_base
    put_u32(&mut nx, 136, 0); // xp_desc_index
    put_u32(&mut nx, 140, 2); // xp_desc_len
    put_u64(&mut nx, 160, 3); // omap_oid
    put_u32(&mut nx, 180, 1); // max_file_systems
    put_u64(&mut nx, 184, 0x402); // fs_oid[0]
    stamp(&mut nx);
    img[0..BS].copy_from_slice(&nx);

    // Checkpoint area: a checkpoint map, then the superblock.
    let mut cpm = vec![0u8; BS];
    header(&mut cpm, 9, 7, 0x4000_000c);
    put_u32(&mut cpm, 32, 1); // CHECKPOINT_MAP_LAST
    stamp(&mut cpm);
    img[BS..2 * BS].copy_from_slice(&cpm);
    img[2 * BS..3 * BS].copy_from_slice(&nx);

    // Container object map -> its tree at block 4.
    let mut om = vec![0u8; BS];
    header(&mut om, 3, 7, 0x4000_000b);
    put_u32(&mut om, 40, 0x4000_0002);
    put_u64(&mut om, 48, 4);
    stamp(&mut om);
    img[3 * BS..4 * BS].copy_from_slice(&om);
    img[4 * BS..5 * BS].copy_from_slice(&omap_leaf(&[(0x402, 7, 5)]));

    // Volume superblock.
    let mut sb = vec![0u8; BS];
    header(&mut sb, 0x402, 7, 0x0000_000d);
    put_u32(&mut sb, 32, 0x4253_5041);
    put_u64(&mut sb, 56, if case_insensitive { 1 } else { 0 });
    put_u32(&mut sb, 116, 0x0000_000e); // root tree: virtual
    put_u32(&mut sb, 124, 0x4000_0010); // snapshot tree: physical
    put_u64(&mut sb, 128, 6); // omap_oid
    put_u64(&mut sb, 136, 0x404); // root_tree_oid
    put_u64(&mut sb, 152, 12); // snap_meta_tree_oid
    put_u64(&mut sb, 184, 3); // num_files
    put_u64(&mut sb, 216, 2); // num_snapshots
    put_u64(&mut sb, 264, if encrypted { 0 } else { 1 }); // fs_flags
    sb[704..708].copy_from_slice(b"Data");
    stamp(&mut sb);
    img[5 * BS..6 * BS].copy_from_slice(&sb);

    // Volume object map -> its tree at block 7.
    let mut vom = vec![0u8; BS];
    header(&mut vom, 6, 7, 0x4000_000b);
    put_u32(&mut vom, 40, 0x4000_0002);
    put_u64(&mut vom, 48, 7);
    stamp(&mut vom);
    img[6 * BS..7 * BS].copy_from_slice(&vom);
    img[7 * BS..8 * BS].copy_from_slice(&omap_leaf(&[(0x404, 7, 8)]));

    // Filesystem tree.
    let records = vec![
        inode(ROOT, 1, 0o040755, 0, 4),
        drec(ROOT, "docs", DOCS, jrec::DT_DIR),
        drec(ROOT, "hello.txt", HELLO, jrec::DT_REG),
        drec(ROOT, "link", LINK, jrec::DT_LNK),
        drec(ROOT, "..", HELLO, jrec::DT_REG),
        inode(DOCS, ROOT, 0o040755, 0, 2),
        drec(DOCS, "a.txt", ATXT, jrec::DT_REG),
        drec(DOCS, "again", HARD, jrec::DT_REG),
        drec(DOCS, "twice", HARD, jrec::DT_REG),
        inode(HELLO, ROOT, 0o100644, 5, 1),
        extent(HELLO, 0, BS as u64, 9),
        inode(LINK, ROOT, 0o120755, 9, 1),
        symlink_xattr(LINK, "hello.txt"),
        inode(ATXT, DOCS, 0o100644, 3, 1),
        extent(ATXT, 0, BS as u64, 10),
        inode(HARD, DOCS, 0o100644, 2, 2),
        extent(HARD, 0, BS as u64, 11),
    ];
    img[8 * BS..9 * BS].copy_from_slice(&var_leaf(0x0000_000e, &records));

    img[9 * BS..9 * BS + 5].copy_from_slice(b"hello");
    img[10 * BS..10 * BS + 3].copy_from_slice(b"abc");
    img[11 * BS..11 * BS + 2].copy_from_slice(b"hi");

    // Snapshot metadata tree.
    img[12 * BS..13 * BS].copy_from_slice(&var_leaf(0x4000_0010, &[snap_meta(3, "older", 900_000_000), snap_meta(5, "before", 1_000_000_000)]));
    img
}

fn open(img: Vec<u8>) -> Container<MemDevice> {
    Container::open(MemDevice::new(img), u64::MAX).unwrap()
}

#[test]
fn opens_container_at_its_checkpoint() {
    let c = open(build_container(false, false));
    assert_eq!(c.block_size, BS as u32);
    assert_eq!(c.checkpoint_xid, 7);
    assert_eq!(c.checkpoint_index, 1);
    assert_eq!(c.nx_omap_tree_root, 4);
    let slots = c.list_volumes().unwrap();
    assert_eq!(slots.len(), 1);
    assert_eq!(slots[0].index, 1);
    assert_eq!(slots[0].apsb.volname, "Data");
    assert!(c.volume_superblock(2).is_err());
}

#[test]
fn checkpoint_above_max_xid_is_refused() {
    let r = Container::open(MemDevice::new(build_container(false, false)), 6);
    assert!(r.is_err());
}

#[test]
fn non_container_is_unsupported_format() {
    let r = Container::open(MemDevice::new(vec![0u8; 2 * BS]), u64::MAX);
    assert_eq!(r.err().unwrap().kind(), ErrorKind::UnsupportedFormat);
}

#[test]
fn lists_and_resolves_paths() {
    let c = open(build_container(false, false));
    let vol = Volume::open(&c, 1).unwrap();
    let mut bt = vol.btree();
    let names: Vec<String> = vol.list_dir(&mut bt, ROOT).unwrap().into_iter().map(|d| d.name).collect();
    assert_eq!(names, vec!["docs", "hello.txt", "link", ".."]);
    let r = resolve(&vol, &mut bt, "/docs/a.txt").unwrap();
    assert_eq!(r.fsoid, ATXT);
    assert_eq!(r.entry_type, "file");
    assert_eq!(resolve(&vol, &mut bt, "/").unwrap().fsoid, ROOT);
    assert_eq!(resolve(&vol, &mut bt, "/docs/missing").unwrap_err().kind(), ErrorKind::PathNotFound);
    assert_eq!(resolve(&vol, &mut bt, "/hello.txt/x").unwrap_err().kind(), ErrorKind::NotADirectory);
    assert_eq!(resolve(&vol, &mut bt, "docs").unwrap_err().kind(), ErrorKind::Usage);
    // Case-sensitive volume: a differently-cased name does not match.
    assert!(resolve(&vol, &mut bt, "/DOCS").is_err());
}

#[test]
fn case_insensitive_volume_matches_any_case() {
    let c = open(build_container(true, false));
    let vol = Volume::open(&c, 1).unwrap();
    let mut bt = vol.btree();
    assert_eq!(resolve(&vol, &mut bt, "/DOCS/A.TXT").unwrap().fsoid, ATXT);
}

#[test]
fn reads_file_data_and_symlink_target() {
    let c = open(build_container(false, false));
    let vol = Volume::open(&c, 1).unwrap();
    let mut bt = vol.btree();
    let recs = vol.records(&mut bt, HELLO).unwrap();
    let ino = Volume::<MemDevice>::inode_from_records(&recs).unwrap().unwrap();
    assert_eq!(ino.logical_size(), Some(5));
    let mut out = Vec::new();
    let w = vol.write_file_data(&recs, 5, &mut out).unwrap();
    assert_eq!(out, b"hello");
    assert_eq!(w.bytes, 5);

    let link = vol.records(&mut bt, LINK).unwrap();
    assert_eq!(Volume::<MemDevice>::symlink_target(&link).unwrap().as_deref(), Some("hello.txt"));
    assert_eq!(Volume::<MemDevice>::symlink_target(&recs).unwrap(), None);
}

#[test]
fn lists_snapshots() {
    let c = open(build_container(false, false));
    let vol = Volume::open(&c, 1).unwrap();
    let mut bt = vol.btree();
    let snaps = list_snapshots(&vol, &mut bt).unwrap();
    assert_eq!(snaps.len(), 2);
    assert_eq!(snaps[0].name, "older");
    assert_eq!(snaps[0].xid, 3);
    assert_eq!(snaps[1].name, "before");
    assert_eq!(snaps[1].xid, 5);
    assert_eq!(find_by_xid(&vol, &mut bt, 3).unwrap().name, "older");
    assert_eq!(find_by_name(&vol, &mut bt, "before").unwrap().xid, 5);
    assert!(find_by_name(&vol, &mut bt, "after").is_err());
    assert_eq!(find_by_xid(&vol, &mut bt, 5).unwrap().name, "before");
}

#[test]
fn folder_plan_walks_the_tree_in_order() {
    let c = open(build_container(false, false));
    let vol = Volume::open(&c, 1).unwrap();
    let mut bt = vol.btree();
    let plan = plan_folder(&vol, &mut bt, ROOT);
    let mut seen: Vec<String> = Vec::new();
    for item in &plan {
        let s = match item {
            PlanItem::Dir { dir, name, len, .. } => format!("dir {dir}|{name} {len}"),
            PlanItem::Object { dir, name, fsoid, .. } => format!("obj {dir}|{name} {fsoid:#x}"),
            PlanItem::Skipped { dir, name, reason, .. } => format!("skip {dir}|{name} {}", reason.note()),
            PlanItem::ReadFailed { dir, name, .. } => format!("readfail {dir}|{name}"),
            PlanItem::ListFailed { dir, .. } => format!("listfail {dir}"),
        };
        seen.push(s);
    }
    assert_eq!(
        seen,
        vec![
            "dir |docs 3",
            "obj docs|a.txt 0x13",
            "obj docs|again 0x14",
            "obj docs|twice 0x14",
            "obj |hello.txt 0x11",
            "obj |link 0x12",
            "skip |.. unsafe entry name; skipped",
        ]
    );
    assert_eq!(SkipReason::NoInode.note(), "no inode");
}

#[test]
fn hard_links_are_recreated_after_the_first_copy() {
    let c = open(build_container(false, false));
    let vol = Volume::open(&c, 1).unwrap();
    let mut bt = vol.btree();
    let recs = vol.records(&mut bt, HARD).unwrap();
    let ino = Volume::<MemDevice>::inode_from_records(&recs).unwrap().unwrap();
    let mut links = LinkMap::new();
    assert!(matches!(object_action(&links, &ino, HARD, false, false, false), ObjectAction::Recover));
    note_recovered(&mut links, &ino, HARD, false, "out/docs/again".to_string());
    match object_action(&links, &ino, HARD, false, false, true) {
        ObjectAction::HardLink(p) => assert_eq!(p, "out/docs/again"),
        other => panic!("expected a hard link, got {other:?}"),
    }
    // The first path stays remembered.
    note_recovered(&mut links, &ino, HARD, false, "out/docs/twice".to_string());
    assert_eq!(links.get(HARD).as_deref(), Some("out/docs/again"));
    // A dry run remembers nothing.
    let mut dry = LinkMap::new();
    note_recovered(&mut dry, &ino, HARD, true, "x".to_string());
    assert_eq!(dry.get(HARD), None);

    let single = vol.records(&mut bt, HELLO).unwrap();
    let one = Volume::<MemDevice>::inode_from_records(&single).unwrap().unwrap();
    assert!(matches!(object_action(&links, &one, HELLO, false, false, true), ObjectAction::SkipExisting));
    assert!(matches!(object_action(&links, &one, HELLO, false, true, true), ObjectAction::Recover));
    assert!(matches!(object_action(&links, &one, HELLO, true, false, true), ObjectAction::Recover));
}

#[test]
fn single_file_plans() {
    let c = open(build_container(false, false));
    let vol = Volume::open(&c, 1).unwrap();
    let mut bt = vol.btree();
    let link = vol.records(&mut bt, LINK).unwrap();
    let li = Volume::<MemDevice>::inode_from_records(&link).unwrap().unwrap();
    match single_file_plan(&vol, &li, &link, true).unwrap() {
        SingleFilePlan::Symlink { target } => assert_eq!(target, "hello.txt"),
        other => panic!("expected a symlink, got {other:?}"),
    }
    match single_file_plan(&vol, &li, &link, false).unwrap() {
        SingleFilePlan::Data { size } => assert_eq!(size, 9),
        other => panic!("expected data, got {other:?}"),
    }
    assert!(guard_overwrite("/tmp/x", true, false).is_err());
    assert!(guard_overwrite("/tmp/x", true, true).is_ok());
    assert!(guard_overwrite("/tmp/x", false, false).is_ok());
    assert_eq!(completion_status(5, 5), FileStatus::Recovered);
    assert_eq!(completion_status(4, 5), FileStatus::Partial);
    assert_eq!(FileStatus::SkippedExists.label(), "skipped-exists");
}

#[test]
fn encrypted_volume_refuses_plaintext_recovery() {
    let e = check_plaintext_allowed(true, false).unwrap_err();
    assert_eq!(e.kind(), ErrorKind::EncryptedUnsupported);
    assert!(check_plaintext_allowed(true, true).is_ok());
    assert!(check_plaintext_allowed(false, false).is_ok());
}

#[test]
fn listing_orders() {
    let c = open(build_container(false, false));
    let vol = Volume::open(&c, 1).unwrap();
    let mut bt = vol.btree();
    let mut by_name = vol.list_dir(&mut bt, ROOT).unwrap();
    sort_by_name(&mut by_name);
    let names: Vec<&str> = by_name.iter().map(|d| d.name.as_str()).collect();
    assert_eq!(names, vec!["..", "docs", "hello.txt", "link"]);
    let mut browse = vol.list_dir(&mut bt, ROOT).unwrap();
    sort_for_browser(&mut browse);
    let names: Vec<&str> = browse.iter().map(|d| d.name.as_str()).collect();
    assert_eq!(names, vec!["docs", "..", "hello.txt", "link"]);
}

#[test]
fn integrity_checks_pass_on_a_clean_container() {
    let c = open(build_container(false, false));
    let checks = container_checks(&c).unwrap();
    let names: Vec<&str> = checks.iter().map(|k| k.name.as_str()).collect();
    assert_eq!(names, vec!["container_open", "block0_checksum", "container_omap_root"]);
    assert_eq!(checks[0].detail.as_deref(), Some("checkpoint xid 0x7"));
    assert!(all_passed(&checks));
    let vol = Volume::open(&c, 1).unwrap();
    let path = "/hello.txt".to_string();
    let vc = volume_checks(&vol, Some(&path)).unwrap();
    assert_eq!(vc.len(), 3);
    assert_eq!(vc[0].detail.as_deref(), Some("Data"));
    assert_eq!(vc[2].name, "path_extents");
    assert_eq!(vc[2].detail.as_deref(), Some("1 extent(s), 0 unreadable"));
    assert!(all_passed(&vc));
}

#[test]
fn corrupt_block0_fails_its_check() {
    let mut img = build_container(false, false);
    img[200] ^= 0xFF;
    let c = open(img);
    let checks = container_checks(&c).unwrap();
    assert!(!checks[1].ok);
    assert!(checks[2].ok);
    assert!(!all_passed(&checks));
}

#[test]
fn opened_image_selects_volumes_by_name_and_snapshot() {
    let img = MemDevice::new(build_container(false, false));
    let opened = source::open(&img, ImageKind::RawFile, PartitionSelector::Auto, None, u64::MAX).unwrap();
    assert_eq!(opened.container_offset, 0);
    let opts = parse(&["--volume-name".into(), "Data".into()]).unwrap();
    assert_eq!(resolve_volume_index(&opened, &opts).unwrap(), 1);
    let missing = parse(&["--volume-name".into(), "Nope".into()]).unwrap();
    assert_eq!(resolve_volume_index(&opened, &missing).unwrap_err().kind(), ErrorKind::Usage);
    let zero = parse(&["--volume".into(), "0".into()]).unwrap();
    assert!(resolve_volume_index(&opened, &zero).is_err());

    let live = parse(&["--volume".into(), "1".into()]).unwrap();
    let (vol, snap) = open_volume_view(&opened, &live).unwrap();
    assert!(snap.is_none());
    assert_eq!(vol.max_xid, 7);

    let (report, _warnings) = verify_report(&opened, &live).unwrap();
    let names: Vec<&str> = report.iter().map(|k| k.name.as_str()).collect();
    assert_eq!(
        names,
        vec!["container_open", "block0_checksum", "container_omap_root", "volume_superblock", "fs_root_tree_checksum"]
    );
}

#[test]
fn skipped_entries_are_reported_once_with_their_note() {
    let r = skipped_result("out", "..", 0x20, SkipReason::UnsafeName);
    assert_eq!(r.path, "out/..");
    assert_eq!(r.fsoid, 0x20);
    assert_eq!(r.status, FileStatus::Error);
    assert_eq!(r.bytes, 0);
    assert_eq!(r.note.as_deref(), Some("unsafe entry name; skipped"));
    let r = skipped_result("out/", "x", 0x21, SkipReason::NoInode);
    assert_eq!(r.path, "out/x");
    assert_eq!(r.note.as_deref(), Some("no inode"));
}

#[test]
fn newer_checkpoint_that_fails_to_load_leaves_one_warning() {
    let mut img = build_container(false, false);
    // Slot 0 of the checkpoint area now holds a newer superblock whose
    // object map lies past the end of the image.
    let mut newer = img[0..BS].to_vec();
    put_u64(&mut newer, 16, 8);
    put_u64(&mut newer, 160, 500);
    stamp(&mut newer);
    img[BS..2 * BS].copy_from_slice(&newer);
    let c = open(img);
    assert_eq!(c.checkpoint_xid, 7);
    assert_eq!(c.checkpoint_index, 1);
    assert_eq!(c.warnings.len(), 1);
}

#[test]
fn opened_container_without_failures_has_no_warning() {
    let c = open(build_container(false, false));
    assert!(c.warnings.is_empty());
}

#[test]
fn boot_superblock_checks_give_their_error_kinds() {
    let mut tree = build_container(false, false);
    put_u32(&mut tree[0..BS], 104, 0x8000_0002);
    stamp(&mut tree[0..BS]);
    let r = Container::open(MemDevice::new(tree), u64::MAX);
    assert_eq!(r.err().unwrap().kind(), ErrorKind::UnsupportedFeature);

    let mut odd = build_container(false, false);
    put_u32(&mut odd[0..BS], 36, 1000);
    stamp(&mut odd[0..BS]);
    let r = Container::open(MemDevice::new(odd), u64::MAX);
    assert_eq!(r.err().unwrap().kind(), ErrorKind::Corrupt);

    let mut empty = build_container(false, false);
    put_u32(&mut empty[0..BS], 104, 0);
    stamp(&mut empty[0..BS]);
    let r = Container::open(MemDevice::new(empty), u64::MAX);
    assert_eq!(r.err().unwrap().kind(), ErrorKind::Corrupt);

    let r = Container::open(MemDevice::new(build_container(false, false)), 6);
    assert_eq!(r.err().unwrap().kind(), ErrorKind::Corrupt);

    let r = Container::open(MemDevice::new(vec![0u8; 100]), u64::MAX);
    assert_eq!(r.err().unwrap().kind(), ErrorKind::Io);
}

#[test]
fn volume_missing_from_the_object_map_is_not_found() {
    let mut img = build_container(false, false);
    for blk in [0usize, 2] {
        put_u64(&mut img[blk * BS..(blk + 1) * BS], 184, 0x999);
        stamp(&mut img[blk * BS..(blk + 1) * BS]);
    }
    let c = open(img);
    assert_eq!(c.volume_superblock(1).unwrap_err().kind(), ErrorKind::ObjectNotFound);
    assert_eq!(c.volume_superblock(0).unwrap_err().kind(), ErrorKind::Usage);
}

#[test]
fn recover_needs_a_target_and_folders_an_output() {
    assert_eq!(recover_target(true, Some(5)).unwrap(), RecoverTarget::ByPath);
    assert_eq!(recover_target(false, Some(5)).unwrap(), RecoverTarget::ByFsoid(5));
    let e = recover_target(false, None).unwrap_err();
    assert_eq!(e.kind(), ErrorKind::Usage);
    assert_eq!(e.message, "`recover` needs `--path <p>` or `--fsoid <id>`");
    let out = Some("dest".to_string());
    assert_eq!(folder_output(&out).unwrap(), "dest");
    let e = folder_output(&None).unwrap_err();
    assert_eq!(e.kind(), ErrorKind::Usage);
    assert_eq!(e.message, "folder recovery requires `--output <dir>`");
}

#[test]
fn inode_kinds_and_volume_listing() {
    let c = open(build_container(false, false));
    let vol = Volume::open(&c, 1).unwrap();
    let mut bt = vol.btree();
    for (oid, kind) in [(ROOT, "dir"), (HELLO, "file"), (LINK, "symlink")] {
        let recs = vol.records(&mut bt, oid).unwrap();
        let ino = Volume::<MemDevice>::inode_from_records(&recs).unwrap().unwrap();
        assert_eq!(ino.kind_name(), kind);
    }
    let slots = c.list_volumes().unwrap();
    assert_eq!(slots.len(), 1);
    assert_eq!(slots[0].index, 1);
    assert_eq!(slots[0].apsb.magic, 0x4253_5041);
    assert_eq!(c.volume_superblock(1).unwrap().magic, 0x4253_5041);
}

#[test]
fn batch_recovery_needs_a_selection_and_a_plaintext_volume() {
    assert!(batch_precheck(2, false).is_ok());
    assert_eq!(batch_precheck(0, false).unwrap_err().kind(), ErrorKind::Usage);
    assert_eq!(batch_precheck(0, true).unwrap_err().kind(), ErrorKind::Usage);
    assert_eq!(batch_precheck(1, true).unwrap_err().kind(), ErrorKind::EncryptedUnsupported);
}

#[test]
fn batch_targets_follow_what_each_path_names() {
    let c = open(build_container(false, false));
    let vol = Volume::open(&c, 1).unwrap();
    let mut bt = vol.btree();
    match batch_target(&vol, &mut bt, "/docs") {
        BatchTarget::Folder(fsoid, plan) => {
            assert_eq!(fsoid, DOCS);
            assert_eq!(plan.len(), plan_folder(&vol, &mut bt, DOCS).len());
            assert!(!plan.is_empty());
        }
        _ => panic!("a directory is recovered as a folder"),
    }
    match batch_target(&vol, &mut bt, "/hello.txt") {
        BatchTarget::Object(fsoid, ino, recs) => {
            assert_eq!(fsoid, HELLO);
            assert_eq!(ino.logical_size(), Some(5));
            assert_eq!(recs.len(), 2);
        }
        _ => panic!("a file is recovered as a single object"),
    }
    match batch_target(&vol, &mut bt, "/missing") {
        BatchTarget::Failed(e) => assert_eq!(e.kind(), ErrorKind::PathNotFound),
        _ => panic!("a missing path is a failed result"),
    }
    match batch_target(&vol, &mut bt, "docs") {
        BatchTarget::Failed(e) => assert_eq!(e.kind(), ErrorKind::Usage),
        _ => panic!("a relative path is a failed result"),
    }
}

#[test]
fn recoverability_reports_the_inode_size() {
    let c = open(build_container(false, false));
    let vol = Volume::open(&c, 1).unwrap();
    let mut bt = vol.btree();
    let recs = vol.records(&mut bt, HELLO).unwrap();
    let ino = Volume::<MemDevice>::inode_from_records(&recs).unwrap().unwrap();
    let (status, size, has) = recoverability(false, &ino, &recs).unwrap();
    assert_eq!(status, RecoverStatus::Recoverable);
    assert_eq!(size, 5);
    assert!(has);
    let (status, size, has) = recoverability(true, &ino, &recs).unwrap();
    assert_eq!(status, RecoverStatus::Encrypted);
    assert_eq!(size, 0);
    assert!(!has);
    let link = vol.records(&mut bt, LINK).unwrap();
    let lino = Volume::<MemDevice>::inode_from_records(&link).unwrap().unwrap();
    assert_eq!(recoverability(false, &lino, &link).unwrap(), (RecoverStatus::Symlink, 0, false));
    // The file's inode over records that hold no extent: nothing backs its bytes.
    let bare = vec![recs[0].clone()];
    assert_eq!(recoverability(false, &ino, &bare).unwrap(), (RecoverStatus::NoExtents, 5, false));
}

#[test]
fn stat_records_summarise_types_xattrs_and_extents() {
    let c = open(build_container(false, false));
    let vol = Volume::open(&c, 1).unwrap();
    let mut bt = vol.btree();
    let recs = vol.records(&mut bt, HELLO).unwrap();
    let st = stat_records(&recs).unwrap();
    assert_eq!(st.kinds, vec![(jrec::APFS_TYPE_INODE, 8, 92), (jrec::APFS_TYPE_FILE_EXTENT, 16, 24)]);
    assert!(st.xattrs.is_empty());
    assert_eq!(st.extents.len(), 1);
    assert_eq!(st.extents[0].logical_addr, 0);
    assert_eq!(st.extents[0].len, BS as u64);
    assert_eq!(st.extents[0].phys_block_num, 9);
    let link = vol.records(&mut bt, LINK).unwrap();
    let st = stat_records(&link).unwrap();
    assert_eq!(st.xattrs.len(), 1);
    assert_eq!(st.xattrs[0].name, "com.apple.fs.symlink");
    assert!(st.extents.is_empty());
    let mut short = recs.clone();
    short[0].key.truncate(4);
    assert_eq!(stat_records(&short).unwrap_err().kind(), ErrorKind::Corrupt);
}

#[test]
fn offset_window_reads_inside_and_refuses_outside() {
    let mem = MemDevice::new(vec![1, 2, 3, 4, 5]);
    let win = OffsetDevice::new(&mem, 1, 3);
    assert_eq!(win.size(), 3);
    let mut buf = [0u8; 2];
    win.read_at(1, &mut buf).unwrap();
    assert_eq!(buf, [3, 4]);
    assert_eq!(win.read_at(2, &mut buf).unwrap_err().kind(), ErrorKind::Io);
    let mut empty: [u8; 0] = [];
    assert!(win.read_at(10, &mut empty).is_ok());
}

#[test]
fn verify_names_why_a_selected_volume_did_not_open() {
    let img = MemDevice::new(build_container(false, false));
    let opened = source::open(&img, ImageKind::RawFile, PartitionSelector::Auto, None, u64::MAX).unwrap();
    let zero = parse(&["--volume".into(), "0".into()]).unwrap();
    let (report, warnings) = verify_report(&opened, &zero).unwrap();
    assert_eq!(report.len(), 4);
    assert_eq!(report[3].name, "volume_open");
    assert!(!report[3].ok);
    let why = open_volume_view(&opened, &zero).err().unwrap();
    assert_eq!(why.kind(), ErrorKind::Usage);
    assert_eq!(report[3].detail.as_deref(), Some(why.to_display_string().as_str()));
    assert_eq!(warnings, opened.container.warnings);
}
