//! `Volume` — load a volume's object map and filesystem tree, and provide the
//! record access used by every filesystem command.
use vstd::prelude::*;

use super::btree::{fs_record_loads, fs_records, omap_lookup, records_view, BtreeReader, Lookup, read_failure, Record, MAX_FS_RECORDS, MAX_NODE_LOADS};
use super::container::Container;
use super::extract::{self, file_layout, sort_by_addr, ByteSink, Written};
use super::feature;
use super::jrec::{
    self, dir_rec_is, dir_rec_parses, file_extent_of, file_extent_parses, inode_is, inode_parses, key_type,
    xattr_data, xattr_flags, xattr_name, xattr_parses, DirRec, FileExtent, Inode, Xattr, XATTR_DATA_EMBEDDED,
};
use super::omap::{omap_phys_of, OmapPhys};
use super::obj::{OBJ_PHYSICAL, OBJ_STORAGETYPE_MASK};
use super::raw::{self, cstr_text, le_at};
use super::volume::{apsb_matches, ApfsSuperblock, APFS_MAGIC, APSB_PARSE_LEN, APFS_SUPPORTED_INCOMPAT_MASK};
use crate::device::{block_bytes, BlockDevice};
use crate::error::{err, not_found_obj, unsupported, ErrorKind, Result};
use crate::text;

verus! {

/// xattr name that stores a symlink's target path.
pub const SYMLINK_XATTR: &'static str = "com.apple.fs.symlink";

/// The physical root of a volume's object-map B-tree: the object map at
/// `omap_oid` must be readable and name a physical tree.
pub open spec fn volume_omap_tree(c: Seq<u8>, bs: int, omap_oid: u64) -> Option<u64> {
    match block_bytes(c, omap_oid as int, bs) {
        None => None,
        Some(b) => if b.len() < 72 {
            None
        } else if omap_phys_of(b).tree_type & OBJ_STORAGETYPE_MASK != OBJ_PHYSICAL {
            None
        } else {
            Some(omap_phys_of(b).tree_oid)
        },
    }
}

/// An opened volume (live view or a snapshot view).
pub struct Volume<'a, D: BlockDevice + ?Sized> {
    pub dev: &'a D,
    pub block_size: u32,
    pub apsb: ApfsSuperblock,
    /// Physical block of the volume object-map B-tree root.
    pub omap_tree_root: u64,
    /// Physical block of the filesystem root B-tree.
    pub root_tree_root: u64,
    /// XID context for resolving virtual OIDs through the volume omap.
    pub max_xid: u64,
    pub warnings: Vec<String>,
}

impl<'a, D: BlockDevice> Volume<'a, D> {
    /// Open the live view of volume `index` within `container`: its
    /// superblock, resolved at the volume's own xid and root tree.
    pub fn open(container: &'a Container<D>, index: u32) -> (r: Result<Volume<'a, D>>)
        requires
            container.wf(),
        ensures
            r matches Ok(v) ==> {
                &&& v.wf()
                &&& v.dev == &container.dev
                &&& v.block_size == container.block_size
                &&& omap_lookup(
                    container.dev.contents(),
                    container.block_size as int,
                    container.nx_omap_tree_root,
                    container.nx.fs_oids@[index - 1],
                    container.nx.xid,
                ) matches Lookup::Found(e) && block_bytes(container.dev.contents(), e.val.paddr as int, container.block_size as int)
                    matches Some(b) && apsb_matches(v.apsb, b)
                &&& v.max_xid == v.apsb.xid
                &&& volume_opens(container.dev.contents(), container.block_size as int, v, v.apsb.xid, v.apsb.root_tree_oid)
                &&& container.volume_block(index as int) matches Some(b) && apsb_matches(v.apsb, b)
            },
            (index < 1 || index > container.nx.fs_oids@.len()) ==> (r matches Err(e) && e.kind == ErrorKind::Usage),
            (1 <= index <= container.nx.fs_oids@.len() && container.nx.fs_oids@[index - 1] == 0) ==> (r matches Err(e)
                && e.kind == ErrorKind::ObjectNotFound),
            (1 <= index <= container.nx.fs_oids@.len() && container.nx.fs_oids@[index - 1] != 0 && omap_lookup(
                container.dev.contents(),
                container.block_size as int,
                container.nx_omap_tree_root,
                container.nx.fs_oids@[index - 1],
                container.nx.xid,
            ) !is Found) ==> r is Err,
            !container.dev.fallible() && 1 <= index <= container.nx.fs_oids@.len() && container.nx.fs_oids@[index - 1]
                != 0 && (omap_lookup(
                container.dev.contents(),
                container.block_size as int,
                container.nx_omap_tree_root,
                container.nx.fs_oids@[index - 1],
                container.nx.xid,
            ) matches Lookup::Found(e) && block_bytes(container.dev.contents(), e.val.paddr as int, container.block_size as int)
                matches Some(b) && superblock_opens(container.dev.contents(), container.block_size as int, b)) ==> r is Ok,
    {
        let apsb = container.volume_superblock(index)?;
        let xid = apsb.xid;
        let root_tree_oid = apsb.root_tree_oid;
        Self::open_from_superblock(&container.dev, container.block_size, apsb, xid, root_tree_oid)
    }
}

/// Block `b` holds a whole volume superblock, with its magic, that names no
/// unsupported incompatible feature, whose object map is a readable physical
/// tree, and whose filesystem root tree that map finds at the volume's xid.
pub open spec fn superblock_opens(c: Seq<u8>, bs: int, b: Seq<u8>) -> bool {
    &&& b.len() >= APSB_PARSE_LEN
    &&& le_at(b, 32, 4) == APFS_MAGIC
    &&& (le_at(b, 56, 8) as u64) & !APFS_SUPPORTED_INCOMPAT_MASK == 0
    &&& volume_omap_tree(c, bs, le_at(b, 128, 8) as u64) matches Some(t) && omap_lookup(
        c,
        bs,
        t,
        le_at(b, 136, 8) as u64,
        le_at(b, 16, 8) as u64,
    ) is Found
}

/// `v` is the view of its superblock's volume whose filesystem root tree
/// `root_tree_oid` is resolved through the volume object map at `max_xid`.
pub open spec fn volume_opens<'a, D: BlockDevice + ?Sized>(c: Seq<u8>, bs: int, v: Volume<'a, D>, max_xid: u64, root_tree_oid: u64) -> bool {
    &&& v.apsb.incompatible_features & !APFS_SUPPORTED_INCOMPAT_MASK == 0
    &&& volume_omap_tree(c, bs, v.apsb.omap_oid) == Some(v.omap_tree_root)
    &&& omap_lookup(c, bs, v.omap_tree_root, root_tree_oid, max_xid) matches Lookup::Found(e)
        && v.root_tree_root == e.val.paddr
    &&& v.max_xid == max_xid
}

/// The index of the first record of type `t` in `recs` from `i` on (`None`
/// inside when there is none); `None` when a key before it is shorter than
/// 8 bytes.
pub open spec fn first_of_type(recs: Seq<(Seq<u8>, Seq<u8>)>, t: u8, i: int) -> Option<Option<int>>
    decreases recs.len() - i,
{
    if i >= recs.len() {
        Some(None)
    } else if recs[i].0.len() < 8 {
        None
    } else if key_type(recs[i].0) == t {
        Some(Some(i))
    } else {
        first_of_type(recs, t, i + 1)
    }
}

/// The indices of the directory records among `recs` from `i` on; `None`
/// when a key is shorter than 8 bytes or a directory record does not parse.
pub open spec fn dir_record_indices(recs: Seq<(Seq<u8>, Seq<u8>)>, i: int) -> Option<Seq<int>>
    decreases recs.len() - i,
{
    if i >= recs.len() {
        Some(Seq::empty())
    } else if recs[i].0.len() < 8 {
        None
    } else if key_type(recs[i].0) == jrec::APFS_TYPE_DIR_REC {
        if dir_rec_parses(recs[i].0, recs[i].1) {
            match dir_record_indices(recs, i + 1) {
                Some(rest) => Some(seq![i] + rest),
                None => None,
            }
        } else {
            None
        }
    } else {
        dir_record_indices(recs, i + 1)
    }
}

/// The file extents among `recs` from `i` on, in record order; `None` when a
/// key is shorter than 8 bytes or an extent record does not parse.
pub open spec fn extents_of(recs: Seq<(Seq<u8>, Seq<u8>)>, i: int) -> Option<Seq<FileExtent>>
    decreases recs.len() - i,
{
    if i >= recs.len() {
        Some(Seq::empty())
    } else if recs[i].0.len() < 8 {
        None
    } else if key_type(recs[i].0) == jrec::APFS_TYPE_FILE_EXTENT {
        if file_extent_parses(recs[i].0, recs[i].1) {
            match extents_of(recs, i + 1) {
                Some(rest) => Some(seq![file_extent_of(recs[i].0, recs[i].1)] + rest),
                None => None,
            }
        } else {
            None
        }
    } else {
        extents_of(recs, i + 1)
    }
}

/// The file-extent records among `recs` from `i` on, in order.
pub open spec fn file_extent_records(recs: Seq<(Seq<u8>, Seq<u8>)>, i: int) -> Seq<(Seq<u8>, Seq<u8>)>
    decreases recs.len() - i,
{
    if i >= recs.len() || i < 0 {
        Seq::empty()
    } else if recs[i].0.len() >= 8 && key_type(recs[i].0) == jrec::APFS_TYPE_FILE_EXTENT {
        seq![recs[i]] + file_extent_records(recs, i + 1)
    } else {
        file_extent_records(recs, i + 1)
    }
}

/// The extents a file's data is written from are its file-extent records,
/// in order, each parsed; they are read whenever every record key has an
/// object id and type and every file-extent record parses.
pub proof fn file_data_reads_file_extent_records(recs: Seq<(Seq<u8>, Seq<u8>)>, i: int)
    requires
        0 <= i,
    ensures
        extents_of(recs, i) matches Some(ex) ==> ex == file_extent_records(recs, i).map_values(
            |r: (Seq<u8>, Seq<u8>)| file_extent_of(r.0, r.1),
        ),
        extents_of(recs, i) is Some <==> forall|k: int|
            i <= k < recs.len() ==> #[trigger] recs[k].0.len() >= 8 && (key_type(recs[k].0) == jrec::APFS_TYPE_FILE_EXTENT
                ==> file_extent_parses(recs[k].0, recs[k].1)),
    decreases recs.len() - i,
{
    if i < recs.len() {
        file_data_reads_file_extent_records(recs, i + 1);
        let f = |r: (Seq<u8>, Seq<u8>)| file_extent_of(r.0, r.1);
        if let Some(ex) = extents_of(recs, i) {
            if recs[i].0.len() >= 8 && key_type(recs[i].0) == jrec::APFS_TYPE_FILE_EXTENT {
                let rest = file_extent_records(recs, i + 1);
                assert((seq![recs[i]] + rest).map_values(f) =~= seq![f(recs[i])] + rest.map_values(f));
            }
        }
        if forall|k: int|
            i <= k < recs.len() ==> #[trigger] recs[k].0.len() >= 8 && (key_type(recs[k].0) == jrec::APFS_TYPE_FILE_EXTENT
                ==> file_extent_parses(recs[k].0, recs[k].1)) {
            assert forall|k: int|
                i + 1 <= k < recs.len() implies #[trigger] recs[k].0.len() >= 8 && (key_type(recs[k].0)
                == jrec::APFS_TYPE_FILE_EXTENT ==> file_extent_parses(recs[k].0, recs[k].1)) by {}
            assert(recs[i].0.len() >= 8);
        }
        if extents_of(recs, i) is Some {
            assert forall|k: int|
                i <= k < recs.len() implies #[trigger] recs[k].0.len() >= 8 && (key_type(recs[k].0)
                == jrec::APFS_TYPE_FILE_EXTENT ==> file_extent_parses(recs[k].0, recs[k].1)) by {
                if k == i {
                } else {
                    assert(extents_of(recs, i + 1) is Some);
                }
            }
        }
    }
}

/// The embedded symlink-target attribute among `recs` from `i` on: the
/// index of the first extended attribute named `com.apple.fs.symlink` whose
/// data is embedded; `None` when a key is shorter than 8 bytes or an
/// attribute before it does not parse.
pub open spec fn symlink_record(recs: Seq<(Seq<u8>, Seq<u8>)>, i: int) -> Option<Option<int>>
    decreases recs.len() - i,
{
    if i >= recs.len() {
        Some(None)
    } else if recs[i].0.len() < 8 {
        None
    } else if key_type(recs[i].0) == jrec::APFS_TYPE_XATTR {
        if !xattr_parses(recs[i].0, recs[i].1) {
            None
        } else if xattr_name(recs[i].0) == SYMLINK_XATTR@ && xattr_flags(recs[i].1) & XATTR_DATA_EMBEDDED != 0 {
            Some(Some(i))
        } else {
            symlink_record(recs, i + 1)
        }
    } else {
        symlink_record(recs, i + 1)
    }
}

pub(crate) proof fn lemma_first_of_type_in_range(recs: Seq<(Seq<u8>, Seq<u8>)>, t: u8, i: int)
    requires
        0 <= i,
    ensures
        first_of_type(recs, t, i) matches Some(Some(k)) ==> i <= k < recs.len(),
    decreases recs.len() - i,
{
    if i < recs.len() {
        lemma_first_of_type_in_range(recs, t, i + 1);
    }
}

/// The record type of `rec`'s key.
fn record_type(rec: &Record) -> (r: Result<u8>)
    ensures
        match r {
            Ok(t) => rec.key@.len() >= 8 && t == key_type(rec.key@),
            Err(e) => rec.key@.len() < 8 && e.kind == ErrorKind::Corrupt,
        },
{
    let (_oid, ty) = jrec::key_obj_id_and_type(rec.key.as_slice())?;
    Ok(ty)
}

impl<'a, D: BlockDevice + ?Sized> Volume<'a, D> {
    /// A volume reads whole blocks.
    pub open spec fn wf(&self) -> bool {
        self.block_size > 0
    }

    /// Open a view given an already-parsed volume superblock. `max_xid` is
    /// the object-map resolution context (the volume xid for the live view,
    /// or a snapshot xid); `root_tree_oid` is the virtual OID of the
    /// filesystem root tree to resolve (the volume's own, or a snapshot's).
    pub fn open_from_superblock(
        dev: &'a D,
        block_size: u32,
        apsb: ApfsSuperblock,
        max_xid: u64,
        root_tree_oid: u64,
    ) -> (r: Result<Volume<'a, D>>)
        ensures
            r matches Ok(v) ==> {
                &&& v.wf()
                &&& v.dev == dev
                &&& v.block_size == block_size
                &&& v.apsb == apsb
                &&& volume_opens(dev.contents(), block_size as int, v, max_xid, root_tree_oid)
            },
            apsb.incompatible_features & !APFS_SUPPORTED_INCOMPAT_MASK != 0 ==> (r matches Err(e) && e.kind
                == ErrorKind::UnsupportedFeature),
            volume_omap_tree(dev.contents(), block_size as int, apsb.omap_oid) is None ==> r is Err,
            (volume_omap_tree(dev.contents(), block_size as int, apsb.omap_oid) matches Some(t) && omap_lookup(
                dev.contents(),
                block_size as int,
                t,
                root_tree_oid,
                max_xid,
            ) !is Found) ==> r is Err,
            !dev.fallible() && block_size > 0 && apsb.incompatible_features & !APFS_SUPPORTED_INCOMPAT_MASK == 0 && (
            volume_omap_tree(dev.contents(), block_size as int, apsb.omap_oid) matches Some(t) && omap_lookup(
                dev.contents(),
                block_size as int,
                t,
                root_tree_oid,
                max_xid,
            ) is Found) ==> r is Ok,
    {
        let mut warnings: Vec<String> = Vec::new();
        // Feature gate: errors only on unknown incompatible bits.
        let mut report = feature::check_volume(&apsb)?;
        warnings.append(&mut report.warnings);

        if block_size == 0 {
            return Err(err(ErrorKind::Corrupt, "volume block size is zero"));
        }
        // Volume object map (physical object -> physical B-tree root).
        let omap_blk = dev.read_block(apsb.omap_oid, block_size)?;
        let omap = OmapPhys::parse(omap_blk.as_slice())?;
        if !omap.tree_is_physical() {
            return Err(unsupported(String::from_str("volume omap B-tree is not a physical object")));
        }
        let omap_tree_root = omap.tree_oid;

        // Resolve the (virtual) filesystem root tree through the volume omap.
        let mut bt = BtreeReader::new(dev, block_size);
        let root_entry = match bt.omap_get(omap_tree_root, root_tree_oid, max_xid)? {
            Some(e) => e,
            None => {
                let mut m = String::from_str("filesystem root tree (virtual OID ");
                text::push_str(&mut m, text::hex_prefixed(root_tree_oid).as_str());
                text::push_str(&mut m, ") not in volume omap");
                return Err(not_found_obj(m));
            },
        };
        let mut more = bt.take_warnings();
        warnings.append(&mut more);
        Ok(Volume { dev, block_size, apsb, omap_tree_root, root_tree_root: root_entry.val.paddr, max_xid, warnings })
    }

    /// A B-tree reader bound to this volume's device.
    pub fn btree(&self) -> (r: BtreeReader<'a, D>)
        ensures
            r.wf(),
            r.source() == self.dev.contents(),
            r.bsize() == self.block_size,
            r.warnings_view() == Seq::<String>::empty(),
            r.loads_left() == MAX_NODE_LOADS,
            r.reliable() == !self.dev.fallible(),
    {
        BtreeReader::new(self.dev, self.block_size)
    }

    /// All records for object `oid`, in key order. The volume root tree is
    /// virtual, so child links are resolved through the volume omap.
    pub fn records(&self, bt: &mut BtreeReader<'_, D>, oid: u64) -> (r: Result<Vec<Record>>)
        requires
            old(bt).wf(),
        ensures
            r matches Err(e) ==> read_failure(e.kind),
            final(bt).wf(),
            final(bt).same_source(old(bt)),
            r matches Ok(v) ==> fs_records(
                old(bt).source(),
                old(bt).bsize(),
                Some(self.omap_tree_root),
                self.root_tree_root,
                oid,
                self.max_xid,
            ) == Some(records_view(v@)),
            fs_records(old(bt).source(), old(bt).bsize(), Some(self.omap_tree_root), self.root_tree_root, oid, self.max_xid)
                is None ==> r is Err,
            old(bt).loads_left() - fs_record_loads(old(bt).source(), old(bt).bsize(), Some(self.omap_tree_root), self.root_tree_root, oid, self.max_xid) <= final(bt).loads_left() <= old(bt).loads_left(),
            final(bt).reliable() == old(bt).reliable(),
            (fs_records(old(bt).source(), old(bt).bsize(), Some(self.omap_tree_root), self.root_tree_root, oid, self.max_xid) matches Some(s) && s.len() > MAX_FS_RECORDS) ==> r is Err,
            old(bt).reliable() && old(bt).loads_left() >= fs_record_loads(old(bt).source(), old(bt).bsize(), Some(self.omap_tree_root), self.root_tree_root, oid, self.max_xid) && (fs_records(old(bt).source(), old(bt).bsize(), Some(self.omap_tree_root), self.root_tree_root, oid, self.max_xid) matches Some(s)
                && s.len() <= MAX_FS_RECORDS) ==> r is Ok,
    {
        bt.fs_collect(Some(self.omap_tree_root), self.root_tree_root, oid, self.max_xid)
    }

    /// Parse the inode record (if any) from a record set for one object: the
    /// first record of inode type.
    pub fn inode_from_records(records: &[Record]) -> (r: Result<Option<Inode>>)
        ensures
            r matches Err(e) ==> e.kind == ErrorKind::Corrupt,
            match first_of_type(records_view(records@), jrec::APFS_TYPE_INODE, 0) {
                None => r is Err,
                Some(None) => r matches Ok(None),
                Some(Some(k)) => {
                    &&& r matches Ok(o) ==> (o matches Some(i) && inode_is(i, records@[k].val@))
                    &&& inode_parses(records@[k].val@) <==> r is Ok
                },
            },
    {
        let ghost recs = records_view(records@);
        let mut i: usize = 0;
        while i < records.len()
            invariant
                recs == records_view(records@),
                i <= records@.len(),
                first_of_type(recs, jrec::APFS_TYPE_INODE, 0) == first_of_type(recs, jrec::APFS_TYPE_INODE, i as int),
            decreases records@.len() - i,
        {
            let rec = &records[i];
            let ty = record_type(rec)?;
            if ty == jrec::APFS_TYPE_INODE {
                let inode = Inode::parse(rec.val.as_slice())?;
                return Ok(Some(inode));
            }
            i = i + 1;
        }
        Ok(None)
    }

    /// Look up an object's inode directly.
    pub fn inode(&self, bt: &mut BtreeReader<'_, D>, oid: u64) -> (r: Result<Option<Inode>>)
        requires
            old(bt).wf(),
        ensures
            final(bt).wf(),
            final(bt).same_source(old(bt)),
            r matches Ok(o) ==> (fs_records(
                old(bt).source(),
                old(bt).bsize(),
                Some(self.omap_tree_root),
                self.root_tree_root,
                oid,
                self.max_xid,
            ) matches Some(recs) && match first_of_type(recs, jrec::APFS_TYPE_INODE, 0) {
                None => false,
                Some(None) => o is None,
                Some(Some(k)) => o matches Some(i) && inode_is(i, recs[k].1),
            }),
            fs_records(old(bt).source(), old(bt).bsize(), Some(self.omap_tree_root), self.root_tree_root, oid, self.max_xid)
                is None ==> r is Err,
            old(bt).loads_left() - fs_record_loads(old(bt).source(), old(bt).bsize(), Some(self.omap_tree_root), self.root_tree_root, oid, self.max_xid) <= final(bt).loads_left() <= old(bt).loads_left(),
            final(bt).reliable() == old(bt).reliable(),
            (fs_records(old(bt).source(), old(bt).bsize(), Some(self.omap_tree_root), self.root_tree_root, oid, self.max_xid) matches Some(s) && s.len() > MAX_FS_RECORDS) ==> r is Err,
            (fs_records(old(bt).source(), old(bt).bsize(), Some(self.omap_tree_root), self.root_tree_root, oid, self.max_xid) matches Some(recs) && recs.len() <= MAX_FS_RECORDS && match first_of_type(recs, jrec::APFS_TYPE_INODE, 0) {
                None => true,
                Some(None) => false,
                Some(Some(k)) => !inode_parses(recs[k].1),
            }) ==> r is Err,
            old(bt).reliable() && old(bt).loads_left() >= fs_record_loads(old(bt).source(), old(bt).bsize(), Some(self.omap_tree_root), self.root_tree_root, oid, self.max_xid) && (fs_records(old(bt).source(), old(bt).bsize(), Some(self.omap_tree_root), self.root_tree_root, oid, self.max_xid) matches Some(recs)
                && recs.len() <= MAX_FS_RECORDS && match first_of_type(recs, jrec::APFS_TYPE_INODE, 0) {
                None => false,
                Some(None) => true,
                Some(Some(k)) => inode_parses(recs[k].1),
            }) ==> r is Ok,
    {
        let records = self.records(bt, oid)?;
        proof {
            lemma_first_of_type_in_range(records_view(records@), jrec::APFS_TYPE_INODE, 0);
        }
        Self::inode_from_records(records.as_slice())
    }

    /// List a directory's entries (the `DIR_REC` records of `dir_oid`).
    pub fn list_dir(&self, bt: &mut BtreeReader<'_, D>, dir_oid: u64) -> (r: Result<Vec<DirRec>>)
        requires
            old(bt).wf(),
        ensures
            r matches Err(e) ==> read_failure(e.kind),
            final(bt).wf(),
            final(bt).same_source(old(bt)),
            r matches Ok(v) ==> (fs_records(
                old(bt).source(),
                old(bt).bsize(),
                Some(self.omap_tree_root),
                self.root_tree_root,
                dir_oid,
                self.max_xid,
            ) matches Some(recs) && dir_record_indices(recs, 0) matches Some(idx) && v@.len() == idx.len() && forall|k: int|
                0 <= k < idx.len() ==> dir_rec_is(#[trigger] v@[k], recs[idx[k]].0, recs[idx[k]].1)),
            (fs_records(old(bt).source(), old(bt).bsize(), Some(self.omap_tree_root), self.root_tree_root, dir_oid, self.max_xid)
                matches Some(recs) ==> dir_record_indices(recs, 0) is None) ==> r is Err,
            old(bt).loads_left() - fs_record_loads(old(bt).source(), old(bt).bsize(), Some(self.omap_tree_root), self.root_tree_root, dir_oid, self.max_xid) <= final(bt).loads_left() <= old(bt).loads_left(),
            final(bt).reliable() == old(bt).reliable(),
            (fs_records(old(bt).source(), old(bt).bsize(), Some(self.omap_tree_root), self.root_tree_root, dir_oid, self.max_xid) matches Some(s) && s.len() > MAX_FS_RECORDS) ==> r is Err,
            old(bt).reliable() && old(bt).loads_left() >= fs_record_loads(old(bt).source(), old(bt).bsize(), Some(self.omap_tree_root), self.root_tree_root, dir_oid, self.max_xid) && (fs_records(old(bt).source(), old(bt).bsize(), Some(self.omap_tree_root), self.root_tree_root, dir_oid, self.max_xid) matches Some(
                recs,
            ) && recs.len() <= MAX_FS_RECORDS && dir_record_indices(recs, 0) is Some) ==> r is Ok,
    {
        let records = self.records(bt, dir_oid)?;
        dir_entries(records.as_slice())
    }

    /// Reconstruct a regular file's logical data from its `FILE_EXTENT`
    /// records, writing exactly `file_size` bytes to `writer` (extents sorted
    /// by logical address, sparse holes and gaps zero-filled).
    pub fn write_file_data<W: ByteSink>(&self, records: &[Record], file_size: u64, writer: &mut W) -> (r: Result<Written>)
        requires
            self.wf(),
            records@.len() < 0x4000_0000_0000_0000,
        ensures
            extents_of(records_view(records@), 0) is None ==> r is Err,
            r matches Ok(w) ==> (extents_of(records_view(records@), 0) matches Some(ex) && file_layout(
                self.dev.contents(),
                self.block_size as int,
                sort_by_addr(ex),
                file_size as int,
            ) matches Some(st) && final(writer).written() == old(writer).written() + st.0 && w.bytes == st.1
                && w.holes == st.2 && w.overlaps == st.3 && w.missing == 0),
            (extents_of(records_view(records@), 0) matches Some(ex) && file_layout(
                self.dev.contents(),
                self.block_size as int,
                sort_by_addr(ex),
                file_size as int,
            ) is None) ==> r is Err,
            !self.dev.fallible() && old(writer).infallible() && (extents_of(records_view(records@), 0) matches Some(ex)
                && file_layout(self.dev.contents(), self.block_size as int, sort_by_addr(ex), file_size as int) is Some)
                ==> r is Ok,
            final(writer).infallible() == old(writer).infallible(),
    {
        let ghost recs = records_view(records@);
        let mut extents: Vec<FileExtent> = Vec::new();
        let mut i: usize = 0;
        while i < records.len()
            invariant
                recs == records_view(records@),
                i <= records@.len() < 0x4000_0000_0000_0000,
                extents@.len() <= i,
                extents_of(recs, 0) == match extents_of(recs, i as int) {
                    Some(rest) => Some(extents@ + rest),
                    None => None,
                },
            decreases records@.len() - i,
        {
            let rec = &records[i];
            let ty = record_type(rec)?;
            if ty == jrec::APFS_TYPE_FILE_EXTENT {
                let x = FileExtent::parse(rec.key.as_slice(), rec.val.as_slice())?;
                proof {
                    if let Some(rest) = extents_of(recs, i + 1) {
                        assert(extents@ + (seq![x] + rest) =~= extents@.push(x) + rest);
                    }
                }
                extents.push(x);
            }
            i = i + 1;
        }
        proof {
            assert(extents@ + Seq::<FileExtent>::empty() =~= extents@);
        }
        extract::write_extents(self.dev, self.block_size, &mut extents, file_size, writer)
    }

    /// Extract a symlink's target from its `com.apple.fs.symlink` xattr, if
    /// the records belong to a symlink and the target is stored inline.
    pub fn symlink_target(records: &[Record]) -> (r: Result<Option<String>>)
        ensures
            match symlink_record(records_view(records@), 0) {
                None => r is Err,
                Some(None) => r matches Ok(None),
                Some(Some(k)) => r matches Ok(Some(s)) && s@ == cstr_text(xattr_data(records@[k].val@)),
            },
    {
        let ghost recs = records_view(records@);
        let name = String::from_str(SYMLINK_XATTR);
        let mut i: usize = 0;
        while i < records.len()
            invariant
                recs == records_view(records@),
                name@ == SYMLINK_XATTR@,
                i <= records@.len(),
                symlink_record(recs, 0) == symlink_record(recs, i as int),
            decreases records@.len() - i,
        {
            let rec = &records[i];
            let ty = record_type(rec)?;
            if ty == jrec::APFS_TYPE_XATTR {
                let x = Xattr::parse(rec.key.as_slice(), rec.val.as_slice())?;
                if x.name == name && x.is_embedded() {
                    return Ok(Some(raw::cstr_utf8(x.data.as_slice())));
                }
            }
            i = i + 1;
        }
        Ok(None)
    }
}

/// Each entry of `v` is the directory record at the matching index of `idx`
/// in `recs`.
pub open spec fn entries_match(v: Seq<DirRec>, idx: Seq<int>, recs: Seq<(Seq<u8>, Seq<u8>)>) -> bool {
    &&& v.len() == idx.len()
    &&& forall|k: int| 0 <= k < idx.len() ==> dir_rec_is(#[trigger] v[k], recs[idx[k]].0, recs[idx[k]].1)
}

/// The directory records among `records`, parsed, in order.
fn dir_entries(records: &[Record]) -> (r: Result<Vec<DirRec>>)
    ensures
        r matches Err(e) ==> read_failure(e.kind),
        r matches Ok(v) ==> (dir_record_indices(records_view(records@), 0) matches Some(idx) && v@.len() == idx.len()
            && forall|k: int|
            0 <= k < idx.len() ==> dir_rec_is(
                #[trigger] v@[k],
                records_view(records@)[idx[k]].0,
                records_view(records@)[idx[k]].1,
            )),
        dir_record_indices(records_view(records@), 0) is None ==> r is Err,
        dir_record_indices(records_view(records@), 0) is Some ==> r is Ok,
{
    let ghost recs = records_view(records@);
    let ghost mut acc: Seq<int> = Seq::empty();
    let mut out: Vec<DirRec> = Vec::new();
    let mut i: usize = 0;
    while i < records.len()
        invariant
            recs == records_view(records@),
            i <= records@.len(),
            entries_match(out@, acc, recs),
            forall|k: int| 0 <= k < acc.len() ==> 0 <= #[trigger] acc[k] < i,
            dir_record_indices(recs, 0) == match dir_record_indices(recs, i as int) {
                Some(rest) => Some(acc + rest),
                None => None,
            },
        decreases records@.len() - i,
    {
        let rec = &records[i];
        let ty = record_type(rec)?;
        if ty == jrec::APFS_TYPE_DIR_REC {
            let d = DirRec::parse(rec.key.as_slice(), rec.val.as_slice())?;
            let ghost before = out@;
            out.push(d);
            proof {
                assert(recs[i as int] == (rec.key@, rec.val@));
                if let Some(rest) = dir_record_indices(recs, i + 1) {
                    assert(acc + (seq![i as int] + rest) =~= acc.push(i as int) + rest);
                }
                let nacc = acc.push(i as int);
                assert forall|k: int| 0 <= k < nacc.len() implies dir_rec_is(
                    #[trigger] out@[k],
                    recs[nacc[k]].0,
                    recs[nacc[k]].1,
                ) by {
                    if k < acc.len() {
                        assert(out@[k] == before[k]);
                        assert(nacc[k] == acc[k]);
                    }
                }
                assert forall|k: int| 0 <= k < nacc.len() implies 0 <= #[trigger] nacc[k] < i + 1 by {
                    if k < acc.len() {
                        assert(nacc[k] == acc[k]);
                    }
                }
                acc = nacc;
            }
        }
        i = i + 1;
    }
    proof {
        assert(acc + Seq::<int>::empty() =~= acc);
    }
    Ok(out)
}

} // verus!
