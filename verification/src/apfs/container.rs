//! `Container` — open an APFS container from a [`BlockDevice`], select a valid
//! checkpoint, load the container object map, and enumerate volumes.
use vstd::prelude::*;

use super::btree::{lemma_found_block_size, lemma_prepend_assoc, lemma_prepend_empty, omap_lookup, prepend_some, BtreeReader, Lookup, MAX_NODE_LOADS};
use super::checksum::{self, valid_block};
use super::nx::{cpm_capacity, fs_slot_count, nx_matches, CheckpointMap, NxSuperblock, NX_MAGIC, NX_MAX_FILE_SYSTEMS, NX_PARSE_LEN};
use super::obj::{ObjPhys, OBJECT_TYPE_CHECKPOINT_MAP, OBJECT_TYPE_MASK, OBJECT_TYPE_NX_SUPERBLOCK, OBJ_PHYSICAL, OBJ_STORAGETYPE_MASK};
use super::omap::{omap_phys_of, OmapPhys};
use super::raw::le_at;
use super::volume::{apsb_matches, ApfsSuperblock, APFS_MAGIC, APSB_PARSE_LEN};
use crate::device::{block_bytes, device_failure, BlockDevice};
use crate::error::{corrupt, err, not_found_obj, unsupported, Error, ErrorKind, Result};
use crate::text;

verus! {

/// Bytes read from block 0 to learn the container's block size.
pub const APFS_MIN_BLOCK_SIZE: usize = 4096;

/// The first [`APFS_MIN_BLOCK_SIZE`] bytes of a device holding `c`.
pub open spec fn boot_block(c: Seq<u8>) -> Seq<u8> {
    c.subrange(0, 4096)
}

/// A block size the container may use: a power of two from 4 KiB to 64 KiB.
pub open spec fn plausible_block_size(bs: u32) -> bool {
    bs == 4096 || bs == 8192 || bs == 16384 || bs == 32768 || bs == 65536
}

/// The number of blocks of a checkpoint descriptor area whose stored count
/// is `raw` (the top bit flags a tree layout).
pub open spec fn desc_total(raw: u32) -> int {
    (raw % 0x8000_0000) as int
}

/// Descriptor slot `i` (block `base + i`) holds a checksum-valid container
/// superblock with the NXSB magic and an xid no greater than `max_xid`: that
/// xid.
pub open spec fn candidate_xid(c: Seq<u8>, bs: int, base: int, i: int, max_xid: u64) -> Option<u64> {
    match block_bytes(c, base + i, bs) {
        None => None,
        Some(b) => if valid_block(b) && b.len() >= NX_PARSE_LEN && (le_at(b, 24, 4) as u32) & OBJECT_TYPE_MASK
            == OBJECT_TYPE_NX_SUPERBLOCK && le_at(b, 32, 4) == NX_MAGIC && le_at(b, 16, 8) <= max_xid {
            Some(le_at(b, 16, 8) as u64)
        } else {
            None
        },
    }
}

/// The physical root of the object-map B-tree of a container superblock
/// whose object map is at `omap_oid`: the map must be readable, name a
/// physical tree, and the tree root must be readable.
pub open spec fn container_omap_root(c: Seq<u8>, bs: int, omap_oid: u64) -> Option<u64> {
    match block_bytes(c, omap_oid as int, bs) {
        None => None,
        Some(b) => if b.len() < 72 {
            None
        } else {
            let o = omap_phys_of(b);
            if o.tree_type & OBJ_STORAGETYPE_MASK != OBJ_PHYSICAL {
                None
            } else if block_bytes(c, o.tree_oid as int, bs) is None {
                None
            } else {
                Some(o.tree_oid)
            }
        },
    }
}

/// Ring slot of the `k`-th checkpoint-map block of a checkpoint whose maps
/// start at `index` in a descriptor area of `total` blocks.
pub open spec fn map_slot(index: u32, k: int, total: int) -> int {
    (index + k) % (if total > 0 { total } else { 1 })
}

/// Descriptor slot `slot` is readable, and if it validates as a checkpoint
/// map, its entry count fits the block.
pub open spec fn map_block_ok(c: Seq<u8>, bs: int, base: int, slot: int) -> bool {
    match block_bytes(c, base + slot, bs) {
        None => false,
        Some(b) => (valid_block(b) && b.len() >= 32 && (le_at(b, 24, 4) as u32) & OBJECT_TYPE_MASK
            == OBJECT_TYPE_CHECKPOINT_MAP) ==> (b.len() >= 40 && le_at(b, 36, 4) <= cpm_capacity(b.len())),
    }
}

/// Every checkpoint-map block of the checkpoint (`desc_len` blocks from
/// `desc_index`, wrapping round the descriptor ring) is [`map_block_ok`].
pub open spec fn checkpoint_maps_valid(c: Seq<u8>, bs: int, base: int, desc_index: u32, desc_len: u32, desc_blocks_raw: u32) -> bool {
    let total = desc_total(desc_blocks_raw);
    let n = if desc_len < total { desc_len as int } else { total };
    forall|k: int| 0 <= k < n ==> #[trigger] map_block_ok(c, bs, base, map_slot(desc_index, k, total))
}

/// The superblock in descriptor slot `i` leads to a usable checkpoint: its
/// object map loads and its checkpoint maps are valid.
pub open spec fn checkpoint_loads(c: Seq<u8>, bs: int, base: int, i: int) -> bool {
    match block_bytes(c, base + i, bs) {
        None => false,
        Some(b) => container_omap_root(c, bs, le_at(b, 160, 8) as u64) is Some && checkpoint_maps_valid(
            c,
            bs,
            base,
            le_at(b, 136, 4) as u32,
            le_at(b, 140, 4) as u32,
            le_at(b, 104, 4) as u32,
        ),
    }
}

/// Candidate `(x, i)` (xid, slot) is tried before `(y, j)`: newer xid first,
/// lower slot first among equal xids.
pub open spec fn tried_before(x: u64, i: int, y: u64, j: int) -> bool {
    x > y || (x == y && i < j)
}

/// Slot `j` appears among the candidates `s` (slot, xid).
pub open spec fn in_cands(s: Seq<(u32, u64)>, j: int) -> bool {
    exists|k: int| 0 <= k < s.len() && #[trigger] s[k].0 == j
}

/// The number of the first `j` slots of the descriptor area at `base` whose
/// block cannot be read.
pub open spec fn unreadable_slots(c: Seq<u8>, bs: int, base: int, j: int) -> nat
    decreases j,
{
    if j <= 0 {
        0
    } else {
        unreadable_slots(c, bs, base, j - 1) + if block_bytes(c, base + j - 1, bs) is None {
            1nat
        } else {
            0nat
        }
    }
}

/// The number of the first `j` descriptor slots holding a candidate that is
/// tried before the one in slot `i` with xid `x`.
pub open spec fn candidates_before(c: Seq<u8>, bs: int, base: int, max_xid: u64, x: u64, i: int, j: int) -> nat
    decreases j,
{
    if j <= 0 {
        0
    } else {
        candidates_before(c, bs, base, max_xid, x, i, j - 1) + if (candidate_xid(c, bs, base, j - 1, max_xid) matches Some(y)
            && tried_before(y, j - 1, x, i)) {
            1nat
        } else {
            0nat
        }
    }
}

/// The number of the first `j` descriptor slots holding a candidate that is
/// no longer among `s`.
spec fn dropped_candidates(c: Seq<u8>, bs: int, base: int, max_xid: u64, s: Seq<(u32, u64)>, j: int) -> nat
    decreases j,
{
    if j <= 0 {
        0
    } else {
        dropped_candidates(c, bs, base, max_xid, s, j - 1) + if candidate_xid(c, bs, base, j - 1, max_xid) is Some
            && !in_cands(s, j - 1) {
            1nat
        } else {
            0nat
        }
    }
}

proof fn lemma_none_dropped(c: Seq<u8>, bs: int, base: int, max_xid: u64, s: Seq<(u32, u64)>, j: int)
    requires
        forall|k: int| 0 <= k < j && #[trigger] candidate_xid(c, bs, base, k, max_xid) is Some ==> in_cands(s, k),
    ensures
        dropped_candidates(c, bs, base, max_xid, s, j) == 0,
    decreases j,
{
    if j > 0 {
        lemma_none_dropped(c, bs, base, max_xid, s, j - 1);
    }
}

proof fn lemma_drop_one(c: Seq<u8>, bs: int, base: int, max_xid: u64, s: Seq<(u32, u64)>, t: Seq<(u32, u64)>, idx: int, j: int)
    requires
        forall|k: int| in_cands(t, k) <==> (in_cands(s, k) && k != idx),
        candidate_xid(c, bs, base, idx, max_xid) is Some,
        in_cands(s, idx),
    ensures
        dropped_candidates(c, bs, base, max_xid, t, j) == dropped_candidates(c, bs, base, max_xid, s, j) + if 0 <= idx < j {
            1nat
        } else {
            0nat
        },
    decreases j,
{
    if j > 0 {
        lemma_drop_one(c, bs, base, max_xid, s, t, idx, j - 1);
        assert(in_cands(t, j - 1) <==> (in_cands(s, j - 1) && j - 1 != idx));
    }
}

proof fn lemma_dropped_are_before(c: Seq<u8>, bs: int, base: int, max_xid: u64, s: Seq<(u32, u64)>, x: u64, i: int, j: int)
    requires
        forall|k: int|
            0 <= k < j ==> ((#[trigger] candidate_xid(c, bs, base, k, max_xid) is Some && !in_cands(s, k)) <==> (candidate_xid(
                c,
                bs,
                base,
                k,
                max_xid,
            ) matches Some(y) && tried_before(y, k, x, i))),
    ensures
        dropped_candidates(c, bs, base, max_xid, s, j) == candidates_before(c, bs, base, max_xid, x, i, j),
    decreases j,
{
    if j > 0 {
        lemma_dropped_are_before(c, bs, base, max_xid, s, x, i, j - 1);
        assert((candidate_xid(c, bs, base, j - 1, max_xid) is Some && !in_cands(s, j - 1)) <==> (candidate_xid(
            c,
            bs,
            base,
            j - 1,
            max_xid,
        ) matches Some(y) && tried_before(y, j - 1, x, i)));
    }
}

/// A successfully opened APFS container at a chosen checkpoint.
pub struct Container<D: BlockDevice> {
    pub dev: D,
    pub block_size: u32,
    /// The selected (valid) container superblock.
    pub nx: NxSuperblock,
    /// Physical block address of the container object-map B-tree root.
    pub nx_omap_tree_root: u64,
    /// XID of the selected checkpoint.
    pub checkpoint_xid: u64,
    /// Index of the selected superblock within the checkpoint descriptor area.
    pub checkpoint_index: u32,
    /// Non-fatal warnings accumulated while opening.
    pub warnings: Vec<String>,
}

/// Read a container superblock's object map and return the physical block of
/// its B-tree root, which is read once so a bad address fails here.
fn load_container_omap<D: BlockDevice>(dev: &D, block_size: u32, nx: &NxSuperblock) -> (r: Result<u64>)
    requires
        block_size > 0,
    ensures
        r matches Ok(root) ==> container_omap_root(dev.contents(), block_size as int, nx.omap_oid) == Some(root),
        container_omap_root(dev.contents(), block_size as int, nx.omap_oid) is None ==> r is Err,
        !dev.fallible() && container_omap_root(dev.contents(), block_size as int, nx.omap_oid) is Some ==> r is Ok,
{
    let blk = dev.read_block(nx.omap_oid, block_size)?;
    let omap = OmapPhys::parse(blk.as_slice())?;
    if !omap.tree_is_physical() {
        return Err(unsupported(String::from_str("container omap B-tree is not a physical object")));
    }
    let _root = dev.read_block(omap.tree_oid, block_size)?;
    Ok(omap.tree_oid)
}

/// Validate the checkpoint-map blocks referenced by `nx`: each must be
/// readable, and those that validate as checkpoint maps must be well formed.
fn validate_checkpoint_maps<D: BlockDevice>(dev: &D, block_size: u32, nx: &NxSuperblock, xp_desc_base: i64) -> (r: Result<()>)
    requires
        block_size > 0,
        xp_desc_base > 0,
    ensures
        r is Ok ==> checkpoint_maps_valid(dev.contents(), block_size as int, xp_desc_base as int, nx.xp_desc_index, nx.xp_desc_len, nx.xp_desc_blocks_raw),
        !dev.fallible() && checkpoint_maps_valid(dev.contents(), block_size as int, xp_desc_base as int, nx.xp_desc_index, nx.xp_desc_len, nx.xp_desc_blocks_raw) ==> r is Ok,
{
    let ghost c = dev.contents();
    let ghost bs = block_size as int;
    let ghost base = xp_desc_base as int;
    let len = nx.xp_desc_len;
    if len == 0 {
        return Ok(());
    }
    let total = nx.xp_desc_blocks();
    let ghost tot = desc_total(nx.xp_desc_blocks_raw);
    let n: u32 = if len < total { len } else { total };
    let modulus: u64 = if total > 0 { total as u64 } else { 1 };
    let base_u = xp_desc_base as u64;
    assert(base_u == base);
    let mut k: u32 = 0;
    while k < n
        invariant
            k <= n,
            tot == total,
            tot == desc_total(nx.xp_desc_blocks_raw),
            n == (if nx.xp_desc_len < tot { nx.xp_desc_len as int } else { tot }),
            modulus == (if tot > 0 { tot } else { 1 }),
            0 < base < 0x8000_0000_0000_0000,
            base_u == base,
            base == xp_desc_base as int,
            bs == block_size > 0,
            c == dev.contents(),
            forall|j: int| 0 <= j < k ==> #[trigger] map_block_ok(c, bs, base, map_slot(nx.xp_desc_index, j, tot)),
        decreases n - k,
    {
        let slot = (nx.xp_desc_index as u64 + k as u64) % modulus;
        let ghost ks = k as int;
        assert(slot == map_slot(nx.xp_desc_index, ks, tot));
        let blk = match dev.read_block(base_u + slot, block_size) {
            Ok(b) => b,
            Err(e) => {
                proof {
                    if !dev.fallible() {
                        assert(!map_block_ok(c, bs, base, map_slot(nx.xp_desc_index, ks, tot)));
                    }
                }
                return Err(e);
            },
        };
        if checksum::is_valid(blk.as_slice()) {
            match ObjPhys::parse(blk.as_slice()) {
                Ok(h) => {
                    if h.type_id() == OBJECT_TYPE_CHECKPOINT_MAP {
                        match CheckpointMap::parse(blk.as_slice()) {
                            Ok(_) => {},
                            Err(e) => {
                                proof {
                                    assert(!map_block_ok(c, bs, base, map_slot(nx.xp_desc_index, ks, tot)));
                                }
                                return Err(e);
                            },
                        }
                    }
                },
                Err(_) => {},
            }
        }
        assert(map_block_ok(c, bs, base, map_slot(nx.xp_desc_index, ks, tot)));
        k = k + 1;
    }
    Ok(())
}


/// The block size the boot superblock of `c` names.
pub open spec fn boot_bs(c: Seq<u8>) -> u32 {
    le_at(boot_block(c), 36, 4) as u32
}

/// The stored block count of the checkpoint descriptor area named by the
/// boot superblock of `c`.
pub open spec fn boot_desc_raw(c: Seq<u8>) -> u32 {
    le_at(boot_block(c), 104, 4) as u32
}

/// The first block of the checkpoint descriptor area named by the boot
/// superblock of `c`.
pub open spec fn boot_base(c: Seq<u8>) -> int {
    ((le_at(boot_block(c), 112, 8) as u64) as i64) as int
}

/// The boot superblock of `c` passes every check made before the checkpoint
/// descriptor area is scanned.
pub open spec fn boot_ok(c: Seq<u8>) -> bool {
    &&& c.len() >= 4096
    &&& le_at(boot_block(c), 32, 4) == NX_MAGIC
    &&& plausible_block_size(boot_bs(c))
    &&& boot_desc_raw(c) < 0x8000_0000
    &&& boot_base(c) > 0
    &&& desc_total(boot_desc_raw(c)) > 0
}

/// The kind of error opening a device holding `c` ends in when no read of
/// the device fails: the boot superblock's first failed check, else (no
/// candidate superblock loads) a corrupt checkpoint area.
pub open spec fn open_error_kind(c: Seq<u8>) -> ErrorKind {
    let boot = boot_block(c);
    if le_at(boot, 32, 4) != NX_MAGIC {
        ErrorKind::UnsupportedFormat
    } else if !plausible_block_size(boot_bs(c)) {
        ErrorKind::Corrupt
    } else if boot_desc_raw(c) >= 0x8000_0000 {
        ErrorKind::UnsupportedFeature
    } else {
        ErrorKind::Corrupt
    }
}

/// Some descriptor slot of `c` holds a candidate superblock for `max_xid`.
pub open spec fn has_candidate(c: Seq<u8>, max_xid: u64) -> bool {
    exists|j: int|
        0 <= j < desc_total(boot_desc_raw(c)) && #[trigger] candidate_xid(c, boot_bs(c) as int, boot_base(c), j, max_xid)
            is Some
}

/// Some candidate slot of `c` for `max_xid` leads to a usable checkpoint.
pub open spec fn has_loadable_candidate(c: Seq<u8>, max_xid: u64) -> bool {
    exists|j: int|
        0 <= j < desc_total(boot_desc_raw(c)) && #[trigger] candidate_xid(c, boot_bs(c) as int, boot_base(c), j, max_xid)
            is Some && checkpoint_loads(c, boot_bs(c) as int, boot_base(c), j)
}

proof fn lemma_plausible_block_size(bs: u32)
    ensures
        plausible_block_size(bs) <==> (4096 <= bs <= 65536 && bs & ((bs - 1) as u32) == 0),
{
    assert(plausible_block_size(bs) <==> (4096 <= bs <= 65536 && bs & ((bs - 1) as u32) == 0)) by (bit_vector);
}

/// `k` is the container a device holding `c` opens to for `max_xid`: the
/// boot superblock passed its checks, the chosen slot holds a candidate
/// superblock that loads, and on a device whose reads cannot fail every
/// candidate tried before it fails to load.
pub open spec fn opened_at<D: BlockDevice>(c: Seq<u8>, fallible: bool, max_xid: u64, k: &Container<D>) -> bool {
    let bs = boot_bs(c);
    let base = boot_base(c);
    let n = desc_total(boot_desc_raw(c));
    &&& k.wf()
    &&& boot_ok(c)
    &&& k.dev.contents() == c
    &&& k.block_size == bs
    &&& k.checkpoint_index < n
    &&& candidate_xid(c, bs as int, base, k.checkpoint_index as int, max_xid) == Some(k.checkpoint_xid)
    &&& checkpoint_loads(c, bs as int, base, k.checkpoint_index as int)
    &&& block_bytes(c, base + k.checkpoint_index, bs as int) matches Some(b) && nx_matches(k.nx, b)
    &&& container_omap_root(c, bs as int, k.nx.omap_oid) == Some(k.nx_omap_tree_root)
    &&& !fallible ==> forall|j: int|
        0 <= j < n && (#[trigger] candidate_xid(c, bs as int, base, j, max_xid) matches Some(y) && tried_before(
            y,
            j,
            k.checkpoint_xid,
            k.checkpoint_index as int,
        )) ==> !checkpoint_loads(c, bs as int, base, j)
}

impl<D: BlockDevice> Container<D> {
    /// The container was opened at a checkpoint: a plausible block size and
    /// at most [`NX_MAX_FILE_SYSTEMS`] volume slots.
    pub open spec fn wf(&self) -> bool {
        &&& plausible_block_size(self.block_size)
        &&& self.nx.fs_oids@.len() <= NX_MAX_FILE_SYSTEMS
    }

    /// A B-tree reader bound to this container's device. A fresh reader has
    /// an empty node cache; reuse one reader across a command's reads.
    pub fn btree(&self) -> (r: BtreeReader<'_, D>)
        ensures
            r.wf(),
            r.source() == self.dev.contents(),
            r.bsize() == self.block_size,
            r.warnings_view() == Seq::<String>::empty(),
            r.loads_left() == MAX_NODE_LOADS,
            r.reliable() == !self.dev.fallible(),
    {
        BtreeReader::new(&self.dev, self.block_size)
    }

    /// Open the container, selecting the most recent fully-valid checkpoint
    /// with `xid <= max_xid` (the absolute latest when `max_xid == u64::MAX`):
    /// candidates are tried newest first, and one whose object map or
    /// checkpoint maps fail to load gives way to the next older one. Each
    /// candidate given up this way, and each descriptor block that cannot be
    /// read, leaves one warning.
    #[verifier::spinoff_prover]
    #[verifier::rlimit(50)]
    pub fn open(dev: D, max_xid: u64) -> (r: Result<Container<D>>)
        ensures
            ({
                let c = dev.contents();
                let boot = boot_block(c);
                let bs = boot_bs(c);
                let base = boot_base(c);
                let n = desc_total(boot_desc_raw(c));
                &&& !boot_ok(c) ==> r is Err
                &&& r matches Err(e) ==> (!device_failure(e.kind) ==> e.kind == open_error_kind(c))
                &&& r matches Err(e) ==> (!dev.fallible() && c.len() >= 4096 ==> e.kind == open_error_kind(c))
                &&& boot_ok(c) && !has_candidate(c, max_xid) ==> r is Err
                &&& r matches Ok(k) ==> k.dev == dev && opened_at(c, dev.fallible(), max_xid, &k)
                &&& r matches Ok(k) ==> {
                    &&& k.checkpoint_xid == k.nx.xid && k.nx.xid <= max_xid
                    &&& k.nx.magic == NX_MAGIC
                    &&& k.block_size == bs
                    &&& k.checkpoint_index < n
                    &&& block_bytes(c, base + k.checkpoint_index, bs as int) matches Some(b) && valid_block(b)
                    &&& !dev.fallible() ==> forall|j: int|
                        0 <= j < n && (#[trigger] candidate_xid(c, bs as int, base, j, max_xid) matches Some(y) && y
                            > k.checkpoint_xid) ==> !checkpoint_loads(c, bs as int, base, j)
                }
                &&& r matches Ok(k) ==> (!dev.fallible() ==> k.warnings@.len() == unreadable_slots(c, bs as int, base, n)
                    + candidates_before(c, bs as int, base, max_xid, k.checkpoint_xid, k.checkpoint_index as int, n))
                &&& !dev.fallible() && boot_ok(c) && has_loadable_candidate(c, max_xid) ==> r is Ok
            }),
    {
        let ghost c = dev.contents();
        // Bootstrap: read block 0 to learn the block size.
        let boot = dev.read_vec(0, APFS_MIN_BLOCK_SIZE)?;
        proof {
            assert(boot@ =~= boot_block(c));
        }
        let boot_nx = NxSuperblock::parse(boot.as_slice())?;
        if boot_nx.magic != NX_MAGIC {
            return Err(err(ErrorKind::UnsupportedFormat, "block 0 is not an APFS container superblock (no NXSB magic)"));
        }
        let block_size = boot_nx.block_size;
        proof {
            lemma_plausible_block_size(block_size);
        }
        if block_size < 4096 || block_size > 65536 || block_size & (block_size - 1) != 0 {
            let mut m = String::from_str("implausible container block size ");
            text::push_decimal(&mut m, block_size as u64);
            return Err(corrupt(m));
        }
        let mut warnings: Vec<String> = Vec::new();
        if boot_nx.xp_desc_is_tree() {
            return Err(unsupported(String::from_str("checkpoint descriptor area is a tree; this layout is not yet supported")));
        }
        let xp_desc_base = boot_nx.xp_desc_base;
        let n = boot_nx.xp_desc_blocks();
        if xp_desc_base <= 0 || n == 0 {
            return Err(err(ErrorKind::Corrupt, "container has no checkpoint descriptor area"));
        }
        let base_u = xp_desc_base as u64;
        let ghost bs = block_size as int;
        let ghost base = xp_desc_base as int;
        assert(base_u == base);

        // Scan the checkpoint descriptor area for superblock candidates.
        let mut cands: Vec<(u32, u64)> = Vec::new();
        let mut i: u32 = 0;
        while i < n
            invariant
                i <= n,
                n == desc_total(boot_desc_raw(c)),
                bs == block_size == boot_bs(c),
                bs > 0,
                base == boot_base(c),
                base == base_u,
                0 < base < 0x8000_0000_0000_0000,
                c == dev.contents(),
                boot_ok(c),
                forall|k: int|
                    0 <= k < cands@.len() ==> (#[trigger] cands@[k]).0 < i && candidate_xid(c, bs, base, cands@[k].0 as int, max_xid)
                        == Some(cands@[k].1),
                !dev.fallible() ==> forall|j: int|
                    0 <= j < i && #[trigger] candidate_xid(c, bs, base, j, max_xid) is Some ==> in_cands(cands@, j),
                forall|k1: int, k2: int| 0 <= k1 < k2 < cands@.len() ==> #[trigger] cands@[k1].0 < #[trigger] cands@[k2].0,
                !dev.fallible() ==> warnings@.len() == unreadable_slots(c, bs, base, i as int),
            decreases n - i,
        {
            let ghost before = cands@;
            match dev.read_block(base_u + i as u64, block_size) {
                Ok(blk) => {
                    if checksum::is_valid(blk.as_slice()) {
                        match ObjPhys::parse(blk.as_slice()) {
                            Ok(header) => {
                                if header.type_id() == OBJECT_TYPE_NX_SUPERBLOCK {
                                    match NxSuperblock::parse(blk.as_slice()) {
                                        Ok(nx) => {
                                            if nx.magic == NX_MAGIC && nx.xid <= max_xid {
                                                cands.push((i, nx.xid));
                                            }
                                        },
                                        Err(_) => {},
                                    }
                                }
                            },
                            Err(_) => {},
                        }
                    }
                },
                Err(_) => {
                    let mut m = String::from_str("checkpoint descriptor block ");
                    text::push_decimal(&mut m, i as u64);
                    text::push_str(&mut m, " unreadable");
                    warnings.push(m);
                },
            }
            proof {
                assert forall|k: int| 0 <= k < before.len() implies #[trigger] cands@[k] == before[k] by {}
                if !dev.fallible() {
                    assert forall|j: int|
                        0 <= j < i + 1 && #[trigger] candidate_xid(c, bs, base, j, max_xid) is Some implies in_cands(
                        cands@,
                        j,
                    ) by {
                        if j < i {
                            let k = choose|k: int| 0 <= k < before.len() && #[trigger] before[k].0 == j;
                            assert(cands@[k] == before[k]);
                        } else {
                            assert(cands@[before.len() as int].0 == j);
                        }
                    }
                }
            }
            i = i + 1;
        }

        let ghost unread = unreadable_slots(c, bs, base, n as int);
        proof {
            if !dev.fallible() {
                lemma_none_dropped(c, bs, base, max_xid, cands@, n as int);
            }
        }
        if cands.len() == 0 {
            proof {
                if has_candidate(c, max_xid) {
                    let j = choose|j: int| 0 <= j < n && #[trigger] candidate_xid(c, bs, base, j, max_xid) is Some;
                    if !dev.fallible() {
                        assert(in_cands(cands@, j));
                    }
                }
            }
            let mut m = String::from_str("no valid container superblock with xid <= ");
            text::push_decimal(&mut m, max_xid);
            text::push_str(&mut m, " in the checkpoint area");
            return Err(corrupt(m));
        }
        // Highest xid first (lowest slot among equal xids); fall back to older
        // checkpoints when the newest fails to load.
        while cands.len() > 0
            invariant
                n == desc_total(boot_desc_raw(c)),
                bs == block_size == boot_bs(c),
                bs > 0,
                base == boot_base(c),
                base == base_u,
                0 < base < 0x8000_0000_0000_0000,
                c == dev.contents(),
                boot_ok(c),
                xp_desc_base == base,
                forall|k: int|
                    0 <= k < cands@.len() ==> (#[trigger] cands@[k]).0 < n && candidate_xid(c, bs, base, cands@[k].0 as int, max_xid)
                        == Some(cands@[k].1),
                !dev.fallible() ==> forall|j: int|
                    0 <= j < n && #[trigger] candidate_xid(c, bs, base, j, max_xid) is Some && !in_cands(cands@, j)
                        ==> !checkpoint_loads(c, bs, base, j),
                forall|k1: int, k2: int| 0 <= k1 < k2 < cands@.len() ==> #[trigger] cands@[k1].0 < #[trigger] cands@[k2].0,
                unread == unreadable_slots(c, bs, base, n as int),
                !dev.fallible() ==> warnings@.len() == unread + dropped_candidates(c, bs, base, max_xid, cands@, n as int),
                !dev.fallible() ==> forall|j: int, m: int|
                    0 <= j < n && 0 <= m < cands@.len() && #[trigger] candidate_xid(c, bs, base, j, max_xid) is Some
                        && !in_cands(cands@, j) ==> tried_before(
                        candidate_xid(c, bs, base, j, max_xid)->0,
                        j,
                        #[trigger] cands@[m].1,
                        cands@[m].0 as int,
                    ),
            decreases cands.len(),
        {
            let ghost before = cands@;
            // Select the candidate tried first.
            let mut best: usize = 0;
            let mut k: usize = 1;
            while k < cands.len()
                invariant
                    cands@ == before,
                    0 <= best < k <= cands@.len(),
                    forall|m: int|
                        0 <= m < k ==> !tried_before(
                            (#[trigger] cands@[m]).1,
                            cands@[m].0 as int,
                            cands@[best as int].1,
                            cands@[best as int].0 as int,
                        ),
                decreases cands.len() - k,
            {
                let (ki, kx) = cands[k];
                let (bi, bx) = cands[best];
                if kx > bx || (kx == bx && ki < bi) {
                    best = k;
                }
                k = k + 1;
            }
            let (idx, xid) = cands.remove(best);
            proof {
                assert(cands@ =~= before.remove(best as int));
                if !dev.fallible() {
                    assert forall|j: int|
                        0 <= j < n && (#[trigger] candidate_xid(c, bs, base, j, max_xid) matches Some(y) && tried_before(
                            y,
                            j,
                            xid,
                            idx as int,
                        )) implies !checkpoint_loads(c, bs, base, j) by {
                        if in_cands(before, j) {
                            let m = choose|m: int| 0 <= m < before.len() && #[trigger] before[m].0 == j;
                            assert(!tried_before(before[m].1, before[m].0 as int, xid, idx as int));
                        }
                    }
                }
            }
            proof {
                assert(before[best as int] == (idx, xid));
                assert forall|k: int| in_cands(cands@, k) <==> (in_cands(before, k) && k != idx as int) by {
                    if in_cands(cands@, k) {
                        let m = choose|m: int| 0 <= m < cands@.len() && #[trigger] cands@[m].0 == k;
                        if m < best {
                            assert(cands@[m] == before[m]);
                            assert(before[m].0 < before[best as int].0);
                        } else {
                            assert(cands@[m] == before[m + 1]);
                            assert(before[best as int].0 < before[m + 1].0);
                        }
                    }
                    if in_cands(before, k) && k != idx as int {
                        let m = choose|m: int| 0 <= m < before.len() && #[trigger] before[m].0 == k;
                        if m < best {
                            assert(cands@[m] == before[m]);
                        } else {
                            assert(m != best);
                            assert(cands@[m - 1] == before[m]);
                        }
                    }
                }
                assert(in_cands(before, idx as int));
                lemma_drop_one(c, bs, base, max_xid, before, cands@, idx as int, n as int);
                assert forall|k1: int, k2: int| 0 <= k1 < k2 < cands@.len() implies #[trigger] cands@[k1].0
                    < #[trigger] cands@[k2].0 by {
                    let a = if k1 < best {
                        k1
                    } else {
                        k1 + 1
                    };
                    let b = if k2 < best {
                        k2
                    } else {
                        k2 + 1
                    };
                    assert(cands@[k1] == before[a]);
                    assert(cands@[k2] == before[b]);
                }
                if !dev.fallible() {
                    assert forall|k: int|
                        0 <= k < n implies ((#[trigger] candidate_xid(c, bs, base, k, max_xid) is Some && !in_cands(
                        before,
                        k,
                    )) <==> (candidate_xid(c, bs, base, k, max_xid) matches Some(y) && tried_before(y, k, xid, idx as int))) by {
                        if candidate_xid(c, bs, base, k, max_xid) is Some && !in_cands(before, k) {
                            assert(before[best as int].0 == idx);
                        }
                        if in_cands(before, k) {
                            let m = choose|m: int| 0 <= m < before.len() && #[trigger] before[m].0 == k;
                            assert(!tried_before(before[m].1, before[m].0 as int, xid, idx as int));
                        }
                    }
                    lemma_dropped_are_before(c, bs, base, max_xid, before, xid, idx as int, n as int);
                    assert forall|j: int, m: int|
                        0 <= j < n && 0 <= m < cands@.len() && #[trigger] candidate_xid(c, bs, base, j, max_xid) is Some
                            && !in_cands(cands@, j) implies tried_before(
                        candidate_xid(c, bs, base, j, max_xid)->0,
                        j,
                        #[trigger] cands@[m].1,
                        cands@[m].0 as int,
                    ) by {
                        let mm = if m < best {
                            m
                        } else {
                            m + 1
                        };
                        assert(cands@[m] == before[mm]);
                        assert(mm != best);
                        assert(!tried_before(before[mm].1, before[mm].0 as int, xid, idx as int));
                        assert(before[mm].0 != idx) by {
                            if mm < best {
                                assert(before[mm].0 < before[best as int].0);
                            } else {
                                assert(before[best as int].0 < before[mm].0);
                            }
                        }
                    }
                }
            }
            let blk = dev.read_block(base_u + idx as u64, block_size)?;
            let ghost loads = checkpoint_loads(c, bs, base, idx as int);
            let mut failed = true;
            match NxSuperblock::parse(blk.as_slice()) {
                Ok(nx) => {
                    match load_container_omap(&dev, block_size, &nx) {
                        Ok(omap_tree_root) => {
                            match validate_checkpoint_maps(&dev, block_size, &nx, xp_desc_base) {
                                Ok(()) => {
                                    return Ok(
                                        Container {
                                            dev,
                                            block_size,
                                            nx,
                                            nx_omap_tree_root: omap_tree_root,
                                            checkpoint_xid: xid,
                                            checkpoint_index: idx,
                                            warnings,
                                        },
                                    );
                                },
                                Err(e) => {
                                    let mut m = String::from_str("checkpoint xid ");
                                    text::push_str(&mut m, text::hex_prefixed(xid).as_str());
                                    text::push_str(&mut m, " has invalid checkpoint maps (");
                                    text::push_str(&mut m, e.to_display_string().as_str());
                                    text::push_str(&mut m, "); trying older");
                                    warnings.push(m);
                                },
                            }
                        },
                        Err(e) => {
                            let mut m = String::from_str("checkpoint xid ");
                            text::push_str(&mut m, text::hex_prefixed(xid).as_str());
                            text::push_str(&mut m, " omap failed to load (");
                            text::push_str(&mut m, e.to_display_string().as_str());
                            text::push_str(&mut m, "); trying older checkpoint");
                            warnings.push(m);
                        },
                    }
                },
                Err(_) => {},
            }
            proof {
                if !dev.fallible() {
                    assert(!checkpoint_loads(c, bs, base, idx as int));
                    assert forall|j: int|
                        0 <= j < n && #[trigger] candidate_xid(c, bs, base, j, max_xid) is Some && !in_cands(cands@, j)
                            implies !checkpoint_loads(c, bs, base, j) by {
                        if j != idx && in_cands(before, j) {
                            let m = choose|m: int| 0 <= m < before.len() && #[trigger] before[m].0 == j;
                            if m < best {
                                assert(cands@[m] == before[m]);
                            } else {
                                assert(m != best);
                                assert(cands@[m - 1] == before[m]);
                            }
                        }
                    }
                }
            }
        }
        proof {
            if !dev.fallible() && has_loadable_candidate(c, max_xid) {
                let j = choose|j: int|
                    0 <= j < n && #[trigger] candidate_xid(c, bs, base, j, max_xid) is Some && checkpoint_loads(c, bs, base, j);
                assert(!in_cands(cands@, j));
            }
        }
        Err(err(ErrorKind::Corrupt, "every checkpoint candidate failed to load; container may be corrupt"))
    }
}


/// Minimal description of a volume slot.
pub struct VolumeSlot {
    /// 1-based volume index.
    pub index: u32,
    pub apsb: ApfsSuperblock,
}

/// The present volumes among the `fs_oids` slots from slot `i` on: (1-based
/// index, superblock block) for each nonzero slot whose object resolves at
/// `xid` to a block holding a volume superblock; `None` when a lookup or a
/// superblock read fails.
pub open spec fn volume_slots(c: Seq<u8>, bs: int, root: u64, fs_oids: Seq<u64>, xid: u64, i: int) -> Option<
    Seq<(int, Seq<u8>)>,
>
    decreases fs_oids.len() - i,
{
    if i >= fs_oids.len() {
        Some(Seq::empty())
    } else if fs_oids[i] == 0 {
        volume_slots(c, bs, root, fs_oids, xid, i + 1)
    } else {
        match omap_lookup(c, bs, root, fs_oids[i], xid) {
            Lookup::Bad => None,
            Lookup::Absent => volume_slots(c, bs, root, fs_oids, xid, i + 1),
            Lookup::Found(e) => match block_bytes(c, e.val.paddr as int, bs) {
                None => None,
                Some(b) => if b.len() >= APSB_PARSE_LEN && le_at(b, 32, 4) == APFS_MAGIC {
                    prepend_some(seq![(i + 1, b)], volume_slots(c, bs, root, fs_oids, xid, i + 1))
                } else {
                    volume_slots(c, bs, root, fs_oids, xid, i + 1)
                },
            },
        }
    }
}

/// Volume slot `j` (0-based) can be examined: its object-map lookup does
/// not fail, and a volume superblock it finds can be read.
pub open spec fn slot_examinable(c: Seq<u8>, bs: int, root: u64, fs_oids: Seq<u64>, xid: u64, j: int) -> bool {
    fs_oids[j] != 0 ==> match omap_lookup(c, bs, root, fs_oids[j], xid) {
        Lookup::Bad => false,
        Lookup::Absent => true,
        Lookup::Found(e) => block_bytes(c, e.val.paddr as int, bs) is Some,
    }
}

/// Volume slot `j` (0-based) holds a volume: a nonzero object id that the
/// object map resolves to a readable block with the volume-superblock magic.
pub open spec fn slot_holds_volume(c: Seq<u8>, bs: int, root: u64, fs_oids: Seq<u64>, xid: u64, j: int) -> bool {
    &&& fs_oids[j] != 0
    &&& omap_lookup(c, bs, root, fs_oids[j], xid) matches Lookup::Found(e) && block_bytes(c, e.val.paddr as int, bs)
        matches Some(b) && b.len() >= APSB_PARSE_LEN && le_at(b, 32, 4) == APFS_MAGIC
}

/// The volumes listed from slot `i` on have strictly increasing 1-based
/// indexes of slots that hold a volume, and every such slot is listed; slots
/// that are empty, unknown to the object map or hold no volume superblock
/// are left out, and the listing fails only on a slot that cannot be
/// examined.
#[verifier::spinoff_prover]
#[verifier::rlimit(80)]
pub proof fn volume_listing_is_ordered_and_complete(c: Seq<u8>, bs: int, root: u64, fs_oids: Seq<u64>, xid: u64, i: int)
    requires
        0 <= i,
    ensures
        volume_slots(c, bs, root, fs_oids, xid, i) matches Some(s) ==> {
            &&& forall|k: int|
                0 <= k < s.len() ==> i + 1 <= (#[trigger] s[k]).0 <= fs_oids.len() && slot_holds_volume(
                    c,
                    bs,
                    root,
                    fs_oids,
                    xid,
                    s[k].0 - 1,
                ) && block_bytes(c, omap_lookup(c, bs, root, fs_oids[s[k].0 - 1], xid)->Found_0.val.paddr as int, bs)
                    == Some(s[k].1)
            &&& forall|k1: int, k2: int| 0 <= k1 < k2 < s.len() ==> (#[trigger] s[k1]).0 < (#[trigger] s[k2]).0
            &&& forall|j: int|
                i <= j < fs_oids.len() && #[trigger] slot_holds_volume(c, bs, root, fs_oids, xid, j) ==> exists|k: int|
                    0 <= k < s.len() && (#[trigger] s[k]).0 == j + 1
        },
        (forall|j: int| i <= j < fs_oids.len() ==> #[trigger] slot_examinable(c, bs, root, fs_oids, xid, j)) ==> volume_slots(
            c,
            bs,
            root,
            fs_oids,
            xid,
            i,
        ) is Some,
    decreases fs_oids.len() - i,
{
    if i < fs_oids.len() {
        volume_listing_is_ordered_and_complete(c, bs, root, fs_oids, xid, i + 1);
        let rest = volume_slots(c, bs, root, fs_oids, xid, i + 1);
        if let Some(s) = volume_slots(c, bs, root, fs_oids, xid, i) {
            assert(rest is Some);
            let t = rest->0;
            if slot_holds_volume(c, bs, root, fs_oids, xid, i) {
                let e = omap_lookup(c, bs, root, fs_oids[i], xid)->Found_0;
                let b = block_bytes(c, e.val.paddr as int, bs)->0;
                assert(s =~= seq![(i + 1, b)] + t);
                assert forall|k: int| 0 <= k < s.len() implies i + 1 <= (#[trigger] s[k]).0 <= fs_oids.len()
                    && slot_holds_volume(c, bs, root, fs_oids, xid, s[k].0 - 1) && block_bytes(
                    c,
                    omap_lookup(c, bs, root, fs_oids[s[k].0 - 1], xid)->Found_0.val.paddr as int,
                    bs,
                ) == Some(s[k].1) by {
                    if k > 0 {
                        assert(s[k] == t[k - 1]);
                    }
                }
                assert forall|k1: int, k2: int| 0 <= k1 < k2 < s.len() implies (#[trigger] s[k1]).0
                    < (#[trigger] s[k2]).0 by {
                    assert(s[k2] == t[k2 - 1]);
                    if k1 > 0 {
                        assert(s[k1] == t[k1 - 1]);
                    }
                }
                assert forall|j: int|
                    i <= j < fs_oids.len() && #[trigger] slot_holds_volume(c, bs, root, fs_oids, xid, j) implies exists|k: int|
                    0 <= k < s.len() && (#[trigger] s[k]).0 == j + 1 by {
                    if j == i {
                        assert(s[0].0 == j + 1);
                    } else {
                        let k = choose|k: int| 0 <= k < t.len() && (#[trigger] t[k]).0 == j + 1;
                        assert(s[k + 1] == t[k]);
                    }
                }
            } else {
                assert(s == t);
            }
        }
        if forall|j: int| i <= j < fs_oids.len() ==> #[trigger] slot_examinable(c, bs, root, fs_oids, xid, j) {
            assert(slot_examinable(c, bs, root, fs_oids, xid, i));
        }
    }
}

/// The volumes `v` listed from the slots `fs_oids` are in increasing slot
/// order, each in a slot that holds a volume and carrying the volume magic,
/// and every slot that holds a volume is listed.
pub open spec fn volumes_listed(v: Seq<VolumeSlot>, c: Seq<u8>, bs: int, root: u64, fs_oids: Seq<u64>, xid: u64) -> bool {
    &&& forall|k: int|
        0 <= k < v.len() ==> 1 <= (#[trigger] v[k]).index <= fs_oids.len() && slot_holds_volume(
            c,
            bs,
            root,
            fs_oids,
            xid,
            v[k].index - 1,
        ) && v[k].apsb.magic == APFS_MAGIC
    &&& forall|k1: int, k2: int| 0 <= k1 < k2 < v.len() ==> (#[trigger] v[k1]).index < (#[trigger] v[k2]).index
    &&& forall|j: int|
        0 <= j < fs_oids.len() && #[trigger] slot_holds_volume(c, bs, root, fs_oids, xid, j) ==> exists|k: int|
            0 <= k < v.len() && (#[trigger] v[k]).index == j + 1
}

proof fn lemma_listed_volumes(v: Seq<VolumeSlot>, c: Seq<u8>, bs: int, root: u64, fs_oids: Seq<u64>, xid: u64)
    requires
        volume_slots(c, bs, root, fs_oids, xid, 0) matches Some(s) && slots_match(v, s),
    ensures
        volumes_listed(v, c, bs, root, fs_oids, xid),
{
    volume_listing_is_ordered_and_complete(c, bs, root, fs_oids, xid, 0);
    let s = volume_slots(c, bs, root, fs_oids, xid, 0)->0;
    assert forall|k: int| 0 <= k < v.len() implies 1 <= (#[trigger] v[k]).index <= fs_oids.len() && slot_holds_volume(
        c,
        bs,
        root,
        fs_oids,
        xid,
        v[k].index - 1,
    ) && v[k].apsb.magic == APFS_MAGIC by {
        assert(v[k].index == s[k].0);
        assert(apsb_matches(v[k].apsb, s[k].1));
        assert(slot_holds_volume(c, bs, root, fs_oids, xid, s[k].0 - 1));
        let e = omap_lookup(c, bs, root, fs_oids[s[k].0 - 1], xid)->Found_0;
        assert(block_bytes(c, e.val.paddr as int, bs) == Some(s[k].1));
        assert(le_at(s[k].1, 32, 4) == APFS_MAGIC);
    }
    assert forall|k1: int, k2: int| 0 <= k1 < k2 < v.len() implies (#[trigger] v[k1]).index < (#[trigger] v[k2]).index by {
        assert(v[k1].index == s[k1].0);
        assert(v[k2].index == s[k2].0);
    }
    assert forall|j: int|
        0 <= j < fs_oids.len() && #[trigger] slot_holds_volume(c, bs, root, fs_oids, xid, j) implies exists|k: int|
        0 <= k < v.len() && (#[trigger] v[k]).index == j + 1 by {
        let k = choose|k: int| 0 <= k < s.len() && (#[trigger] s[k]).0 == j + 1;
        assert(v[k].index == s[k].0);
    }
}

/// Each slot of `v` is the volume described by the matching entry of `s`.
pub open spec fn slots_match(v: Seq<VolumeSlot>, s: Seq<(int, Seq<u8>)>) -> bool {
    &&& v.len() == s.len()
    &&& forall|k: int| 0 <= k < v.len() ==> #[trigger] v[k].index == s[k].0 && apsb_matches(v[k].apsb, s[k].1)
}

impl<D: BlockDevice> Container<D> {
    /// List every present volume slot (resolving each volume superblock).
    #[verifier::spinoff_prover]
    pub fn list_volumes(&self) -> (r: Result<Vec<VolumeSlot>>)
        requires
            self.wf(),
        ensures
            r matches Ok(v) ==> (volume_slots(
                self.dev.contents(),
                self.block_size as int,
                self.nx_omap_tree_root,
                self.nx.fs_oids@,
                self.nx.xid,
                0,
            ) matches Some(s) && slots_match(v@, s)),
            volume_slots(self.dev.contents(), self.block_size as int, self.nx_omap_tree_root, self.nx.fs_oids@, self.nx.xid, 0)
                is None ==> r is Err,
            !self.dev.fallible() && volume_slots(
                self.dev.contents(),
                self.block_size as int,
                self.nx_omap_tree_root,
                self.nx.fs_oids@,
                self.nx.xid,
                0,
            ) is Some ==> r is Ok,
            r matches Err(e) ==> device_failure(e.kind) || e.kind == ErrorKind::Corrupt,
            r matches Ok(v) ==> volumes_listed(
                v@,
                self.dev.contents(),
                self.block_size as int,
                self.nx_omap_tree_root,
                self.nx.fs_oids@,
                self.nx.xid,
            ),
            !self.dev.fallible() && (forall|j: int|
                0 <= j < self.nx.fs_oids@.len() ==> #[trigger] slot_examinable(
                    self.dev.contents(),
                    self.block_size as int,
                    self.nx_omap_tree_root,
                    self.nx.fs_oids@,
                    self.nx.xid,
                    j,
                )) ==> r is Ok,
    {
        let ghost c = self.dev.contents();
        let ghost bs = self.block_size as int;
        let ghost oids = self.nx.fs_oids@;
        let ghost root = self.nx_omap_tree_root;
        let ghost xid = self.nx.xid;
        let mut bt = self.btree();
        let mut out: Vec<VolumeSlot> = Vec::new();
        let ghost mut acc: Seq<(int, Seq<u8>)> = Seq::empty();
        proof {
            lemma_prepend_empty(volume_slots(c, bs, root, oids, xid, 0));
            volume_listing_is_ordered_and_complete(c, bs, root, oids, xid, 0);
        }
        let mut i: usize = 0;
        while i < self.nx.fs_oids.len()
            invariant
                bt.wf(),
                bt.source() == c,
                bt.bsize() == bs,
                c == self.dev.contents(),
                bs == self.block_size,
                oids == self.nx.fs_oids@,
                root == self.nx_omap_tree_root,
                xid == self.nx.xid,
                i <= oids.len() <= 100,
                bt.reliable() == !self.dev.fallible(),
                bt.loads_left() >= MAX_NODE_LOADS - 64 * i,
                slots_match(out@, acc),
                volume_slots(c, bs, root, oids, xid, 0) == prepend_some(acc, volume_slots(c, bs, root, oids, xid, i as int)),
                (forall|j: int| 0 <= j < oids.len() ==> #[trigger] slot_examinable(c, bs, root, oids, xid, j))
                    ==> volume_slots(c, bs, root, oids, xid, 0) is Some,
            decreases oids.len() - i,
        {
            let fs_oid = self.nx.fs_oids[i];
            if fs_oid != 0 {
                match bt.omap_get(self.nx_omap_tree_root, fs_oid, self.nx.xid)? {
                    Some(entry) => {
                        proof {
                            lemma_found_block_size(c, bs, root, fs_oid, xid);
                        }
                        let blk = self.dev.read_block(entry.val.paddr, self.block_size)?;
                        match ApfsSuperblock::parse(blk.as_slice()) {
                            Ok(apsb) => {
                                if apsb.magic == APFS_MAGIC {
                                    let ghost before = out@;
                                    out.push(VolumeSlot { index: i as u32 + 1, apsb });
                                    proof {
                                        lemma_prepend_assoc(acc, seq![(i + 1, blk@)], volume_slots(c, bs, root, oids, xid, i + 1));
                                        let nacc = acc + seq![(i + 1, blk@)];
                                        assert forall|k: int| 0 <= k < out@.len() implies #[trigger] out@[k].index == nacc[k].0
                                            && apsb_matches(out@[k].apsb, nacc[k].1) by {
                                            if k < before.len() {
                                                assert(out@[k] == before[k]);
                                            } else {
                                                assert(k == before.len());
                                                assert(nacc[k] == (i + 1, blk@));
                                            }
                                        }
                                        acc = nacc;
                                    }
                                } else {
                                    proof {
                                        lemma_prepend_assoc(acc, Seq::empty(), volume_slots(c, bs, root, oids, xid, i + 1));
                                        assert(acc + Seq::<(int, Seq<u8>)>::empty() =~= acc);
                                    }
                                }
                            },
                            Err(_) => {
                                proof {
                                    lemma_prepend_assoc(acc, Seq::empty(), volume_slots(c, bs, root, oids, xid, i + 1));
                                    assert(acc + Seq::<(int, Seq<u8>)>::empty() =~= acc);
                                }
                            },
                        }
                    },
                    None => {
                        proof {
                            lemma_prepend_assoc(acc, Seq::empty(), volume_slots(c, bs, root, oids, xid, i + 1));
                            assert(acc + Seq::<(int, Seq<u8>)>::empty() =~= acc);
                        }
                    },
                }
            } else {
                proof {
                    lemma_prepend_assoc(acc, Seq::empty(), volume_slots(c, bs, root, oids, xid, i + 1));
                    assert(acc + Seq::<(int, Seq<u8>)>::empty() =~= acc);
                }
            }
            i = i + 1;
        }
        proof {
            lemma_prepend_assoc(acc, Seq::empty(), Some(Seq::<(int, Seq<u8>)>::empty()));
            assert(acc + Seq::<(int, Seq<u8>)>::empty() =~= acc);
            lemma_listed_volumes(out@, c, bs, root, oids, xid);
        }
        Ok(out)
    }

    /// The block holding the superblock of volume `index` (1-based): the
    /// container object map's entry for the volume's OID, at the
    /// container's xid.
    pub open spec fn volume_block(&self, index: int) -> Option<Seq<u8>> {
        let oids = self.nx.fs_oids@;
        if 1 <= index <= oids.len() && oids[index - 1] != 0 {
            match omap_lookup(self.dev.contents(), self.block_size as int, self.nx_omap_tree_root, oids[index - 1], self.nx.xid) {
                Lookup::Found(e) => block_bytes(self.dev.contents(), e.val.paddr as int, self.block_size as int),
                _ => None,
            }
        } else {
            None
        }
    }

    /// Resolve a single volume superblock by 1-based index.
    pub fn volume_superblock(&self, index: u32) -> (r: Result<ApfsSuperblock>)
        requires
            self.wf(),
        ensures
            r matches Ok(a) ==> a.magic == APFS_MAGIC,
            ({
                let c = self.dev.contents();
                let bs = self.block_size as int;
                let oids = self.nx.fs_oids@;
                &&& (index < 1 || index > oids.len()) ==> (r matches Err(e) && e.kind == ErrorKind::Usage)
                &&& (1 <= index <= oids.len() && oids[index - 1] == 0) ==> (r matches Err(e) && e.kind
                    == ErrorKind::ObjectNotFound)
                &&& (1 <= index <= oids.len() && oids[index - 1] != 0 && omap_lookup(
                    c,
                    bs,
                    self.nx_omap_tree_root,
                    oids[index - 1],
                    self.nx.xid,
                ) !is Found) ==> r is Err
                &&& (1 <= index <= oids.len() && oids[index - 1] != 0 && omap_lookup(
                    c,
                    bs,
                    self.nx_omap_tree_root,
                    oids[index - 1],
                    self.nx.xid,
                ) is Absent) ==> (r matches Err(e) && (e.kind == ErrorKind::ObjectNotFound || device_failure(e.kind)
                    || e.kind == ErrorKind::Corrupt))
                &&& (!self.dev.fallible() && 1 <= index <= oids.len() && oids[index - 1] != 0 && omap_lookup(
                    c,
                    bs,
                    self.nx_omap_tree_root,
                    oids[index - 1],
                    self.nx.xid,
                ) is Absent) ==> (r matches Err(e) && e.kind == ErrorKind::ObjectNotFound)
                &&& r matches Ok(a) ==> {
                    &&& 1 <= index <= oids.len()
                    &&& oids[index - 1] != 0
                    &&& omap_lookup(c, bs, self.nx_omap_tree_root, oids[index - 1], self.nx.xid) matches Lookup::Found(e)
                        && block_bytes(c, e.val.paddr as int, bs) matches Some(b) && b.len() >= APSB_PARSE_LEN
                        && apsb_matches(a, b)
                    &&& a.magic == APFS_MAGIC
                }
                &&& !self.dev.fallible() && 1 <= index <= oids.len() && oids[index - 1] != 0 && (omap_lookup(
                    c,
                    bs,
                    self.nx_omap_tree_root,
                    oids[index - 1],
                    self.nx.xid,
                ) matches Lookup::Found(e) && block_bytes(c, e.val.paddr as int, bs) matches Some(b) && b.len()
                    >= APSB_PARSE_LEN && le_at(b, 32, 4) == APFS_MAGIC) ==> r is Ok
            }),
    {
        if index < 1 || index as usize > self.nx.fs_oids.len() {
            let mut m = String::from_str("volume index ");
            text::push_decimal(&mut m, index as u64);
            text::push_str(&mut m, " out of range [1, ");
            text::push_decimal(&mut m, self.nx.fs_oids.len() as u64);
            text::push_str(&mut m, "]");
            return Err(Error::new(ErrorKind::Usage, m));
        }
        let fs_oid = self.nx.fs_oids[index as usize - 1];
        if fs_oid == 0 {
            let mut m = String::from_str("volume ");
            text::push_decimal(&mut m, index as u64);
            text::push_str(&mut m, " does not exist");
            return Err(not_found_obj(m));
        }
        let mut bt = self.btree();
        let entry = match bt.omap_get(self.nx_omap_tree_root, fs_oid, self.nx.xid)? {
            Some(e) => e,
            None => {
                let mut m = String::from_str("volume ");
                text::push_decimal(&mut m, index as u64);
                text::push_str(&mut m, " superblock not in container omap");
                return Err(not_found_obj(m));
            },
        };
        proof {
            lemma_found_block_size(self.dev.contents(), self.block_size as int, self.nx_omap_tree_root, fs_oid, self.nx.xid);
        }
        let blk = self.dev.read_block(entry.val.paddr, self.block_size)?;
        let apsb = ApfsSuperblock::parse(blk.as_slice())?;
        apsb.check_magic()?;
        Ok(apsb)
    }
}

} // verus!
