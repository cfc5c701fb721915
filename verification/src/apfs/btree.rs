//! Reusable APFS B-tree engine.
//!
//! Supports both shapes of APFS tree:
//!  * **Object-map trees** — fixed-size keys/values, child links are physical
//!    block addresses. Used for exact `(oid, xid)` lookups ([`BtreeReader::omap_get`]).
//!  * **Filesystem / snapshot-metadata trees** — variable-size keys/values keyed
//!    by `j_key_t` (`obj_id_and_type`); child links are virtual OIDs resolved
//!    through a volume object map. Used to collect all records for one object
//!    ([`BtreeReader::fs_collect`]) and to stream every record in order
//!    ([`BtreeReader::fs_walk`]).
//!
//! Every key/value/TOC access is bounds-checked against the node's geometry
//! before being dereferenced. Tree depth and node-load counts are capped to
//! defeat malformed loops, and a bad checksum is recorded as a warning rather
//! than aborting (best-effort reads).
use vstd::prelude::*;

use std::collections::HashMap;

use super::checksum::{self, valid_block};
use super::obj::{header_of, ObjPhys};
use super::omap::{omap_key_of, omap_val_of, OmapEntry, OmapKey, OmapVal};
use super::raw::{self, le_at};
use crate::device::{block_bytes, device_failure, BlockDevice};
use crate::error::{corrupt, err, Error, ErrorKind, Result};
use crate::text;

verus! {

broadcast use vstd::std_specs::hash::group_hash_axioms;

/// Cap on B-tree depth (real depth is tiny).
pub const MAX_NODE_DESCENT: u16 = 64;
/// Cap on total node reads per reader.
pub const MAX_NODE_LOADS: u64 = 0x10_0000;
/// Cap on records collected per object.
pub const MAX_FS_RECORDS: usize = 0x100_0000;
/// `sizeof(btree_info_t)`, trailing on root nodes.
pub const BTREE_INFO_SIZE: usize = 40;
/// `offsetof(btree_node_phys_t, btn_data)`.
pub const BTN_DATA_OFF: usize = 56;
/// Cap on retained warnings.
pub const MAX_WARNINGS: usize = 256;
/// Cached node blocks before the cache is reset.
pub const MAX_CACHED_NODES: usize = 4096;

pub const BTNODE_ROOT: u16 = 0x0001;
pub const BTNODE_LEAF: u16 = 0x0002;
pub const BTNODE_FIXED_KV_SIZE: u16 = 0x0004;

/// Mask of the object-id portion of `j_key_t::obj_id_and_type`.
pub const OBJ_ID_MASK: u64 = 0x0fff_ffff_ffff_ffff;
/// Mask of the type portion.
pub const OBJ_TYPE_MASK: u64 = 0xf000_0000_0000_0000;
/// Shift to extract the type nibble.
pub const OBJ_TYPE_SHIFT: u64 = 60;

/// The object id of a `j_key_t` leading word (its low 60 bits).
pub open spec fn obj_id_of(v: u64) -> u64 {
    (v % 0x1000_0000_0000_0000) as u64
}

/// The record type nibble of a `j_key_t` leading word (its top 4 bits).
pub open spec fn obj_type_of(v: u64) -> u8 {
    (v / 0x1000_0000_0000_0000) as u8
}

/// Extract `(obj_id, type)` from a `j_key_t` leading u64.
pub fn split_obj_id_and_type(v: u64) -> (r: (u64, u8))
    ensures
        r.0 == obj_id_of(v),
        r.1 == obj_type_of(v),
        r.1 < 16,
{
    let id = v & OBJ_ID_MASK;
    let ty = (v & OBJ_TYPE_MASK) >> OBJ_TYPE_SHIFT;
    assert(id == v % 0x1000_0000_0000_0000 && ty == v / 0x1000_0000_0000_0000 && ty < 16) by (bit_vector)
        requires
            id == v & 0x0fff_ffff_ffff_ffffu64,
            ty == (v & 0xf000_0000_0000_0000u64) >> 60u64,
    ;
    (id, ty as u8)
}

/// A validated view onto a B-tree node's geometry.
#[derive(Clone, Copy)]
pub struct NodeView {
    pub toc_off: usize,
    pub key_off: usize,
    pub val_end_off: usize,
    pub nkeys: u32,
    pub fixed: bool,
    pub leaf: bool,
    pub level: u16,
}

/// The geometry of node block `b` for block size `bs`, or `None` when the
/// header, TOC, key or value areas are inconsistent.
pub open spec fn node_view_of(b: Seq<u8>, bs: int) -> Option<NodeView> {
    if b.len() < 56 {
        None
    } else {
        let flags = le_at(b, 32, 2) as u16;
        let level = le_at(b, 34, 2) as u16;
        let nkeys = le_at(b, 36, 4) as u32;
        let ts_off = le_at(b, 40, 2) as int;
        let ts_len = le_at(b, 42, 2) as int;
        let root = flags & BTNODE_ROOT != 0;
        let fixed = flags & BTNODE_FIXED_KV_SIZE != 0;
        let leaf = flags & BTNODE_LEAF != 0;
        if root && bs < 40 {
            None
        } else {
            let val_end = if root { bs - 40 } else { bs };
            let toc = 56 + ts_off;
            let key_off = toc + ts_len;
            let esize: int = if fixed { 4 } else { 8 };
            if key_off > val_end || val_end > b.len() {
                None
            } else if (if fixed { nkeys * 4 } else { nkeys * 8 }) > ts_len || nkeys > bs / esize {
                None
            } else {
                Some(
                    NodeView {
                        toc_off: toc as usize,
                        key_off: key_off as usize,
                        val_end_off: val_end as usize,
                        nkeys,
                        fixed,
                        leaf,
                        level,
                    },
                )
            }
        }
    }
}

/// `v` is a consistent geometry for a block of `len` bytes.
pub open spec fn geometry_fits(v: NodeView, len: int) -> bool {
    &&& v.toc_off + (if v.fixed { 4 * v.nkeys } else { 8 * v.nkeys }) <= v.key_off
    &&& v.key_off <= v.val_end_off <= len
}

/// Fixed-size TOC entry `i`: `(key offset, value offset)`.
pub open spec fn fixed_toc_of(b: Seq<u8>, v: NodeView, i: int) -> (u16, u16) {
    let p = v.toc_off + 4 * i;
    (le_at(b, p, 2) as u16, le_at(b, p + 2, 2) as u16)
}

/// Variable-size TOC entry `i`: `(key off, key len, value off, value len)`.
pub open spec fn var_toc_of(b: Seq<u8>, v: NodeView, i: int) -> (u16, u16, u16, u16) {
    let p = v.toc_off + 8 * i;
    (le_at(b, p, 2) as u16, le_at(b, p + 2, 2) as u16, le_at(b, p + 4, 2) as u16, le_at(b, p + 6, 2) as u16)
}

/// Start of the key at key-area offset `off` spanning `len` bytes, when it
/// ends inside the key/value area.
pub open spec fn key_start(v: NodeView, off: int, len: int) -> Option<int> {
    if v.key_off + off + len > v.val_end_off {
        None
    } else {
        Some(v.key_off + off)
    }
}

/// Start of the value at offset `off` counted back from the value end,
/// spanning `len` bytes, when it lies inside the key/value area.
pub open spec fn val_start(v: NodeView, off: int, len: int) -> Option<int> {
    if off > v.val_end_off {
        None
    } else if v.val_end_off - off < v.key_off || v.val_end_off - off + len > v.val_end_off {
        None
    } else {
        Some(v.val_end_off - off)
    }
}

impl NodeView {
    /// Validate `block` as a B-tree node against `block_size`.
    fn parse(block: &[u8], block_size: usize) -> (r: Result<NodeView>)
        ensures
            match r {
                Ok(v) => node_view_of(block@, block_size as int) == Some(v) && geometry_fits(v, block@.len() as int),
                Err(e) => node_view_of(block@, block_size as int) is None && e.kind == ErrorKind::Corrupt,
            },
    {
        if block.len() < BTN_DATA_OFF {
            return Err(err(ErrorKind::Corrupt, "b-tree node shorter than its header"));
        }
        let flags = raw::u16_at(block, 32)?;
        let level = raw::u16_at(block, 34)?;
        let nkeys = raw::u32_at(block, 36)?;
        let ts_off = raw::u16_at(block, 40)? as usize;
        let ts_len = raw::u16_at(block, 42)? as usize;

        let root = flags & BTNODE_ROOT != 0;
        let fixed = flags & BTNODE_FIXED_KV_SIZE != 0;
        let leaf = flags & BTNODE_LEAF != 0;

        let val_end_off = if root {
            if block_size < BTREE_INFO_SIZE {
                return Err(err(ErrorKind::Corrupt, "block smaller than btree_info"));
            }
            block_size - BTREE_INFO_SIZE
        } else {
            block_size
        };

        let toc_off = BTN_DATA_OFF + ts_off;
        let key_off = toc_off + ts_len;
        if key_off > val_end_off || val_end_off > block.len() {
            return Err(err(ErrorKind::Corrupt, "b-tree node TOC/key/value areas out of range"));
        }

        // The TOC must be large enough to hold `nkeys` entries.
        let esize: u64 = if fixed { 4 } else { 8 };
        if (nkeys as u64) * esize > ts_len as u64 || nkeys as u64 > (block_size as u64) / esize {
            let mut m = String::from_str("b-tree node claims ");
            text::push_decimal(&mut m, nkeys as u64);
            text::push_str(&mut m, " keys that don't fit its ");
            text::push_decimal(&mut m, ts_len as u64);
            text::push_str(&mut m, "-byte TOC");
            return Err(corrupt(m));
        }
        Ok(NodeView { toc_off, key_off, val_end_off, nkeys, fixed, leaf, level })
    }

    /// Fixed TOC entry `i` -> (key_off, val_off).
    fn fixed_toc(&self, block: &[u8], i: u32) -> (r: (u16, u16))
        requires
            geometry_fits(*self, block@.len() as int),
            self.fixed,
            i < self.nkeys,
        ensures
            r == fixed_toc_of(block@, *self, i as int),
    {
        let p = self.toc_off + i as usize * 4;
        (read_u16(block, p), read_u16(block, p + 2))
    }

    /// Variable TOC entry `i` -> (key_off, key_len, val_off, val_len).
    fn var_toc(&self, block: &[u8], i: u32) -> (r: (u16, u16, u16, u16))
        requires
            geometry_fits(*self, block@.len() as int),
            !self.fixed,
            i < self.nkeys,
        ensures
            r == var_toc_of(block@, *self, i as int),
    {
        let p = self.toc_off + i as usize * 8;
        (read_u16(block, p), read_u16(block, p + 2), read_u16(block, p + 4), read_u16(block, p + 6))
    }

    /// Bounds-checked key bytes at key-area offset `off`, length `len`.
    fn key_ptr<'b>(&self, block: &'b [u8], off: u16, len: usize) -> (r: Result<&'b [u8]>)
        requires
            geometry_fits(*self, block@.len() as int),
        ensures
            match r {
                Ok(s) => key_start(*self, off as int, len as int) matches Some(p) && s@ == block@.subrange(p, p + len),
                Err(e) => key_start(*self, off as int, len as int) is None && e.kind == ErrorKind::Corrupt,
            },
    {
        let p = match self.key_off.checked_add(off as usize) {
            Some(p) => p,
            None => {
                return Err(err(ErrorKind::Corrupt, "key offset overflow"));
            },
        };
        let end = match p.checked_add(len) {
            Some(e) => e,
            None => {
                return Err(err(ErrorKind::Corrupt, "key length overflow"));
            },
        };
        if end > self.val_end_off {
            return Err(err(ErrorKind::Corrupt, "key extends past value area"));
        }
        raw::slice(block, p, len)
    }

    /// Bounds-checked value bytes at offset `off` counted back from value end.
    fn val_ptr<'b>(&self, block: &'b [u8], off: u16, len: usize) -> (r: Result<&'b [u8]>)
        requires
            geometry_fits(*self, block@.len() as int),
        ensures
            match r {
                Ok(s) => val_start(*self, off as int, len as int) matches Some(p) && s@ == block@.subrange(p, p + len),
                Err(e) => val_start(*self, off as int, len as int) is None && e.kind == ErrorKind::Corrupt,
            },
    {
        if off as usize > self.val_end_off {
            return Err(err(ErrorKind::Corrupt, "value offset past value area"));
        }
        let p = self.val_end_off - off as usize;
        let end = match p.checked_add(len) {
            Some(e) => e,
            None => {
                return Err(err(ErrorKind::Corrupt, "value length overflow"));
            },
        };
        if p < self.key_off || end > self.val_end_off {
            return Err(err(ErrorKind::Corrupt, "value out of range"));
        }
        raw::slice(block, p, len)
    }
}

/// Little-endian `u16` at an in-range offset.
fn read_u16(b: &[u8], off: usize) -> (v: u16)
    requires
        off + 2 <= b@.len(),
    ensures
        v == le_at(b@, off as int, 2),
{
    let v = raw::le_read(b, off, 2);
    proof {
        raw::lemma_le_value_bound(b@.subrange(off as int, off + 2));
        raw::lemma_pow256_small();
    }
    v as u16
}


/// Outcome of one lookup step in an object-map node.
pub enum OmapStep {
    /// The node is malformed.
    Bad,
    /// No entry for the key in this subtree.
    Absent,
    /// The leaf entry for the key.
    Found(OmapEntry),
    /// Continue at the child node stored at this physical block.
    Descend(u64),
}

/// Outcome of an object-map lookup.
pub enum Lookup {
    /// A node on the path is unreadable or malformed.
    Bad,
    /// No entry for the key.
    Absent,
    /// The entry found.
    Found(OmapEntry),
}

/// `k` sorts after every entry that can answer a lookup of `(oid, max_xid)`.
pub open spec fn beyond(k: OmapKey, oid: u64, max_xid: u64) -> bool {
    k.oid > oid || (k.oid == oid && k.xid > max_xid)
}

/// The key of fixed-size entry `i`, when its 16 bytes lie inside the node.
pub open spec fn fixed_key_at(b: Seq<u8>, v: NodeView, i: int) -> Option<OmapKey> {
    match key_start(v, fixed_toc_of(b, v, i).0 as int, 16) {
        Some(p) => Some(omap_key_of(b.subrange(p, p + 16))),
        None => None,
    }
}

/// Scanning from entry `i`, the index of the first entry whose key is
/// [`beyond`] `(oid, max_xid)` (or `nkeys`), or `None` when a key on the way
/// lies outside the node.
pub open spec fn omap_prefix(b: Seq<u8>, v: NodeView, oid: u64, max_xid: u64, i: int) -> Option<int>
    decreases v.nkeys - i,
{
    if i >= v.nkeys {
        Some(i)
    } else {
        match fixed_key_at(b, v, i) {
            None => None,
            Some(k) => if beyond(k, oid, max_xid) {
                Some(i)
            } else {
                omap_prefix(b, v, oid, max_xid, i + 1)
            },
        }
    }
}

/// One step of an object-map lookup of `(oid, max_xid)` at node block `b`:
/// the last entry not [`beyond`] the key is chosen; in a leaf it answers the
/// lookup when its oid matches, in an index node its value is the physical
/// address of the child to visit.
pub open spec fn omap_node_step(b: Seq<u8>, bs: int, oid: u64, max_xid: u64) -> OmapStep {
    match node_view_of(b, bs) {
        None => OmapStep::Bad,
        Some(v) => if !v.fixed {
            OmapStep::Bad
        } else {
            match omap_prefix(b, v, oid, max_xid, 0) {
                None => OmapStep::Bad,
                Some(n) => if n == 0 {
                    OmapStep::Absent
                } else {
                    let voff = fixed_toc_of(b, v, n - 1).1 as int;
                    if v.leaf {
                        let k = fixed_key_at(b, v, n - 1)->0;
                        if k.oid != oid || k.xid > max_xid {
                            OmapStep::Absent
                        } else {
                            match val_start(v, voff, 16) {
                                None => OmapStep::Bad,
                                Some(p) => OmapStep::Found(
                                    OmapEntry { key: k, val: omap_val_of(b.subrange(p, p + 16)) },
                                ),
                            }
                        }
                    } else {
                        match val_start(v, voff, 8) {
                            None => OmapStep::Bad,
                            Some(p) => OmapStep::Descend(le_at(b, p, 8) as u64),
                        }
                    }
                },
            }
        },
    }
}

/// An object-map lookup of `(oid, max_xid)` starting at block `block` of a
/// device holding `c`, visiting at most `fuel` nodes.
pub open spec fn omap_lookup_from(c: Seq<u8>, bs: int, block: u64, oid: u64, max_xid: u64, fuel: nat) -> Lookup
    decreases fuel,
{
    match block_bytes(c, block as int, bs) {
        None => Lookup::Bad,
        Some(b) => match omap_node_step(b, bs, oid, max_xid) {
            OmapStep::Bad => Lookup::Bad,
            OmapStep::Absent => Lookup::Absent,
            OmapStep::Found(e) => Lookup::Found(e),
            OmapStep::Descend(child) => if fuel <= 1 {
                Lookup::Bad
            } else {
                omap_lookup_from(c, bs, child, oid, max_xid, (fuel - 1) as nat)
            },
        },
    }
}

/// The kinds of error reading a tree reports: a failed device read, or a
/// malformed tree ([`ErrorKind::Corrupt`]).
pub open spec fn read_failure(k: ErrorKind) -> bool {
    device_failure(k) || k == ErrorKind::Corrupt
}

/// The lookup from `block` fails at a node that was read: the node is
/// malformed, or the descent runs past its depth cap (as opposed to failing
/// on a block that cannot be read).
pub open spec fn omap_bad_node(c: Seq<u8>, bs: int, block: u64, oid: u64, max_xid: u64, fuel: nat) -> bool
    decreases fuel,
{
    match block_bytes(c, block as int, bs) {
        None => false,
        Some(b) => match omap_node_step(b, bs, oid, max_xid) {
            OmapStep::Bad => true,
            OmapStep::Descend(child) => if fuel <= 1 {
                true
            } else {
                omap_bad_node(c, bs, child, oid, max_xid, (fuel - 1) as nat)
            },
            _ => false,
        },
    }
}

/// The object-map lookup of `(oid, max_xid)` in the tree rooted at block
/// `root`, descending at most [`MAX_NODE_DESCENT`] levels.
pub open spec fn omap_lookup(c: Seq<u8>, bs: int, root: u64, oid: u64, max_xid: u64) -> Lookup {
    omap_lookup_from(c, bs, root, oid, max_xid, 64)
}

/// A raw filesystem record: the key and value bytes copied out of a leaf.
#[derive(Debug, Clone)]
pub struct Record {
    pub key: Vec<u8>,
    pub val: Vec<u8>,
}

impl View for Record {
    type V = (Seq<u8>, Seq<u8>);

    open spec fn view(&self) -> (Seq<u8>, Seq<u8>) {
        (self.key@, self.val@)
    }
}

/// The key/value bytes of each record of `s`.
pub open spec fn records_view(s: Seq<Record>) -> Seq<(Seq<u8>, Seq<u8>)> {
    s.map_values(|r: Record| r@)
}

/// B-tree engine bound to a device and block size, with a node-block cache and
/// a running list of best-effort warnings (e.g. checksum mismatches).
pub struct BtreeReader<'a, D: BlockDevice + ?Sized> {
    dev: &'a D,
    block_size: u32,
    cache: HashMap<u64, Vec<u8>>,
    loads: u64,
    warnings: Vec<String>,
}

impl<'a, D: BlockDevice + ?Sized> BtreeReader<'a, D> {
    /// The bytes of the device the reader reads from.
    pub closed spec fn source(&self) -> Seq<u8> {
        self.dev.contents()
    }

    /// The block size the reader reads with.
    pub closed spec fn bsize(&self) -> int {
        self.block_size as int
    }

    /// The warnings collected so far.
    pub closed spec fn warnings_view(&self) -> Seq<String> {
        self.warnings@
    }

    /// How many more node blocks the reader may still load from the device
    /// before it refuses (a guard against looping trees).
    pub closed spec fn loads_left(&self) -> int {
        MAX_NODE_LOADS - self.loads
    }

    /// The addresses of the node blocks held in the reader's cache; a read
    /// of one of them does not touch the device.
    pub closed spec fn cached(&self) -> Set<u64> {
        self.cache@.dom()
    }

    /// The device answers every read inside it.
    pub closed spec fn reliable(&self) -> bool {
        !self.dev.fallible()
    }

    /// Every cached block is the device block at its address, and at most
    /// [`MAX_WARNINGS`] warnings are kept.
    pub closed spec fn wf(&self) -> bool {
        &&& forall|k: u64| #[trigger]
            self.cache@.contains_key(k) ==> block_bytes(self.dev.contents(), k as int, self.block_size as int)
                == Some(self.cache@[k]@)
        &&& self.warnings@.len() <= MAX_WARNINGS
        &&& self.loads <= MAX_NODE_LOADS
    }

    /// `self` reads the same device with the same block size as `other`.
    pub open spec fn same_source(&self, other: &Self) -> bool {
        self.source() == other.source() && self.bsize() == other.bsize()
    }

    pub fn new(dev: &'a D, block_size: u32) -> (r: Self)
        ensures
            r.wf(),
            r.source() == dev.contents(),
            r.bsize() == block_size,
            r.warnings_view() == Seq::<String>::empty(),
            r.loads_left() == MAX_NODE_LOADS,
            r.reliable() == !dev.fallible(),
            r.cached() == Set::<u64>::empty(),
    {
        BtreeReader { dev, block_size, cache: HashMap::new(), loads: 0, warnings: Vec::new() }
    }

    /// Drain accumulated warnings.
    pub fn take_warnings(&mut self) -> (w: Vec<String>)
        requires
            old(self).wf(),
        ensures
            w@ == old(self).warnings_view(),
            final(self).warnings_view() == Seq::<String>::empty(),
            final(self).wf(),
            final(self).same_source(old(self)),
            final(self).loads_left() == old(self).loads_left(),
    {
        let mut w: Vec<String> = Vec::new();
        std::mem::swap(&mut w, &mut self.warnings);
        w
    }

    /// Record a warning, unless [`MAX_WARNINGS`] are already kept.
    fn warn(&mut self, msg: String)
        requires
            old(self).wf(),
        ensures
            final(self).wf(),
            final(self).same_source(old(self)),
            final(self).loads_left() == old(self).loads_left(),
            final(self).reliable() == old(self).reliable(),
            final(self).warnings_view() == (if old(self).warnings_view().len() < MAX_WARNINGS {
                old(self).warnings_view().push(msg)
            } else {
                old(self).warnings_view()
            }),
    {
        if self.warnings.len() < MAX_WARNINGS {
            self.warnings.push(msg);
        }
    }

    /// Read and cache the node block at physical address `paddr`; a checksum
    /// mismatch is recorded as a warning, not an error.
    fn read_node(&mut self, paddr: u64) -> (r: Result<Vec<u8>>)
        requires
            old(self).wf(),
        ensures
            final(self).wf(),
            final(self).same_source(old(self)),
            old(self).warnings_view().is_prefix_of(final(self).warnings_view()),
            r matches Ok(b) ==> block_bytes(old(self).source(), paddr as int, old(self).bsize()) == Some(b@),
            block_bytes(old(self).source(), paddr as int, old(self).bsize()) is None ==> r is Err,
            r matches Err(e) ==> device_failure(e.kind) || e.kind == ErrorKind::Corrupt,
            old(self).cached().contains(paddr) ==> final(self).warnings_view() == old(self).warnings_view(),
            r is Err ==> final(self).warnings_view() == old(self).warnings_view(),
            final(self).warnings_view().len() - old(self).warnings_view().len()
                <= old(self).loads_left() - final(self).loads_left(),
            r matches Ok(b) ==> (!old(self).cached().contains(paddr) ==> final(self).warnings_view().len() == old(
                self,
            ).warnings_view().len() + (if !valid_block(b@) && old(self).warnings_view().len() < MAX_WARNINGS {
                1int
            } else {
                0int
            })),
            old(self).loads_left() - 1 <= final(self).loads_left() <= old(self).loads_left(),
            final(self).reliable() == old(self).reliable(),
            old(self).reliable() && old(self).loads_left() > 0 && block_bytes(
                old(self).source(),
                paddr as int,
                old(self).bsize(),
            ) is Some ==> r is Ok,
    {
        match self.cache.get(&paddr) {
            Some(b) => {
                let copy = vstd::slice::slice_to_vec(b.as_slice());
                return Ok(copy);
            },
            None => {},
        }
        if self.loads >= MAX_NODE_LOADS {
            return Err(err(ErrorKind::Corrupt, "b-tree node-load budget exceeded (possible loop)"));
        }
        self.loads = self.loads + 1;
        if self.block_size == 0 {
            return Err(err(ErrorKind::Corrupt, "b-tree block size is zero"));
        }
        let block = self.dev.read_block(paddr, self.block_size)?;
        if !checksum::is_valid(block.as_slice()) {
            let mut m = String::from_str("checksum mismatch for node at block ");
            text::push_str(&mut m, text::hex_prefixed(paddr).as_str());
            text::push_str(&mut m, "; continuing best-effort");
            self.warn(m);
        }
        if self.cache.len() >= MAX_CACHED_NODES {
            self.cache.clear();
        }
        let copy = vstd::slice::slice_to_vec(block.as_slice());
        self.cache.insert(paddr, copy);
        Ok(block)
    }

    /// Exact `(oid, xid)` lookup in a physical object-map B-tree rooted at
    /// block `root_block`: the entry with the given `oid` and the greatest
    /// `xid <= max_xid`, or `None` if absent. It loads at most one node per
    /// level, and fails only on a malformed tree, a failed read or a spent
    /// load budget.
    #[verifier::spinoff_prover]
    #[verifier::rlimit(40)]
    pub fn omap_get(&mut self, root_block: u64, oid: u64, max_xid: u64) -> (r: Result<Option<OmapEntry>>)
        requires
            old(self).wf(),
        ensures
            final(self).wf(),
            final(self).same_source(old(self)),
            old(self).warnings_view().is_prefix_of(final(self).warnings_view()),
            old(self).loads_left() - MAX_NODE_DESCENT <= final(self).loads_left() <= old(self).loads_left(),
            final(self).reliable() == old(self).reliable(),
            old(self).reliable() && old(self).loads_left() >= MAX_NODE_DESCENT && !(omap_lookup(
                old(self).source(),
                old(self).bsize(),
                root_block,
                oid,
                max_xid,
            ) is Bad) ==> r is Ok,
            match r {
                Ok(Some(e)) => omap_lookup(old(self).source(), old(self).bsize(), root_block, oid, max_xid)
                    == Lookup::Found(e),
                Ok(None) => omap_lookup(old(self).source(), old(self).bsize(), root_block, oid, max_xid)
                    == Lookup::Absent,
                Err(_) => true,
            },
            omap_lookup(old(self).source(), old(self).bsize(), root_block, oid, max_xid) is Bad ==> r is Err,
            r matches Err(e) ==> device_failure(e.kind) || e.kind == ErrorKind::Corrupt,
            final(self).warnings_view().len() - old(self).warnings_view().len()
                <= old(self).loads_left() - final(self).loads_left(),
            old(self).reliable() && old(self).loads_left() >= MAX_NODE_DESCENT && omap_bad_node(
                old(self).source(),
                old(self).bsize(),
                root_block,
                oid,
                max_xid,
                64,
            ) ==> (r matches Err(e) && e.kind == ErrorKind::Corrupt),
            block_bytes(old(self).source(), root_block as int, old(self).bsize()) matches Some(b) ==> ((old(
                self,
            ).reliable() && old(self).loads_left() >= MAX_NODE_DESCENT && !old(self).cached().contains(root_block)
                && old(self).warnings_view().len() < MAX_WARNINGS && !(omap_node_step(b, old(self).bsize(), oid, max_xid) is Descend))
                ==> final(self).warnings_view().len() == old(self).warnings_view().len() + (if valid_block(b) {
                0int
            } else {
                1int
            })),
    {
        let ghost src = self.source();
        let ghost bs = self.bsize();
        let ghost w0 = self.warnings_view();
        let ghost l0 = self.loads_left();
        let mut block = self.read_node(root_block)?;
        let ghost w1 = self.warnings_view();
        let ghost root_b = block@;
        let ghost hyp_root = old(self).reliable() && l0 >= MAX_NODE_DESCENT && !old(self).cached().contains(root_block)
            && w0.len() < MAX_WARNINGS;
        let ghost warned: int = if valid_block(root_b) {
            0int
        } else {
            1int
        };
        assert(hyp_root ==> w1.len() == w0.len() + warned);
        let ghost mut cur: u64 = root_block;
        let mut fuel: u16 = MAX_NODE_DESCENT;
        while fuel > 0
            invariant
                self.wf(),
                self.source() == src,
                self.bsize() == bs,
                self.reliable() == old(self).reliable(),
                l0 == old(self).loads_left(),
                l0 - 65 + fuel <= self.loads_left() <= l0,
                src == old(self).source(),
                bs == old(self).bsize(),
                w0 == old(self).warnings_view(),
                w0.is_prefix_of(self.warnings_view()),
                0 < fuel <= 64,
                block_bytes(src, cur as int, bs) == Some(block@),
                omap_lookup(src, bs, root_block, oid, max_xid) == omap_lookup_from(
                    src,
                    bs,
                    cur,
                    oid,
                    max_xid,
                    fuel as nat,
                ),
                omap_bad_node(src, bs, root_block, oid, max_xid, 64) == omap_bad_node(
                    src,
                    bs,
                    cur,
                    oid,
                    max_xid,
                    fuel as nat,
                ),
                fuel == 64 ==> cur == root_block && self.warnings_view() == w1,
                self.warnings_view().len() - w0.len() <= l0 - self.loads_left(),
                hyp_root ==> w1.len() == w0.len() + warned,
                warned == (if valid_block(root_b) {
                    0int
                } else {
                    1int
                }),
                hyp_root == (old(self).reliable() && l0 >= MAX_NODE_DESCENT && !old(self).cached().contains(root_block)
                    && w0.len() < MAX_WARNINGS),
                fuel < 64 ==> omap_node_step(root_b, bs, oid, max_xid) is Descend,
                block_bytes(src, root_block as int, bs) == Some(root_b),
            decreases fuel,
        {
            let step = omap_step(block.as_slice(), self.block_size as usize, oid, max_xid)?;
            match step {
                OmapStep::Descend(child) => {
                    if fuel == 1 {
                        return Err(err(ErrorKind::Corrupt, "object-map descent exceeded depth cap"));
                    }
                    assert(omap_lookup_from(src, bs, cur, oid, max_xid, fuel as nat) == omap_lookup_from(
                        src,
                        bs,
                        child,
                        oid,
                        max_xid,
                        (fuel - 1) as nat,
                    ));
                    assert(block_bytes(src, child as int, bs) is None ==> omap_lookup_from(
                        src,
                        bs,
                        child,
                        oid,
                        max_xid,
                        (fuel - 1) as nat,
                    ) is Bad);
                    assert(omap_bad_node(src, bs, cur, oid, max_xid, fuel as nat) == omap_bad_node(
                        src,
                        bs,
                        child,
                        oid,
                        max_xid,
                        (fuel - 1) as nat,
                    ));
                    block = self.read_node(child)?;
                    proof {
                        cur = child;
                    }
                    fuel = fuel - 1;
                },
                OmapStep::Found(e) => {
                    return Ok(Some(e));
                },
                _ => {
                    return Ok(None);
                },
            }
        }
        Err(err(ErrorKind::Corrupt, "object-map descent exceeded depth cap"))
    }

    /// Resolve an index-node child link to its physical block address. For a
    /// virtual tree (`omap_root = Some`) the link is a virtual OID resolved
    /// through the object map; for a physical tree it already is an address.
    fn resolve_child(&mut self, omap_root: Option<u64>, link: u64, max_xid: u64) -> (r: Result<Option<u64>>)
        requires
            old(self).wf(),
        ensures
            r matches Err(e) ==> read_failure(e.kind),
            final(self).wf(),
            final(self).same_source(old(self)),
            old(self).warnings_view().is_prefix_of(final(self).warnings_view()),
            match r {
                Ok(Some(p)) => child_addr(old(self).source(), old(self).bsize(), omap_root, link, max_xid)
                    == ChildAddr::At(p),
                Ok(None) => child_addr(old(self).source(), old(self).bsize(), omap_root, link, max_xid)
                    == ChildAddr::Missing,
                Err(_) => true,
            },
            child_addr(old(self).source(), old(self).bsize(), omap_root, link, max_xid) is Bad ==> r is Err,
            old(self).loads_left() - lookup_cost(omap_root) <= final(self).loads_left() <= old(self).loads_left(),
            final(self).reliable() == old(self).reliable(),
            old(self).reliable() && old(self).loads_left() >= lookup_cost(omap_root) && !(child_addr(
                old(self).source(),
                old(self).bsize(),
                omap_root,
                link,
                max_xid,
            ) is Bad) ==> r is Ok,
    {
        match omap_root {
            Some(root) => match self.omap_get(root, link, max_xid)? {
                Some(e) => Ok(Some(e.val.paddr)),
                None => Ok(None),
            },
            None => Ok(Some(link)),
        }
    }


    /// Collect every record whose `obj_id` (low 60 bits of `obj_id_and_type`)
    /// equals `oid`, from the filesystem tree rooted at `fs_root_block`. When
    /// `omap_root` is `Some`, child links are virtual OIDs resolved through it;
    /// when `None`, the tree is physical and child links are block addresses.
    pub fn fs_collect(&mut self, omap_root: Option<u64>, fs_root_block: u64, oid: u64, max_xid: u64) -> (r:
        Result<Vec<Record>>)
        requires
            old(self).wf(),
        ensures
            r matches Err(e) ==> read_failure(e.kind),
            final(self).wf(),
            final(self).same_source(old(self)),
            old(self).warnings_view().is_prefix_of(final(self).warnings_view()),
            r matches Ok(v) ==> fs_records(old(self).source(), old(self).bsize(), omap_root, fs_root_block, oid, max_xid)
                == Some(records_view(v@)),
            fs_records(old(self).source(), old(self).bsize(), omap_root, fs_root_block, oid, max_xid) is None
                ==> r is Err,
            old(self).loads_left() - fs_record_loads(old(self).source(), old(self).bsize(), omap_root, fs_root_block, oid, max_xid)
                <= final(self).loads_left() <= old(self).loads_left(),
            final(self).reliable() == old(self).reliable(),
            old(self).reliable() && old(self).loads_left() >= fs_record_loads(
                old(self).source(),
                old(self).bsize(),
                omap_root,
                fs_root_block,
                oid,
                max_xid,
            ) && (fs_records(old(self).source(), old(self).bsize(), omap_root, fs_root_block, oid, max_xid) matches Some(
                s,
            ) && s.len() <= MAX_FS_RECORDS) ==> r is Ok,
            (fs_records(old(self).source(), old(self).bsize(), omap_root, fs_root_block, oid, max_xid) matches Some(s)
                && s.len() > MAX_FS_RECORDS) ==> r is Err,
    {
        let mut out: Vec<Record> = Vec::new();
        let root = self.read_node(fs_root_block)?;
        self.fs_collect_node(root.as_slice(), omap_root, oid, max_xid, &mut out, 0)?;
        proof {
            assert(records_view(Seq::<Record>::empty()) =~= Seq::<(Seq<u8>, Seq<u8>)>::empty());
            let s = collect_node(
                old(self).source(),
                old(self).bsize(),
                root@,
                omap_root,
                oid,
                max_xid,
                0,
            )->0;
            assert(Seq::<(Seq<u8>, Seq<u8>)>::empty() + s =~= s);
        }
        Ok(out)
    }

    #[verifier::rlimit(60)]
    fn fs_collect_node(
        &mut self,
        block: &[u8],
        omap_root: Option<u64>,
        oid: u64,
        max_xid: u64,
        out: &mut Vec<Record>,
        depth: u16,
    ) -> (r: Result<()>)
        requires
            old(self).wf(),
        ensures
            r matches Err(e) ==> read_failure(e.kind),
            final(self).wf(),
            final(self).same_source(old(self)),
            old(self).warnings_view().is_prefix_of(final(self).warnings_view()),
            r is Ok ==> (collect_node(
                old(self).source(),
                old(self).bsize(),
                block@,
                omap_root,
                oid,
                max_xid,
                depth as int,
            ) matches Some(s) && records_view(final(out)@) == records_view(old(out)@) + s),
            collect_node(old(self).source(), old(self).bsize(), block@, omap_root, oid, max_xid, depth as int)
                is None ==> r is Err,
            old(self).loads_left() - collect_loads(old(self).source(), old(self).bsize(), block@, omap_root, oid, max_xid, depth as int)
                <= final(self).loads_left() <= old(self).loads_left(),
            final(self).reliable() == old(self).reliable(),
            old(out)@.len() <= MAX_FS_RECORDS ==> final(out)@.len() <= MAX_FS_RECORDS,
            old(self).reliable() && old(self).loads_left() >= collect_loads(
                old(self).source(),
                old(self).bsize(),
                block@,
                omap_root,
                oid,
                max_xid,
                depth as int,
            ) && (collect_node(old(self).source(), old(self).bsize(), block@, omap_root, oid, max_xid, depth as int)
                matches Some(s) && old(out)@.len() + s.len() <= MAX_FS_RECORDS) ==> r is Ok,
        decreases 65 - depth, 1int,
    {
        let ghost src = self.source();
        let ghost bs = self.bsize();
        let ghost w0 = self.warnings_view();
        let ghost l0 = self.loads_left();
        let ghost out0 = out@;
        if depth > MAX_NODE_DESCENT {
            return Err(err(ErrorKind::Corrupt, "fs-tree descent exceeded depth cap"));
        }
        let v = NodeView::parse(block, self.block_size as usize)?;
        if v.fixed {
            return Err(err(ErrorKind::Corrupt, "filesystem tree node has fixed-kv geometry"));
        }
        if v.leaf {
            return collect_leaf(block, &v, oid, out);
        }
        // Index node: descend into children whose key range may contain `oid`.
        let ghost mut acc: Seq<(Seq<u8>, Seq<u8>)> = Seq::empty();
        let ghost whole = collect_children(src, bs, block@, v, omap_root, oid, max_xid, depth as int, 0);
        let ghost budget = children_loads(src, bs, block@, v, omap_root, oid, max_xid, depth as int, 0);
        proof {
            assert(records_view(out@) =~= records_view(out0) + acc);
            lemma_prepend_empty(whole);
        }
        let mut i: u32 = 0;
        let mut stop = false;
        while i < v.nkeys && !stop
            invariant
                self.wf(),
                self.source() == src,
                self.bsize() == bs,
                src == old(self).source(),
                bs == old(self).bsize(),
                w0 == old(self).warnings_view(),
                out0 == old(out)@,
                w0.is_prefix_of(self.warnings_view()),
                depth <= 64,
                geometry_fits(v, block@.len() as int),
                node_view_of(block@, bs) == Some(v),
                !v.fixed,
                !v.leaf,
                i <= v.nkeys,
                self.reliable() == old(self).reliable(),
                l0 == old(self).loads_left(),
                whole == collect_children(src, bs, block@, v, omap_root, oid, max_xid, depth as int, 0),
                budget == children_loads(src, bs, block@, v, omap_root, oid, max_xid, depth as int, 0),
                self.loads_left() <= l0,
                l0 - self.loads_left() + children_loads(src, bs, block@, v, omap_root, oid, max_xid, depth as int, i as int)
                    <= budget,
                out0.len() <= MAX_FS_RECORDS ==> out@.len() <= MAX_FS_RECORDS,
                out@.len() == out0.len() + acc.len(),
                stop ==> children_loads(src, bs, block@, v, omap_root, oid, max_xid, depth as int, i as int) == 0,
                records_view(out@) == records_view(out0) + acc,
                whole == prepend_some(
                    acc,
                    collect_children(src, bs, block@, v, omap_root, oid, max_xid, depth as int, i as int),
                ),
                stop ==> collect_children(src, bs, block@, v, omap_root, oid, max_xid, depth as int, i as int)
                    == Some(Seq::<(Seq<u8>, Seq<u8>)>::empty()),
            decreases v.nkeys - i + (if stop { 0int } else { 1int }),
        {
            let (koff, klen, voff, _vlen) = v.var_toc(block, i);
            let key_i = index_obj_id(block, &v, koff, klen)?;
            let next_oid = if i + 1 < v.nkeys {
                let (nk, nkl, _, _) = v.var_toc(block, i + 1);
                index_obj_id(block, &v, nk, nkl)?
            } else {
                u64::MAX
            };
            if key_i > oid {
                stop = true;
            } else {
                if oid <= next_oid {
                    let link_bytes = v.val_ptr(block, voff, 8)?;
                    let link = raw::u64_at(link_bytes, 0)?;
                    proof {
                        assert(link_bytes@.subrange(0, 8) =~= link_bytes@);
                        lemma_children_step(src, bs, block@, v, omap_root, oid, max_xid, depth as int, i as int);
                    }
                    let ghost before = out@;
                    self.fs_collect_link(link, omap_root, oid, max_xid, out, depth)?;
                    proof {
                        let s = collect_link(src, bs, omap_root, link, oid, max_xid, depth as int)->0;
                        lemma_prepend_assoc(
                            acc,
                            s,
                            collect_children(src, bs, block@, v, omap_root, oid, max_xid, depth as int, i + 1),
                        );
                        assert(records_view(out0) + acc + s =~= records_view(out0) + (acc + s));
                        assert(records_view(out@).len() == out@.len());
                        acc = acc + s;
                    }
                } else {
                    proof {
                        lemma_prepend_assoc(
                            acc,
                            Seq::empty(),
                            collect_children(src, bs, block@, v, omap_root, oid, max_xid, depth as int, i + 1),
                        );
                        assert(acc + Seq::<(Seq<u8>, Seq<u8>)>::empty() =~= acc);
                    }
                }
                i = i + 1;
            }
        }
        proof {
            lemma_prepend_assoc(acc, Seq::empty(), Some(Seq::<(Seq<u8>, Seq<u8>)>::empty()));
            assert(acc + Seq::<(Seq<u8>, Seq<u8>)>::empty() =~= acc);
        }
        Ok(())
    }

    /// Collect `oid`'s records under the child that index-entry link `link`
    /// leads to; a link the object map does not know is skipped with a
    /// warning.
    fn fs_collect_link(
        &mut self,
        link: u64,
        omap_root: Option<u64>,
        oid: u64,
        max_xid: u64,
        out: &mut Vec<Record>,
        depth: u16,
    ) -> (r: Result<()>)
        requires
            old(self).wf(),
            depth <= 64,
        ensures
            r matches Err(e) ==> read_failure(e.kind),
            final(self).wf(),
            final(self).same_source(old(self)),
            old(self).warnings_view().is_prefix_of(final(self).warnings_view()),
            r is Ok ==> (collect_link(old(self).source(), old(self).bsize(), omap_root, link, oid, max_xid, depth as int)
                matches Some(s) && records_view(final(out)@) == records_view(old(out)@) + s),
            collect_link(old(self).source(), old(self).bsize(), omap_root, link, oid, max_xid, depth as int) is None
                ==> r is Err,
            old(self).loads_left() - link_loads(old(self).source(), old(self).bsize(), omap_root, link, oid, max_xid, depth as int)
                <= final(self).loads_left() <= old(self).loads_left(),
            final(self).reliable() == old(self).reliable(),
            old(out)@.len() <= MAX_FS_RECORDS ==> final(out)@.len() <= MAX_FS_RECORDS,
            old(self).reliable() && old(self).loads_left() >= link_loads(
                old(self).source(),
                old(self).bsize(),
                omap_root,
                link,
                oid,
                max_xid,
                depth as int,
            ) && (collect_link(old(self).source(), old(self).bsize(), omap_root, link, oid, max_xid, depth as int)
                matches Some(s) && old(out)@.len() + s.len() <= MAX_FS_RECORDS) ==> r is Ok,
        decreases 65 - depth, 0int,
    {
        match self.resolve_child(omap_root, link, max_xid)? {
            Some(child_paddr) => {
                let child = self.read_node(child_paddr)?;
                self.fs_collect_node(child.as_slice(), omap_root, oid, max_xid, out, depth + 1)
            },
            None => {
                let mut m = String::from_str("volume omap has no object for virtual OID ");
                text::push_str(&mut m, text::hex_prefixed(link).as_str());
                self.warn(m);
                proof {
                    assert(records_view(out@) =~= records_view(old(out)@) + Seq::<(Seq<u8>, Seq<u8>)>::empty());
                }
                Ok(())
            },
        }
    }

    /// Stream every record of the filesystem/snapshot tree rooted at
    /// `fs_root_block` to `visit`, in key order; the visitor stops the walk by
    /// returning `Ok(false)`, and an error of the visitor ends the walk and is
    /// handed back unchanged. Child links are virtual OIDs resolved through
    /// `omap_root`, or block addresses when it is `None`.
    pub fn fs_walk<V: RecordVisitor>(&mut self, omap_root: Option<u64>, fs_root_block: u64, max_xid: u64, visit: &mut V) -> (r: Result<()>)
        requires
            old(self).wf(),
            old(visit).inv(),
        ensures
            r is Ok ==> final(visit).failed() == old(visit).failed(),
            r matches Err(e) ==> final(visit).failed() == Some(e) || (read_failure(e.kind) && final(visit).failed() == old(
                visit,
            ).failed()),
            final(visit).failed() != old(visit).failed() ==> r == Err::<(), Error>(final(visit).failed()->0),
            r is Ok ==> final(visit).inv(),
            final(self).wf(),
            final(self).same_source(old(self)),
            old(self).warnings_view().is_prefix_of(final(self).warnings_view()),
            ({
                let w = fs_walk_stream(old(self).source(), old(self).bsize(), omap_root, fs_root_block, max_xid);
                &&& walked(old(visit).visited(), final(visit).visited(), w.0)
                &&& r is Ok ==> (final(visit).halted() || (w.1 && final(visit).visited() == old(visit).visited() + w.0))
                &&& old(self).reliable() && old(self).loads_left() >= fs_walk_loads(
                    old(self).source(),
                    old(self).bsize(),
                    omap_root,
                    fs_root_block,
                    max_xid,
                ) && w.1 && accepts_all(old(visit), w.0) ==> r is Ok
            }),
            old(self).loads_left() - fs_walk_loads(old(self).source(), old(self).bsize(), omap_root, fs_root_block, max_xid)
                <= final(self).loads_left() <= old(self).loads_left(),
            final(self).reliable() == old(self).reliable(),
            forall|x: (Seq<u8>, Seq<u8>)| #[trigger] final(visit).accepts(x) == old(visit).accepts(x),
    {
        let ghost src = self.source();
        let ghost bs = self.bsize();
        let ghost v0 = visit.visited();
        proof {
            assert(v0 + Seq::<(Seq<u8>, Seq<u8>)>::empty() =~= v0);
        }
        let root = self.read_node(fs_root_block)?;
        let _ = self.fs_walk_node(root.as_slice(), omap_root, max_xid, visit, 0)?;
        Ok(())
    }

    #[verifier::rlimit(60)]
    fn fs_walk_node<V: RecordVisitor>(&mut self, block: &[u8], omap_root: Option<u64>, max_xid: u64, visit: &mut V, depth: u16) -> (r: Result<bool>)
        requires
            old(self).wf(),
            old(visit).inv(),
        ensures
            r is Ok ==> final(visit).failed() == old(visit).failed(),
            r matches Err(e) ==> final(visit).failed() == Some(e) || (read_failure(e.kind) && final(visit).failed() == old(
                visit,
            ).failed()),
            r is Ok ==> final(visit).inv(),
            final(self).wf(),
            final(self).same_source(old(self)),
            old(self).warnings_view().is_prefix_of(final(self).warnings_view()),
            ({
                let w = walk_node(old(self).source(), old(self).bsize(), block@, omap_root, max_xid, depth as int);
                &&& walked(old(visit).visited(), final(visit).visited(), w.0)
                &&& r matches Ok(true) ==> w.1 && final(visit).visited() == old(visit).visited() + w.0
                &&& r matches Ok(false) ==> final(visit).halted()
                &&& old(self).reliable() && old(self).loads_left() >= walk_node_loads(
                    old(self).source(),
                    old(self).bsize(),
                    block@,
                    omap_root,
                    max_xid,
                    depth as int,
                ) && w.1 && accepts_all(old(visit), w.0) ==> r is Ok
            }),
            old(self).loads_left() - walk_node_loads(old(self).source(), old(self).bsize(), block@, omap_root, max_xid, depth as int)
                <= final(self).loads_left() <= old(self).loads_left(),
            final(self).reliable() == old(self).reliable(),
            forall|x: (Seq<u8>, Seq<u8>)| #[trigger] final(visit).accepts(x) == old(visit).accepts(x),
        decreases 65 - depth, 1int,
    {
        let ghost src = self.source();
        let ghost bs = self.bsize();
        let ghost w0 = self.warnings_view();
        let ghost v0 = visit.visited();
        let ghost l0 = self.loads_left();
        proof {
            assert(v0 + Seq::<(Seq<u8>, Seq<u8>)>::empty() =~= v0);
            assert(v0.subrange(0, 0) =~= Seq::<(Seq<u8>, Seq<u8>)>::empty());
        }
        if depth > MAX_NODE_DESCENT {
            return Err(err(ErrorKind::Corrupt, "fs-tree walk exceeded depth cap"));
        }
        let v = NodeView::parse(block, self.block_size as usize)?;
        if v.fixed {
            return Err(err(ErrorKind::Corrupt, "filesystem tree node has fixed-kv geometry"));
        }
        if v.leaf {
            return walk_leaf(block, &v, visit);
        }
        let ghost mut acc: Seq<(Seq<u8>, Seq<u8>)> = Seq::empty();
        let ghost total = walk_children(src, bs, block@, v, omap_root, max_xid, depth as int, 0);
        let ghost budget = walk_children_loads(src, bs, block@, v, omap_root, max_xid, depth as int, 0);
        let ghost hyp = old(self).reliable() && l0 >= budget && total.1 && accepts_all(old(visit), total.0);
        proof {
            assert(after(acc, total) == total) by {
                assert(acc + total.0 =~= total.0);
            }
        }
        let mut i: u32 = 0;
        while i < v.nkeys
            invariant
                self.wf(),
                self.source() == src,
                self.bsize() == bs,
                src == old(self).source(),
                bs == old(self).bsize(),
                w0 == old(self).warnings_view(),
                v0 == old(visit).visited(),
                w0.is_prefix_of(self.warnings_view()),
                depth <= 64,
                geometry_fits(v, block@.len() as int),
                node_view_of(block@, bs) == Some(v),
                !v.fixed,
                !v.leaf,
                i <= v.nkeys,
                total == walk_children(src, bs, block@, v, omap_root, max_xid, depth as int, 0),
                visit.inv(),
                visit.failed() == old(visit).failed(),
                visit.visited() == v0 + acc,
                total == after(acc, walk_children(src, bs, block@, v, omap_root, max_xid, depth as int, i as int)),
                self.reliable() == old(self).reliable(),
                l0 == old(self).loads_left(),
                budget == walk_children_loads(src, bs, block@, v, omap_root, max_xid, depth as int, 0),
                self.loads_left() <= l0,
                l0 - self.loads_left() + walk_children_loads(src, bs, block@, v, omap_root, max_xid, depth as int, i as int)
                    <= budget,
                forall|x: (Seq<u8>, Seq<u8>)| #[trigger] visit.accepts(x) == old(visit).accepts(x),
                hyp == (old(self).reliable() && l0 >= budget && total.1 && accepts_all(old(visit), total.0)),
            decreases v.nkeys - i,
        {
            let ghost rest = walk_children(src, bs, block@, v, omap_root, max_xid, depth as int, i as int);
            proof {
                lemma_walked_prefix(v0, acc, Seq::empty(), rest.0);
            }
            let (_koff, _klen, voff, _vlen) = v.var_toc(block, i);
            let link_bytes = v.val_ptr(block, voff, 8)?;
            let link = raw::u64_at(link_bytes, 0)?;
            proof {
                assert(link_bytes@.subrange(0, 8) =~= link_bytes@);
                lemma_walk_children_step(src, bs, block@, v, omap_root, max_xid, depth as int, i as int);
            }
            let ghost cw = walk_link(src, bs, omap_root, link, max_xid, depth as int);
            let ghost before = visit.visited();
            proof {
                if hyp {
                    assert(cw.1);
                    assert forall|j: int| 0 <= j < cw.0.len() implies old(visit).accepts(#[trigger] cw.0[j]) by {
                        assert(total.0[acc.len() + j] == cw.0[j]);
                    }
                }
            }
            let res = self.fs_walk_link(link, omap_root, max_xid, visit, depth);
            proof {
                let p = visit.visited().subrange(before.len() as int, visit.visited().len() as int);
                assert(visit.visited() =~= v0 + acc + p);
                assert(p =~= cw.0.subrange(0, p.len() as int));
                if cw.1 {
                    assert(rest.0.subrange(0, p.len() as int) =~= cw.0.subrange(0, p.len() as int));
                } else {
                    assert(rest == cw);
                }
                lemma_walked_prefix(v0, acc, p, rest.0);
            }
            let go = res?;
            if !go {
                return Ok(false);
            }
            proof {
                lemma_after_assoc(acc, cw.0, walk_children(src, bs, block@, v, omap_root, max_xid, depth as int, i + 1));
                assert(v0 + acc + cw.0 =~= v0 + (acc + cw.0));
                acc = acc + cw.0;
            }
            i = i + 1;
        }
        proof {
            assert(acc + Seq::<(Seq<u8>, Seq<u8>)>::empty() =~= acc);
            lemma_walked_prefix(v0, acc, Seq::empty(), Seq::empty());
        }
        Ok(true)
    }

    /// Walk the child that index-entry link `link` leads to; a link the
    /// object map does not know is skipped with a warning.
    fn fs_walk_link<V: RecordVisitor>(&mut self, link: u64, omap_root: Option<u64>, max_xid: u64, visit: &mut V, depth: u16) -> (r: Result<bool>)
        requires
            old(self).wf(),
            old(visit).inv(),
            depth <= 64,
        ensures
            r is Ok ==> final(visit).failed() == old(visit).failed(),
            r matches Err(e) ==> final(visit).failed() == Some(e) || (read_failure(e.kind) && final(visit).failed() == old(
                visit,
            ).failed()),
            r is Ok ==> final(visit).inv(),
            final(self).wf(),
            final(self).same_source(old(self)),
            old(self).warnings_view().is_prefix_of(final(self).warnings_view()),
            ({
                let w = walk_link(old(self).source(), old(self).bsize(), omap_root, link, max_xid, depth as int);
                &&& walked(old(visit).visited(), final(visit).visited(), w.0)
                &&& r matches Ok(true) ==> w.1 && final(visit).visited() == old(visit).visited() + w.0
                &&& r matches Ok(false) ==> final(visit).halted()
                &&& old(self).reliable() && old(self).loads_left() >= walk_link_loads(
                    old(self).source(),
                    old(self).bsize(),
                    omap_root,
                    link,
                    max_xid,
                    depth as int,
                ) && w.1 && accepts_all(old(visit), w.0) ==> r is Ok
            }),
            old(self).loads_left() - walk_link_loads(old(self).source(), old(self).bsize(), omap_root, link, max_xid, depth as int)
                <= final(self).loads_left() <= old(self).loads_left(),
            final(self).reliable() == old(self).reliable(),
            forall|x: (Seq<u8>, Seq<u8>)| #[trigger] final(visit).accepts(x) == old(visit).accepts(x),
        decreases 65 - depth, 0int,
    {
        proof {
            assert(old(visit).visited() + Seq::<(Seq<u8>, Seq<u8>)>::empty() =~= old(visit).visited());
            assert(old(visit).visited().subrange(0, 0) =~= Seq::<(Seq<u8>, Seq<u8>)>::empty());
        }
        match self.resolve_child(omap_root, link, max_xid)? {
            Some(child_paddr) => {
                let child = self.read_node(child_paddr)?;
                self.fs_walk_node(child.as_slice(), omap_root, max_xid, visit, depth + 1)
            },
            None => {
                let mut m = String::from_str("volume omap has no object for virtual OID ");
                text::push_str(&mut m, text::hex_prefixed(link).as_str());
                self.warn(m);
                Ok(true)
            },
        }
    }

    /// Read a physical object block (a checksum mismatch is a warning) and
    /// return both its parsed header and its raw bytes.
    pub fn read_object(&mut self, paddr: u64) -> (r: Result<(ObjPhys, Vec<u8>)>)
        requires
            old(self).wf(),
        ensures
            final(self).wf(),
            final(self).same_source(old(self)),
            old(self).warnings_view().is_prefix_of(final(self).warnings_view()),
            r matches Ok((h, b)) ==> block_bytes(old(self).source(), paddr as int, old(self).bsize()) == Some(b@)
                && b@.len() >= 32 && h == header_of(b@),
            (block_bytes(old(self).source(), paddr as int, old(self).bsize()) matches Some(b) ==> b.len() < 32)
                ==> r is Err,
            old(self).reliable() && old(self).loads_left() > 0 && (block_bytes(
                old(self).source(),
                paddr as int,
                old(self).bsize(),
            ) matches Some(b) && b.len() >= 32) ==> r is Ok,
            old(self).loads_left() - 1 <= final(self).loads_left(),
            final(self).reliable() == old(self).reliable(),
    {
        let block = self.read_node(paddr)?;
        let header = ObjPhys::parse(block.as_slice())?;
        Ok((header, block))
    }

    /// The level field of the B-tree root node at `root_block`.
    pub fn root_level(&mut self, root_block: u64) -> (r: Result<u16>)
        requires
            old(self).wf(),
        ensures
            final(self).wf(),
            final(self).same_source(old(self)),
            old(self).warnings_view().is_prefix_of(final(self).warnings_view()),
            r matches Ok(l) ==> (block_bytes(old(self).source(), root_block as int, old(self).bsize()) matches Some(b)
                && node_view_of(b, old(self).bsize()) matches Some(v) && v.level == l),
            (block_bytes(old(self).source(), root_block as int, old(self).bsize()) matches Some(b)
                ==> node_view_of(b, old(self).bsize()) is None) ==> r is Err,
            old(self).reliable() && old(self).loads_left() > 0 && (block_bytes(
                old(self).source(),
                root_block as int,
                old(self).bsize(),
            ) matches Some(b) && node_view_of(b, old(self).bsize()) is Some) ==> r is Ok,
            old(self).loads_left() - 1 <= final(self).loads_left(),
            final(self).reliable() == old(self).reliable(),
    {
        let block = self.read_node(root_block)?;
        let v = NodeView::parse(block.as_slice(), self.block_size as usize)?;
        Ok(v.level)
    }

}

/// Where an index-node child link leads.
pub enum ChildAddr {
    /// The object map could not be read.
    Bad,
    /// The object map has no entry for the link.
    Missing,
    /// The child node's physical block.
    At(u64),
}

/// The physical block of the child behind `link`: the link itself in a
/// physical tree, or its object-map entry's address in a virtual one.
pub open spec fn child_addr(c: Seq<u8>, bs: int, omap_root: Option<u64>, link: u64, max_xid: u64) -> ChildAddr {
    match omap_root {
        None => ChildAddr::At(link),
        Some(root) => match omap_lookup(c, bs, root, link, max_xid) {
            Lookup::Bad => ChildAddr::Bad,
            Lookup::Absent => ChildAddr::Missing,
            Lookup::Found(e) => ChildAddr::At(e.val.paddr),
        },
    }
}

/// One object-map lookup step at node `block` (see [`omap_node_step`]);
/// never returns [`OmapStep::Bad`], failing instead.
fn omap_step(block: &[u8], block_size: usize, oid: u64, max_xid: u64) -> (r: Result<OmapStep>)
    ensures
        match r {
            Ok(s) => s == omap_node_step(block@, block_size as int, oid, max_xid) && !(s is Bad),
            Err(e) => omap_node_step(block@, block_size as int, oid, max_xid) is Bad && e.kind == ErrorKind::Corrupt,
        },
{
    let v = NodeView::parse(block, block_size)?;
    if !v.fixed {
        return Err(err(ErrorKind::Corrupt, "object-map node is not fixed-kv"));
    }
    // Count the entries whose key is at or below (oid, max_xid).
    let mut i: u32 = 0;
    let mut stop = false;
    while i < v.nkeys && !stop
        invariant
            geometry_fits(v, block@.len() as int),
            node_view_of(block@, block_size as int) == Some(v),
            v.fixed,
            i <= v.nkeys,
            omap_prefix(block@, v, oid, max_xid, 0) == omap_prefix(block@, v, oid, max_xid, i as int),
            stop ==> i < v.nkeys && (fixed_key_at(block@, v, i as int) matches Some(k) && beyond(k, oid, max_xid)),
            i > 0 ==> (fixed_key_at(block@, v, i - 1) matches Some(k) && !beyond(k, oid, max_xid)),
        decreases v.nkeys - i + (if stop { 0int } else { 1int }),
    {
        let (koff, _) = v.fixed_toc(block, i);
        let key = OmapKey::parse(v.key_ptr(block, koff, OmapKey::SIZE)?)?;
        if key.oid > oid || (key.oid == oid && key.xid > max_xid) {
            stop = true;
        } else {
            i = i + 1;
        }
    }
    if i == 0 {
        return Ok(OmapStep::Absent);
    }
    let c = i - 1;
    let (koff, voff) = v.fixed_toc(block, c);
    if v.leaf {
        let key = OmapKey::parse(v.key_ptr(block, koff, OmapKey::SIZE)?)?;
        if key.oid != oid || key.xid > max_xid {
            return Ok(OmapStep::Absent);
        }
        let val = OmapVal::parse(v.val_ptr(block, voff, OmapVal::SIZE)?)?;
        return Ok(OmapStep::Found(OmapEntry { key, val }));
    }
    let link = v.val_ptr(block, voff, 8)?;
    let child = raw::u64_at(link, 0)?;
    proof {
        assert(link@.subrange(0, 8) =~= link@);
    }
    Ok(OmapStep::Descend(child))
}


/// `a` in front of the records `o`, when `o` is present.
pub open spec fn prepend_some<T>(a: Seq<T>, o: Option<Seq<T>>) -> Option<Seq<T>> {
    match o {
        Some(s) => Some(a + s),
        None => None,
    }
}

pub(crate) proof fn lemma_prepend_assoc<T>(a: Seq<T>, b: Seq<T>, o: Option<Seq<T>>)
    ensures
        prepend_some(a, prepend_some(b, o)) == prepend_some(a + b, o),
{
    if let Some(s) = o {
        assert(a + (b + s) =~= (a + b) + s);
    }
}

pub(crate) proof fn lemma_prepend_empty<T>(o: Option<Seq<T>>)
    ensures
        prepend_some(Seq::empty(), o) == o,
{
    if let Some(s) = o {
        assert(Seq::<T>::empty() + s =~= s);
    }
}

/// The records of leaf `b` (geometry `v`) whose key's object id is `oid`,
/// scanning from entry `i` until a larger object id; `None` when an entry on
/// the way lies outside the node or its key is shorter than 8 bytes.
pub open spec fn leaf_records(b: Seq<u8>, v: NodeView, oid: u64, i: int) -> Option<Seq<(Seq<u8>, Seq<u8>)>>
    decreases v.nkeys - i,
{
    if i >= v.nkeys {
        Some(Seq::empty())
    } else {
        let (koff, klen, voff, vlen) = var_toc_of(b, v, i);
        match key_start(v, koff as int, klen as int) {
            None => None,
            Some(kp) => if klen < 8 {
                None
            } else {
                let key = b.subrange(kp, kp + klen);
                let id = obj_id_of(le_at(key, 0, 8) as u64);
                if id < oid {
                    leaf_records(b, v, oid, i + 1)
                } else if id > oid {
                    Some(Seq::empty())
                } else {
                    match val_start(v, voff as int, vlen as int) {
                        None => None,
                        Some(vp) => prepend_some(
                            seq![(key, b.subrange(vp, vp + vlen))],
                            leaf_records(b, v, oid, i + 1),
                        ),
                    }
                }
            },
        }
    }
}

/// The object id of the key of index entry `i` (read as at least 8 bytes).
pub open spec fn index_key(b: Seq<u8>, v: NodeView, i: int) -> Option<u64> {
    let (koff, klen, _, _) = var_toc_of(b, v, i);
    let len: int = if klen < 8 { 8 } else { klen as int };
    match key_start(v, koff as int, len) {
        None => None,
        Some(p) => Some(obj_id_of(le_at(b, p, 8) as u64)),
    }
}

/// The records for `oid` under filesystem-tree node `b` at depth `depth`, in
/// key order, or `None` when a node on the way is unreadable or malformed.
pub open spec fn collect_node(
    c: Seq<u8>,
    bs: int,
    b: Seq<u8>,
    omap_root: Option<u64>,
    oid: u64,
    max_xid: u64,
    depth: int,
) -> Option<Seq<(Seq<u8>, Seq<u8>)>>
    decreases 65 - depth, 1int, 0int,
{
    if depth < 0 || depth > 64 {
        None
    } else {
        match node_view_of(b, bs) {
            None => None,
            Some(v) => if v.fixed {
                None
            } else if v.leaf {
                leaf_records(b, v, oid, 0)
            } else {
                collect_children(c, bs, b, v, omap_root, oid, max_xid, depth, 0)
            },
        }
    }
}

/// The records for `oid` under the children of index node `b` from entry
/// `i` on: a child is visited when its key range may hold `oid`, a child the
/// object map does not know is skipped, and the scan ends at the first key
/// past `oid`.
pub open spec fn collect_children(
    c: Seq<u8>,
    bs: int,
    b: Seq<u8>,
    v: NodeView,
    omap_root: Option<u64>,
    oid: u64,
    max_xid: u64,
    depth: int,
    i: int,
) -> Option<Seq<(Seq<u8>, Seq<u8>)>>
    decreases 65 - depth, 0int, v.nkeys - i,
{
    if depth < 0 || depth > 64 {
        None
    } else if i >= v.nkeys {
        Some(Seq::empty())
    } else {
        let next = if i + 1 < v.nkeys {
            index_key(b, v, i + 1)
        } else {
            Some(0xffff_ffff_ffff_ffffu64)
        };
        match index_key(b, v, i) {
            None => None,
            Some(key_i) => match next {
                None => None,
                Some(next_oid) => if key_i > oid {
                    Some(Seq::empty())
                } else if oid <= next_oid {
                    match val_start(v, var_toc_of(b, v, i).2 as int, 8) {
                        None => None,
                        Some(p) => match child_addr(c, bs, omap_root, le_at(b, p, 8) as u64, max_xid) {
                            ChildAddr::Bad => None,
                            ChildAddr::Missing => collect_children(c, bs, b, v, omap_root, oid, max_xid, depth, i + 1),
                            ChildAddr::At(paddr) => match block_bytes(c, paddr as int, bs) {
                                None => None,
                                Some(cb) => match collect_node(c, bs, cb, omap_root, oid, max_xid, depth + 1) {
                                    None => None,
                                    Some(s) => prepend_some(
                                        s,
                                        collect_children(c, bs, b, v, omap_root, oid, max_xid, depth, i + 1),
                                    ),
                                },
                            },
                        },
                    }
                } else {
                    collect_children(c, bs, b, v, omap_root, oid, max_xid, depth, i + 1)
                },
            },
        }
    }
}

/// The node loads an object-map lookup of a child link may take: none in a
/// physical tree, one per level in a virtual one.
pub open spec fn lookup_cost(omap_root: Option<u64>) -> nat {
    if omap_root is Some {
        MAX_NODE_DESCENT as nat
    } else {
        0
    }
}

/// A bound on the node blocks that collecting `oid`'s records under node
/// `b` loads: each child visited costs its object-map lookup, its own block
/// and what collecting under it loads.
pub open spec fn collect_loads(
    c: Seq<u8>,
    bs: int,
    b: Seq<u8>,
    omap_root: Option<u64>,
    oid: u64,
    max_xid: u64,
    depth: int,
) -> nat
    decreases 65 - depth, 2int, 0int,
{
    if depth < 0 || depth > 64 {
        0
    } else {
        match node_view_of(b, bs) {
            None => 0,
            Some(v) => if v.fixed || v.leaf {
                0
            } else {
                children_loads(c, bs, b, v, omap_root, oid, max_xid, depth, 0)
            },
        }
    }
}

/// The loads bound of [`collect_loads`] for the children of index node `b`
/// from entry `i` on.
pub open spec fn children_loads(
    c: Seq<u8>,
    bs: int,
    b: Seq<u8>,
    v: NodeView,
    omap_root: Option<u64>,
    oid: u64,
    max_xid: u64,
    depth: int,
    i: int,
) -> nat
    decreases 65 - depth, 1int, v.nkeys - i,
{
    if depth < 0 || depth > 64 || i >= v.nkeys {
        0
    } else {
        let next = if i + 1 < v.nkeys {
            index_key(b, v, i + 1)
        } else {
            Some(0xffff_ffff_ffff_ffffu64)
        };
        match index_key(b, v, i) {
            None => 0,
            Some(key_i) => match next {
                None => 0,
                Some(next_oid) => if key_i > oid {
                    0
                } else if oid <= next_oid {
                    match val_start(v, var_toc_of(b, v, i).2 as int, 8) {
                        None => 0,
                        Some(p) => link_loads(c, bs, omap_root, le_at(b, p, 8) as u64, oid, max_xid, depth)
                            + children_loads(c, bs, b, v, omap_root, oid, max_xid, depth, i + 1),
                    }
                } else {
                    children_loads(c, bs, b, v, omap_root, oid, max_xid, depth, i + 1)
                },
            },
        }
    }
}

/// A bound on the node blocks that following index link `link` (at depth
/// `depth`) loads: its object-map lookup, the child block and what
/// collecting under the child loads.
pub open spec fn link_loads(c: Seq<u8>, bs: int, omap_root: Option<u64>, link: u64, oid: u64, max_xid: u64, depth: int) -> nat
    decreases 65 - depth, 0int, 0int,
{
    lookup_cost(omap_root) + match child_addr(c, bs, omap_root, link, max_xid) {
        ChildAddr::At(paddr) => 1 + match block_bytes(c, paddr as int, bs) {
            None => 0,
            Some(cb) => if 0 <= depth < 64 {
                collect_loads(c, bs, cb, omap_root, oid, max_xid, depth + 1)
            } else {
                0
            },
        },
        _ => 0,
    }
}

/// The records for `oid` under the child that index link `link` (at depth
/// `depth`) leads to: none when the object map does not know the link.
pub open spec fn collect_link(
    c: Seq<u8>,
    bs: int,
    omap_root: Option<u64>,
    link: u64,
    oid: u64,
    max_xid: u64,
    depth: int,
) -> Option<Seq<(Seq<u8>, Seq<u8>)>> {
    match child_addr(c, bs, omap_root, link, max_xid) {
        ChildAddr::Bad => None,
        ChildAddr::Missing => Some(Seq::empty()),
        ChildAddr::At(paddr) => match block_bytes(c, paddr as int, bs) {
            None => None,
            Some(cb) => collect_node(c, bs, cb, omap_root, oid, max_xid, depth + 1),
        },
    }
}

/// Visiting entry `i` of index node `b`: the records are those under its
/// link followed by those of the later entries, and the loads bound splits
/// the same way.
proof fn lemma_children_step(
    c: Seq<u8>,
    bs: int,
    b: Seq<u8>,
    v: NodeView,
    omap_root: Option<u64>,
    oid: u64,
    max_xid: u64,
    depth: int,
    i: int,
)
    requires
        0 <= depth <= 64,
        0 <= i < v.nkeys,
        index_key(b, v, i) matches Some(k) && k <= oid,
        (if i + 1 < v.nkeys {
            index_key(b, v, i + 1)
        } else {
            Some(0xffff_ffff_ffff_ffffu64)
        }) matches Some(n) && oid <= n,
        val_start(v, var_toc_of(b, v, i).2 as int, 8) is Some,
    ensures
        ({
            let p = val_start(v, var_toc_of(b, v, i).2 as int, 8)->0;
            let link = le_at(b, p, 8) as u64;
            &&& collect_children(c, bs, b, v, omap_root, oid, max_xid, depth, i) == match collect_link(
                c,
                bs,
                omap_root,
                link,
                oid,
                max_xid,
                depth,
            ) {
                None => None,
                Some(s) => prepend_some(s, collect_children(c, bs, b, v, omap_root, oid, max_xid, depth, i + 1)),
            }
            &&& children_loads(c, bs, b, v, omap_root, oid, max_xid, depth, i) == link_loads(
                c,
                bs,
                omap_root,
                link,
                oid,
                max_xid,
                depth,
            ) + children_loads(c, bs, b, v, omap_root, oid, max_xid, depth, i + 1)
        }),
{
    lemma_prepend_empty(collect_children(c, bs, b, v, omap_root, oid, max_xid, depth, i + 1));
}

/// A bound on the node blocks that collecting `oid`'s records in the tree
/// rooted at block `root` loads.
pub open spec fn fs_record_loads(c: Seq<u8>, bs: int, omap_root: Option<u64>, root: u64, oid: u64, max_xid: u64) -> nat {
    1 + match block_bytes(c, root as int, bs) {
        None => 0,
        Some(b) => collect_loads(c, bs, b, omap_root, oid, max_xid, 0),
    }
}

/// The records for `oid` in the filesystem tree rooted at block `root`.
pub open spec fn fs_records(
    c: Seq<u8>,
    bs: int,
    omap_root: Option<u64>,
    root: u64,
    oid: u64,
    max_xid: u64,
) -> Option<Seq<(Seq<u8>, Seq<u8>)>> {
    match block_bytes(c, root as int, bs) {
        None => None,
        Some(b) => collect_node(c, bs, b, omap_root, oid, max_xid, 0),
    }
}

/// The object id of index key `(koff, klen)`, read as at least 8 bytes.
fn index_obj_id(block: &[u8], v: &NodeView, koff: u16, klen: u16) -> (r: Result<u64>)
    requires
        geometry_fits(*v, block@.len() as int),
    ensures
        ({
            let len: int = if klen < 8 { 8 } else { klen as int };
            match r {
                Ok(id) => key_start(*v, koff as int, len) matches Some(p) && id == obj_id_of(le_at(block@, p, 8) as u64),
                Err(e) => key_start(*v, koff as int, len) is None && e.kind == ErrorKind::Corrupt,
            }
        }),
{
    let len: u16 = if klen < 8 { 8 } else { klen };
    let key = v.key_ptr(block, koff, len as usize)?;
    let word = raw::u64_at(key, 0)?;
    proof {
        let p = key_start(*v, koff as int, len as int)->0;
        assert(key@.subrange(0, 8) =~= block@.subrange(p, p + 8));
    }
    Ok(split_obj_id_and_type(word).0)
}

/// Append the records of leaf `block` whose object id is `oid` to `out`.
fn collect_leaf(block: &[u8], v: &NodeView, oid: u64, out: &mut Vec<Record>) -> (r: Result<()>)
    requires
        geometry_fits(*v, block@.len() as int),
        !v.fixed,
    ensures
        r matches Err(e) ==> e.kind == ErrorKind::Corrupt,
        r is Ok ==> (leaf_records(block@, *v, oid, 0) matches Some(s) && records_view(final(out)@) == records_view(
            old(out)@,
        ) + s),
        leaf_records(block@, *v, oid, 0) is None ==> r is Err,
        (leaf_records(block@, *v, oid, 0) matches Some(s) && old(out)@.len() + s.len() <= MAX_FS_RECORDS) ==> r is Ok,
        old(out)@.len() <= MAX_FS_RECORDS ==> final(out)@.len() <= MAX_FS_RECORDS,
{
    let ghost out0 = out@;
    let ghost mut acc: Seq<(Seq<u8>, Seq<u8>)> = Seq::empty();
    proof {
        assert(records_view(out@) =~= records_view(out0) + acc);
        lemma_prepend_empty(leaf_records(block@, *v, oid, 0));
    }
    let mut i: u32 = 0;
    let mut stop = false;
    while i < v.nkeys && !stop
        invariant
            geometry_fits(*v, block@.len() as int),
            !v.fixed,
            i <= v.nkeys,
            out0 == old(out)@,
            records_view(out@) == records_view(out0) + acc,
            out@.len() == out0.len() + acc.len(),
            out0.len() <= MAX_FS_RECORDS ==> out@.len() <= MAX_FS_RECORDS,
            leaf_records(block@, *v, oid, 0) == prepend_some(acc, leaf_records(block@, *v, oid, i as int)),
            stop ==> leaf_records(block@, *v, oid, i as int) == Some(Seq::<(Seq<u8>, Seq<u8>)>::empty()),
        decreases v.nkeys - i + (if stop { 0int } else { 1int }),
    {
        let (koff, klen, voff, vlen) = v.var_toc(block, i);
        let key = v.key_ptr(block, koff, klen as usize)?;
        let word = raw::u64_at(key, 0)?;
        let obj_id = split_obj_id_and_type(word).0;
        if obj_id > oid {
            stop = true;
        } else {
            if obj_id == oid {
                if out.len() >= MAX_FS_RECORDS {
                    return Err(err(ErrorKind::Corrupt, "fs record cap exceeded"));
                }
                let val = v.val_ptr(block, voff, vlen as usize)?;
                let rec = Record { key: vstd::slice::slice_to_vec(key), val: vstd::slice::slice_to_vec(val) };
                let ghost before = out@;
                out.push(rec);
                proof {
                    assert(records_view(out@) =~= records_view(before).push(rec@));
                    lemma_prepend_assoc(acc, seq![rec@], leaf_records(block@, *v, oid, i + 1));
                    assert(records_view(out0) + acc + seq![rec@] =~= records_view(out0) + (acc + seq![rec@]));
                    assert(records_view(before).push(rec@) =~= records_view(before) + seq![rec@]);
                    acc = acc + seq![rec@];
                }
            } else {
                proof {
                    lemma_prepend_assoc(acc, Seq::empty(), leaf_records(block@, *v, oid, i + 1));
                    assert(acc + Seq::<(Seq<u8>, Seq<u8>)>::empty() =~= acc);
                }
            }
            i = i + 1;
        }
    }
    proof {
        lemma_prepend_assoc(acc, Seq::empty(), Some(Seq::<(Seq<u8>, Seq<u8>)>::empty()));
        assert(acc + Seq::<(Seq<u8>, Seq<u8>)>::empty() =~= acc);
    }
    Ok(())
}


/// A consumer of the `(key, value)` records of a tree walk.
pub trait RecordVisitor {
    /// The records handed to the visitor so far, in order. A visitor that
    /// does not say what it saw promises nothing about it.
    closed spec fn visited(&self) -> Seq<(Seq<u8>, Seq<u8>)> {
        vstd::pervasive::arbitrary()
    }

    /// The error the visitor last failed with, if any. A visitor that does
    /// not say promises nothing about it.
    closed spec fn failed(&self) -> Option<Error> {
        vstd::pervasive::arbitrary()
    }

    /// The visitor has asked the walk to stop.
    closed spec fn halted(&self) -> bool {
        vstd::pervasive::arbitrary()
    }

    /// The visitor's own state is consistent with what it has visited.
    closed spec fn inv(&self) -> bool {
        true
    }

    /// The visitor takes record `rec` without failing, whatever it was
    /// handed before. A visitor that does not say which records it takes
    /// promises to take none.
    closed spec fn accepts(&self, rec: (Seq<u8>, Seq<u8>)) -> bool {
        false
    }

    /// Take the next record; `Ok(false)` stops the walk.
    fn visit(&mut self, key: &[u8], val: &[u8]) -> (r: Result<bool>)
        requires
            old(self).inv(),
        ensures
            final(self).visited() == old(self).visited().push((key@, val@)),
            r matches Ok(go) ==> final(self).halted() == !go && final(self).inv(),
            r matches Err(e) ==> final(self).failed() == Some(e),
            r is Ok ==> final(self).failed() == old(self).failed(),
            old(self).accepts((key@, val@)) ==> r is Ok,
            forall|x: (Seq<u8>, Seq<u8>)| #[trigger] final(self).accepts(x) == old(self).accepts(x),
    ;
}

/// A visitor that keeps a copy of every record it is handed and never stops
/// the walk.
pub struct RecordCollector {
    records: Vec<Record>,
}

impl RecordCollector {
    pub fn new() -> (c: RecordCollector)
        ensures
            c.visited() == Seq::<(Seq<u8>, Seq<u8>)>::empty(),
            c.inv(),
    {
        RecordCollector { records: Vec::new() }
    }

    /// The records collected, in the order they were visited.
    pub fn into_records(self) -> (r: Vec<Record>)
        ensures
            records_view(r@) == self.visited(),
    {
        self.records
    }
}

impl RecordVisitor for RecordCollector {
    closed spec fn visited(&self) -> Seq<(Seq<u8>, Seq<u8>)> {
        records_view(self.records@)
    }

    open spec fn halted(&self) -> bool {
        false
    }

    open spec fn inv(&self) -> bool {
        true
    }

    open spec fn accepts(&self, rec: (Seq<u8>, Seq<u8>)) -> bool {
        true
    }

    fn visit(&mut self, key: &[u8], val: &[u8]) -> (r: Result<bool>) {
        let ghost before = self.records@;
        let rec = Record { key: vstd::slice::slice_to_vec(key), val: vstd::slice::slice_to_vec(val) };
        self.records.push(rec);
        proof {
            assert(records_view(self.records@) =~= records_view(before).push((key@, val@)));
        }
        Ok(true)
    }
}

/// The records `s` walked, in order, followed by whether the walk ended
/// without finding a malformed node.
pub open spec fn after<T>(a: Seq<T>, w: (Seq<T>, bool)) -> (Seq<T>, bool) {
    (a + w.0, w.1)
}

/// `new` is `old` followed by a prefix of `stream`.
pub open spec fn walked<T>(old: Seq<T>, new: Seq<T>, stream: Seq<T>) -> bool {
    &&& old.len() <= new.len() <= old.len() + stream.len()
    &&& new == old + stream.subrange(0, new.len() - old.len())
}

proof fn lemma_after_assoc<T>(a: Seq<T>, b: Seq<T>, w: (Seq<T>, bool))
    ensures
        after(a, after(b, w)) == after(a + b, w),
{
    assert(a + (b + w.0) =~= (a + b) + w.0);
}

proof fn lemma_walked_prefix<T>(v0: Seq<T>, acc: Seq<T>, p: Seq<T>, rest: Seq<T>)
    requires
        p.len() <= rest.len(),
        p =~= rest.subrange(0, p.len() as int),
    ensures
        walked(v0, v0 + acc + p, acc + rest),
{
    assert((acc + rest).subrange(0, (acc.len() + p.len()) as int) =~= acc + p);
    assert(v0 + acc + p =~= v0 + (acc + p));
}

/// What a walk of leaf `b` (geometry `v`) hands out from entry `i` on.
pub open spec fn walk_leaf_stream(b: Seq<u8>, v: NodeView, i: int) -> (Seq<(Seq<u8>, Seq<u8>)>, bool)
    decreases v.nkeys - i,
{
    if i >= v.nkeys {
        (Seq::empty(), true)
    } else {
        let (koff, klen, voff, vlen) = var_toc_of(b, v, i);
        match key_start(v, koff as int, klen as int) {
            None => (Seq::empty(), false),
            Some(kp) => match val_start(v, voff as int, vlen as int) {
                None => (Seq::empty(), false),
                Some(vp) => after(
                    seq![(b.subrange(kp, kp + klen), b.subrange(vp, vp + vlen))],
                    walk_leaf_stream(b, v, i + 1),
                ),
            },
        }
    }
}

/// What a walk of filesystem-tree node `b` at depth `depth` hands out, and
/// whether it ends without finding a malformed node.
pub open spec fn walk_node(c: Seq<u8>, bs: int, b: Seq<u8>, omap_root: Option<u64>, max_xid: u64, depth: int) -> (
    Seq<(Seq<u8>, Seq<u8>)>,
    bool,
)
    decreases 65 - depth, 1int, 0int,
{
    if depth < 0 || depth > 64 {
        (Seq::empty(), false)
    } else {
        match node_view_of(b, bs) {
            None => (Seq::empty(), false),
            Some(v) => if v.fixed {
                (Seq::empty(), false)
            } else if v.leaf {
                walk_leaf_stream(b, v, 0)
            } else {
                walk_children(c, bs, b, v, omap_root, max_xid, depth, 0)
            },
        }
    }
}

/// What a walk hands out from the children of index node `b` from entry `i`
/// on; a child the object map does not know is skipped.
pub open spec fn walk_children(
    c: Seq<u8>,
    bs: int,
    b: Seq<u8>,
    v: NodeView,
    omap_root: Option<u64>,
    max_xid: u64,
    depth: int,
    i: int,
) -> (Seq<(Seq<u8>, Seq<u8>)>, bool)
    decreases 65 - depth, 0int, v.nkeys - i,
{
    if depth < 0 || depth > 64 {
        (Seq::empty(), false)
    } else if i >= v.nkeys {
        (Seq::empty(), true)
    } else {
        match val_start(v, var_toc_of(b, v, i).2 as int, 8) {
            None => (Seq::empty(), false),
            Some(p) => match child_addr(c, bs, omap_root, le_at(b, p, 8) as u64, max_xid) {
                ChildAddr::Bad => (Seq::empty(), false),
                ChildAddr::Missing => walk_children(c, bs, b, v, omap_root, max_xid, depth, i + 1),
                ChildAddr::At(paddr) => match block_bytes(c, paddr as int, bs) {
                    None => (Seq::empty(), false),
                    Some(cb) => {
                        let w = walk_node(c, bs, cb, omap_root, max_xid, depth + 1);
                        if w.1 {
                            after(w.0, walk_children(c, bs, b, v, omap_root, max_xid, depth, i + 1))
                        } else {
                            w
                        }
                    },
                },
            },
        }
    }
}

/// What a walk of the tree rooted at block `root` hands out.
pub open spec fn fs_walk_stream(c: Seq<u8>, bs: int, omap_root: Option<u64>, root: u64, max_xid: u64) -> (
    Seq<(Seq<u8>, Seq<u8>)>,
    bool,
) {
    match block_bytes(c, root as int, bs) {
        None => (Seq::empty(), false),
        Some(b) => walk_node(c, bs, b, omap_root, max_xid, 0),
    }
}

/// What following index link `link` (at depth `depth`) hands out: nothing
/// for a link the object map does not know, else the walk of the child.
pub open spec fn walk_link(c: Seq<u8>, bs: int, omap_root: Option<u64>, link: u64, max_xid: u64, depth: int) -> (
    Seq<(Seq<u8>, Seq<u8>)>,
    bool,
) {
    match child_addr(c, bs, omap_root, link, max_xid) {
        ChildAddr::Bad => (Seq::empty(), false),
        ChildAddr::Missing => (Seq::empty(), true),
        ChildAddr::At(paddr) => match block_bytes(c, paddr as int, bs) {
            None => (Seq::empty(), false),
            Some(cb) => walk_node(c, bs, cb, omap_root, max_xid, depth + 1),
        },
    }
}

/// A bound on the node blocks that walking node `b` loads: each child
/// costs its object-map lookup, its own block and its walk.
pub open spec fn walk_node_loads(c: Seq<u8>, bs: int, b: Seq<u8>, omap_root: Option<u64>, max_xid: u64, depth: int) -> nat
    decreases 65 - depth, 2int, 0int,
{
    if depth < 0 || depth > 64 {
        0
    } else {
        match node_view_of(b, bs) {
            None => 0,
            Some(v) => if v.fixed || v.leaf {
                0
            } else {
                walk_children_loads(c, bs, b, v, omap_root, max_xid, depth, 0)
            },
        }
    }
}

/// The loads bound of [`walk_node_loads`] for the children of index node
/// `b` from entry `i` on.
pub open spec fn walk_children_loads(
    c: Seq<u8>,
    bs: int,
    b: Seq<u8>,
    v: NodeView,
    omap_root: Option<u64>,
    max_xid: u64,
    depth: int,
    i: int,
) -> nat
    decreases 65 - depth, 1int, v.nkeys - i,
{
    if depth < 0 || depth > 64 || i >= v.nkeys {
        0
    } else {
        match val_start(v, var_toc_of(b, v, i).2 as int, 8) {
            None => 0,
            Some(p) => walk_link_loads(c, bs, omap_root, le_at(b, p, 8) as u64, max_xid, depth) + walk_children_loads(
                c,
                bs,
                b,
                v,
                omap_root,
                max_xid,
                depth,
                i + 1,
            ),
        }
    }
}

/// The loads bound of following index link `link` (at depth `depth`).
pub open spec fn walk_link_loads(c: Seq<u8>, bs: int, omap_root: Option<u64>, link: u64, max_xid: u64, depth: int) -> nat
    decreases 65 - depth, 0int, 0int,
{
    lookup_cost(omap_root) + match child_addr(c, bs, omap_root, link, max_xid) {
        ChildAddr::At(paddr) => 1 + match block_bytes(c, paddr as int, bs) {
            None => 0,
            Some(cb) => if 0 <= depth < 64 {
                walk_node_loads(c, bs, cb, omap_root, max_xid, depth + 1)
            } else {
                0
            },
        },
        _ => 0,
    }
}

/// A bound on the node blocks that walking the tree rooted at block `root`
/// loads.
pub open spec fn fs_walk_loads(c: Seq<u8>, bs: int, omap_root: Option<u64>, root: u64, max_xid: u64) -> nat {
    1 + match block_bytes(c, root as int, bs) {
        None => 0,
        Some(b) => walk_node_loads(c, bs, b, omap_root, max_xid, 0),
    }
}

/// Visitor `v` takes every record of `s`.
pub open spec fn accepts_all<V: RecordVisitor>(v: &V, s: Seq<(Seq<u8>, Seq<u8>)>) -> bool {
    forall|j: int| 0 <= j < s.len() ==> v.accepts(#[trigger] s[j])
}

/// Visiting child `i` of index node `b`: the walk hands out what following
/// its link hands out, then, if that ended cleanly, what the later children
/// hand out; the loads bound splits the same way.
proof fn lemma_walk_children_step(
    c: Seq<u8>,
    bs: int,
    b: Seq<u8>,
    v: NodeView,
    omap_root: Option<u64>,
    max_xid: u64,
    depth: int,
    i: int,
)
    requires
        0 <= depth <= 64,
        0 <= i < v.nkeys,
        val_start(v, var_toc_of(b, v, i).2 as int, 8) is Some,
    ensures
        ({
            let p = val_start(v, var_toc_of(b, v, i).2 as int, 8)->0;
            let link = le_at(b, p, 8) as u64;
            let w = walk_link(c, bs, omap_root, link, max_xid, depth);
            &&& walk_children(c, bs, b, v, omap_root, max_xid, depth, i) == if w.1 {
                after(w.0, walk_children(c, bs, b, v, omap_root, max_xid, depth, i + 1))
            } else {
                w
            }
            &&& walk_children_loads(c, bs, b, v, omap_root, max_xid, depth, i) == walk_link_loads(
                c,
                bs,
                omap_root,
                link,
                max_xid,
                depth,
            ) + walk_children_loads(c, bs, b, v, omap_root, max_xid, depth, i + 1)
        }),
{
    let rest = walk_children(c, bs, b, v, omap_root, max_xid, depth, i + 1);
    assert(Seq::<(Seq<u8>, Seq<u8>)>::empty() + rest.0 =~= rest.0);
}

/// Hand every record of leaf `block` to `visit`, in order.
fn walk_leaf<V: RecordVisitor>(block: &[u8], v: &NodeView, visit: &mut V) -> (r: Result<bool>)
    requires
        geometry_fits(*v, block@.len() as int),
        !v.fixed,
        old(visit).inv(),
    ensures
        r is Ok ==> final(visit).failed() == old(visit).failed(),
        r matches Err(e) ==> final(visit).failed() == Some(e) || (read_failure(e.kind) && final(visit).failed() == old(
            visit,
        ).failed()),
        r is Ok ==> final(visit).inv(),
        ({
            let w = walk_leaf_stream(block@, *v, 0);
            &&& walked(old(visit).visited(), final(visit).visited(), w.0)
            &&& r matches Ok(true) ==> w.1 && final(visit).visited() == old(visit).visited() + w.0
            &&& r matches Ok(false) ==> final(visit).halted()
            &&& w.1 && accepts_all(old(visit), w.0) ==> r is Ok
        }),
        forall|x: (Seq<u8>, Seq<u8>)| #[trigger] final(visit).accepts(x) == old(visit).accepts(x),
{
    let ghost v0 = visit.visited();
    let ghost total = walk_leaf_stream(block@, *v, 0);
    let ghost mut acc: Seq<(Seq<u8>, Seq<u8>)> = Seq::empty();
    proof {
        assert(v0 + acc =~= v0);
        assert(Seq::<(Seq<u8>, Seq<u8>)>::empty() + total.0 =~= total.0);
    }
    let mut i: u32 = 0;
    while i < v.nkeys
        invariant
            geometry_fits(*v, block@.len() as int),
            !v.fixed,
            i <= v.nkeys,
            v0 == old(visit).visited(),
            total == walk_leaf_stream(block@, *v, 0),
            visit.inv(),
            visit.failed() == old(visit).failed(),
            visit.visited() == v0 + acc,
            total == after(acc, walk_leaf_stream(block@, *v, i as int)),
            forall|x: (Seq<u8>, Seq<u8>)| #[trigger] visit.accepts(x) == old(visit).accepts(x),
        decreases v.nkeys - i,
    {
        let ghost rest = walk_leaf_stream(block@, *v, i as int);
        proof {
            lemma_walked_prefix(v0, acc, Seq::empty(), rest.0);
        }
        let (koff, klen, voff, vlen) = v.var_toc(block, i);
        let key = v.key_ptr(block, koff, klen as usize)?;
        let val = v.val_ptr(block, voff, vlen as usize)?;
        proof {
            if total.1 && accepts_all(old(visit), total.0) {
                assert(total.0[acc.len() as int] == (key@, val@));
                assert(visit.accepts((key@, val@)));
            }
        }
        let res = visit.visit(key, val);
        proof {
            lemma_after_assoc(acc, seq![(key@, val@)], walk_leaf_stream(block@, *v, i + 1));
            assert(v0 + acc + seq![(key@, val@)] =~= (v0 + acc).push((key@, val@)));
            assert(rest.0.subrange(0, 1) =~= seq![(key@, val@)]);
            lemma_walked_prefix(v0, acc, seq![(key@, val@)], rest.0);
            assert(v0 + acc + seq![(key@, val@)] =~= v0 + (acc + seq![(key@, val@)]));
            acc = acc + seq![(key@, val@)];
        }
        let go = res?;
        if !go {
            return Ok(false);
        }
        i = i + 1;
    }
    proof {
        assert(acc + Seq::<(Seq<u8>, Seq<u8>)>::empty() =~= acc);
        lemma_walked_prefix(v0, acc, Seq::empty(), Seq::empty());
    }
    Ok(true)
}


/// Every record of `s` has a key of at least 8 bytes whose object id is `oid`.
pub open spec fn all_for_object(s: Seq<(Seq<u8>, Seq<u8>)>, oid: u64) -> bool {
    forall|k: int|
        0 <= k < s.len() ==> #[trigger] s[k].0.len() >= 8 && obj_id_of(le_at(s[k].0, 0, 8) as u64) == oid
}

proof fn lemma_all_for_object_concat(a: Seq<(Seq<u8>, Seq<u8>)>, b: Seq<(Seq<u8>, Seq<u8>)>, oid: u64)
    requires
        all_for_object(a, oid),
        all_for_object(b, oid),
    ensures
        all_for_object(a + b, oid),
{
    assert forall|k: int| 0 <= k < (a + b).len() implies #[trigger] (a + b)[k].0.len() >= 8 && obj_id_of(
        le_at((a + b)[k].0, 0, 8) as u64,
    ) == oid by {
        if k < a.len() {
            assert((a + b)[k] == a[k]);
        } else {
            assert((a + b)[k] == b[k - a.len()]);
        }
    }
}

proof fn lemma_leaf_records_for_object(b: Seq<u8>, v: NodeView, oid: u64, i: int)
    requires
        geometry_fits(v, b.len() as int),
    ensures
        leaf_records(b, v, oid, i) matches Some(s) ==> all_for_object(s, oid),
    decreases v.nkeys - i,
{
    if i < v.nkeys {
        lemma_leaf_records_for_object(b, v, oid, i + 1);
        let (koff, klen, voff, vlen) = var_toc_of(b, v, i);
        if let Some(kp) = key_start(v, koff as int, klen as int) {
            if let Some(vp) = val_start(v, voff as int, vlen as int) {
                let key = b.subrange(kp, kp + klen);
                let one = seq![(key, b.subrange(vp, vp + vlen))];
                if let Some(rest) = leaf_records(b, v, oid, i + 1) {
                    if klen >= 8 && obj_id_of(le_at(key, 0, 8) as u64) == oid {
                        assert(all_for_object(one, oid));
                        lemma_all_for_object_concat(one, rest, oid);
                    }
                }
            }
        }
    }
}

proof fn lemma_collect_node_for_object(
    c: Seq<u8>,
    bs: int,
    b: Seq<u8>,
    omap_root: Option<u64>,
    oid: u64,
    max_xid: u64,
    depth: int,
)
    requires
        0 <= bs <= u32::MAX,
    ensures
        collect_node(c, bs, b, omap_root, oid, max_xid, depth) matches Some(s) ==> all_for_object(s, oid),
    decreases 65 - depth, 1int, 0int,
{
    if 0 <= depth <= 64 {
        if let Some(v) = node_view_of(b, bs) {
            if !v.fixed {
                if v.leaf {
                    lemma_node_view_fits(b, bs);
                    lemma_leaf_records_for_object(b, v, oid, 0);
                } else {
                    lemma_collect_children_for_object(c, bs, b, v, omap_root, oid, max_xid, depth, 0);
                }
            }
        }
    }
}

proof fn lemma_collect_children_for_object(
    c: Seq<u8>,
    bs: int,
    b: Seq<u8>,
    v: NodeView,
    omap_root: Option<u64>,
    oid: u64,
    max_xid: u64,
    depth: int,
    i: int,
)
    requires
        0 <= bs <= u32::MAX,
    ensures
        collect_children(c, bs, b, v, omap_root, oid, max_xid, depth, i) matches Some(s) ==> all_for_object(s, oid),
    decreases 65 - depth, 0int, v.nkeys - i,
{
    if 0 <= depth <= 64 && i < v.nkeys {
        lemma_collect_children_for_object(c, bs, b, v, omap_root, oid, max_xid, depth, i + 1);
        if let Some(p) = val_start(v, var_toc_of(b, v, i).2 as int, 8) {
            if let ChildAddr::At(paddr) = child_addr(c, bs, omap_root, le_at(b, p, 8) as u64, max_xid) {
                if let Some(cb) = block_bytes(c, paddr as int, bs) {
                    lemma_collect_node_for_object(c, bs, cb, omap_root, oid, max_xid, depth + 1);
                    if let Some(s) = collect_node(c, bs, cb, omap_root, oid, max_xid, depth + 1) {
                        if let Some(rest) = collect_children(c, bs, b, v, omap_root, oid, max_xid, depth, i + 1) {
                            lemma_all_for_object_concat(s, rest, oid);
                        }
                    }
                }
            }
        }
    }
}

/// Every record that a collection for object `oid` yields has a key whose
/// object id is `oid`.
pub proof fn fs_records_belong_to_object(c: Seq<u8>, bs: int, omap_root: Option<u64>, root: u64, oid: u64, max_xid: u64)
    requires
        0 <= bs <= u32::MAX,
    ensures
        fs_records(c, bs, omap_root, root, oid, max_xid) matches Some(s) ==> all_for_object(s, oid),
{
    if let Some(b) = block_bytes(c, root as int, bs) {
        lemma_collect_node_for_object(c, bs, b, omap_root, oid, max_xid, 0);
    }
}

proof fn lemma_omap_lookup_from_matches(c: Seq<u8>, bs: int, block: u64, oid: u64, max_xid: u64, fuel: nat)
    ensures
        omap_lookup_from(c, bs, block, oid, max_xid, fuel) matches Lookup::Found(e) ==> e.key.oid == oid
            && e.key.xid <= max_xid,
    decreases fuel,
{
    if let Some(b) = block_bytes(c, block as int, bs) {
        if let OmapStep::Descend(child) = omap_node_step(b, bs, oid, max_xid) {
            if fuel > 1 {
                lemma_omap_lookup_from_matches(c, bs, child, oid, max_xid, (fuel - 1) as nat);
            }
        }
    }
}

/// An object-map lookup of `(oid, max_xid)` only ever finds an entry for
/// `oid` with an xid no greater than `max_xid`.
pub proof fn omap_lookup_finds_requested(c: Seq<u8>, bs: int, root: u64, oid: u64, max_xid: u64)
    ensures
        omap_lookup(c, bs, root, oid, max_xid) matches Lookup::Found(e) ==> e.key.oid == oid && e.key.xid
            <= max_xid,
{
    lemma_omap_lookup_from_matches(c, bs, root, oid, max_xid, 64);
}


/// `a` sorts before `b` in object-map key order: by oid, then by xid.
pub open spec fn omap_key_less(a: OmapKey, b: OmapKey) -> bool {
    a.oid < b.oid || (a.oid == b.oid && a.xid < b.xid)
}

/// Every key of node `b` (geometry `v`) lies inside the node, and the keys
/// ascend strictly in object-map key order.
pub open spec fn omap_keys_ascending(b: Seq<u8>, v: NodeView) -> bool {
    &&& forall|i: int| 0 <= i < v.nkeys ==> #[trigger] fixed_key_at(b, v, i) is Some
    &&& forall|i: int, j: int|
        0 <= i < j < v.nkeys ==> omap_key_less(
            #[trigger] fixed_key_at(b, v, i)->0,
            #[trigger] fixed_key_at(b, v, j)->0,
        )
}

proof fn lemma_omap_prefix_split(b: Seq<u8>, v: NodeView, oid: u64, max_xid: u64, i: int)
    requires
        0 <= i <= v.nkeys,
        forall|m: int| 0 <= m < v.nkeys ==> #[trigger] fixed_key_at(b, v, m) is Some,
    ensures
        omap_prefix(b, v, oid, max_xid, i) matches Some(n) && i <= n <= v.nkeys && (forall|j: int|
            i <= j < n ==> !beyond(#[trigger] fixed_key_at(b, v, j)->0, oid, max_xid)) && (n < v.nkeys ==> beyond(
            fixed_key_at(b, v, n)->0,
            oid,
            max_xid,
        )),
    decreases v.nkeys - i,
{
    if i < v.nkeys {
        assert(fixed_key_at(b, v, i) is Some);
        if !beyond(fixed_key_at(b, v, i)->0, oid, max_xid) {
            lemma_omap_prefix_split(b, v, oid, max_xid, i + 1);
        }
    }
}

/// In an object-map leaf whose keys ascend, a lookup of `(oid, max_xid)`
/// answers with the version of `oid` that has the greatest xid not above
/// `max_xid`, and answers "absent" only when `oid` has no such version.
pub proof fn omap_leaf_finds_latest_version(b: Seq<u8>, bs: int, oid: u64, max_xid: u64)
    requires
        node_view_of(b, bs) matches Some(v) && v.fixed && v.leaf && omap_keys_ascending(b, v),
    ensures
        ({
            let v = node_view_of(b, bs)->0;
            &&& omap_node_step(b, bs, oid, max_xid) matches OmapStep::Found(e) ==> {
                &&& e.key.oid == oid && e.key.xid <= max_xid
                &&& forall|i: int|
                    0 <= i < v.nkeys && (#[trigger] fixed_key_at(b, v, i)->0).oid == oid && fixed_key_at(b, v, i)->0.xid
                        <= max_xid ==> fixed_key_at(b, v, i)->0.xid <= e.key.xid
            }
            &&& omap_node_step(b, bs, oid, max_xid) is Absent <==> !exists|i: int|
                0 <= i < v.nkeys && (#[trigger] fixed_key_at(b, v, i)->0).oid == oid && fixed_key_at(b, v, i)->0.xid
                    <= max_xid
        }),
{
    let v = node_view_of(b, bs)->0;
    lemma_omap_prefix_split(b, v, oid, max_xid, 0);
    let n = omap_prefix(b, v, oid, max_xid, 0)->0;
    // Every key at or after the first key beyond the lookup is beyond it too.
    assert forall|j: int| n <= j < v.nkeys implies beyond(#[trigger] fixed_key_at(b, v, j)->0, oid, max_xid) by {
        if j > n {
            assert(omap_key_less(fixed_key_at(b, v, n)->0, fixed_key_at(b, v, j)->0));
        }
    }
    if n > 0 {
        let last = fixed_key_at(b, v, n - 1)->0;
        assert forall|i: int|
            0 <= i < v.nkeys && (#[trigger] fixed_key_at(b, v, i)->0).oid == oid && fixed_key_at(b, v, i)->0.xid
                <= max_xid implies fixed_key_at(b, v, i)->0.xid <= last.xid && last.oid == oid by {
            assert(!beyond(fixed_key_at(b, v, i)->0, oid, max_xid));
            assert(i < n);
            assert(!beyond(last, oid, max_xid));
            if i < n - 1 {
                assert(omap_key_less(fixed_key_at(b, v, i)->0, last));
            }
        }
    } else {
        assert forall|i: int|
            0 <= i < v.nkeys && (#[trigger] fixed_key_at(b, v, i)->0).oid == oid implies fixed_key_at(b, v, i)->0.xid
                > max_xid by {
            assert(beyond(fixed_key_at(b, v, i)->0, oid, max_xid));
        }
    }
}

/// The child an index entry `i` of node `b` (geometry `v`) points to, when
/// its value lies inside the node.
pub open spec fn omap_child_of(b: Seq<u8>, v: NodeView, i: int) -> Option<u64> {
    match val_start(v, fixed_toc_of(b, v, i).1 as int, 8) {
        Some(p) => Some(le_at(b, p, 8) as u64),
        None => None,
    }
}

/// In an object-map index node whose keys ascend, a lookup of
/// `(oid, max_xid)` descends into the child of the last entry whose key does
/// not sort after the request (the entry after it, if any, does), and stops
/// as "absent" exactly when every key sorts after the request.
pub proof fn omap_index_descends_into_covering_child(b: Seq<u8>, bs: int, oid: u64, max_xid: u64)
    requires
        node_view_of(b, bs) matches Some(v) && v.fixed && !v.leaf && omap_keys_ascending(b, v),
    ensures
        ({
            let v = node_view_of(b, bs)->0;
            &&& omap_node_step(b, bs, oid, max_xid) matches OmapStep::Descend(child) ==> exists|i: int|
                0 <= i < v.nkeys && !beyond(#[trigger] fixed_key_at(b, v, i)->0, oid, max_xid) && (i + 1 < v.nkeys
                    ==> beyond(fixed_key_at(b, v, i + 1)->0, oid, max_xid)) && omap_child_of(b, v, i) == Some(child)
            &&& omap_node_step(b, bs, oid, max_xid) is Absent <==> forall|i: int|
                0 <= i < v.nkeys ==> beyond(#[trigger] fixed_key_at(b, v, i)->0, oid, max_xid)
        }),
{
    let v = node_view_of(b, bs)->0;
    lemma_omap_prefix_split(b, v, oid, max_xid, 0);
    let n = omap_prefix(b, v, oid, max_xid, 0)->0;
    assert forall|j: int| n <= j < v.nkeys implies beyond(#[trigger] fixed_key_at(b, v, j)->0, oid, max_xid) by {
        if j > n {
            assert(omap_key_less(fixed_key_at(b, v, n)->0, fixed_key_at(b, v, j)->0));
        }
    }
    if n > 0 {
        let i = n - 1;
        assert(!beyond(fixed_key_at(b, v, i)->0, oid, max_xid));
        if i + 1 < v.nkeys {
            assert(beyond(fixed_key_at(b, v, i + 1)->0, oid, max_xid));
        }
        if let OmapStep::Descend(child) = omap_node_step(b, bs, oid, max_xid) {
            assert(omap_child_of(b, v, i) == Some(child));
        }
    }
}

/// Entry `i` of object-map leaf `b` (geometry `v`), when its key and value
/// lie inside the node.
pub open spec fn omap_leaf_entry(b: Seq<u8>, v: NodeView, i: int) -> Option<OmapEntry> {
    match fixed_key_at(b, v, i) {
        None => None,
        Some(k) => match val_start(v, fixed_toc_of(b, v, i).1 as int, 16) {
            None => None,
            Some(p) => Some(OmapEntry { key: k, val: omap_val_of(b.subrange(p, p + 16)) }),
        },
    }
}

/// The entries `i..` of object-map leaf `b`, or `None` when one lies
/// outside the node.
pub open spec fn omap_leaf_entries(b: Seq<u8>, v: NodeView, i: int) -> Option<Seq<OmapEntry>>
    decreases v.nkeys - i,
{
    if i >= v.nkeys {
        Some(Seq::empty())
    } else {
        match (omap_leaf_entry(b, v, i), omap_leaf_entries(b, v, i + 1)) {
            (Some(e), Some(r)) => Some(seq![e] + r),
            _ => None,
        }
    }
}

/// Every entry of the object-map subtree at `block`, in order, reading at
/// most `fuel` levels; `None` when a node is unreadable or malformed.
pub open spec fn omap_entries(c: Seq<u8>, bs: int, block: u64, fuel: nat) -> Option<Seq<OmapEntry>>
    decreases fuel, 0nat, 0int,
{
    match block_bytes(c, block as int, bs) {
        None => None,
        Some(b) => match node_view_of(b, bs) {
            None => None,
            Some(v) => if !v.fixed {
                None
            } else if v.leaf {
                omap_leaf_entries(b, v, 0)
            } else if fuel <= 1 {
                None
            } else {
                omap_children_entries(c, bs, b, v, 0, (fuel - 1) as nat)
            },
        },
    }
}

/// The entries of the subtree under child `i` of index node `b`.
pub open spec fn omap_child_entries(c: Seq<u8>, bs: int, b: Seq<u8>, v: NodeView, i: int, fuel: nat) -> Option<
    Seq<OmapEntry>,
>
    decreases fuel, 1nat, 0int,
{
    match omap_child_of(b, v, i) {
        None => None,
        Some(ch) => omap_entries(c, bs, ch, fuel),
    }
}

/// The entries of the subtrees of children `i..` of index node `b`.
pub open spec fn omap_children_entries(c: Seq<u8>, bs: int, b: Seq<u8>, v: NodeView, i: int, fuel: nat) -> Option<
    Seq<OmapEntry>,
>
    decreases fuel, 2nat, v.nkeys - i,
{
    if i >= v.nkeys {
        Some(Seq::empty())
    } else {
        match (omap_child_entries(c, bs, b, v, i, fuel), omap_children_entries(c, bs, b, v, i + 1, fuel)) {
            (Some(x), Some(r)) => Some(x + r),
            _ => None,
        }
    }
}

/// The object-map subtree at `block` (within `fuel` levels) is well ordered:
/// every node's keys ascend, and in an index node each entry's key is the
/// first key of its child's subtree, whose keys all lie between it and the
/// next entry's key.
pub open spec fn omap_tree_sorted(c: Seq<u8>, bs: int, block: u64, fuel: nat) -> bool
    decreases fuel, 0nat, 0int,
{
    match block_bytes(c, block as int, bs) {
        None => false,
        Some(b) => match node_view_of(b, bs) {
            None => false,
            Some(v) => v.fixed && omap_keys_ascending(b, v) && if v.leaf {
                omap_leaf_entries(b, v, 0) is Some
            } else {
                fuel > 1 && omap_children_sorted(c, bs, b, v, 0, (fuel - 1) as nat)
            },
        },
    }
}

/// Child `i` of index node `b` heads a well-ordered subtree whose first key
/// is the entry's key and whose keys all sort before the next entry's key.
pub open spec fn omap_child_fits(c: Seq<u8>, bs: int, b: Seq<u8>, v: NodeView, i: int, fuel: nat) -> bool
    decreases fuel, 1nat, 0int,
{
    match omap_child_of(b, v, i) {
        None => false,
        Some(ch) => omap_tree_sorted(c, bs, ch, fuel) && match omap_entries(c, bs, ch, fuel) {
            None => false,
            Some(es) => {
                &&& es.len() > 0
                &&& es[0].key == fixed_key_at(b, v, i)->0
                &&& forall|j: int| 0 <= j < es.len() ==> !omap_key_less(#[trigger] es[j].key, fixed_key_at(b, v, i)->0)
                &&& i + 1 < v.nkeys ==> forall|j: int|
                    0 <= j < es.len() ==> omap_key_less(#[trigger] es[j].key, fixed_key_at(b, v, i + 1)->0)
            },
        },
    }
}

/// Children `i..` of index node `b` head well-ordered subtrees that fit
/// between the node's keys.
pub open spec fn omap_children_sorted(c: Seq<u8>, bs: int, b: Seq<u8>, v: NodeView, i: int, fuel: nat) -> bool
    decreases fuel, 2nat, v.nkeys - i,
{
    if i < 0 || i >= v.nkeys {
        true
    } else {
        omap_child_fits(c, bs, b, v, i, fuel) && omap_children_sorted(c, bs, b, v, i + 1, fuel)
    }
}

/// An entry answers a lookup of `(oid, max_xid)`.
pub open spec fn answers(e: OmapEntry, oid: u64, max_xid: u64) -> bool {
    e.key.oid == oid && e.key.xid <= max_xid
}

proof fn lemma_leaf_entries(b: Seq<u8>, v: NodeView, i: int)
    requires
        0 <= i <= v.nkeys,
        omap_leaf_entries(b, v, i) is Some,
    ensures
        ({
            let es = omap_leaf_entries(b, v, i)->0;
            &&& es.len() == v.nkeys - i
            &&& forall|j: int| 0 <= j < es.len() ==> omap_leaf_entry(b, v, i + j) == Some(#[trigger] es[j])
        }),
    decreases v.nkeys - i,
{
    if i < v.nkeys {
        lemma_leaf_entries(b, v, i + 1);
        let es = omap_leaf_entries(b, v, i)->0;
        let r = omap_leaf_entries(b, v, i + 1)->0;
        assert forall|j: int| 0 <= j < es.len() implies omap_leaf_entry(b, v, i + j) == Some(#[trigger] es[j]) by {
            if j > 0 {
                assert(es[j] == r[j - 1]);
            }
        }
    }
}

/// `o` holds entry `e`.
pub open spec fn holds_entry(o: Option<OmapEntry>, e: OmapEntry) -> bool {
    o == Some(e)
}

/// Entry `m` of the subtree under child `k` of `b`.
pub open spec fn omap_child_entry(c: Seq<u8>, bs: int, b: Seq<u8>, v: NodeView, k: int, m: int, fuel: nat) -> Option<
    OmapEntry,
> {
    match omap_child_entries(c, bs, b, v, k, fuel) {
        Some(es) => if 0 <= m < es.len() {
            Some(es[m])
        } else {
            None
        },
        None => None,
    }
}

/// `e` is an entry of the subtree under one of children `lo..hi` of `b`.
pub open spec fn from_children(c: Seq<u8>, bs: int, b: Seq<u8>, v: NodeView, lo: int, hi: int, fuel: nat, e: OmapEntry) -> bool {
    exists|k: int, m: int| lo <= k < hi && #[trigger] holds_entry(omap_child_entry(c, bs, b, v, k, m, fuel), e)
}

/// Every entry of `r` is an entry of the subtree under one of children
/// `i..` of `b`.
pub open spec fn drawn_from_children(c: Seq<u8>, bs: int, b: Seq<u8>, v: NodeView, i: int, fuel: nat, r: Seq<OmapEntry>) -> bool {
    forall|j: int| 0 <= j < r.len() ==> from_children(c, bs, b, v, i, v.nkeys as int, fuel, #[trigger] r[j])
}

proof fn lemma_children_entries(c: Seq<u8>, bs: int, b: Seq<u8>, v: NodeView, i: int, fuel: nat)
    requires
        0 <= i <= v.nkeys,
        omap_children_entries(c, bs, b, v, i, fuel) is Some,
    ensures
        drawn_from_children(c, bs, b, v, i, fuel, omap_children_entries(c, bs, b, v, i, fuel)->0),
        ({
            let r = omap_children_entries(c, bs, b, v, i, fuel)->0;
            &&& forall|k: int, m: int|
                i <= k < v.nkeys && #[trigger] omap_child_entry(c, bs, b, v, k, m, fuel) is Some ==> r.contains(
                    omap_child_entry(c, bs, b, v, k, m, fuel)->0,
                )
        }),
    decreases v.nkeys - i,
{
    if i < v.nkeys {
        lemma_children_entries(c, bs, b, v, i + 1, fuel);
        let x = omap_child_entries(c, bs, b, v, i, fuel)->0;
        let rest = omap_children_entries(c, bs, b, v, i + 1, fuel)->0;
        let r = omap_children_entries(c, bs, b, v, i, fuel)->0;
        assert(r == x + rest);
        assert(drawn_from_children(c, bs, b, v, i + 1, fuel, rest));
        assert forall|j: int| 0 <= j < r.len() implies from_children(
            c,
            bs,
            b,
            v,
            i,
            v.nkeys as int,
            fuel,
            #[trigger] r[j],
        ) by {
            if j < x.len() {
                assert(r[j] == x[j]);
                assert(holds_entry(omap_child_entry(c, bs, b, v, i, j, fuel), r[j]));
            } else {
                let jj = j - x.len();
                assert(r[j] == rest[jj]);
                assert(from_children(c, bs, b, v, i + 1, v.nkeys as int, fuel, rest[jj]));
                let (k, m) = choose|k: int, m: int|
                    i + 1 <= k < v.nkeys && #[trigger] holds_entry(omap_child_entry(c, bs, b, v, k, m, fuel), rest[jj]);
                assert(holds_entry(omap_child_entry(c, bs, b, v, k, m, fuel), r[j]));
            }
        }
        assert(drawn_from_children(c, bs, b, v, i, fuel, r));
        assert forall|k: int, m: int|
            i <= k < v.nkeys && #[trigger] omap_child_entry(c, bs, b, v, k, m, fuel) is Some implies r.contains(
                omap_child_entry(c, bs, b, v, k, m, fuel)->0,
            ) by {
            let e = omap_child_entry(c, bs, b, v, k, m, fuel)->0;
            if k == i {
                assert(r[m] == x[m]);
            } else {
                assert(rest.contains(e));
                let q = choose|q: int| 0 <= q < rest.len() && rest[q] == e;
                assert(r[x.len() + q] == rest[q]);
            }
        }
    } else {
        assert(omap_children_entries(c, bs, b, v, i, fuel)->0.len() == 0);
    }
}

proof fn lemma_children_sorted_at(c: Seq<u8>, bs: int, b: Seq<u8>, v: NodeView, i: int, k: int, fuel: nat)
    requires
        0 <= i <= k < v.nkeys,
        omap_children_sorted(c, bs, b, v, i, fuel),
    ensures
        omap_child_fits(c, bs, b, v, k, fuel),
    decreases k - i,
{
    if i < k {
        lemma_children_sorted_at(c, bs, b, v, i + 1, k, fuel);
    }
}

proof fn lemma_children_sorted_entries(c: Seq<u8>, bs: int, b: Seq<u8>, v: NodeView, i: int, fuel: nat)
    requires
        0 <= i <= v.nkeys,
        omap_children_sorted(c, bs, b, v, i, fuel),
    ensures
        omap_children_entries(c, bs, b, v, i, fuel) is Some,
    decreases v.nkeys - i,
{
    if i < v.nkeys {
        lemma_children_sorted_entries(c, bs, b, v, i + 1, fuel);
        assert(omap_child_fits(c, bs, b, v, i, fuel));
        assert(omap_child_entries(c, bs, b, v, i, fuel) is Some);
    }
}

/// `r`, the outcome of a lookup of `(oid, max_xid)` in a map whose entries
/// are `es`, is the version of `oid` with the greatest xid not above
/// `max_xid`, or "absent" when `es` holds no such version.
pub open spec fn latest_version_answer(es: Seq<OmapEntry>, r: Lookup, oid: u64, max_xid: u64) -> bool {
    match r {
        Lookup::Found(e) => {
            &&& es.contains(e)
            &&& answers(e, oid, max_xid)
            &&& forall|j: int| 0 <= j < es.len() && answers(#[trigger] es[j], oid, max_xid) ==> es[j].key.xid <= e.key.xid
        },
        Lookup::Absent => forall|j: int| 0 <= j < es.len() ==> !answers(#[trigger] es[j], oid, max_xid),
        Lookup::Bad => false,
    }
}

proof fn lemma_leaf_lookup(c: Seq<u8>, bs: int, root: u64, oid: u64, max_xid: u64, fuel: nat)
    requires
        omap_tree_sorted(c, bs, root, fuel),
        node_view_of(block_bytes(c, root as int, bs)->0, bs)->0.leaf,
    ensures
        omap_entries(c, bs, root, fuel) is Some,
        latest_version_answer(omap_entries(c, bs, root, fuel)->0, omap_lookup_from(c, bs, root, oid, max_xid, fuel), oid, max_xid),
{
    let b = block_bytes(c, root as int, bs)->0;
    let v = node_view_of(b, bs)->0;
    lemma_omap_prefix_split(b, v, oid, max_xid, 0);
    let n = omap_prefix(b, v, oid, max_xid, 0)->0;
    lemma_leaf_entries(b, v, 0);
    let es = omap_leaf_entries(b, v, 0)->0;
    omap_leaf_finds_latest_version(b, bs, oid, max_xid);
    assert forall|j: int| 0 <= j < es.len() implies (#[trigger] es[j]).key == fixed_key_at(b, v, j)->0 by {
        assert(omap_leaf_entry(b, v, j) == Some(es[j]));
    }
    if n > 0 {
        assert(omap_leaf_entry(b, v, n - 1) == Some(es[n - 1]));
    }
}

/// Under a well-ordered index node whose first `n` keys are the ones not
/// beyond the request, an answering entry lies under one of the first `n`
/// children.
proof fn lemma_answer_before_prefix(c: Seq<u8>, bs: int, b: Seq<u8>, v: NodeView, n: int, fuel: nat, oid: u64, max_xid: u64, e: OmapEntry)
    requires
        0 <= n <= v.nkeys,
        omap_children_sorted(c, bs, b, v, 0, fuel),
        forall|j: int| n <= j < v.nkeys ==> beyond(#[trigger] fixed_key_at(b, v, j)->0, oid, max_xid),
        from_children(c, bs, b, v, 0, v.nkeys as int, fuel, e),
        answers(e, oid, max_xid),
    ensures
        from_children(c, bs, b, v, 0, n, fuel, e),
{
    let (k, m) = choose|k: int, m: int|
        0 <= k < v.nkeys && #[trigger] holds_entry(omap_child_entry(c, bs, b, v, k, m, fuel), e);
    lemma_children_sorted_at(c, bs, b, v, 0, k, fuel);
    let xs = omap_child_entries(c, bs, b, v, k, fuel)->0;
    assert(xs[m] == e);
    if k >= n {
        assert(!omap_key_less(xs[m].key, fixed_key_at(b, v, k)->0));
        assert(beyond(fixed_key_at(b, v, k)->0, oid, max_xid));
    }
}

/// An answering entry under one of the first `n` children of a well-ordered
/// index node either lies under child `n - 1` or sorts before its first key,
/// which then answers too, with a greater xid.
proof fn lemma_answer_under_last(c: Seq<u8>, bs: int, b: Seq<u8>, v: NodeView, n: int, fuel: nat, oid: u64, max_xid: u64, e: OmapEntry)
    requires
        0 < n <= v.nkeys,
        omap_keys_ascending(b, v),
        omap_children_sorted(c, bs, b, v, 0, fuel),
        !beyond(fixed_key_at(b, v, n - 1)->0, oid, max_xid),
        from_children(c, bs, b, v, 0, n, fuel, e),
        answers(e, oid, max_xid),
    ensures
        ({
            let xs = omap_child_entries(c, bs, b, v, n - 1, fuel)->0;
            ||| (answers(xs[0], oid, max_xid) && e.key.xid <= xs[0].key.xid)
            ||| xs.contains(e)
        }),
{
    let (k, m) = choose|k: int, m: int|
        0 <= k < n && #[trigger] holds_entry(omap_child_entry(c, bs, b, v, k, m, fuel), e);
    lemma_children_sorted_at(c, bs, b, v, 0, k, fuel);
    lemma_children_sorted_at(c, bs, b, v, 0, n - 1, fuel);
    let ys = omap_child_entries(c, bs, b, v, k, fuel)->0;
    let xs = omap_child_entries(c, bs, b, v, n - 1, fuel)->0;
    let kn = fixed_key_at(b, v, n - 1)->0;
    assert(ys[m] == e);
    if k < n - 1 {
        assert(omap_key_less(ys[m].key, fixed_key_at(b, v, k + 1)->0));
        if k + 1 < n - 1 {
            assert(omap_key_less(fixed_key_at(b, v, k + 1)->0, kn));
        }
        assert(xs[0].key == kn);
    } else {
        assert(xs[m] == e);
    }
}

/// In a well-ordered object map, a lookup of `(oid, max_xid)` answers with
/// the version of `oid` that has the greatest xid not above `max_xid` among
/// all the map's entries, and answers "absent" exactly when there is none.
#[verifier::spinoff_prover]
#[verifier::rlimit(30)]
pub proof fn omap_lookup_finds_latest_version(c: Seq<u8>, bs: int, root: u64, oid: u64, max_xid: u64, fuel: nat)
    requires
        omap_tree_sorted(c, bs, root, fuel),
    ensures
        omap_entries(c, bs, root, fuel) is Some,
        latest_version_answer(omap_entries(c, bs, root, fuel)->0, omap_lookup_from(c, bs, root, oid, max_xid, fuel), oid, max_xid),
    decreases fuel,
{
    let b = block_bytes(c, root as int, bs)->0;
    let v = node_view_of(b, bs)->0;
    if v.leaf {
        lemma_leaf_lookup(c, bs, root, oid, max_xid, fuel);
    } else {
        let f1 = (fuel - 1) as nat;
        lemma_omap_prefix_split(b, v, oid, max_xid, 0);
        let n = omap_prefix(b, v, oid, max_xid, 0)->0;
        assert forall|j: int| n <= j < v.nkeys implies beyond(#[trigger] fixed_key_at(b, v, j)->0, oid, max_xid) by {
            if j > n {
                assert(omap_key_less(fixed_key_at(b, v, n)->0, fixed_key_at(b, v, j)->0));
            }
        }
        lemma_children_sorted_entries(c, bs, b, v, 0, f1);
        lemma_children_entries(c, bs, b, v, 0, f1);
        let es = omap_children_entries(c, bs, b, v, 0, f1)->0;
        assert(omap_entries(c, bs, root, fuel) == Some(es));
        assert forall|j: int| 0 <= j < es.len() && answers(#[trigger] es[j], oid, max_xid) implies from_children(
            c,
            bs,
            b,
            v,
            0,
            n,
            f1,
            es[j],
        ) by {
            lemma_answer_before_prefix(c, bs, b, v, n, f1, oid, max_xid, es[j]);
        }
        if n > 0 {
            let ch = omap_child_of(b, v, n - 1)->0;
            lemma_children_sorted_at(c, bs, b, v, 0, n - 1, f1);
            omap_lookup_finds_latest_version(c, bs, ch, oid, max_xid, f1);
            let xs = omap_entries(c, bs, ch, f1)->0;
            assert(omap_child_entries(c, bs, b, v, n - 1, f1) == Some(xs));
            assert forall|j: int| 0 <= j < es.len() && answers(#[trigger] es[j], oid, max_xid) implies (answers(
                xs[0],
                oid,
                max_xid,
            ) && es[j].key.xid <= xs[0].key.xid) || xs.contains(es[j]) by {
                lemma_answer_under_last(c, bs, b, v, n, f1, oid, max_xid, es[j]);
            }
            assert(omap_child_entry(c, bs, b, v, n - 1, 0, f1) is Some);
            assert(es.contains(xs[0]));
            match omap_lookup_from(c, bs, ch, oid, max_xid, f1) {
                Lookup::Found(e) => {
                    let q = choose|q: int| 0 <= q < xs.len() && xs[q] == e;
                    assert(omap_child_entry(c, bs, b, v, n - 1, q, f1) is Some);
                    assert(es.contains(e));
                    assert forall|j: int| 0 <= j < es.len() && answers(#[trigger] es[j], oid, max_xid) implies es[j].key.xid
                        <= e.key.xid by {
                        if xs.contains(es[j]) {
                            let p = choose|p: int| 0 <= p < xs.len() && xs[p] == es[j];
                            assert(answers(xs[p], oid, max_xid));
                        } else {
                            assert(answers(xs[0], oid, max_xid));
                        }
                    }
                },
                Lookup::Absent => {
                    assert forall|j: int| 0 <= j < es.len() implies !answers(#[trigger] es[j], oid, max_xid) by {
                        if answers(es[j], oid, max_xid) {
                            if xs.contains(es[j]) {
                                let p = choose|p: int| 0 <= p < xs.len() && xs[p] == es[j];
                                assert(answers(xs[p], oid, max_xid));
                            } else {
                                assert(answers(xs[0], oid, max_xid));
                            }
                        }
                    }
                },
                Lookup::Bad => {},
            }
        }
    }
}

/// A node geometry read from a block fits that block.
proof fn lemma_node_view_fits(b: Seq<u8>, bs: int)
    requires
        0 <= bs <= u32::MAX,
    ensures
        node_view_of(b, bs) matches Some(v) ==> geometry_fits(v, b.len() as int),
{
}


/// A lookup finds an entry only when the block size is positive.
pub(crate) proof fn lemma_found_block_size(c: Seq<u8>, bs: int, root: u64, oid: u64, max_xid: u64)
    ensures
        omap_lookup(c, bs, root, oid, max_xid) is Found ==> bs > 0,
{
    reveal_with_fuel(omap_lookup_from, 1);
}

} // verus!
