//! Object map `omap_phys_t` and its key/value records.
use vstd::prelude::*;

use super::obj::{ObjPhys, OBJ_PHYSICAL, OBJ_STORAGETYPE_MASK, OBJECT_TYPE_MASK, OBJECT_TYPE_OMAP};
use super::raw::{self, le_at};
use crate::error::{ErrorKind, Result};

verus! {

pub const OMAP_VAL_DELETED: u32 = 0x1;
pub const OMAP_VAL_SAVED: u32 = 0x2;
pub const OMAP_VAL_ENCRYPTED: u32 = 0x4;
pub const OMAP_VAL_NOHEADER: u32 = 0x8;

/// Parsed object-map object.
#[derive(Debug, Clone, Copy)]
pub struct OmapPhys {
    pub flags: u32,
    pub snap_count: u32,
    pub tree_type: u32,
    pub snapshot_tree_type: u32,
    /// Physical OID (block address) of the object-map B-tree.
    pub tree_oid: u64,
    pub snapshot_tree_oid: u64,
    pub most_recent_snap: u64,
}

/// The object-map fields of block `b` (at least 72 bytes long).
pub open spec fn omap_phys_of(b: Seq<u8>) -> OmapPhys {
    OmapPhys {
        flags: le_at(b, 32, 4) as u32,
        snap_count: le_at(b, 36, 4) as u32,
        tree_type: le_at(b, 40, 4) as u32,
        snapshot_tree_type: le_at(b, 44, 4) as u32,
        tree_oid: le_at(b, 48, 8) as u64,
        snapshot_tree_oid: le_at(b, 56, 8) as u64,
        most_recent_snap: le_at(b, 64, 8) as u64,
    }
}

impl OmapPhys {
    pub fn parse(b: &[u8]) -> (r: Result<OmapPhys>)
        ensures
            match r {
                Ok(o) => b@.len() >= 72 && o == omap_phys_of(b@),
                Err(e) => b@.len() < 72 && e.kind == ErrorKind::Corrupt,
            },
    {
        let flags = raw::u32_at(b, 32)?;
        let snap_count = raw::u32_at(b, 36)?;
        let tree_type = raw::u32_at(b, 40)?;
        let snapshot_tree_type = raw::u32_at(b, 44)?;
        let tree_oid = raw::u64_at(b, 48)?;
        let snapshot_tree_oid = raw::u64_at(b, 56)?;
        let most_recent_snap = raw::u64_at(b, 64)?;
        Ok(OmapPhys {
            flags,
            snap_count,
            tree_type,
            snapshot_tree_type,
            tree_oid,
            snapshot_tree_oid,
            most_recent_snap,
        })
    }

    /// True if the omap B-tree is a physical object (the only case resolved).
    pub fn tree_is_physical(&self) -> (r: bool)
        ensures
            r == (self.tree_type & OBJ_STORAGETYPE_MASK == OBJ_PHYSICAL),
    {
        self.tree_type & OBJ_STORAGETYPE_MASK == OBJ_PHYSICAL
    }
}

/// `omap_key_t` — (oid, xid). Size 16.
#[derive(Debug, Clone, Copy, PartialEq, Eq, Structural)]
pub struct OmapKey {
    pub oid: u64,
    pub xid: u64,
}

/// The key stored in the 16 bytes at the start of `b`.
pub open spec fn omap_key_of(b: Seq<u8>) -> OmapKey {
    OmapKey { oid: le_at(b, 0, 8) as u64, xid: le_at(b, 8, 8) as u64 }
}

impl OmapKey {
    pub const SIZE: usize = 16;

    pub fn parse(b: &[u8]) -> (r: Result<OmapKey>)
        ensures
            match r {
                Ok(k) => b@.len() >= 16 && k == omap_key_of(b@),
                Err(e) => b@.len() < 16 && e.kind == ErrorKind::Corrupt,
            },
    {
        let oid = raw::u64_at(b, 0)?;
        let xid = raw::u64_at(b, 8)?;
        Ok(OmapKey { oid, xid })
    }
}

/// `omap_val_t` — (flags, size, paddr). Size 16.
#[derive(Debug, Clone, Copy, PartialEq, Eq, Structural)]
pub struct OmapVal {
    pub flags: u32,
    pub size: u32,
    pub paddr: u64,
}

/// The value stored in the 16 bytes at the start of `b`.
pub open spec fn omap_val_of(b: Seq<u8>) -> OmapVal {
    OmapVal { flags: le_at(b, 0, 4) as u32, size: le_at(b, 4, 4) as u32, paddr: le_at(b, 8, 8) as u64 }
}

impl OmapVal {
    pub const SIZE: usize = 16;

    pub fn parse(b: &[u8]) -> (r: Result<OmapVal>)
        ensures
            match r {
                Ok(v) => b@.len() >= 16 && v == omap_val_of(b@),
                Err(e) => b@.len() < 16 && e.kind == ErrorKind::Corrupt,
            },
    {
        let flags = raw::u32_at(b, 0)?;
        let size = raw::u32_at(b, 4)?;
        let paddr = raw::u64_at(b, 8)?;
        Ok(OmapVal { flags, size, paddr })
    }

    pub fn is_deleted(&self) -> (r: bool)
        ensures
            r == (self.flags & OMAP_VAL_DELETED != 0),
    {
        self.flags & OMAP_VAL_DELETED != 0
    }

    pub fn is_encrypted(&self) -> (r: bool)
        ensures
            r == (self.flags & OMAP_VAL_ENCRYPTED != 0),
    {
        self.flags & OMAP_VAL_ENCRYPTED != 0
    }

    pub fn is_noheader(&self) -> (r: bool)
        ensures
            r == (self.flags & OMAP_VAL_NOHEADER != 0),
    {
        self.flags & OMAP_VAL_NOHEADER != 0
    }
}

/// A resolved object-map entry (the key that matched plus its value).
#[derive(Debug, Clone, Copy, PartialEq, Eq, Structural)]
pub struct OmapEntry {
    pub key: OmapKey,
    pub val: OmapVal,
}

/// Confirm an omap object's header type is `OMAP`.
pub fn is_omap_object(header: &ObjPhys) -> (r: bool)
    ensures
        r == (header.otype & OBJECT_TYPE_MASK == OBJECT_TYPE_OMAP),
{
    header.type_id() == OBJECT_TYPE_OMAP
}

} // verus!
