//! The common object header `obj_phys_t` and object type/flag constants.
use vstd::prelude::*;

use super::raw::{self, le_at};
use crate::error::{ErrorKind, Result};

verus! {

/// Size of `obj_phys_t` on disk.
pub const OBJ_PHYS_SIZE: usize = 32;

pub const OBJECT_TYPE_MASK: u32 = 0x0000_ffff;
pub const OBJECT_TYPE_FLAGS_MASK: u32 = 0xffff_0000;
pub const OBJ_STORAGETYPE_MASK: u32 = 0xc000_0000;

pub const OBJECT_TYPE_NX_SUPERBLOCK: u32 = 0x01;
pub const OBJECT_TYPE_BTREE: u32 = 0x02;
pub const OBJECT_TYPE_BTREE_NODE: u32 = 0x03;
pub const OBJECT_TYPE_OMAP: u32 = 0x0b;
pub const OBJECT_TYPE_CHECKPOINT_MAP: u32 = 0x0c;
pub const OBJECT_TYPE_FS: u32 = 0x0d;
pub const OBJECT_TYPE_FSTREE: u32 = 0x0e;
pub const OBJECT_TYPE_BLOCKREFTREE: u32 = 0x0f;
pub const OBJECT_TYPE_SNAPMETATREE: u32 = 0x10;
pub const OBJECT_TYPE_OMAP_SNAPSHOT: u32 = 0x13;
pub const OBJECT_TYPE_SNAP_META_EXT: u32 = 0x1d;
pub const OBJECT_TYPE_INTEGRITY_META: u32 = 0x1e;
pub const OBJECT_TYPE_FEXT_TREE: u32 = 0x1f;

pub const OBJ_VIRTUAL: u32 = 0x0000_0000;
pub const OBJ_EPHEMERAL: u32 = 0x8000_0000;
pub const OBJ_PHYSICAL: u32 = 0x4000_0000;
pub const OBJ_NOHEADER: u32 = 0x2000_0000;
pub const OBJ_ENCRYPTED: u32 = 0x1000_0000;
pub const OBJ_NONPERSISTENT: u32 = 0x0800_0000;

/// Storage class of an object, derived from `o_type`'s storage bits.
#[derive(Debug, Clone, Copy, PartialEq, Eq, Structural)]
pub enum StorageType {
    /// Resolved through an object map (`OBJ_VIRTUAL`).
    Virtual,
    /// Addressed directly by block number (`OBJ_PHYSICAL`).
    Physical,
    /// Resolved through a checkpoint map (`OBJ_EPHEMERAL`).
    Ephemeral,
}

/// The parsed common object header present at the start of most APFS objects.
#[derive(Debug, Clone, Copy)]
pub struct ObjPhys {
    /// Stored Fletcher-64 checksum (raw 8 bytes as `u64`).
    pub cksum: u64,
    /// Object identifier.
    pub oid: u64,
    /// Transaction identifier.
    pub xid: u64,
    /// Raw `o_type` (type + flags + storage bits).
    pub otype: u32,
    /// Raw `o_subtype`.
    pub subtype: u32,
}

/// The header fields of block `b`, assuming it is at least 32 bytes long.
pub open spec fn header_of(b: Seq<u8>) -> ObjPhys {
    ObjPhys {
        cksum: le_at(b, 0, 8) as u64,
        oid: le_at(b, 8, 8) as u64,
        xid: le_at(b, 16, 8) as u64,
        otype: le_at(b, 24, 4) as u32,
        subtype: le_at(b, 28, 4) as u32,
    }
}

/// Storage class selected by the top two bits of a raw `o_type`.
pub open spec fn storage_of(otype: u32) -> StorageType {
    if otype & OBJ_STORAGETYPE_MASK == OBJ_PHYSICAL {
        StorageType::Physical
    } else if otype & OBJ_STORAGETYPE_MASK == OBJ_EPHEMERAL {
        StorageType::Ephemeral
    } else {
        StorageType::Virtual
    }
}

impl ObjPhys {
    /// Parse the 32-byte header at the start of `b`.
    pub fn parse(b: &[u8]) -> (r: Result<ObjPhys>)
        ensures
            match r {
                Ok(o) => {
                    &&& b@.len() >= 32
                    &&& o == header_of(b@)
                    &&& o.cksum == le_at(b@, 0, 8)
                    &&& o.oid == le_at(b@, 8, 8)
                    &&& o.xid == le_at(b@, 16, 8)
                    &&& o.otype == le_at(b@, 24, 4)
                    &&& o.subtype == le_at(b@, 28, 4)
                },
                Err(e) => b@.len() < 32 && e.kind == ErrorKind::Corrupt,
            },
    {
        let cksum = raw::u64_at(b, 0)?;
        let oid = raw::u64_at(b, 8)?;
        let xid = raw::u64_at(b, 16)?;
        let otype = raw::u32_at(b, 24)?;
        let subtype = raw::u32_at(b, 28)?;
        Ok(ObjPhys { cksum, oid, xid, otype, subtype })
    }

    /// The object type proper (low 16 bits).
    pub fn type_id(&self) -> (t: u32)
        ensures
            t == self.otype & OBJECT_TYPE_MASK,
    {
        self.otype & OBJECT_TYPE_MASK
    }

    /// Storage class from the top two type bits.
    pub fn storage_type(&self) -> (s: StorageType)
        ensures
            s == storage_of(self.otype),
    {
        let bits = self.otype & OBJ_STORAGETYPE_MASK;
        if bits == OBJ_PHYSICAL {
            StorageType::Physical
        } else if bits == OBJ_EPHEMERAL {
            StorageType::Ephemeral
        } else {
            StorageType::Virtual
        }
    }

    pub fn is_encrypted(&self) -> (r: bool)
        ensures
            r == (self.otype & OBJ_ENCRYPTED != 0),
    {
        self.otype & OBJ_ENCRYPTED != 0
    }

    pub fn has_no_header(&self) -> (r: bool)
        ensures
            r == (self.otype & OBJ_NOHEADER != 0),
    {
        self.otype & OBJ_NOHEADER != 0
    }
}

/// Human name of each known object type id.
pub open spec fn type_name_of(type_id: u32) -> Seq<char> {
    if type_id == OBJECT_TYPE_NX_SUPERBLOCK {
        "nx_superblock"@
    } else if type_id == OBJECT_TYPE_BTREE {
        "btree"@
    } else if type_id == OBJECT_TYPE_BTREE_NODE {
        "btree_node"@
    } else if type_id == OBJECT_TYPE_OMAP {
        "omap"@
    } else if type_id == OBJECT_TYPE_CHECKPOINT_MAP {
        "checkpoint_map"@
    } else if type_id == OBJECT_TYPE_FS {
        "fs"@
    } else if type_id == OBJECT_TYPE_FSTREE {
        "fstree"@
    } else if type_id == OBJECT_TYPE_BLOCKREFTREE {
        "blockreftree"@
    } else if type_id == OBJECT_TYPE_SNAPMETATREE {
        "snapmetatree"@
    } else if type_id == OBJECT_TYPE_OMAP_SNAPSHOT {
        "omap_snapshot"@
    } else if type_id == OBJECT_TYPE_SNAP_META_EXT {
        "snap_meta_ext"@
    } else if type_id == OBJECT_TYPE_INTEGRITY_META {
        "integrity_meta"@
    } else if type_id == OBJECT_TYPE_FEXT_TREE {
        "fext_tree"@
    } else {
        "unknown"@
    }
}

/// Human name for a known object type id (the low 16 bits).
pub fn object_type_name(type_id: u32) -> (n: &'static str)
    ensures
        n@ == type_name_of(type_id),
{
    if type_id == OBJECT_TYPE_NX_SUPERBLOCK {
        "nx_superblock"
    } else if type_id == OBJECT_TYPE_BTREE {
        "btree"
    } else if type_id == OBJECT_TYPE_BTREE_NODE {
        "btree_node"
    } else if type_id == OBJECT_TYPE_OMAP {
        "omap"
    } else if type_id == OBJECT_TYPE_CHECKPOINT_MAP {
        "checkpoint_map"
    } else if type_id == OBJECT_TYPE_FS {
        "fs"
    } else if type_id == OBJECT_TYPE_FSTREE {
        "fstree"
    } else if type_id == OBJECT_TYPE_BLOCKREFTREE {
        "blockreftree"
    } else if type_id == OBJECT_TYPE_SNAPMETATREE {
        "snapmetatree"
    } else if type_id == OBJECT_TYPE_OMAP_SNAPSHOT {
        "omap_snapshot"
    } else if type_id == OBJECT_TYPE_SNAP_META_EXT {
        "snap_meta_ext"
    } else if type_id == OBJECT_TYPE_INTEGRITY_META {
        "integrity_meta"
    } else if type_id == OBJECT_TYPE_FEXT_TREE {
        "fext_tree"
    } else {
        "unknown"
    }
}

} // verus!
