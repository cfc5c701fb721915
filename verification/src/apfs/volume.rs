//! Volume superblock `apfs_superblock_t`.
//!
//! Field offsets account for the 2 bytes of struct padding inserted after the
//! 18-byte `wrapped_meta_crypto_state_t` and before `apfs_root_tree_type`.
use vstd::prelude::*;

use super::obj::ObjPhys;
use super::raw::{self, cstr_text, le_at, uuid_text};
use crate::error::{corrupt, ErrorKind, Result};
use crate::text;

verus! {

/// `apfs_magic`: bytes "APSB" as a little-endian `u32`.
pub const APFS_MAGIC: u32 = 0x4253_5041;

pub const APFS_VOLNAME_LEN: usize = 256;

pub const APFS_FS_UNENCRYPTED: u64 = 0x1;
pub const APFS_FS_ONEKEY: u64 = 0x8;

pub const APFS_INCOMPAT_CASE_INSENSITIVE: u64 = 0x1;
pub const APFS_INCOMPAT_DATALESS_SNAPS: u64 = 0x2;
pub const APFS_INCOMPAT_ENC_ROLLED: u64 = 0x4;
pub const APFS_INCOMPAT_NORMALIZATION_INSENSITIVE: u64 = 0x8;
pub const APFS_INCOMPAT_INCOMPLETE_RESTORE: u64 = 0x10;
pub const APFS_INCOMPAT_SEALED_VOLUME: u64 = 0x20;
/// Mask of incompatible volume features this reader understands enough to browse.
pub const APFS_SUPPORTED_INCOMPAT_MASK: u64 = 0x3f;

const OFF_MAGIC: usize = 32;
const OFF_FS_INDEX: usize = 36;
const OFF_FEATURES: usize = 40;
const OFF_ROCOMPAT: usize = 48;
const OFF_INCOMPAT: usize = 56;
const OFF_ROOT_TREE_TYPE: usize = 116;
const OFF_EXTENTREF_TREE_TYPE: usize = 120;
const OFF_SNAP_META_TREE_TYPE: usize = 124;
const OFF_OMAP_OID: usize = 128;
const OFF_ROOT_TREE_OID: usize = 136;
const OFF_EXTENTREF_TREE_OID: usize = 144;
const OFF_SNAP_META_TREE_OID: usize = 152;
const OFF_NUM_FILES: usize = 184;
const OFF_NUM_DIRECTORIES: usize = 192;
const OFF_NUM_SYMLINKS: usize = 200;
const OFF_NUM_OTHER: usize = 208;
const OFF_NUM_SNAPSHOTS: usize = 216;
const OFF_VOL_UUID: usize = 240;
const OFF_LAST_MOD_TIME: usize = 256;
const OFF_FS_FLAGS: usize = 264;
const OFF_VOLNAME: usize = 704;
const OFF_ROLE: usize = 964;
const OFF_SNAP_META_EXT_OID: usize = 1000;
const OFF_VOLUME_GROUP_ID: usize = 1008;
const OFF_INTEGRITY_META_OID: usize = 1024;
const OFF_FEXT_TREE_OID: usize = 1032;

/// Bytes a volume superblock block must hold to be parsed.
pub const APSB_PARSE_LEN: usize = 1040;

/// Parsed volume superblock (the fields this reader uses).
#[derive(Debug, Clone)]
pub struct ApfsSuperblock {
    pub oid: u64,
    pub xid: u64,
    pub magic: u32,
    pub fs_index: u32,
    pub features: u64,
    pub readonly_compatible_features: u64,
    pub incompatible_features: u64,
    pub omap_oid: u64,
    pub root_tree_oid: u64,
    pub extentref_tree_oid: u64,
    pub snap_meta_tree_oid: u64,
    pub root_tree_type: u32,
    pub extentref_tree_type: u32,
    pub snap_meta_tree_type: u32,
    pub num_files: u64,
    pub num_directories: u64,
    pub num_symlinks: u64,
    pub num_other_fsobjects: u64,
    pub num_snapshots: u64,
    pub vol_uuid: String,
    pub last_mod_time: u64,
    pub fs_flags: u64,
    pub volname: String,
    pub role: u16,
    pub snap_meta_ext_oid: u64,
    pub volume_group_id: String,
    pub integrity_meta_oid: u64,
    pub fext_tree_oid: u64,
}

/// `a` holds exactly the volume-superblock fields stored in block `b`.
pub open spec fn apsb_matches(a: ApfsSuperblock, b: Seq<u8>) -> bool {
    &&& a.oid == le_at(b, 8, 8)
    &&& a.xid == le_at(b, 16, 8)
    &&& a.magic == le_at(b, 32, 4)
    &&& a.fs_index == le_at(b, 36, 4)
    &&& a.features == le_at(b, 40, 8)
    &&& a.readonly_compatible_features == le_at(b, 48, 8)
    &&& a.incompatible_features == le_at(b, 56, 8)
    &&& a.omap_oid == le_at(b, 128, 8)
    &&& a.root_tree_oid == le_at(b, 136, 8)
    &&& a.extentref_tree_oid == le_at(b, 144, 8)
    &&& a.snap_meta_tree_oid == le_at(b, 152, 8)
    &&& a.root_tree_type == le_at(b, 116, 4)
    &&& a.extentref_tree_type == le_at(b, 120, 4)
    &&& a.snap_meta_tree_type == le_at(b, 124, 4)
    &&& a.num_files == le_at(b, 184, 8)
    &&& a.num_directories == le_at(b, 192, 8)
    &&& a.num_symlinks == le_at(b, 200, 8)
    &&& a.num_other_fsobjects == le_at(b, 208, 8)
    &&& a.num_snapshots == le_at(b, 216, 8)
    &&& a.vol_uuid@ == uuid_text(b.subrange(240, 256))
    &&& a.last_mod_time == le_at(b, 256, 8)
    &&& a.fs_flags == le_at(b, 264, 8)
    &&& a.volname@ == cstr_text(b.subrange(704, 960))
    &&& a.role == le_at(b, 964, 2)
    &&& a.snap_meta_ext_oid == le_at(b, 1000, 8)
    &&& a.volume_group_id@ == uuid_text(b.subrange(1008, 1024))
    &&& a.integrity_meta_oid == le_at(b, 1024, 8)
    &&& a.fext_tree_oid == le_at(b, 1032, 8)
}

/// Human name of each volume role value.
pub open spec fn role_text(role: u16) -> Seq<char> {
    if role == 0x0000 {
        "none"@
    } else if role == 0x0001 {
        "system"@
    } else if role == 0x0002 {
        "user"@
    } else if role == 0x0004 {
        "recovery"@
    } else if role == 0x0008 {
        "vm"@
    } else if role == 0x0010 {
        "preboot"@
    } else if role == 0x0020 {
        "installer"@
    } else if role == 0x0040 {
        "data"@
    } else if role == 0x0080 {
        "baseband"@
    } else if role == 0x00c0 {
        "update"@
    } else if role == 0x0100 {
        "xart"@
    } else if role == 0x0140 {
        "hardware"@
    } else if role == 0x0180 {
        "backup"@
    } else if role == 0x02c0 {
        "prelogin"@
    } else {
        "unknown"@
    }
}

impl ApfsSuperblock {
    pub fn parse(b: &[u8]) -> (r: Result<ApfsSuperblock>)
        ensures
            match r {
                Ok(a) => b@.len() >= APSB_PARSE_LEN && apsb_matches(a, b@),
                Err(e) => b@.len() < APSB_PARSE_LEN && e.kind == ErrorKind::Corrupt,
            },
    {
        if b.len() < APSB_PARSE_LEN {
            return Err(corrupt(String::from_str("volume superblock shorter than its fields")));
        }
        let header = ObjPhys::parse(b)?;
        let volname_bytes = raw::slice(b, OFF_VOLNAME, APFS_VOLNAME_LEN)?;
        Ok(ApfsSuperblock {
            oid: header.oid,
            xid: header.xid,
            magic: raw::u32_at(b, OFF_MAGIC)?,
            fs_index: raw::u32_at(b, OFF_FS_INDEX)?,
            features: raw::u64_at(b, OFF_FEATURES)?,
            readonly_compatible_features: raw::u64_at(b, OFF_ROCOMPAT)?,
            incompatible_features: raw::u64_at(b, OFF_INCOMPAT)?,
            omap_oid: raw::u64_at(b, OFF_OMAP_OID)?,
            root_tree_oid: raw::u64_at(b, OFF_ROOT_TREE_OID)?,
            extentref_tree_oid: raw::u64_at(b, OFF_EXTENTREF_TREE_OID)?,
            snap_meta_tree_oid: raw::u64_at(b, OFF_SNAP_META_TREE_OID)?,
            root_tree_type: raw::u32_at(b, OFF_ROOT_TREE_TYPE)?,
            extentref_tree_type: raw::u32_at(b, OFF_EXTENTREF_TREE_TYPE)?,
            snap_meta_tree_type: raw::u32_at(b, OFF_SNAP_META_TREE_TYPE)?,
            num_files: raw::u64_at(b, OFF_NUM_FILES)?,
            num_directories: raw::u64_at(b, OFF_NUM_DIRECTORIES)?,
            num_symlinks: raw::u64_at(b, OFF_NUM_SYMLINKS)?,
            num_other_fsobjects: raw::u64_at(b, OFF_NUM_OTHER)?,
            num_snapshots: raw::u64_at(b, OFF_NUM_SNAPSHOTS)?,
            vol_uuid: raw::uuid_at(b, OFF_VOL_UUID)?,
            last_mod_time: raw::u64_at(b, OFF_LAST_MOD_TIME)?,
            fs_flags: raw::u64_at(b, OFF_FS_FLAGS)?,
            volname: raw::cstr_utf8(volname_bytes),
            role: raw::u16_at(b, OFF_ROLE)?,
            snap_meta_ext_oid: raw::u64_at(b, OFF_SNAP_META_EXT_OID)?,
            volume_group_id: raw::uuid_at(b, OFF_VOLUME_GROUP_ID)?,
            integrity_meta_oid: raw::u64_at(b, OFF_INTEGRITY_META_OID)?,
            fext_tree_oid: raw::u64_at(b, OFF_FEXT_TREE_OID)?,
        })
    }

    pub fn check_magic(&self) -> (r: Result<()>)
        ensures
            match r {
                Ok(_) => self.magic == APFS_MAGIC,
                Err(e) => self.magic != APFS_MAGIC && e.kind == ErrorKind::Corrupt,
            },
    {
        if self.magic != APFS_MAGIC {
            let mut m = String::from_str("volume superblock has bad magic ");
            text::push_str(&mut m, text::hex_prefixed(self.magic as u64).as_str());
            text::push_str(&mut m, " (expected APSB)");
            return Err(corrupt(m));
        }
        Ok(())
    }

    pub fn is_case_insensitive(&self) -> (r: bool)
        ensures
            r == (self.incompatible_features & APFS_INCOMPAT_CASE_INSENSITIVE != 0),
    {
        self.incompatible_features & APFS_INCOMPAT_CASE_INSENSITIVE != 0
    }

    pub fn is_normalization_insensitive(&self) -> (r: bool)
        ensures
            r == (self.incompatible_features & APFS_INCOMPAT_NORMALIZATION_INSENSITIVE != 0),
    {
        self.incompatible_features & APFS_INCOMPAT_NORMALIZATION_INSENSITIVE != 0
    }

    pub fn is_sealed(&self) -> (r: bool)
        ensures
            r == (self.incompatible_features & APFS_INCOMPAT_SEALED_VOLUME != 0),
    {
        self.incompatible_features & APFS_INCOMPAT_SEALED_VOLUME != 0
    }

    /// True if the volume is software-encrypted (the `UNENCRYPTED` flag is clear).
    pub fn is_encrypted(&self) -> (r: bool)
        ensures
            r == (self.fs_flags & APFS_FS_UNENCRYPTED == 0),
    {
        self.fs_flags & APFS_FS_UNENCRYPTED == 0
    }

    pub fn role_name(&self) -> (n: &'static str)
        ensures
            n@ == role_text(self.role),
    {
        role_name(self.role)
    }
}

/// Human name for a volume role value.
pub fn role_name(role: u16) -> (n: &'static str)
    ensures
        n@ == role_text(role),
{
    if role == 0x0000 {
        "none"
    } else if role == 0x0001 {
        "system"
    } else if role == 0x0002 {
        "user"
    } else if role == 0x0004 {
        "recovery"
    } else if role == 0x0008 {
        "vm"
    } else if role == 0x0010 {
        "preboot"
    } else if role == 0x0020 {
        "installer"
    } else if role == 0x0040 {
        "data"
    } else if role == 0x0080 {
        "baseband"
    } else if role == 0x00c0 {
        "update"
    } else if role == 0x0100 {
        "xart"
    } else if role == 0x0140 {
        "hardware"
    } else if role == 0x0180 {
        "backup"
    } else if role == 0x02c0 {
        "prelogin"
    } else {
        "unknown"
    }
}

} // verus!
