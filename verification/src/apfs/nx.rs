//! Container superblock `nx_superblock_t` and checkpoint maps. Field offsets
//! follow the Apple File System Reference.
use vstd::prelude::*;

use super::obj::ObjPhys;
use super::raw::{self, le_at, uuid_text};
use crate::error::{corrupt, ErrorKind, Result};
use crate::text;

verus! {

/// `nx_magic`: the four bytes "NXSB" read as a little-endian `u32`.
pub const NX_MAGIC: u32 = 0x4253_584E;

pub const NX_MAX_FILE_SYSTEMS: usize = 100;

pub const NX_INCOMPAT_VERSION1: u64 = 0x1;
pub const NX_INCOMPAT_VERSION2: u64 = 0x2;
pub const NX_INCOMPAT_FUSION: u64 = 0x100;
/// Mask of incompatible features this reader understands.
pub const NX_SUPPORTED_INCOMPAT_MASK: u64 = 0x103;

pub const NX_CRYPTO_SW: u64 = 0x4;

const OFF_MAGIC: usize = 32;
const OFF_BLOCK_SIZE: usize = 36;
const OFF_BLOCK_COUNT: usize = 40;
const OFF_FEATURES: usize = 48;
const OFF_ROCOMPAT: usize = 56;
const OFF_INCOMPAT: usize = 64;
const OFF_UUID: usize = 72;
const OFF_NEXT_XID: usize = 96;
const OFF_XP_DESC_BLOCKS: usize = 104;
const OFF_XP_DATA_BLOCKS: usize = 108;
const OFF_XP_DESC_BASE: usize = 112;
const OFF_XP_DATA_BASE: usize = 120;
const OFF_XP_DESC_NEXT: usize = 128;
const OFF_XP_DATA_NEXT: usize = 132;
const OFF_XP_DESC_INDEX: usize = 136;
const OFF_XP_DESC_LEN: usize = 140;
const OFF_XP_DATA_INDEX: usize = 144;
const OFF_XP_DATA_LEN: usize = 148;
const OFF_OMAP_OID: usize = 160;
const OFF_MAX_FILE_SYSTEMS: usize = 180;
const OFF_FS_OID: usize = 184;
const OFF_FLAGS: usize = 1264;
const OFF_EFI_JUMPSTART: usize = 1272;
const OFF_KEYLOCKER: usize = 1296;

/// Bytes a container superblock block must hold to be parsed.
pub const NX_PARSE_LEN: usize = 1312;

/// Parsed container superblock (the fields this reader uses).
#[derive(Debug, Clone)]
pub struct NxSuperblock {
    pub oid: u64,
    pub xid: u64,
    pub magic: u32,
    pub block_size: u32,
    pub block_count: u64,
    pub features: u64,
    pub readonly_compatible_features: u64,
    pub incompatible_features: u64,
    pub flags: u64,
    pub uuid: String,
    pub next_xid: u64,
    /// Number of blocks in the checkpoint descriptor area; the top bit, if
    /// set, means the area is a tree rather than contiguous.
    pub xp_desc_blocks_raw: u32,
    pub xp_data_blocks_raw: u32,
    pub xp_desc_base: i64,
    pub xp_data_base: i64,
    pub xp_desc_next: u32,
    pub xp_data_next: u32,
    pub xp_desc_index: u32,
    pub xp_desc_len: u32,
    pub xp_data_index: u32,
    pub xp_data_len: u32,
    pub omap_oid: u64,
    pub max_file_systems: u32,
    /// Virtual OIDs of the volume superblocks; 0 entries are absent volumes.
    pub fs_oids: Vec<u64>,
    pub efi_jumpstart: i64,
    pub keylocker_start: i64,
    pub keylocker_blocks: u64,
}

/// The number of `fs_oid` slots read for a `max_file_systems` value: the
/// stored count, clamped to the specification maximum of 100.
pub open spec fn fs_slot_count(max_fs: u32) -> nat {
    if max_fs < 100 {
        max_fs as nat
    } else {
        100
    }
}

/// `o` holds exactly the container-superblock fields stored in block `b`.
pub open spec fn nx_matches(o: NxSuperblock, b: Seq<u8>) -> bool {
    &&& o.oid == le_at(b, 8, 8)
    &&& o.xid == le_at(b, 16, 8)
    &&& o.magic == le_at(b, 32, 4)
    &&& o.block_size == le_at(b, 36, 4)
    &&& o.block_count == le_at(b, 40, 8)
    &&& o.features == le_at(b, 48, 8)
    &&& o.readonly_compatible_features == le_at(b, 56, 8)
    &&& o.incompatible_features == le_at(b, 64, 8)
    &&& o.flags == le_at(b, 1264, 8)
    &&& o.uuid@ == uuid_text(b.subrange(72, 88))
    &&& o.next_xid == le_at(b, 96, 8)
    &&& o.xp_desc_blocks_raw == le_at(b, 104, 4)
    &&& o.xp_data_blocks_raw == le_at(b, 108, 4)
    &&& o.xp_desc_base == (le_at(b, 112, 8) as u64) as i64
    &&& o.xp_data_base == (le_at(b, 120, 8) as u64) as i64
    &&& o.xp_desc_next == le_at(b, 128, 4)
    &&& o.xp_data_next == le_at(b, 132, 4)
    &&& o.xp_desc_index == le_at(b, 136, 4)
    &&& o.xp_desc_len == le_at(b, 140, 4)
    &&& o.xp_data_index == le_at(b, 144, 4)
    &&& o.xp_data_len == le_at(b, 148, 4)
    &&& o.omap_oid == le_at(b, 160, 8)
    &&& o.max_file_systems == le_at(b, 180, 4)
    &&& o.fs_oids@.len() == fs_slot_count(o.max_file_systems)
    &&& forall|i: int| 0 <= i < o.fs_oids@.len() ==> #[trigger] o.fs_oids@[i] == le_at(b, 184 + 8 * i, 8)
    &&& o.efi_jumpstart == (le_at(b, 1272, 8) as u64) as i64
    &&& o.keylocker_start == (le_at(b, 1296, 8) as u64) as i64
    &&& o.keylocker_blocks == le_at(b, 1304, 8)
}

impl NxSuperblock {
    /// Parse a container superblock from a whole block.
    pub fn parse(b: &[u8]) -> (r: Result<NxSuperblock>)
        ensures
            match r {
                Ok(o) => b@.len() >= NX_PARSE_LEN && nx_matches(o, b@),
                Err(e) => b@.len() < NX_PARSE_LEN && e.kind == ErrorKind::Corrupt,
            },
    {
        if b.len() < NX_PARSE_LEN {
            return Err(corrupt(String::from_str("container superblock shorter than its fields")));
        }
        let header = ObjPhys::parse(b)?;
        let max_fs = raw::u32_at(b, OFF_MAX_FILE_SYSTEMS)?;
        // Clamp the number of fs_oid entries read to the specification maximum
        // so a corrupt `max_file_systems` can't make us read past the array.
        let count: usize = if (max_fs as usize) < NX_MAX_FILE_SYSTEMS {
            max_fs as usize
        } else {
            NX_MAX_FILE_SYSTEMS
        };
        let blen = b.len();
        let mut fs_oids: Vec<u64> = Vec::new();
        let mut i: usize = 0;
        while i < count
            invariant
                i <= count <= 100,
                b@.len() >= NX_PARSE_LEN,
                b@.len() == blen,
                fs_oids@.len() == i,
                forall|j: int| 0 <= j < i ==> #[trigger] fs_oids@[j] == le_at(b@, 184 + 8 * j, 8),
            decreases count - i,
        {
            let v = raw::u64_at(b, OFF_FS_OID + i * 8)?;
            fs_oids.push(v);
            i = i + 1;
        }
        let o = NxSuperblock {
            oid: header.oid,
            xid: header.xid,
            magic: raw::u32_at(b, OFF_MAGIC)?,
            block_size: raw::u32_at(b, OFF_BLOCK_SIZE)?,
            block_count: raw::u64_at(b, OFF_BLOCK_COUNT)?,
            features: raw::u64_at(b, OFF_FEATURES)?,
            readonly_compatible_features: raw::u64_at(b, OFF_ROCOMPAT)?,
            incompatible_features: raw::u64_at(b, OFF_INCOMPAT)?,
            flags: raw::u64_at(b, OFF_FLAGS)?,
            uuid: raw::uuid_at(b, OFF_UUID)?,
            next_xid: raw::u64_at(b, OFF_NEXT_XID)?,
            xp_desc_blocks_raw: raw::u32_at(b, OFF_XP_DESC_BLOCKS)?,
            xp_data_blocks_raw: raw::u32_at(b, OFF_XP_DATA_BLOCKS)?,
            xp_desc_base: raw::i64_at(b, OFF_XP_DESC_BASE)?,
            xp_data_base: raw::i64_at(b, OFF_XP_DATA_BASE)?,
            xp_desc_next: raw::u32_at(b, OFF_XP_DESC_NEXT)?,
            xp_data_next: raw::u32_at(b, OFF_XP_DATA_NEXT)?,
            xp_desc_index: raw::u32_at(b, OFF_XP_DESC_INDEX)?,
            xp_desc_len: raw::u32_at(b, OFF_XP_DESC_LEN)?,
            xp_data_index: raw::u32_at(b, OFF_XP_DATA_INDEX)?,
            xp_data_len: raw::u32_at(b, OFF_XP_DATA_LEN)?,
            omap_oid: raw::u64_at(b, OFF_OMAP_OID)?,
            max_file_systems: max_fs,
            fs_oids,
            efi_jumpstart: raw::i64_at(b, OFF_EFI_JUMPSTART)?,
            keylocker_start: raw::i64_at(b, OFF_KEYLOCKER)?,
            keylocker_blocks: raw::u64_at(b, OFF_KEYLOCKER + 8)?,
        };
        Ok(o)
    }

    /// True if the checkpoint descriptor area is stored as a tree (top bit set).
    pub fn xp_desc_is_tree(&self) -> (r: bool)
        ensures
            r == (self.xp_desc_blocks_raw >= 0x8000_0000),
    {
        let raw_blocks = self.xp_desc_blocks_raw;
        let r = raw_blocks & 0x8000_0000u32 != 0;
        assert(r == (raw_blocks >= 0x8000_0000)) by (bit_vector)
            requires
                r == (raw_blocks & 0x8000_0000u32 != 0),
        ;
        r
    }

    /// Number of blocks in the (contiguous) checkpoint descriptor area.
    pub fn xp_desc_blocks(&self) -> (n: u32)
        ensures
            n == self.xp_desc_blocks_raw % 0x8000_0000,
    {
        let raw_blocks = self.xp_desc_blocks_raw;
        let n = raw_blocks & 0x7fff_ffffu32;
        assert(n == raw_blocks % 0x8000_0000) by (bit_vector)
            requires
                n == raw_blocks & 0x7fff_ffffu32,
        ;
        n
    }

    /// Validate the magic number.
    pub fn check_magic(&self) -> (r: Result<()>)
        ensures
            match r {
                Ok(_) => self.magic == NX_MAGIC,
                Err(e) => self.magic != NX_MAGIC && e.kind == ErrorKind::Corrupt,
            },
    {
        if self.magic != NX_MAGIC {
            let mut m = String::from_str("container superblock has bad magic ");
            text::push_str(&mut m, text::hex_prefixed(self.magic as u64).as_str());
            text::push_str(&mut m, " (expected NXSB)");
            return Err(corrupt(m));
        }
        Ok(())
    }

    /// A keybag/software-crypto presence hint at the container level.
    pub fn has_keylocker(&self) -> (r: bool)
        ensures
            r == (self.keylocker_start != 0 && self.keylocker_blocks != 0),
    {
        self.keylocker_start != 0 && self.keylocker_blocks != 0
    }
}

/// One checkpoint mapping entry (`checkpoint_mapping_t`, 40 bytes).
#[derive(Debug, Clone, Copy)]
pub struct CheckpointMapping {
    pub cpm_type: u32,
    pub cpm_subtype: u32,
    pub cpm_size: u32,
    pub fs_oid: u64,
    pub oid: u64,
    pub paddr: u64,
}

const CPM_ENTRY_SIZE: usize = 40;
const CPM_FLAGS_OFF: usize = 32;
const CPM_COUNT_OFF: usize = 36;
const CPM_MAP_OFF: usize = 40;

/// A checkpoint map block (`checkpoint_map_phys_t`).
#[derive(Debug, Clone)]
pub struct CheckpointMap {
    pub flags: u32,
    pub mappings: Vec<CheckpointMapping>,
}

/// `CHECKPOINT_MAP_LAST` flag: this is the last map block of the checkpoint.
pub const CHECKPOINT_MAP_LAST: u32 = 0x1;

/// The mapping stored at byte offset `off` of block `b`.
pub open spec fn mapping_at(b: Seq<u8>, off: int) -> CheckpointMapping {
    CheckpointMapping {
        cpm_type: le_at(b, off, 4) as u32,
        cpm_subtype: le_at(b, off + 4, 4) as u32,
        cpm_size: le_at(b, off + 8, 4) as u32,
        fs_oid: le_at(b, off + 16, 8) as u64,
        oid: le_at(b, off + 24, 8) as u64,
        paddr: le_at(b, off + 32, 8) as u64,
    }
}

/// The number of mapping entries whole entries a block of `len` bytes holds.
pub open spec fn cpm_capacity(len: nat) -> nat {
    if len < 40 {
        0
    } else {
        ((len - 40) / 40) as nat
    }
}

impl CheckpointMap {
    /// Parse a checkpoint map block. The stored count must fit in the block.
    pub fn parse(b: &[u8]) -> (r: Result<CheckpointMap>)
        ensures
            match r {
                Ok(m) => {
                    &&& b@.len() >= 40
                    &&& le_at(b@, 36, 4) <= cpm_capacity(b@.len())
                    &&& m.flags == le_at(b@, 32, 4)
                    &&& m.mappings@.len() == le_at(b@, 36, 4)
                    &&& forall|i: int|
                        0 <= i < m.mappings@.len() ==> #[trigger] m.mappings@[i] == mapping_at(b@, 40 + 40 * i)
                },
                Err(e) => e.kind == ErrorKind::Corrupt && (b@.len() < 40 || le_at(b@, 36, 4) > cpm_capacity(b@.len())),
            },
    {
        let flags = raw::u32_at(b, CPM_FLAGS_OFF)?;
        let count = raw::u32_at(b, CPM_COUNT_OFF)? as usize;
        // The map array must fit within the block.
        let max_by_block = b.len().saturating_sub(CPM_MAP_OFF) / CPM_ENTRY_SIZE;
        if count > max_by_block {
            let mut m = String::from_str("checkpoint map count ");
            text::push_decimal(&mut m, count as u64);
            text::push_str(&mut m, " exceeds ");
            text::push_decimal(&mut m, max_by_block as u64);
            text::push_str(&mut m, " that fit in the block");
            return Err(corrupt(m));
        }
        let blen = b.len();
        let mut mappings: Vec<CheckpointMapping> = Vec::new();
        let mut i: usize = 0;
        while i < count
            invariant
                i <= count <= max_by_block,
                max_by_block == cpm_capacity(b@.len()),
                b@.len() == blen,
                b@.len() >= 40,
                mappings@.len() == i,
                forall|j: int| 0 <= j < i ==> #[trigger] mappings@[j] == mapping_at(b@, 40 + 40 * j),
            decreases count - i,
        {
            let off = CPM_MAP_OFF + i * CPM_ENTRY_SIZE;
            let m = CheckpointMapping {
                cpm_type: raw::u32_at(b, off)?,
                cpm_subtype: raw::u32_at(b, off + 4)?,
                cpm_size: raw::u32_at(b, off + 8)?,
                fs_oid: raw::u64_at(b, off + 16)?,
                oid: raw::u64_at(b, off + 24)?,
                paddr: raw::u64_at(b, off + 32)?,
            };
            mappings.push(m);
            i = i + 1;
        }
        Ok(CheckpointMap { flags, mappings })
    }

    pub fn is_last(&self) -> (r: bool)
        ensures
            r == (self.flags & CHECKPOINT_MAP_LAST != 0),
    {
        self.flags & CHECKPOINT_MAP_LAST != 0
    }
}

} // verus!
