//! Filesystem record (`j_*`) key/value parsers.
//!
//! Each record is a `(key, value)` byte pair pulled from a filesystem-tree
//! leaf. The key always begins with `j_key_t` (`obj_id_and_type`); the value
//! layout depends on the type nibble. Every parser is bounds-checked and
//! returns a typed error on a short or garbled value.
use vstd::prelude::*;

use super::btree::{obj_id_of, obj_type_of, split_obj_id_and_type};
use super::raw::{self, cstr_text, first_nul, le_at};
use vstd::utf8::{decode_utf8, valid_utf8};
use super::xfield::{self, xfield_view, xfields_of, XField};
use crate::error::{corrupt, ErrorKind, Result};
use crate::text;

verus! {

pub const APFS_TYPE_SNAP_METADATA: u8 = 1;
pub const APFS_TYPE_EXTENT: u8 = 2;
pub const APFS_TYPE_INODE: u8 = 3;
pub const APFS_TYPE_XATTR: u8 = 4;
pub const APFS_TYPE_SIBLING_LINK: u8 = 5;
pub const APFS_TYPE_DSTREAM_ID: u8 = 6;
pub const APFS_TYPE_CRYPTO_STATE: u8 = 7;
pub const APFS_TYPE_FILE_EXTENT: u8 = 8;
pub const APFS_TYPE_DIR_REC: u8 = 9;
pub const APFS_TYPE_DIR_STATS: u8 = 10;
pub const APFS_TYPE_SNAP_NAME: u8 = 11;
pub const APFS_TYPE_SIBLING_MAP: u8 = 12;
pub const APFS_TYPE_FILE_INFO: u8 = 13;

pub const INODE_IS_SPARSE: u64 = 0x0000_0200;
pub const INODE_HAS_FINDER_INFO: u64 = 0x0000_0100;
pub const INODE_HAS_RSRC_FORK: u64 = 0x0000_4000;
pub const INODE_HAS_UNCOMPRESSED_SIZE: u64 = 0x0004_0000;

pub const DREC_TYPE_MASK: u16 = 0x000f;
pub const DT_FIFO: u16 = 1;
pub const DT_CHR: u16 = 2;
pub const DT_DIR: u16 = 4;
pub const DT_BLK: u16 = 6;
pub const DT_REG: u16 = 8;
pub const DT_LNK: u16 = 10;
pub const DT_SOCK: u16 = 12;
pub const DT_WHT: u16 = 14;

pub const ROOT_DIR_INO_NUM: u64 = 2;
pub const PRIV_DIR_INO_NUM: u64 = 3;

const J_DREC_LEN_MASK: u32 = 0x0000_03ff;
const J_FILE_EXTENT_LEN_MASK: u64 = 0x00ff_ffff_ffff_ffff;

/// Fixed part of `j_inode_val_t`.
pub const INODE_FIXED_LEN: usize = 92;
/// `j_drec_val_t` = file_id(8) + date_added(8) + flags(u16) = 18 bytes.
pub const DREC_VAL_FIXED_LEN: usize = 18;

/// Extract `(obj_id, type)` from the leading `obj_id_and_type` of a key.
pub fn key_obj_id_and_type(key: &[u8]) -> (r: Result<(u64, u8)>)
    ensures
        match r {
            Ok(p) => key@.len() >= 8 && p.0 == obj_id_of(le_at(key@, 0, 8) as u64) && p.1 == obj_type_of(
                le_at(key@, 0, 8) as u64,
            ),
            Err(e) => key@.len() < 8 && e.kind == ErrorKind::Corrupt,
        },
{
    let v = raw::u64_at(key, 0)?;
    Ok(split_obj_id_and_type(v))
}

/// The data of the first field of type `t`, if any.
pub open spec fn first_data(fs: Seq<XField>, t: u8) -> Option<Seq<u8>>
    decreases fs.len(),
{
    if fs.len() == 0 {
        None
    } else if fs[0].x_type == t {
        Some(fs[0].data@)
    } else {
        first_data(fs.drop_first(), t)
    }
}

proof fn lemma_first_data_found(fs: Seq<XField>, t: u8, i: int)
    requires
        0 <= i < fs.len(),
        fs[i].x_type == t,
        forall|j: int| 0 <= j < i ==> fs[j].x_type != t,
    ensures
        first_data(fs, t) == Some(fs[i].data@),
    decreases i,
{
    if i > 0 {
        lemma_first_data_found(fs.drop_first(), t, i - 1);
    }
}

proof fn lemma_first_data_absent(fs: Seq<XField>, t: u8)
    requires
        forall|j: int| 0 <= j < fs.len() ==> fs[j].x_type != t,
    ensures
        first_data(fs, t) is None,
    decreases fs.len(),
{
    if fs.len() > 0 {
        lemma_first_data_absent(fs.drop_first(), t);
    }
}

/// The data of the first field of type `t` in `fields`.
fn field_data(fields: &Vec<XField>, t: u8) -> (r: Option<&Vec<u8>>)
    ensures
        match r {
            Some(d) => first_data(fields@, t) == Some(d@),
            None => first_data(fields@, t) is None,
        },
{
    match xfield::find(fields.as_slice(), t) {
        Some(f) => {
            proof {
                let i = choose|i: int|
                    0 <= i < fields@.len() && fields@[i] == *f && f.x_type == t && forall|j: int|
                        0 <= j < i ==> fields@[j].x_type != t;
                lemma_first_data_found(fields@, t, i);
            }
            Some(&f.data)
        },
        None => {
            proof {
                lemma_first_data_absent(fields@, t);
            }
            None
        },
    }
}

/// The logical size of `i`: `uncompressed_size` when the inode advertises
/// it, else the size in its `DSTREAM` extended field.
pub open spec fn inode_logical_size(i: Inode) -> Option<u64> {
    if i.internal_flags & INODE_HAS_UNCOMPRESSED_SIZE != 0 {
        Some(i.uncompressed_size)
    } else {
        opt_u64_at(first_data(i.xfields@, xfield::INO_EXT_TYPE_DSTREAM), 0)
    }
}

/// The logical size of an inode without a recorded uncompressed size is
/// the first 8 bytes (little-endian) of its first `DSTREAM` field, or none
/// when that field is shorter than 8 bytes or there is no such field.
pub proof fn logical_size_reads_first_dstream(i: Inode)
    requires
        i.internal_flags & INODE_HAS_UNCOMPRESSED_SIZE == 0,
    ensures
        forall|j: int|
            0 <= j < i.xfields@.len() && (#[trigger] i.xfields@[j]).x_type == xfield::INO_EXT_TYPE_DSTREAM && (forall|k: int|
                0 <= k < j ==> i.xfields@[k].x_type != xfield::INO_EXT_TYPE_DSTREAM) ==> inode_logical_size(i) == if i.xfields@[j].data@.len()
                >= 8 {
                Some(le_at(i.xfields@[j].data@, 0, 8) as u64)
            } else {
                None
            },
        (forall|j: int| 0 <= j < i.xfields@.len() ==> i.xfields@[j].x_type != xfield::INO_EXT_TYPE_DSTREAM)
            ==> inode_logical_size(i) is None,
{
    assert forall|j: int|
        0 <= j < i.xfields@.len() && (#[trigger] i.xfields@[j]).x_type == xfield::INO_EXT_TYPE_DSTREAM && (forall|k: int|
            0 <= k < j ==> i.xfields@[k].x_type != xfield::INO_EXT_TYPE_DSTREAM) implies inode_logical_size(i) == if i.xfields@[j].data@.len()
        >= 8 {
        Some(le_at(i.xfields@[j].data@, 0, 8) as u64)
    } else {
        None
    } by {
        lemma_first_data_found(i.xfields@, xfield::INO_EXT_TYPE_DSTREAM, j);
    }
    if forall|j: int| 0 <= j < i.xfields@.len() ==> i.xfields@[j].x_type != xfield::INO_EXT_TYPE_DSTREAM {
        lemma_first_data_absent(i.xfields@, xfield::INO_EXT_TYPE_DSTREAM);
    }
}

/// A parsed inode record value.
#[derive(Debug, Clone)]
pub struct Inode {
    pub parent_id: u64,
    pub private_id: u64,
    pub create_time: u64,
    pub mod_time: u64,
    pub change_time: u64,
    pub access_time: u64,
    pub internal_flags: u64,
    /// `nchildren` (directories) or `nlink` (files) — same union slot.
    pub nchildren_or_nlink: i32,
    pub bsd_flags: u32,
    pub owner: u32,
    pub group: u32,
    pub mode: u16,
    pub uncompressed_size: u64,
    pub xfields: Vec<XField>,
}

/// `i` holds the fixed inode fields stored in `val`.
pub open spec fn inode_matches(i: Inode, val: Seq<u8>) -> bool {
    &&& i.parent_id == le_at(val, 0, 8)
    &&& i.private_id == le_at(val, 8, 8)
    &&& i.create_time == le_at(val, 16, 8)
    &&& i.mod_time == le_at(val, 24, 8)
    &&& i.change_time == le_at(val, 32, 8)
    &&& i.access_time == le_at(val, 40, 8)
    &&& i.internal_flags == le_at(val, 48, 8)
    &&& i.nchildren_or_nlink == (le_at(val, 56, 4) as u32) as i32
    &&& i.bsd_flags == le_at(val, 68, 4)
    &&& i.owner == le_at(val, 72, 4)
    &&& i.group == le_at(val, 76, 4)
    &&& i.mode == le_at(val, 80, 2)
    &&& i.uncompressed_size == le_at(val, 84, 8)
}

/// A parsed inode follows the `j_inode_val_t` layout: parent id at byte 0,
/// private id at 8, then the creation, modification, status-change and
/// access times at 16, 24, 32 and 40, internal flags at 48, the child or
/// link count at 56, BSD flags at 68, owner at 72, group at 76, mode at 80
/// and the uncompressed size at 84, all little-endian.
pub proof fn inode_fields_follow_j_inode_layout(i: Inode, val: Seq<u8>)
    requires
        inode_matches(i, val),
    ensures
        i.parent_id == le_at(val, 0, 8),
        i.private_id == le_at(val, 8, 8),
        i.create_time == le_at(val, 16, 8),
        i.mod_time == le_at(val, 24, 8),
        i.change_time == le_at(val, 32, 8),
        i.access_time == le_at(val, 40, 8),
        i.internal_flags == le_at(val, 48, 8),
        i.nchildren_or_nlink == (le_at(val, 56, 4) as u32) as i32,
        i.bsd_flags == le_at(val, 68, 4),
        i.owner == le_at(val, 72, 4),
        i.group == le_at(val, 76, 4),
        i.mode == le_at(val, 80, 2),
        i.uncompressed_size == le_at(val, 84, 8),
{
}

/// An 8-byte little-endian value at `off` of `d`, when present.
pub open spec fn opt_u64_at(d: Option<Seq<u8>>, off: int) -> Option<u64> {
    match d {
        Some(s) => if off + 8 <= s.len() {
            Some(le_at(s, off, 8) as u64)
        } else {
            None
        },
        None => None,
    }
}

/// The name of the kind of object with file-type bits `kind`.
pub open spec fn inode_kind_name(kind: u16) -> Seq<char> {
    if kind == 0o040000 {
        "dir"@
    } else if kind == 0o120000 {
        "symlink"@
    } else if kind == 0o100000 {
        "file"@
    } else {
        "other"@
    }
}

/// The file-type bits of a mode (`S_IFMT`).
pub open spec fn mode_kind(mode: u16) -> u16 {
    mode & 0o170000
}

impl Inode {
    pub fn parse(val: &[u8]) -> (r: Result<Inode>)
        ensures
            match r {
                Ok(i) => {
                    &&& val@.len() >= INODE_FIXED_LEN
                    &&& inode_matches(i, val@)
                    &&& i.create_time == le_at(val@, 16, 8) && i.mod_time == le_at(val@, 24, 8)
                    &&& i.change_time == le_at(val@, 32, 8) && i.access_time == le_at(val@, 40, 8)
                    &&& xfields_of(val@.skip(92)) == i.xfields@.map_values(|f: XField| xfield_view(f))
                },
                Err(e) => e.kind == ErrorKind::Corrupt && val@.len() < INODE_FIXED_LEN,
            },
    {
        if val.len() < INODE_FIXED_LEN {
            let mut m = String::from_str("inode value too short (");
            text::push_decimal(&mut m, val.len() as u64);
            text::push_str(&mut m, " < 92)");
            return Err(corrupt(m));
        }
        let rest = vstd::slice::slice_subrange(val, INODE_FIXED_LEN, val.len());
        assert(rest@ =~= val@.skip(92));
        let xfields = if val.len() > INODE_FIXED_LEN {
            xfield::parse_xfields(rest)?
        } else {
            let v: Vec<XField> = Vec::new();
            assert(v@.map_values(|f: XField| xfield_view(f)) =~= Seq::empty());
            v
        };
        Ok(Inode {
            parent_id: raw::u64_at(val, 0)?,
            private_id: raw::u64_at(val, 8)?,
            create_time: raw::u64_at(val, 16)?,
            mod_time: raw::u64_at(val, 24)?,
            change_time: raw::u64_at(val, 32)?,
            access_time: raw::u64_at(val, 40)?,
            internal_flags: raw::u64_at(val, 48)?,
            nchildren_or_nlink: raw::i32_at(val, 56)?,
            bsd_flags: raw::u32_at(val, 68)?,
            owner: raw::u32_at(val, 72)?,
            group: raw::u32_at(val, 76)?,
            mode: raw::u16_at(val, 80)?,
            uncompressed_size: raw::u64_at(val, 84)?,
            xfields,
        })
    }

    /// Logical file size: `uncompressed_size` when the inode advertises it,
    /// else the `DSTREAM` extended field's `size`, else `None`.
    pub fn logical_size(&self) -> (r: Option<u64>)
        ensures
            r == inode_logical_size(*self),
    {
        if self.internal_flags & INODE_HAS_UNCOMPRESSED_SIZE != 0 {
            return Some(self.uncompressed_size);
        }
        match field_data(&self.xfields, xfield::INO_EXT_TYPE_DSTREAM) {
            Some(d) => match raw::u64_at(d.as_slice(), 0) {
                Ok(v) => Some(v),
                Err(_) => None,
            },
            None => None,
        }
    }

    /// Allocated (on-disk) size from the `DSTREAM` xfield, if present.
    pub fn allocated_size(&self) -> (r: Option<u64>)
        ensures
            r == opt_u64_at(first_data(self.xfields@, xfield::INO_EXT_TYPE_DSTREAM), 8),
    {
        match field_data(&self.xfields, xfield::INO_EXT_TYPE_DSTREAM) {
            Some(d) => match raw::u64_at(d.as_slice(), 8) {
                Ok(v) => Some(v),
                Err(_) => None,
            },
            None => None,
        }
    }

    /// The inode's own name, from the `NAME` extended field (NUL-terminated).
    pub fn name(&self) -> (r: Option<String>)
        ensures
            match first_data(self.xfields@, xfield::INO_EXT_TYPE_NAME) {
                Some(d) => r matches Some(s) && s@ == cstr_text(d),
                None => r is None,
            },
    {
        match field_data(&self.xfields, xfield::INO_EXT_TYPE_NAME) {
            Some(d) => Some(raw::cstr_utf8(d.as_slice())),
            None => None,
        }
    }

    /// The kind of object the inode describes, by its mode: "dir",
    /// "symlink", "file" or "other".
    pub fn kind_name(&self) -> (r: &'static str)
        ensures
            r@ == inode_kind_name(mode_kind(self.mode)),
    {
        if self.is_dir() {
            "dir"
        } else if self.is_symlink() {
            "symlink"
        } else if self.is_regular() {
            "file"
        } else {
            "other"
        }
    }

    pub fn is_dir(&self) -> (r: bool)
        ensures
            r == (mode_kind(self.mode) == 0o040000),
    {
        self.mode & 0o170000 == 0o040000
    }

    pub fn is_symlink(&self) -> (r: bool)
        ensures
            r == (mode_kind(self.mode) == 0o120000),
    {
        self.mode & 0o170000 == 0o120000
    }

    pub fn is_regular(&self) -> (r: bool)
        ensures
            r == (mode_kind(self.mode) == 0o100000),
    {
        self.mode & 0o170000 == 0o100000
    }

    pub fn is_sparse(&self) -> (r: bool)
        ensures
            r == (self.internal_flags & INODE_IS_SPARSE != 0),
    {
        self.internal_flags & INODE_IS_SPARSE != 0
    }

    pub fn has_rsrc_fork(&self) -> (r: bool)
        ensures
            r == (self.internal_flags & INODE_HAS_RSRC_FORK != 0),
    {
        self.internal_flags & INODE_HAS_RSRC_FORK != 0
    }

    pub fn has_finder_info(&self) -> (r: bool)
        ensures
            r == (self.internal_flags & INODE_HAS_FINDER_INFO != 0),
    {
        self.internal_flags & INODE_HAS_FINDER_INFO != 0
    }
}

/// A parsed directory-entry record (`j_drec_hashed_key_t` + `j_drec_val_t`).
#[derive(Debug, Clone)]
pub struct DirRec {
    pub name: String,
    /// FSOID of the entry's target inode.
    pub file_id: u64,
    pub date_added: u64,
    pub flags: u16,
    pub xfields: Vec<XField>,
}

/// Length of the stored name of a hashed directory key (includes the NUL).
pub open spec fn drec_name_len(key: Seq<u8>) -> int {
    (le_at(key, 8, 4) % 0x400) as int
}

/// The bytes of a NUL-terminated field before its first NUL.
pub open spec fn name_head(field: Seq<u8>) -> Seq<u8> {
    field.take(first_nul(field))
}

/// The name stored in a hashed directory key.
pub open spec fn drec_name(key: Seq<u8>) -> Seq<char> {
    cstr_text(key.subrange(12, 12 + drec_name_len(key)))
}

/// The stable name of each directory-entry file type.
pub open spec fn dt_text(dt: u16) -> Seq<char> {
    if dt == DT_DIR {
        "dir"@
    } else if dt == DT_REG {
        "file"@
    } else if dt == DT_LNK {
        "symlink"@
    } else if dt == DT_FIFO {
        "fifo"@
    } else if dt == DT_CHR {
        "char"@
    } else if dt == DT_BLK {
        "block"@
    } else if dt == DT_SOCK {
        "socket"@
    } else if dt == DT_WHT {
        "whiteout"@
    } else {
        "unknown"@
    }
}

impl DirRec {
    /// Parse a directory record from its key and value bytes (hashed-key form:
    /// `j_key | name_len_and_hash: u32 | name[]`).
    pub fn parse(key: &[u8], val: &[u8]) -> (r: Result<DirRec>)
        ensures
            match r {
                Ok(d) => {
                    &&& key@.len() >= 12 + drec_name_len(key@)
                    &&& val@.len() >= DREC_VAL_FIXED_LEN
                    &&& d.name@ == cstr_text(key@.subrange(12, 12 + drec_name_len(key@)))
                    &&& valid_utf8(name_head(key@.subrange(12, 12 + drec_name_len(key@)))) ==> d.name@ == decode_utf8(
                        name_head(key@.subrange(12, 12 + drec_name_len(key@))),
                    )
                    &&& d.file_id == le_at(val@, 0, 8)
                    &&& d.date_added == le_at(val@, 8, 8)
                    &&& d.flags == le_at(val@, 16, 2)
                    &&& xfields_of(val@.skip(18)) == d.xfields@.map_values(|f: XField| xfield_view(f))
                },
                Err(e) => e.kind == ErrorKind::Corrupt && (key@.len() < 12 || key@.len() < 12 + drec_name_len(key@)
                    || val@.len() < DREC_VAL_FIXED_LEN),
            },
    {
        let name_len_and_hash = raw::u32_at(key, 8)?;
        let name_len = (name_len_and_hash & J_DREC_LEN_MASK) as usize;
        assert(name_len_and_hash & 0x3ffu32 == name_len_and_hash % 0x400) by (bit_vector);
        let name_bytes = raw::slice(key, 12, name_len)?;
        // name_len includes the trailing NUL.
        let name = raw::cstr_utf8(name_bytes);

        if val.len() < DREC_VAL_FIXED_LEN {
            return Err(corrupt(String::from_str("directory record value too short")));
        }
        let rest = vstd::slice::slice_subrange(val, DREC_VAL_FIXED_LEN, val.len());
        assert(rest@ =~= val@.skip(18));
        let xfields = if val.len() > DREC_VAL_FIXED_LEN {
            xfield::parse_xfields(rest)?
        } else {
            let v: Vec<XField> = Vec::new();
            assert(v@.map_values(|f: XField| xfield_view(f)) =~= Seq::empty());
            v
        };
        Ok(DirRec {
            name,
            file_id: raw::u64_at(val, 0)?,
            date_added: raw::u64_at(val, 8)?,
            flags: raw::u16_at(val, 16)?,
            xfields,
        })
    }

    /// Stable lowercase name of the entry's file type.
    pub fn entry_type(&self) -> (n: &'static str)
        ensures
            n@ == dt_text(self.flags & DREC_TYPE_MASK),
    {
        dt_name(self.flags & DREC_TYPE_MASK)
    }
}

/// Map a directory-entry file-type nibble to a stable name.
pub fn dt_name(dt: u16) -> (n: &'static str)
    ensures
        n@ == dt_text(dt),
{
    if dt == DT_DIR {
        "dir"
    } else if dt == DT_REG {
        "file"
    } else if dt == DT_LNK {
        "symlink"
    } else if dt == DT_FIFO {
        "fifo"
    } else if dt == DT_CHR {
        "char"
    } else if dt == DT_BLK {
        "block"
    } else if dt == DT_SOCK {
        "socket"
    } else if dt == DT_WHT {
        "whiteout"
    } else {
        "unknown"
    }
}

/// A parsed file-extent record (`j_file_extent_key_t` + `j_file_extent_val_t`).
#[derive(Debug, Clone, Copy, PartialEq, Eq, Structural)]
pub struct FileExtent {
    /// Logical byte offset within the file.
    pub logical_addr: u64,
    /// Length of the extent in bytes (low 56 bits of `len_and_flags`).
    pub len: u64,
    /// First physical block of the extent (0 == sparse hole).
    pub phys_block_num: u64,
    pub crypto_id: u64,
}

impl FileExtent {
    pub fn parse(key: &[u8], val: &[u8]) -> (r: Result<FileExtent>)
        ensures
            match r {
                Ok(x) => {
                    &&& key@.len() >= 16 && val@.len() >= 24
                    &&& x.logical_addr == le_at(key@, 8, 8)
                    &&& x.len == le_at(val@, 0, 8) % 0x0100_0000_0000_0000
                    &&& x.phys_block_num == le_at(val@, 8, 8)
                    &&& x.crypto_id == le_at(val@, 16, 8)
                },
                Err(e) => e.kind == ErrorKind::Corrupt && (key@.len() < 16 || val@.len() < 24),
            },
    {
        let logical_addr = raw::u64_at(key, 8)?;
        let len_and_flags = raw::u64_at(val, 0)?;
        let len = len_and_flags & J_FILE_EXTENT_LEN_MASK;
        assert(len == len_and_flags % 0x0100_0000_0000_0000) by (bit_vector)
            requires
                len == len_and_flags & 0x00ff_ffff_ffff_ffffu64,
        ;
        Ok(FileExtent {
            logical_addr,
            len,
            phys_block_num: raw::u64_at(val, 8)?,
            crypto_id: raw::u64_at(val, 16)?,
        })
    }

    /// True if this extent is a sparse hole (no backing blocks).
    pub fn is_hole(&self) -> (r: bool)
        ensures
            r == (self.phys_block_num == 0),
    {
        self.phys_block_num == 0
    }
}

/// A parsed extended-attribute record (`j_xattr_key_t` + `j_xattr_val_t`).
#[derive(Debug, Clone)]
pub struct Xattr {
    pub name: String,
    pub flags: u16,
    /// Embedded data, or, for stream xattrs, the raw value bytes.
    pub data: Vec<u8>,
}

pub const XATTR_DATA_STREAM: u16 = 0x1;
pub const XATTR_DATA_EMBEDDED: u16 = 0x2;

/// The stored data length of an xattr value, clamped to the bytes present.
pub open spec fn xattr_data_len(val: Seq<u8>) -> int {
    let stored = le_at(val, 2, 2) as int;
    if stored < val.len() - 4 {
        stored
    } else {
        val.len() - 4
    }
}

impl Xattr {
    pub fn parse(key: &[u8], val: &[u8]) -> (r: Result<Xattr>)
        ensures
            match r {
                Ok(x) => {
                    &&& key@.len() >= 10 + le_at(key@, 8, 2) && val@.len() >= 4
                    &&& x.name@ == cstr_text(key@.subrange(10, 10 + le_at(key@, 8, 2) as int))
                    &&& x.flags == le_at(val@, 0, 2)
                    &&& x.data@ == val@.subrange(4, 4 + xattr_data_len(val@))
                },
                Err(e) => e.kind == ErrorKind::Corrupt && (key@.len() < 10 || key@.len() < 10 + le_at(key@, 8, 2)
                    || val@.len() < 4),
            },
    {
        let name_len = raw::u16_at(key, 8)? as usize;
        let name = raw::cstr_utf8(raw::slice(key, 10, name_len)?);
        let flags = raw::u16_at(val, 0)?;
        let xdata_len = raw::u16_at(val, 2)? as usize;
        let avail = val.len().saturating_sub(4);
        let take = if xdata_len < avail { xdata_len } else { avail };
        let data = vstd::slice::slice_to_vec(raw::slice(val, 4, take)?);
        Ok(Xattr { name, flags, data })
    }

    pub fn is_embedded(&self) -> (r: bool)
        ensures
            r == (self.flags & XATTR_DATA_EMBEDDED != 0),
    {
        self.flags & XATTR_DATA_EMBEDDED != 0
    }

    pub fn is_stream(&self) -> (r: bool)
        ensures
            r == (self.flags & XATTR_DATA_STREAM != 0),
    {
        self.flags & XATTR_DATA_STREAM != 0
    }
}

/// A parsed snapshot-metadata record (`j_snap_metadata_val_t`).
#[derive(Debug, Clone)]
pub struct SnapMetadata {
    pub extentref_tree_oid: u64,
    pub sblock_oid: u64,
    pub create_time: u64,
    pub change_time: u64,
    pub inum: u64,
    pub flags: u32,
    pub name: String,
}

impl SnapMetadata {
    /// `oid(8) oid(8) time(8) time(8) inum(8) type(4) flags(4) name_len(2) name[]`.
    pub fn parse(val: &[u8]) -> (r: Result<SnapMetadata>)
        ensures
            match r {
                Ok(s) => {
                    &&& val@.len() >= 50 + le_at(val@, 48, 2)
                    &&& s.name@ == cstr_text(val@.subrange(50, 50 + le_at(val@, 48, 2) as int))
                    &&& s.extentref_tree_oid == le_at(val@, 0, 8)
                    &&& s.sblock_oid == le_at(val@, 8, 8)
                    &&& s.create_time == le_at(val@, 16, 8)
                    &&& s.change_time == le_at(val@, 24, 8)
                    &&& s.inum == le_at(val@, 32, 8)
                    &&& s.flags == le_at(val@, 44, 4)
                },
                Err(e) => e.kind == ErrorKind::Corrupt && (val@.len() < 50 || val@.len() < 50 + le_at(val@, 48, 2)),
            },
    {
        let name_len = raw::u16_at(val, 48)? as usize;
        let name = raw::cstr_utf8(raw::slice(val, 50, name_len)?);
        Ok(SnapMetadata {
            extentref_tree_oid: raw::u64_at(val, 0)?,
            sblock_oid: raw::u64_at(val, 8)?,
            create_time: raw::u64_at(val, 16)?,
            change_time: raw::u64_at(val, 24)?,
            inum: raw::u64_at(val, 32)?,
            flags: raw::u32_at(val, 44)?,
            name,
        })
    }
}

/// A snapshot-name record key+value (`j_snap_name_key_t` + `j_snap_name_val_t`).
#[derive(Debug, Clone)]
pub struct SnapName {
    pub name: String,
    pub snap_xid: u64,
}

impl SnapName {
    pub fn parse(key: &[u8], val: &[u8]) -> (r: Result<SnapName>)
        ensures
            match r {
                Ok(s) => {
                    &&& key@.len() >= 10 + le_at(key@, 8, 2) && val@.len() >= 8
                    &&& s.name@ == cstr_text(key@.subrange(10, 10 + le_at(key@, 8, 2) as int))
                    &&& s.snap_xid == le_at(val@, 0, 8)
                },
                Err(e) => e.kind == ErrorKind::Corrupt && (key@.len() < 10 || key@.len() < 10 + le_at(key@, 8, 2)
                    || val@.len() < 8),
            },
    {
        let name_len = raw::u16_at(key, 8)? as usize;
        let name = raw::cstr_utf8(raw::slice(key, 10, name_len)?);
        Ok(SnapName { name, snap_xid: raw::u64_at(val, 0)? })
    }
}


/// The record type of a filesystem key (the top nibble of its first word).
pub open spec fn key_type(key: Seq<u8>) -> u8 {
    obj_type_of(le_at(key, 0, 8) as u64)
}

/// An inode value parses: the fixed fields and the extended fields are whole.
pub open spec fn inode_parses(val: Seq<u8>) -> bool {
    val.len() >= INODE_FIXED_LEN
}

/// `i` is the inode stored in `val`.
pub open spec fn inode_is(i: Inode, val: Seq<u8>) -> bool {
    &&& inode_matches(i, val)
    &&& xfields_of(val.skip(92)) == i.xfields@.map_values(|f: XField| xfield_view(f))
}

/// A directory record parses from `key` and `val`.
pub open spec fn dir_rec_parses(key: Seq<u8>, val: Seq<u8>) -> bool {
    &&& key.len() >= 12
    &&& key.len() >= 12 + drec_name_len(key)
    &&& val.len() >= DREC_VAL_FIXED_LEN
}

/// `d` is the directory record stored in `key` and `val`.
pub open spec fn dir_rec_is(d: DirRec, key: Seq<u8>, val: Seq<u8>) -> bool {
    &&& d.name@ == drec_name(key)
    &&& d.file_id == le_at(val, 0, 8)
    &&& d.date_added == le_at(val, 8, 8)
    &&& d.flags == le_at(val, 16, 2)
    &&& xfields_of(val.skip(18)) == d.xfields@.map_values(|f: XField| xfield_view(f))
}

/// A file-extent record parses from `key` and `val`.
pub open spec fn file_extent_parses(key: Seq<u8>, val: Seq<u8>) -> bool {
    key.len() >= 16 && val.len() >= 24
}

/// The file extent stored in `key` and `val`.
pub open spec fn file_extent_of(key: Seq<u8>, val: Seq<u8>) -> FileExtent {
    FileExtent {
        logical_addr: le_at(key, 8, 8) as u64,
        len: (le_at(val, 0, 8) % 0x0100_0000_0000_0000) as u64,
        phys_block_num: le_at(val, 8, 8) as u64,
        crypto_id: le_at(val, 16, 8) as u64,
    }
}

/// An extended-attribute record parses from `key` and `val`.
pub open spec fn xattr_parses(key: Seq<u8>, val: Seq<u8>) -> bool {
    key.len() >= 10 && key.len() >= 10 + le_at(key, 8, 2) && val.len() >= 4
}

/// The name of the extended attribute stored in `key`.
pub open spec fn xattr_name(key: Seq<u8>) -> Seq<char> {
    cstr_text(key.subrange(10, 10 + le_at(key, 8, 2) as int))
}

/// The flags of the extended attribute stored in `val`.
pub open spec fn xattr_flags(val: Seq<u8>) -> u16 {
    le_at(val, 0, 2) as u16
}

/// The data of the extended attribute stored in `val`.
pub open spec fn xattr_data(val: Seq<u8>) -> Seq<u8> {
    val.subrange(4, 4 + xattr_data_len(val))
}

} // verus!
