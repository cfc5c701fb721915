//! Extended fields (`xf_blob_t` / `x_field_t`) attached to inode and
//! directory-record values.
//!
//! Layout: a 4-byte blob header (`xf_num_exts: u16`, `xf_used_data: u16`),
//! then `xf_num_exts` 4-byte descriptors, then the field values concatenated.
//! Each value starts at the next multiple of 8 of the value cursor.
//! `xf_used_data` is deliberately not trusted.
use vstd::prelude::*;

use super::raw::{self, le_at};
use crate::error::Result;

verus! {

pub const INO_EXT_TYPE_SNAP_XID: u8 = 1;
pub const INO_EXT_TYPE_DOCUMENT_ID: u8 = 3;
pub const INO_EXT_TYPE_NAME: u8 = 4;
pub const INO_EXT_TYPE_FINDER_INFO: u8 = 7;
pub const INO_EXT_TYPE_DSTREAM: u8 = 8;
pub const INO_EXT_TYPE_RDEV: u8 = 14;
pub const INO_EXT_TYPE_SPARSE_BYTES: u8 = 13;

pub const DREC_EXT_TYPE_SIBLING_ID: u8 = 1;

/// One decoded extended field: its descriptor plus a copy of its value bytes.
#[derive(Debug, Clone)]
pub struct XField {
    pub x_type: u8,
    pub x_flags: u8,
    pub data: Vec<u8>,
}

/// A field as plain values: `(type, flags, value bytes)`.
pub open spec fn xfield_view(f: XField) -> (u8, u8, Seq<u8>) {
    (f.x_type, f.x_flags, f.data@)
}

/// `c` rounded up to the next multiple of 8.
pub open spec fn align8(c: int) -> int {
    if c % 8 == 0 {
        c
    } else {
        c + 8 - c % 8
    }
}

/// The fields decoded from descriptor `i` on, with the value cursor at `cursor`
/// (relative to the value area starting at `vstart`). Decoding stops at the
/// first value that would run past the blob.
pub open spec fn fields_from(b: Seq<u8>, num: int, vstart: int, i: int, cursor: int) -> Seq<(u8, u8, Seq<u8>)>
    decreases num - i,
{
    if i >= num || i < 0 {
        Seq::empty()
    } else {
        let d = 4 + 4 * i;
        let size = le_at(b, d + 2, 2) as int;
        let start = vstart + align8(cursor);
        let end = start + size;
        if end > b.len() {
            Seq::empty()
        } else {
            seq![(b[d], b[d + 1], b.subrange(start, end))] + fields_from(b, num, vstart, i + 1, align8(cursor) + size)
        }
    }
}

/// Number of fields a blob declares.
pub open spec fn declared_count(b: Seq<u8>) -> int {
    le_at(b, 0, 2) as int
}

/// The fields decoded from blob `b`. When the descriptor table itself runs
/// past the blob, every field's value would start past the end, so none is
/// kept.
pub open spec fn xfields_of(b: Seq<u8>) -> Seq<(u8, u8, Seq<u8>)> {
    if b.len() < 4 || 4 + 4 * declared_count(b) > b.len() {
        Seq::empty()
    } else {
        fields_from(b, declared_count(b), 4 + 4 * declared_count(b), 0, 0)
    }
}

/// Parse the extended-field blob beginning at the start of `b`.
///
/// Returns an empty list if there are no extended fields. Never fails on a
/// malformed blob: a field whose descriptor or value runs off the end stops
/// parsing rather than erroring, so a partially-damaged inode still yields
/// the fields that did parse.
pub fn parse_xfields(b: &[u8]) -> (r: Result<Vec<XField>>)
    ensures
        r matches Ok(v) && v@.map_values(|f: XField| xfield_view(f)) == xfields_of(b@),
{
    let blen = b.len();
    if blen < 4 {
        let v: Vec<XField> = Vec::new();
        assert(v@.map_values(|f: XField| xfield_view(f)) =~= Seq::empty());
        return Ok(v);
    }
    let num = raw::u16_at(b, 0)? as usize;
    let descs_start: usize = 4;
    let values_start = descs_start + num * 4;
    if values_start > blen {
        // The descriptors run past the blob, and so would every value.
        let v: Vec<XField> = Vec::new();
        assert(v@.map_values(|f: XField| xfield_view(f)) =~= Seq::empty());
        return Ok(v);
    }

    let mut out: Vec<XField> = Vec::new();
    let mut cursor: usize = 0;
    let mut i: usize = 0;
    while i < num
        invariant
            blen == b@.len(),
            descs_start == 4,
            num == declared_count(b@),
            values_start == 4 + 4 * num,
            values_start <= blen,
            i <= num,
            cursor <= blen,
            out@.map_values(|f: XField| xfield_view(f)) + fields_from(b@, num as int, values_start as int, i as int, cursor as int)
                == fields_from(b@, num as int, values_start as int, 0, 0),
        ensures
            out@.map_values(|f: XField| xfield_view(f)) == fields_from(b@, num as int, values_start as int, 0, 0),
        decreases num - i,
    {
        let d = descs_start + i * 4;
        let x_type = raw::u8_at(b, d)?;
        let x_flags = raw::u8_at(b, d + 1)?;
        let x_size = raw::u16_at(b, d + 2)? as usize;
        let ghost c0 = cursor as int;
        let rem = cursor % 8;
        let ghost rest0 = fields_from(b@, num as int, values_start as int, i as int, c0);
        let aligned = if rem != 0 {
            match cursor.checked_add(8 - rem) {
                Some(a) => a,
                None => {
                    assert(rest0 =~= Seq::empty());
                    assert(out@.map_values(|f: XField| xfield_view(f)) =~= out@.map_values(|f: XField| xfield_view(f)) + rest0);
                    break;
                },
            }
        } else {
            cursor
        };
        assert(aligned == align8(c0));
        assert(d as int == 4 + 4 * i);
        assert(x_size as int == le_at(b@, d + 2, 2) as int);
        let start = match values_start.checked_add(aligned) {
            Some(s) => s,
            None => {
                assert(rest0 =~= Seq::empty());
                assert(out@.map_values(|f: XField| xfield_view(f)) =~= out@.map_values(|f: XField| xfield_view(f)) + rest0);
                break;
            },
        };
        let end = match start.checked_add(x_size) {
            Some(e) => e,
            None => {
                assert(rest0 =~= Seq::empty());
                assert(out@.map_values(|f: XField| xfield_view(f)) =~= out@.map_values(|f: XField| xfield_view(f)) + rest0);
                break;
            },
        };
        if end > blen {
            assert(rest0 =~= Seq::empty());
            assert(out@.map_values(|f: XField| xfield_view(f)) =~= out@.map_values(|f: XField| xfield_view(f)) + rest0);
            break;
        }
        let data = vstd::slice::slice_to_vec(vstd::slice::slice_subrange(b, start, end));
        let ghost before = out@.map_values(|f: XField| xfield_view(f));
        out.push(XField { x_type, x_flags, data });
        proof {
            let rest = fields_from(b@, num as int, values_start as int, i as int, c0);
            let next = fields_from(b@, num as int, values_start as int, i + 1, aligned + x_size);
            assert(rest == seq![(b@[d as int], b@[d + 1], b@.subrange(start as int, end as int))] + next);
            assert(out@.map_values(|f: XField| xfield_view(f)) =~= before.push((x_type, x_flags, b@.subrange(start as int, end as int))));
            assert(out@.map_values(|f: XField| xfield_view(f)) + next =~= before + rest);
        }
        cursor = aligned + x_size;
        i = i + 1;
        if i >= num {
            proof {
                let rest = fields_from(b@, num as int, values_start as int, i as int, cursor as int);
                assert(rest =~= Seq::empty());
                assert(out@.map_values(|f: XField| xfield_view(f)) =~= out@.map_values(|f: XField| xfield_view(f)) + rest);
            }
        }
    }
    Ok(out)
}

/// Find the first extended field of the given type.
pub fn find(fields: &[XField], x_type: u8) -> (r: Option<&XField>)
    ensures
        match r {
            Some(f) => exists|i: int|
                0 <= i < fields@.len() && fields@[i] == *f && f.x_type == x_type
                    && forall|j: int| 0 <= j < i ==> fields@[j].x_type != x_type,
            None => forall|i: int| 0 <= i < fields@.len() ==> fields@[i].x_type != x_type,
        },
{
    let mut i: usize = 0;
    while i < fields.len()
        invariant
            i <= fields@.len(),
            forall|j: int| 0 <= j < i ==> fields@[j].x_type != x_type,
        decreases fields@.len() - i,
    {
        if fields[i].x_type == x_type {
            return Some(&fields[i]);
        }
        i = i + 1;
    }
    None
}

} // verus!
