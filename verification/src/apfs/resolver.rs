//! Object resolver status types.
//!
//! The traversal lives in [`crate::apfs::btree::BtreeReader`]; this module adds
//! a richer status vocabulary so callers can tell "deleted" from "missing"
//! from "encrypted" without duplicating object-map logic.
use vstd::prelude::*;

use super::btree::{omap_lookup, BtreeReader, Lookup, MAX_NODE_DESCENT};
use super::omap::{OmapEntry, OMAP_VAL_DELETED, OMAP_VAL_ENCRYPTED};
use crate::device::BlockDevice;
use crate::error::Result;

verus! {

/// The outcome of resolving a virtual object through an object map.
#[derive(Debug, Clone, PartialEq, Eq, Structural)]
pub enum ResolveStatus {
    /// Found at the given physical block address.
    Found { paddr: u64, xid: u64 },
    /// No entry for this OID at or below the requested XID.
    NotFound,
    /// The entry is present but flagged deleted.
    Deleted,
    /// The entry is flagged encrypted (object-level).
    Encrypted,
}

/// The status an optional object-map entry classifies as: a deleted flag
/// wins over an encrypted one.
pub open spec fn status_of(entry: Option<OmapEntry>) -> ResolveStatus {
    match entry {
        None => ResolveStatus::NotFound,
        Some(e) => if e.val.flags & OMAP_VAL_DELETED != 0 {
            ResolveStatus::Deleted
        } else if e.val.flags & OMAP_VAL_ENCRYPTED != 0 {
            ResolveStatus::Encrypted
        } else {
            ResolveStatus::Found { paddr: e.val.paddr, xid: e.key.xid }
        },
    }
}

/// Classify an optional omap entry into a [`ResolveStatus`].
pub fn classify(entry: Option<OmapEntry>) -> (s: ResolveStatus)
    ensures
        s == status_of(entry),
{
    match entry {
        None => ResolveStatus::NotFound,
        Some(e) => if e.val.is_deleted() {
            ResolveStatus::Deleted
        } else if e.val.is_encrypted() {
            ResolveStatus::Encrypted
        } else {
            ResolveStatus::Found { paddr: e.val.paddr, xid: e.key.xid }
        },
    }
}

/// Resolve a virtual OID through a physical omap tree and classify the result.
pub fn resolve_virtual<D: BlockDevice + ?Sized>(bt: &mut BtreeReader<'_, D>, omap_root: u64, oid: u64, max_xid: u64) -> (r:
    Result<ResolveStatus>)
    requires
        old(bt).wf(),
    ensures
        final(bt).wf(),
        final(bt).same_source(old(bt)),
        r matches Ok(s) ==> match omap_lookup(old(bt).source(), old(bt).bsize(), omap_root, oid, max_xid) {
            Lookup::Found(e) => s == status_of(Some(e)),
            Lookup::Absent => s == ResolveStatus::NotFound,
            Lookup::Bad => false,
        },
        omap_lookup(old(bt).source(), old(bt).bsize(), omap_root, oid, max_xid) is Bad ==> r is Err,
        old(bt).reliable() && old(bt).loads_left() >= MAX_NODE_DESCENT && !(omap_lookup(
            old(bt).source(),
            old(bt).bsize(),
            omap_root,
            oid,
            max_xid,
        ) is Bad) ==> r is Ok,
{
    Ok(classify(bt.omap_get(omap_root, oid, max_xid)?))
}

} // verus!
