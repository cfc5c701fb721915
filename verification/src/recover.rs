//! Folder recovery: the walk of a directory tree that decides, entry by
//! entry, what is recreated, what is recovered and what is skipped, and the
//! per-object decisions (hard links, existing files) taken while the walk is
//! written out.
//!
//! The walk is read-only and happens here; creating directories and writing
//! files is left to the caller, which follows the plan in order.
use vstd::prelude::*;
use vstd::string::StrSliceExecFns;

use std::collections::HashMap;

use crate::apfs::btree::{fs_record_loads, fs_records, read_failure, records_view, BtreeReader, Record, MAX_FS_RECORDS};
use crate::apfs::jrec::{self, drec_name, inode_is, inode_parses, mode_kind, xattr_data, Inode};
use crate::apfs::raw::{cstr_text, le_at};
use crate::apfs::vol::{dir_record_indices, first_of_type, symlink_record, Volume};
use crate::commands::{is_safe_name, join_path, joined, safe_name};
use crate::device::BlockDevice;
use crate::error::Error;
use crate::text;

verus! {

broadcast use vstd::std_specs::hash::group_hash_axioms;

/// Deepest folder nesting a recovery walks.
pub const MAX_DIR_DEPTH: u32 = 256;

/// Why an entry of a recovered folder is not recovered.
#[derive(Debug, Clone, Copy, PartialEq, Eq, Structural)]
pub enum SkipReason {
    /// The name could escape the destination directory.
    UnsafeName,
    /// The object has no inode record.
    NoInode,
    /// The directory lies deeper than [`MAX_DIR_DEPTH`].
    TooDeep,
}

impl SkipReason {
    /// The note reported for the skipped entry.
    pub fn note(self) -> (s: &'static str)
        ensures
            s@ == skip_note(self),
    {
        proof {
            reveal_strlit("unsafe entry name; skipped");
            reveal_strlit("no inode");
            reveal_strlit("max directory depth exceeded");
        }
        match self {
            SkipReason::UnsafeName => "unsafe entry name; skipped",
            SkipReason::NoInode => "no inode",
            SkipReason::TooDeep => "max directory depth exceeded",
        }
    }
}

/// The note text of each skip reason.
pub open spec fn skip_note(r: SkipReason) -> Seq<char> {
    match r {
        SkipReason::UnsafeName => "unsafe entry name; skipped"@,
        SkipReason::NoInode => "no inode"@,
        SkipReason::TooDeep => "max directory depth exceeded"@,
    }
}

/// One step of a folder recovery. `dir` is the path of the containing
/// directory relative to the recovered folder (empty for the folder itself)
/// and `name` the entry's name in it.
#[derive(Debug)]
pub enum PlanItem {
    /// Create the directory `dir/name`; the `len` items that follow are its
    /// contents.
    Dir { dir: String, name: String, fsoid: u64, len: usize },
    /// Recover the file or symlink `dir/name`, described by `inode` and
    /// `records`.
    Object { dir: String, name: String, fsoid: u64, inode: Inode, records: Vec<Record> },
    /// `dir/name` is not recovered, for `reason`.
    Skipped { dir: String, name: String, fsoid: u64, reason: SkipReason },
    /// The records of `dir/name` could not be read.
    ReadFailed { dir: String, name: String, fsoid: u64, error: Error },
    /// The listing of the directory `dir` could not be read.
    ListFailed { dir: String, fsoid: u64, error: Error },
}

/// A plan step as plain values.
pub enum PlanStep {
    Dir(Seq<char>, Seq<char>, u64, nat),
    Object(Seq<char>, Seq<char>, u64, Seq<(Seq<u8>, Seq<u8>)>),
    Skipped(Seq<char>, Seq<char>, u64, SkipReason),
    ReadFailed(Seq<char>, Seq<char>, u64),
    ListFailed(Seq<char>, u64),
}

/// The plain values of an item.
pub open spec fn step_of(i: PlanItem) -> PlanStep {
    match i {
        PlanItem::Dir { dir, name, fsoid, len } => PlanStep::Dir(dir@, name@, fsoid, len as nat),
        PlanItem::Object { dir, name, fsoid, records, .. } => PlanStep::Object(dir@, name@, fsoid, records_view(records@)),
        PlanItem::Skipped { dir, name, fsoid, reason } => PlanStep::Skipped(dir@, name@, fsoid, reason),
        PlanItem::ReadFailed { dir, name, fsoid, .. } => PlanStep::ReadFailed(dir@, name@, fsoid),
        PlanItem::ListFailed { dir, fsoid, .. } => PlanStep::ListFailed(dir@, fsoid),
    }
}

/// The plain values of a plan.
pub open spec fn plan_view(s: Seq<PlanItem>) -> Seq<PlanStep> {
    s.map_values(|i: PlanItem| step_of(i))
}

/// Every object of a plan carries the inode stored in its records.
pub open spec fn objects_carry_inodes(s: Seq<PlanItem>) -> bool {
    forall|j: int|
        0 <= j < s.len() ==> (#[trigger] s[j] matches PlanItem::Object { inode, records, .. } ==> (first_of_type(
            records_view(records@),
            jrec::APFS_TYPE_INODE,
            0,
        ) matches Some(Some(k)) && inode_is(inode, records@[k].val@)))
}

/// Every failed read a plan records carries the error of that read: a
/// failed device read or a malformed tree (see [`read_failure`]).
pub open spec fn failures_are_reads(s: Seq<PlanItem>) -> bool {
    forall|j: int|
        0 <= j < s.len() ==> match #[trigger] s[j] {
            PlanItem::ReadFailed { error, .. } => read_failure(error.kind),
            PlanItem::ListFailed { error, .. } => read_failure(error.kind),
            _ => true,
        }
}

proof fn lemma_failures_append(a: Seq<PlanItem>, b: Seq<PlanItem>)
    requires
        failures_are_reads(a),
        failures_are_reads(b),
    ensures
        failures_are_reads(a + b),
{
    assert forall|j: int| 0 <= j < (a + b).len() implies match #[trigger] (a + b)[j] {
        PlanItem::ReadFailed { error, .. } => read_failure(error.kind),
        PlanItem::ListFailed { error, .. } => read_failure(error.kind),
        _ => true,
    } by {
        if j < a.len() {
            assert((a + b)[j] == a[j]);
        } else {
            assert((a + b)[j] == b[j - a.len()]);
        }
    }
}

/// Every directory a plan creates and every object it recovers has a name
/// that stays inside its directory (see [`safe_name`]).
pub open spec fn plan_names_safe(s: Seq<PlanItem>) -> bool {
    forall|j: int|
        0 <= j < s.len() ==> match #[trigger] s[j] {
            PlanItem::Dir { name, .. } => safe_name(name@),
            PlanItem::Object { name, .. } => safe_name(name@),
            _ => true,
        }
}

proof fn lemma_names_safe_append(a: Seq<PlanItem>, b: Seq<PlanItem>)
    requires
        plan_names_safe(a),
        plan_names_safe(b),
    ensures
        plan_names_safe(a + b),
{
    assert forall|j: int| 0 <= j < (a + b).len() implies match #[trigger] (a + b)[j] {
        PlanItem::Dir { name, .. } => safe_name(name@),
        PlanItem::Object { name, .. } => safe_name(name@),
        _ => true,
    } by {
        if j < a.len() {
            assert((a + b)[j] == a[j]);
        } else {
            assert((a + b)[j] == b[j - a.len()]);
        }
    }
}

/// A plan in which no read failed.
pub open spec fn read_cleanly(s: Seq<PlanStep>) -> bool {
    forall|j: int| 0 <= j < s.len() ==> !(#[trigger] s[j] is ReadFailed) && !(s[j] is ListFailed)
}

/// The path of entry `name` of the directory at `dir`.
pub open spec fn child_dir(dir: Seq<char>, name: Seq<char>) -> Seq<char> {
    if dir.len() == 0 {
        name
    } else {
        dir + seq!['/'] + name
    }
}

/// The walk of the directory `fsoid` found at `dir`, `depth` levels below
/// the recovered folder, in the filesystem tree rooted at `root` (resolved
/// through the object map at `omap` as of `max_xid`).
pub open spec fn dir_plan(
    c: Seq<u8>,
    bs: int,
    omap: u64,
    root: u64,
    max_xid: u64,
    fsoid: u64,
    dir: Seq<char>,
    depth: int,
) -> Seq<PlanStep>
    decreases 258 - depth, 2int, 0int,
{
    if depth < 0 || depth > 257 {
        Seq::empty()
    } else {
        match fs_records(c, bs, Some(omap), root, fsoid, max_xid) {
            None => seq![PlanStep::ListFailed(dir, fsoid)],
            Some(recs) => match dir_record_indices(recs, 0) {
                None => seq![PlanStep::ListFailed(dir, fsoid)],
                Some(idx) => entries_plan(c, bs, omap, root, max_xid, recs, idx, 0, dir, depth),
            },
        }
    }
}

/// An entry whose name is not safe (see [`safe_name`]) adds exactly one
/// step to a folder's plan, a skip for its unsafe name: nothing is created
/// for it, and the skip is reported as one error result at `dir/name` (see
/// [`skipped_result`]).
pub proof fn unsafe_entry_is_skipped_once(
    c: Seq<u8>,
    bs: int,
    omap: u64,
    root: u64,
    max_xid: u64,
    recs: Seq<(Seq<u8>, Seq<u8>)>,
    idx: Seq<int>,
    k: int,
    dir: Seq<char>,
    depth: int,
)
    requires
        0 <= depth <= 257,
        0 <= k < idx.len(),
        !safe_name(drec_name(recs[idx[k]].0)),
    ensures
        entry_plan(c, bs, omap, root, max_xid, recs, idx, k, dir, depth) == seq![
            PlanStep::Skipped(dir, drec_name(recs[idx[k]].0), le_at(recs[idx[k]].1, 0, 8) as u64, SkipReason::UnsafeName),
        ],
        entries_plan(c, bs, omap, root, max_xid, recs, idx, k, dir, depth) == seq![
            PlanStep::Skipped(dir, drec_name(recs[idx[k]].0), le_at(recs[idx[k]].1, 0, 8) as u64, SkipReason::UnsafeName),
        ] + entries_plan(c, bs, omap, root, max_xid, recs, idx, k + 1, dir, depth),
        skipped_path(dir, drec_name(recs[idx[k]].0), SkipReason::UnsafeName) == dir + seq!['/'] + drec_name(
            recs[idx[k]].0,
        ),
{
}

/// The walk of the directory entries `idx[k..]` of the records `recs`.
pub open spec fn entries_plan(
    c: Seq<u8>,
    bs: int,
    omap: u64,
    root: u64,
    max_xid: u64,
    recs: Seq<(Seq<u8>, Seq<u8>)>,
    idx: Seq<int>,
    k: int,
    dir: Seq<char>,
    depth: int,
) -> Seq<PlanStep>
    decreases 258 - depth, 1int, idx.len() - k,
{
    if depth < 0 || depth > 257 || k < 0 || k >= idx.len() {
        Seq::empty()
    } else {
        entry_plan(c, bs, omap, root, max_xid, recs, idx, k, dir, depth) + entries_plan(
            c,
            bs,
            omap,
            root,
            max_xid,
            recs,
            idx,
            k + 1,
            dir,
            depth,
        )
    }
}

/// The steps for the directory entry `idx[k]` of `recs`.
pub open spec fn entry_plan(
    c: Seq<u8>,
    bs: int,
    omap: u64,
    root: u64,
    max_xid: u64,
    recs: Seq<(Seq<u8>, Seq<u8>)>,
    idx: Seq<int>,
    k: int,
    dir: Seq<char>,
    depth: int,
) -> Seq<PlanStep>
    decreases 258 - depth, 0int, 0int,
{
    if depth < 0 || depth > 257 || k < 0 || k >= idx.len() {
        Seq::empty()
    } else {
        let name = drec_name(recs[idx[k]].0);
        let fid = le_at(recs[idx[k]].1, 0, 8) as u64;
        if !safe_name(name) {
            seq![PlanStep::Skipped(dir, name, fid, SkipReason::UnsafeName)]
        } else {
            match fs_records(c, bs, Some(omap), root, fid, max_xid) {
                None => seq![PlanStep::ReadFailed(dir, name, fid)],
                Some(crecs) => match first_of_type(crecs, jrec::APFS_TYPE_INODE, 0) {
                    None => seq![PlanStep::ReadFailed(dir, name, fid)],
                    Some(None) => seq![PlanStep::Skipped(dir, name, fid, SkipReason::NoInode)],
                    Some(Some(i)) => if !inode_parses(crecs[i].1) {
                        seq![PlanStep::ReadFailed(dir, name, fid)]
                    } else if mode_kind(le_at(crecs[i].1, 80, 2) as u16) == 0o040000 {
                        if depth + 1 > MAX_DIR_DEPTH {
                            seq![PlanStep::Skipped(dir, name, fid, SkipReason::TooDeep)]
                        } else {
                            let sub = dir_plan(c, bs, omap, root, max_xid, fid, child_dir(dir, name), depth + 1);
                            seq![PlanStep::Dir(dir, name, fid, sub.len())] + sub
                        }
                    } else {
                        seq![PlanStep::Object(dir, name, fid, crecs)]
                    },
                },
            }
        }
    }
}

/// A bound on the node loads of walking directory `fsoid` (see
/// [`dir_plan`]): its listing, then each entry's records and, for a
/// subdirectory, its own walk.
pub open spec fn dir_loads(c: Seq<u8>, bs: int, omap: u64, root: u64, max_xid: u64, fsoid: u64, depth: int) -> nat
    decreases 258 - depth, 2int, 0int,
{
    if depth < 0 || depth > 257 {
        0
    } else {
        fs_record_loads(c, bs, Some(omap), root, fsoid, max_xid) + match fs_records(c, bs, Some(omap), root, fsoid, max_xid) {
            None => 0,
            Some(recs) => match dir_record_indices(recs, 0) {
                None => 0,
                Some(idx) => entries_loads(c, bs, omap, root, max_xid, recs, idx, 0, depth),
            },
        }
    }
}

/// The loads bound of [`dir_loads`] for the directory entries `idx[k..]`.
pub open spec fn entries_loads(
    c: Seq<u8>,
    bs: int,
    omap: u64,
    root: u64,
    max_xid: u64,
    recs: Seq<(Seq<u8>, Seq<u8>)>,
    idx: Seq<int>,
    k: int,
    depth: int,
) -> nat
    decreases 258 - depth, 1int, idx.len() - k,
{
    if depth < 0 || depth > 257 || k < 0 || k >= idx.len() {
        0
    } else {
        object_loads(c, bs, omap, root, max_xid, drec_name(recs[idx[k]].0), le_at(recs[idx[k]].1, 0, 8) as u64, depth)
            + entries_loads(c, bs, omap, root, max_xid, recs, idx, k + 1, depth)
    }
}

/// The loads bound of [`dir_loads`] for the entry `name` (object `fid`) of
/// a directory `depth` levels down.
pub open spec fn object_loads(
    c: Seq<u8>,
    bs: int,
    omap: u64,
    root: u64,
    max_xid: u64,
    name: Seq<char>,
    fid: u64,
    depth: int,
) -> nat
    decreases 258 - depth, 0int, 0int,
{
    if depth < 0 || depth > 257 || !safe_name(name) {
        0
    } else {
        fs_record_loads(c, bs, Some(omap), root, fid, max_xid) + match fs_records(c, bs, Some(omap), root, fid, max_xid) {
            Some(crecs) => match first_of_type(crecs, jrec::APFS_TYPE_INODE, 0) {
                Some(Some(i)) => if inode_parses(crecs[i].1) && mode_kind(le_at(crecs[i].1, 80, 2) as u16) == 0o040000
                    && depth + 1 <= MAX_DIR_DEPTH {
                    dir_loads(c, bs, omap, root, max_xid, fid, depth + 1)
                } else {
                    0
                },
                _ => 0,
            },
            None => 0,
        }
    }
}

/// Every record set read while walking directory `fsoid` (see
/// [`dir_plan`]) holds at most [`MAX_FS_RECORDS`] records.
pub open spec fn dir_fits(c: Seq<u8>, bs: int, omap: u64, root: u64, max_xid: u64, fsoid: u64, depth: int) -> bool
    decreases 258 - depth, 2int, 0int,
{
    depth < 0 || depth > 257 || match fs_records(c, bs, Some(omap), root, fsoid, max_xid) {
        None => true,
        Some(recs) => recs.len() <= MAX_FS_RECORDS && match dir_record_indices(recs, 0) {
            None => true,
            Some(idx) => entries_fit(c, bs, omap, root, max_xid, recs, idx, 0, depth),
        },
    }
}

/// [`dir_fits`] for the directory entries `idx[k..]`.
pub open spec fn entries_fit(
    c: Seq<u8>,
    bs: int,
    omap: u64,
    root: u64,
    max_xid: u64,
    recs: Seq<(Seq<u8>, Seq<u8>)>,
    idx: Seq<int>,
    k: int,
    depth: int,
) -> bool
    decreases 258 - depth, 1int, idx.len() - k,
{
    depth < 0 || depth > 257 || k < 0 || k >= idx.len() || (object_fits(
        c,
        bs,
        omap,
        root,
        max_xid,
        drec_name(recs[idx[k]].0),
        le_at(recs[idx[k]].1, 0, 8) as u64,
        depth,
    ) && entries_fit(c, bs, omap, root, max_xid, recs, idx, k + 1, depth))
}

/// [`dir_fits`] for the entry `name` (object `fid`).
pub open spec fn object_fits(
    c: Seq<u8>,
    bs: int,
    omap: u64,
    root: u64,
    max_xid: u64,
    name: Seq<char>,
    fid: u64,
    depth: int,
) -> bool
    decreases 258 - depth, 0int, 0int,
{
    depth < 0 || depth > 257 || !safe_name(name) || match fs_records(c, bs, Some(omap), root, fid, max_xid) {
        None => true,
        Some(crecs) => crecs.len() <= MAX_FS_RECORDS && match first_of_type(crecs, jrec::APFS_TYPE_INODE, 0) {
            Some(Some(i)) => !(inode_parses(crecs[i].1) && mode_kind(le_at(crecs[i].1, 80, 2) as u16) == 0o040000
                && depth + 1 <= MAX_DIR_DEPTH) || dir_fits(c, bs, omap, root, max_xid, fid, depth + 1),
            _ => true,
        },
    }
}

/// The steps for the directory entries `idx[0..k]` of `recs`.
pub open spec fn entries_prefix(
    c: Seq<u8>,
    bs: int,
    omap: u64,
    root: u64,
    max_xid: u64,
    recs: Seq<(Seq<u8>, Seq<u8>)>,
    idx: Seq<int>,
    k: int,
    dir: Seq<char>,
    depth: int,
) -> Seq<PlanStep>
    decreases k,
{
    if k <= 0 {
        Seq::empty()
    } else {
        entries_prefix(c, bs, omap, root, max_xid, recs, idx, k - 1, dir, depth) + entry_plan(
            c,
            bs,
            omap,
            root,
            max_xid,
            recs,
            idx,
            k - 1,
            dir,
            depth,
        )
    }
}

proof fn lemma_entries_prefix(
    c: Seq<u8>,
    bs: int,
    omap: u64,
    root: u64,
    max_xid: u64,
    recs: Seq<(Seq<u8>, Seq<u8>)>,
    idx: Seq<int>,
    k: int,
    dir: Seq<char>,
    depth: int,
)
    requires
        0 <= depth <= 257,
        0 <= k <= idx.len(),
    ensures
        entries_prefix(c, bs, omap, root, max_xid, recs, idx, k, dir, depth) + entries_plan(
            c,
            bs,
            omap,
            root,
            max_xid,
            recs,
            idx,
            k,
            dir,
            depth,
        ) == entries_plan(c, bs, omap, root, max_xid, recs, idx, 0, dir, depth),
    decreases k,
{
    if k > 0 {
        lemma_entries_prefix(c, bs, omap, root, max_xid, recs, idx, k - 1, dir, depth);
        let p = entries_prefix(c, bs, omap, root, max_xid, recs, idx, k - 1, dir, depth);
        let e = entry_plan(c, bs, omap, root, max_xid, recs, idx, k - 1, dir, depth);
        let rest = entries_plan(c, bs, omap, root, max_xid, recs, idx, k, dir, depth);
        assert(p + e + rest =~= p + (e + rest));
    } else {
        assert(Seq::<PlanStep>::empty() + entries_plan(c, bs, omap, root, max_xid, recs, idx, 0, dir, depth)
            =~= entries_plan(c, bs, omap, root, max_xid, recs, idx, 0, dir, depth));
    }
}

proof fn lemma_read_cleanly_split(a: Seq<PlanStep>, b: Seq<PlanStep>)
    ensures
        read_cleanly(a + b) ==> read_cleanly(a) && read_cleanly(b),
{
    if read_cleanly(a + b) {
        assert forall|j: int| 0 <= j < a.len() implies !(#[trigger] a[j] is ReadFailed) && !(a[j] is ListFailed) by {
            assert((a + b)[j] == a[j]);
        }
        assert forall|j: int| 0 <= j < b.len() implies !(#[trigger] b[j] is ReadFailed) && !(b[j] is ListFailed) by {
            assert((a + b)[a.len() + j] == b[j]);
        }
    }
}

proof fn lemma_objects_append(a: Seq<PlanItem>, b: Seq<PlanItem>)
    requires
        objects_carry_inodes(a),
        objects_carry_inodes(b),
    ensures
        objects_carry_inodes(a + b),
{
    assert forall|j: int| 0 <= j < (a + b).len() implies (#[trigger] (a + b)[j] matches PlanItem::Object {
        inode,
        records,
        ..
    } ==> (first_of_type(records_view(records@), jrec::APFS_TYPE_INODE, 0) matches Some(Some(k)) && inode_is(
        inode,
        records@[k].val@,
    ))) by {
        if j < a.len() {
            assert((a + b)[j] == a[j]);
        } else {
            assert((a + b)[j] == b[j - a.len()]);
        }
    }
}

/// The walk of directory `fsoid`, found at `dir`, `depth` levels below the
/// recovered folder.
fn plan_dir<D: BlockDevice + ?Sized>(
    vol: &Volume<'_, D>,
    bt: &mut BtreeReader<'_, D>,
    fsoid: u64,
    dir: &String,
    depth: u32,
) -> (r: Vec<PlanItem>)
    requires
        old(bt).wf(),
        depth <= MAX_DIR_DEPTH,
    ensures
        final(bt).wf(),
        final(bt).same_source(old(bt)),
        objects_carry_inodes(r@),
        failures_are_reads(r@),
        plan_names_safe(r@),
        read_cleanly(plan_view(r@)) ==> plan_view(r@) == dir_plan(
            old(bt).source(),
            old(bt).bsize(),
            vol.omap_tree_root,
            vol.root_tree_root,
            vol.max_xid,
            fsoid,
            dir@,
            depth as int,
        ),
        old(bt).loads_left() - dir_loads(
            old(bt).source(),
            old(bt).bsize(),
            vol.omap_tree_root,
            vol.root_tree_root,
            vol.max_xid,
            fsoid,
            depth as int,
        ) <= final(bt).loads_left() <= old(bt).loads_left(),
        final(bt).reliable() == old(bt).reliable(),
        old(bt).reliable() && old(bt).loads_left() >= dir_loads(
            old(bt).source(),
            old(bt).bsize(),
            vol.omap_tree_root,
            vol.root_tree_root,
            vol.max_xid,
            fsoid,
            depth as int,
        ) && dir_fits(old(bt).source(), old(bt).bsize(), vol.omap_tree_root, vol.root_tree_root, vol.max_xid, fsoid, depth as int)
            ==> plan_view(r@) == dir_plan(
            old(bt).source(),
            old(bt).bsize(),
            vol.omap_tree_root,
            vol.root_tree_root,
            vol.max_xid,
            fsoid,
            dir@,
            depth as int,
        ),
    decreases MAX_DIR_DEPTH - depth, 1int,
{
    let ghost c = bt.source();
    let ghost bs = bt.bsize();
    let ghost omap = vol.omap_tree_root;
    let ghost root = vol.root_tree_root;
    let ghost mx = vol.max_xid;
    let ghost l0 = bt.loads_left();
    let ghost hyp = bt.reliable() && l0 >= dir_loads(c, bs, omap, root, mx, fsoid, depth as int) && dir_fits(
        c,
        bs,
        omap,
        root,
        mx,
        fsoid,
        depth as int,
    );
    let mut items: Vec<PlanItem> = Vec::new();
    let entries = match vol.list_dir(bt, fsoid) {
        Ok(e) => e,
        Err(e) => {
            items.push(PlanItem::ListFailed { dir: dir.clone(), fsoid, error: e });
            proof {
                assert(!read_cleanly(plan_view(items@))) by {
                    assert(plan_view(items@)[0] is ListFailed);
                }
            }
            return items;
        },
    };
    let ghost recs = fs_records(c, bs, Some(omap), root, fsoid, mx)->0;
    let ghost idx = dir_record_indices(recs, 0)->0;
    let mut k: usize = 0;
    proof {
        assert(plan_view(items@) =~= entries_prefix(c, bs, omap, root, mx, recs, idx, 0, dir@, depth as int));
    }
    while k < entries.len()
        invariant
            bt.wf(),
            bt.source() == c,
            bt.bsize() == bs,
            omap == vol.omap_tree_root,
            root == vol.root_tree_root,
            mx == vol.max_xid,
            depth <= MAX_DIR_DEPTH,
            fs_records(c, bs, Some(omap), root, fsoid, mx) == Some(recs),
            dir_record_indices(recs, 0) == Some(idx),
            k <= entries@.len() == idx.len(),
            forall|j: int| 0 <= j < idx.len() ==> jrec::dir_rec_is(#[trigger] entries@[j], recs[idx[j]].0, recs[idx[j]].1),
            objects_carry_inodes(items@),
            failures_are_reads(items@),
            plan_names_safe(items@),
            read_cleanly(plan_view(items@)) ==> plan_view(items@) == entries_prefix(
                c,
                bs,
                omap,
                root,
                mx,
                recs,
                idx,
                k as int,
                dir@,
                depth as int,
            ),
            bt.reliable() == old(bt).reliable(),
            l0 == old(bt).loads_left(),
            bt.loads_left() <= l0,
            l0 - bt.loads_left() + entries_loads(c, bs, omap, root, mx, recs, idx, k as int, depth as int) <= dir_loads(
                c,
                bs,
                omap,
                root,
                mx,
                fsoid,
                depth as int,
            ),
            hyp == (old(bt).reliable() && l0 >= dir_loads(c, bs, omap, root, mx, fsoid, depth as int) && dir_fits(
                c,
                bs,
                omap,
                root,
                mx,
                fsoid,
                depth as int,
            )),
            hyp ==> entries_fit(c, bs, omap, root, mx, recs, idx, k as int, depth as int),
            hyp ==> plan_view(items@) == entries_prefix(c, bs, omap, root, mx, recs, idx, k as int, dir@, depth as int),
        decreases entries@.len() - k,
    {
        let chunk = plan_entry(vol, bt, &entries[k].name, entries[k].file_id, dir, depth);
        proof {
            assert(jrec::dir_rec_is(entries@[k as int], recs[idx[k as int]].0, recs[idx[k as int]].1));
        }
        let ghost before = items@;
        let mut chunk = chunk;
        let ghost ch = chunk@;
        items.append(&mut chunk);
        proof {
            lemma_objects_append(before, ch);
            lemma_failures_append(before, ch);
            lemma_names_safe_append(before, ch);
            assert(plan_view(items@) =~= plan_view(before) + plan_view(ch));
            lemma_read_cleanly_split(plan_view(before), plan_view(ch));
        }
        k = k + 1;
    }
    proof {
        lemma_entries_prefix(c, bs, omap, root, mx, recs, idx, idx.len() as int, dir@, depth as int);
        assert(entries_plan(c, bs, omap, root, mx, recs, idx, idx.len() as int, dir@, depth as int) =~= Seq::<
            PlanStep,
        >::empty());
        assert(entries_prefix(c, bs, omap, root, mx, recs, idx, idx.len() as int, dir@, depth as int) + Seq::<
            PlanStep,
        >::empty() =~= entries_prefix(c, bs, omap, root, mx, recs, idx, idx.len() as int, dir@, depth as int));
    }
    items
}

/// The steps for the entry `name` (object `fid`) of the directory at `dir`,
/// `depth` levels down.
fn plan_entry<D: BlockDevice + ?Sized>(
    vol: &Volume<'_, D>,
    bt: &mut BtreeReader<'_, D>,
    name: &String,
    fid: u64,
    dir: &String,
    depth: u32,
) -> (r: Vec<PlanItem>)
    requires
        old(bt).wf(),
        depth <= MAX_DIR_DEPTH,
    ensures
        final(bt).wf(),
        final(bt).same_source(old(bt)),
        objects_carry_inodes(r@),
        failures_are_reads(r@),
        plan_names_safe(r@),
        forall|recs: Seq<(Seq<u8>, Seq<u8>)>, idx: Seq<int>, k: int|
            0 <= k < idx.len() && drec_name(#[trigger] recs[idx[k]].0) == name@ && le_at(recs[idx[k]].1, 0, 8) == fid
                ==> (read_cleanly(plan_view(r@)) ==> plan_view(r@) == entry_plan(
                old(bt).source(),
                old(bt).bsize(),
                vol.omap_tree_root,
                vol.root_tree_root,
                vol.max_xid,
                recs,
                idx,
                k,
                dir@,
                depth as int,
            )),
        old(bt).loads_left() - object_loads(
            old(bt).source(),
            old(bt).bsize(),
            vol.omap_tree_root,
            vol.root_tree_root,
            vol.max_xid,
            name@,
            fid,
            depth as int,
        ) <= final(bt).loads_left() <= old(bt).loads_left(),
        final(bt).reliable() == old(bt).reliable(),
        old(bt).reliable() && old(bt).loads_left() >= object_loads(
            old(bt).source(),
            old(bt).bsize(),
            vol.omap_tree_root,
            vol.root_tree_root,
            vol.max_xid,
            name@,
            fid,
            depth as int,
        ) && object_fits(
            old(bt).source(),
            old(bt).bsize(),
            vol.omap_tree_root,
            vol.root_tree_root,
            vol.max_xid,
            name@,
            fid,
            depth as int,
        ) ==> forall|recs: Seq<(Seq<u8>, Seq<u8>)>, idx: Seq<int>, k: int|
            0 <= k < idx.len() && drec_name(#[trigger] recs[idx[k]].0) == name@ && le_at(recs[idx[k]].1, 0, 8) == fid
                ==> plan_view(r@) == entry_plan(
                old(bt).source(),
                old(bt).bsize(),
                vol.omap_tree_root,
                vol.root_tree_root,
                vol.max_xid,
                recs,
                idx,
                k,
                dir@,
                depth as int,
            ),
    decreases MAX_DIR_DEPTH - depth, 0int,
{
    let ghost c = bt.source();
    let ghost bs = bt.bsize();
    let mut items: Vec<PlanItem> = Vec::new();
    if !is_safe_name(name.as_str()) {
        items.push(PlanItem::Skipped { dir: dir.clone(), name: name.clone(), fsoid: fid, reason: SkipReason::UnsafeName });
        proof {
            assert(plan_view(items@) =~= seq![PlanStep::Skipped(dir@, name@, fid, SkipReason::UnsafeName)]);
        }
        return items;
    }
    let records = match vol.records(bt, fid) {
        Ok(r) => r,
        Err(e) => {
            items.push(PlanItem::ReadFailed { dir: dir.clone(), name: name.clone(), fsoid: fid, error: e });
            proof {
                assert(plan_view(items@)[0] is ReadFailed);
            }
            return items;
        },
    };
    let ghost crecs = records_view(records@);
    proof {
        lemma_first_inode_in_range(crecs);
    }
    let inode = match Volume::<D>::inode_from_records(records.as_slice()) {
        Ok(Some(i)) => i,
        Ok(None) => {
            items.push(PlanItem::Skipped { dir: dir.clone(), name: name.clone(), fsoid: fid, reason: SkipReason::NoInode });
            proof {
                assert(plan_view(items@) =~= seq![PlanStep::Skipped(dir@, name@, fid, SkipReason::NoInode)]);
            }
            return items;
        },
        Err(e) => {
            items.push(PlanItem::ReadFailed { dir: dir.clone(), name: name.clone(), fsoid: fid, error: e });
            proof {
                assert(plan_view(items@)[0] is ReadFailed);
            }
            return items;
        },
    };
    if inode.is_dir() {
        if depth + 1 > MAX_DIR_DEPTH {
            items.push(PlanItem::Skipped { dir: dir.clone(), name: name.clone(), fsoid: fid, reason: SkipReason::TooDeep });
            proof {
                assert(plan_view(items@) =~= seq![PlanStep::Skipped(dir@, name@, fid, SkipReason::TooDeep)]);
            }
            return items;
        }
        let path = child_path(dir.as_str(), name.as_str());
        let mut sub = plan_dir(vol, bt, fid, &path, depth + 1);
        let ghost sv = sub@;
        items.push(PlanItem::Dir { dir: dir.clone(), name: name.clone(), fsoid: fid, len: sub.len() });
        let ghost head = items@;
        items.append(&mut sub);
        proof {
            assert(objects_carry_inodes(head)) by {
                assert forall|j: int| 0 <= j < head.len() implies !(#[trigger] head[j] is Object) by {}
            }
            lemma_objects_append(head, sv);
            assert(failures_are_reads(head)) by {
                assert forall|j: int| 0 <= j < head.len() implies #[trigger] head[j] is Dir by {}
            }
            lemma_failures_append(head, sv);
            lemma_names_safe_append(head, sv);
            assert(plan_view(items@) =~= plan_view(head) + plan_view(sv));
            lemma_read_cleanly_split(plan_view(head), plan_view(sv));
            assert(plan_view(head) =~= seq![PlanStep::Dir(dir@, name@, fid, sv.len())]);
        }
        items
    } else {
        items.push(PlanItem::Object { dir: dir.clone(), name: name.clone(), fsoid: fid, inode, records });
        proof {
            assert(plan_view(items@) =~= seq![PlanStep::Object(dir@, name@, fid, crecs)]);
        }
        items
    }
}

proof fn lemma_first_inode_in_range(recs: Seq<(Seq<u8>, Seq<u8>)>)
    ensures
        first_of_type(recs, jrec::APFS_TYPE_INODE, 0) matches Some(Some(k)) ==> 0 <= k < recs.len(),
{
    crate::apfs::vol::lemma_first_of_type_in_range(recs, jrec::APFS_TYPE_INODE, 0);
}

/// The walk of the folder `fsoid`: the steps that recreate its contents,
/// in order. Its own directory is the caller's to create.
pub fn plan_folder<D: BlockDevice + ?Sized>(vol: &Volume<'_, D>, bt: &mut BtreeReader<'_, D>, fsoid: u64) -> (r: Vec<
    PlanItem,
>)
    requires
        old(bt).wf(),
    ensures
        final(bt).wf(),
        final(bt).same_source(old(bt)),
        objects_carry_inodes(r@),
        failures_are_reads(r@),
        plan_names_safe(r@),
        read_cleanly(plan_view(r@)) ==> plan_view(r@) == dir_plan(
            old(bt).source(),
            old(bt).bsize(),
            vol.omap_tree_root,
            vol.root_tree_root,
            vol.max_xid,
            fsoid,
            Seq::empty(),
            0,
        ),
        final(bt).reliable() == old(bt).reliable(),
        old(bt).loads_left() - dir_loads(
            old(bt).source(),
            old(bt).bsize(),
            vol.omap_tree_root,
            vol.root_tree_root,
            vol.max_xid,
            fsoid,
            0,
        ) <= final(bt).loads_left(),
        old(bt).reliable() && old(bt).loads_left() >= dir_loads(
            old(bt).source(),
            old(bt).bsize(),
            vol.omap_tree_root,
            vol.root_tree_root,
            vol.max_xid,
            fsoid,
            0,
        ) && dir_fits(old(bt).source(), old(bt).bsize(), vol.omap_tree_root, vol.root_tree_root, vol.max_xid, fsoid, 0)
            ==> plan_view(r@) == dir_plan(
            old(bt).source(),
            old(bt).bsize(),
            vol.omap_tree_root,
            vol.root_tree_root,
            vol.max_xid,
            fsoid,
            Seq::empty(),
            0,
        ),
{
    let root = String::new();
    plan_dir(vol, bt, fsoid, &root, 0)
}

/// The outcome of recovering one object.
#[derive(Debug, Clone, Copy, PartialEq, Eq, Structural)]
pub enum FileStatus {
    /// All of the object's bytes were written.
    Recovered,
    /// Fewer bytes than the logical size were written.
    Partial,
    /// Nothing was written: a dry run.
    DryRun,
    /// The destination exists and overwriting was not asked for.
    SkippedExists,
    /// The object could not be recovered.
    Error,
}

/// The report label of each status.
pub open spec fn status_text(s: FileStatus) -> Seq<char> {
    match s {
        FileStatus::Recovered => "recovered"@,
        FileStatus::Partial => "partial"@,
        FileStatus::DryRun => "dry-run"@,
        FileStatus::SkippedExists => "skipped-exists"@,
        FileStatus::Error => "error"@,
    }
}

impl FileStatus {
    /// The label reported for this status.
    pub fn label(self) -> (s: &'static str)
        ensures
            s@ == status_text(self),
    {
        proof {
            reveal_strlit("recovered");
            reveal_strlit("partial");
            reveal_strlit("dry-run");
            reveal_strlit("skipped-exists");
            reveal_strlit("error");
        }
        match self {
            FileStatus::Recovered => "recovered",
            FileStatus::Partial => "partial",
            FileStatus::DryRun => "dry-run",
            FileStatus::SkippedExists => "skipped-exists",
            FileStatus::Error => "error",
        }
    }

    /// The outcome leaves the recovery incomplete.
    pub fn is_incomplete(self) -> (r: bool)
        ensures
            r == (self == FileStatus::Partial || self == FileStatus::Error),
    {
        match self {
            FileStatus::Partial | FileStatus::Error => true,
            _ => false,
        }
    }
}

/// The status of a write of `written` bytes of an object of `size` bytes.
pub fn completion_status(written: u64, size: u64) -> (s: FileStatus)
    ensures
        s == (if written == size {
            FileStatus::Recovered
        } else {
            FileStatus::Partial
        }),
{
    if written == size {
        FileStatus::Recovered
    } else {
        FileStatus::Partial
    }
}

/// One line of a recovery report.
#[derive(Debug, Clone)]
pub struct FileResult {
    pub path: String,
    pub fsoid: u64,
    pub status: FileStatus,
    pub bytes: u64,
    pub note: Option<String>,
}

/// The path shown for entry `name` skipped for `reason` in the destination
/// directory `base`: an unsafe name follows a `/` as it is; another is joined
/// to `base`.
pub open spec fn skipped_path(base: Seq<char>, name: Seq<char>, reason: SkipReason) -> Seq<char> {
    if reason == SkipReason::UnsafeName {
        base + seq!['/'] + name
    } else {
        joined(base, name)
    }
}

/// The result reported for the entry `name` (object `fsoid`) of the
/// destination directory `base` that is skipped for `reason`: its path, an
/// error status, no bytes, and the reason's note.
pub fn skipped_result(base: &str, name: &str, fsoid: u64, reason: SkipReason) -> (r: FileResult)
    ensures
        r.path@ == skipped_path(base@, name@, reason),
        r.fsoid == fsoid,
        r.status == FileStatus::Error,
        r.bytes == 0,
        r.note matches Some(n) && n@ == skip_note(reason),
{
    let path = if reason == SkipReason::UnsafeName {
        let mut p = String::from_str(base);
        p.push('/');
        text::push_str(&mut p, name);
        p
    } else {
        join_path(base, name)
    };
    FileResult { path, fsoid, status: FileStatus::Error, bytes: 0, note: Some(String::from_str(reason.note())) }
}

/// Some result of `results` is incomplete (partial or failed).
pub fn any_incomplete(results: &[FileResult]) -> (r: bool)
    ensures
        r == exists|j: int| 0 <= j < results@.len() && (#[trigger] results@[j]).status.is_incomplete_spec(),
{
    let mut i: usize = 0;
    while i < results.len()
        invariant
            i <= results@.len(),
            forall|j: int| 0 <= j < i ==> !(#[trigger] results@[j]).status.is_incomplete_spec(),
        decreases results@.len() - i,
    {
        if results[i].status.is_incomplete() {
            return true;
        }
        i = i + 1;
    }
    false
}

impl FileStatus {
    pub open spec fn is_incomplete_spec(self) -> bool {
        self == FileStatus::Partial || self == FileStatus::Error
    }
}

/// The first path recovered for each multiply-linked inode, so later links
/// to it are recreated as hard links. Each inode has at most one path.
pub struct LinkMap {
    paths: HashMap<u64, String>,
}

impl View for LinkMap {
    type V = Map<u64, Seq<char>>;

    closed spec fn view(&self) -> Map<u64, Seq<char>> {
        self.paths@.map_values(|p: String| p@)
    }
}

impl LinkMap {
    pub fn new() -> (m: LinkMap)
        ensures
            m@ == Map::<u64, Seq<char>>::empty(),
    {
        let m = LinkMap { paths: HashMap::new() };
        assert(m@ =~= Map::<u64, Seq<char>>::empty());
        m
    }

    /// The first path recovered for inode `fsoid`, if any.
    pub fn get(&self, fsoid: u64) -> (r: Option<String>)
        ensures
            match r {
                Some(p) => self@.contains_key(fsoid) && p@ == self@[fsoid],
                None => !self@.contains_key(fsoid),
            },
    {
        match self.paths.get(&fsoid) {
            Some(p) => Some(p.clone()),
            None => None,
        }
    }

    /// Remember `path` for inode `fsoid` unless a path is already known.
    pub fn remember(&mut self, fsoid: u64, path: String)
        ensures
            final(self)@ == (if old(self)@.contains_key(fsoid) {
                old(self)@
            } else {
                old(self)@.insert(fsoid, path@)
            }),
    {
        if !self.paths.contains_key(&fsoid) {
            let ghost before = self.paths@;
            let ghost p = path@;
            self.paths.insert(fsoid, path);
            assert(self.paths@.map_values(|q: String| q@) =~= before.map_values(|q: String| q@).insert(fsoid, p));
        }
    }
}

/// What to do with an object of a recovered folder.
#[derive(Debug)]
pub enum ObjectAction {
    /// Link it to the path already recovered for the same inode.
    HardLink(String),
    /// Leave the existing destination alone.
    SkipExisting,
    /// Recover its data.
    Recover,
}

/// Decide how to recover object `fsoid` (described by `inode`) whose
/// destination `exists` or not: a further link to an inode already recovered
/// becomes a hard link; an existing destination is kept unless overwriting
/// (or only rehearsing); anything else is recovered.
pub fn object_action(links: &LinkMap, inode: &Inode, fsoid: u64, dry_run: bool, overwrite: bool, exists: bool) -> (a:
    ObjectAction)
    ensures
        inode.nchildren_or_nlink > 1 && links@.contains_key(fsoid) ==> (a matches ObjectAction::HardLink(p) && p@
            == links@[fsoid]),
        !(inode.nchildren_or_nlink > 1 && links@.contains_key(fsoid)) ==> (a is SkipExisting <==> (!overwrite
            && !dry_run && exists)),
        !(inode.nchildren_or_nlink > 1 && links@.contains_key(fsoid)) && !(!overwrite && !dry_run && exists) ==> a is Recover,
{
    if inode.nchildren_or_nlink > 1 {
        match links.get(fsoid) {
            Some(first) => {
                return ObjectAction::HardLink(first);
            },
            None => {},
        }
    }
    if !overwrite && !dry_run && exists {
        ObjectAction::SkipExisting
    } else {
        ObjectAction::Recover
    }
}

/// After object `fsoid` was recovered to `path`: remember the path of a
/// multiply-linked inode (unless rehearsing), so its other links become hard
/// links.
pub fn note_recovered(links: &mut LinkMap, inode: &Inode, fsoid: u64, dry_run: bool, path: String)
    ensures
        final(links)@ == (if inode.nchildren_or_nlink > 1 && !dry_run && !old(links)@.contains_key(fsoid) {
            old(links)@.insert(fsoid, path@)
        } else {
            old(links)@
        }),
{
    if inode.nchildren_or_nlink > 1 && !dry_run {
        links.remember(fsoid, path);
    }
}

/// How one file or symlink is recovered.
#[derive(Debug)]
pub enum SingleFilePlan {
    /// Recreate a symlink to `target`.
    Symlink { target: String },
    /// Write `size` bytes of data from the object's extents.
    Data { size: u64 },
}

/// Decide how to recover the object `inode` with `records`: a symlink's
/// stored target is read first (a malformed one is an error), and a symlink
/// with a target recovered to a named destination is recreated as a link;
/// anything else is written as `size` bytes of data (the logical size, or 0
/// when none is recorded).
pub fn single_file_plan<D: BlockDevice + ?Sized>(
    vol: &Volume<'_, D>,
    inode: &Inode,
    records: &[Record],
    to_named_destination: bool,
) -> (r: crate::error::Result<SingleFilePlan>)
    ensures
        mode_kind(inode.mode) != 0o120000 ==> (r matches Ok(SingleFilePlan::Data { size }) && size
            == jrec::inode_logical_size(*inode).unwrap_or(0)),
        mode_kind(inode.mode) == 0o120000 ==> match symlink_record(records_view(records@), 0) {
            None => r is Err,
            Some(None) => r matches Ok(SingleFilePlan::Data { size }) && size == jrec::inode_logical_size(
                *inode,
            ).unwrap_or(0),
            Some(Some(k)) => if to_named_destination {
                r matches Ok(SingleFilePlan::Symlink { target }) && target@ == cstr_text(xattr_data(records@[k].val@))
            } else {
                r matches Ok(SingleFilePlan::Data { size }) && size == jrec::inode_logical_size(*inode).unwrap_or(0)
            },
        },
{
    if inode.is_symlink() {
        match Volume::<'_, D>::symlink_target(records)? {
            Some(target) => {
                if to_named_destination {
                    return Ok(SingleFilePlan::Symlink { target });
                }
            },
            None => {},
        }
    }
    let size = match inode.logical_size() {
        Some(s) => s,
        None => 0,
    };
    Ok(SingleFilePlan::Data { size })
}

/// Refuse to replace an existing destination unless overwriting.
pub fn guard_overwrite(path: &str, exists: bool, overwrite: bool) -> (r: crate::error::Result<()>)
    ensures
        r is Ok <==> !(exists && !overwrite),
        r matches Err(e) ==> e.kind == crate::error::ErrorKind::Usage,
{
    if exists && !overwrite {
        let mut msg = String::new();
        text::push_str(&mut msg, "`");
        text::push_str(&mut msg, path);
        text::push_str(&mut msg, "` already exists; pass --overwrite to replace it");
        return Err(Error::new(crate::error::ErrorKind::Usage, msg));
    }
    Ok(())
}

/// Plaintext recovery from an encrypted volume is refused unless a raw dump
/// of the file's extents is asked for.
pub fn check_plaintext_allowed(encrypted: bool, raw_extents: bool) -> (r: crate::error::Result<()>)
    ensures
        match r {
            Ok(_) => !encrypted || raw_extents,
            Err(e) => encrypted && !raw_extents && e.kind == crate::error::ErrorKind::EncryptedUnsupported,
        },
{
    if encrypted && !raw_extents {
        return Err(
            Error::new(
                crate::error::ErrorKind::EncryptedUnsupported,
                String::from_str(
                    "volume is encrypted; refusing plaintext recovery (use --raw-extents for a forensic dump)",
                ),
            ),
        );
    }
    Ok(())
}

/// Where `recover` finds the object to recover.
#[derive(Debug, Clone, Copy, PartialEq, Eq, Structural)]
pub enum RecoverTarget {
    /// Resolve the `--path` given (it wins over `--fsoid`).
    ByPath,
    /// The object with this FSOID.
    ByFsoid(u64),
}

/// Choose the object to recover: a path when one is given, else an FSOID;
/// with neither the command is misused.
pub fn recover_target(has_path: bool, fsoid: Option<u64>) -> (r: crate::error::Result<RecoverTarget>)
    ensures
        has_path ==> r == Ok::<RecoverTarget, Error>(RecoverTarget::ByPath),
        (!has_path && fsoid is Some) ==> r == Ok::<RecoverTarget, Error>(RecoverTarget::ByFsoid(fsoid->0)),
        (!has_path && fsoid is None) ==> (r matches Err(e) && e.kind == crate::error::ErrorKind::Usage && e.message@
            == "`recover` needs `--path <p>` or `--fsoid <id>`"@),
{
    if has_path {
        return Ok(RecoverTarget::ByPath);
    }
    match fsoid {
        Some(id) => Ok(RecoverTarget::ByFsoid(id)),
        None => Err(crate::error::err(crate::error::ErrorKind::Usage, "`recover` needs `--path <p>` or `--fsoid <id>`")),
    }
}

/// The output directory of a folder recovery, which is required.
pub fn folder_output(output: &Option<String>) -> (r: crate::error::Result<&String>)
    ensures
        output matches Some(o) ==> (r matches Ok(d) && d == o),
        output is None ==> (r matches Err(e) && e.kind == crate::error::ErrorKind::Usage && e.message@
            == "folder recovery requires `--output <dir>`"@),
{
    match output {
        Some(o) => Ok(o),
        None => Err(crate::error::err(crate::error::ErrorKind::Usage, "folder recovery requires `--output <dir>`")),
    }
}

/// The path of entry `name` in the directory at `dir`.
pub fn child_path(dir: &str, name: &str) -> (s: String)
    ensures
        s@ == child_dir(dir@, name@),
{
    if dir.unicode_len() == 0 {
        String::from_str(name)
    } else {
        let mut s = String::from_str(dir);
        s.push('/');
        text::push_str(&mut s, name);
        s
    }
}

} // verus!
