//! Snapshot support.
//!
//! Snapshots are listed from the volume's snapshot-metadata tree
//! (`apfs_snap_meta_tree_oid`). Each `SNAP_METADATA` record's key carries the
//! snapshot XID and its value names the snapshot and points at the volume
//! superblock captured for that snapshot. Opening a snapshot reads that
//! captured superblock and browses it with the object map resolved at the
//! snapshot's XID, so the live-volume view and the snapshot view stay apart.
use vstd::prelude::*;

use super::btree::{
    accepts_all, fs_walk_loads, fs_walk_stream, lookup_cost, obj_id_of, omap_lookup, read_failure, BtreeReader, Lookup, RecordVisitor,
    MAX_NODE_DESCENT,
};
use super::feature;
use super::jrec::{self, key_type, SnapMetadata};
use super::obj::{OBJ_PHYSICAL, OBJ_STORAGETYPE_MASK};
use super::raw::{cstr_text, le_at};
use super::vol::Volume;
use super::volume::{apsb_matches, ApfsSuperblock, APFS_MAGIC, APSB_PARSE_LEN};
use crate::device::{block_bytes, BlockDevice};
use crate::error::{not_found_obj, Error, ErrorKind, Result};
use crate::text;

verus! {

/// A snapshot of a volume.
#[derive(Debug, Clone)]
pub struct SnapshotInfo {
    pub xid: u64,
    pub name: String,
    pub sblock_oid: u64,
    pub extentref_tree_oid: u64,
    pub create_time: u64,
    pub change_time: u64,
}

/// The name stored in a snapshot-metadata value.
pub open spec fn snapshot_name(val: Seq<u8>) -> Seq<char> {
    cstr_text(val.subrange(50, 50 + le_at(val, 48, 2) as int))
}

/// `s` describes the snapshot-metadata record for xid `xid` with value `val`.
pub open spec fn snapshot_is(s: SnapshotInfo, xid: u64, val: Seq<u8>) -> bool {
    &&& s.xid == xid
    &&& s.name@ == snapshot_name(val)
    &&& s.extentref_tree_oid == le_at(val, 0, 8)
    &&& s.sblock_oid == le_at(val, 8, 8)
    &&& s.create_time == le_at(val, 16, 8)
    &&& s.change_time == le_at(val, 24, 8)
}

/// Each snapshot of `v` describes the matching entry of `e`.
pub open spec fn infos_match(v: Seq<SnapshotInfo>, e: Seq<(u64, Seq<u8>)>) -> bool {
    &&& v.len() == e.len()
    &&& forall|k: int| 0 <= k < v.len() ==> snapshot_is(#[trigger] v[k], e[k].0, e[k].1)
}

/// The snapshot-metadata records among the walked records `recs`, as (xid,
/// value); `None` when a key is shorter than 8 bytes or a metadata value does
/// not hold its name.
pub open spec fn snapshot_entries(recs: Seq<(Seq<u8>, Seq<u8>)>) -> Option<Seq<(u64, Seq<u8>)>>
    decreases recs.len(),
{
    if recs.len() == 0 {
        Some(Seq::empty())
    } else {
        match snapshot_entries(recs.drop_last()) {
            None => None,
            Some(prev) => {
                let k = recs.last().0;
                let v = recs.last().1;
                if k.len() < 8 {
                    None
                } else if key_type(k) == jrec::APFS_TYPE_SNAP_METADATA {
                    if v.len() >= 50 + le_at(v, 48, 2) {
                        Some(prev.push((obj_id_of(le_at(k, 0, 8) as u64), v)))
                    } else {
                        None
                    }
                } else {
                    Some(prev)
                }
            },
        }
    }
}

/// The stable insertion of `e` into `s` by xid.
pub open spec fn insert_by_xid(s: Seq<(u64, Seq<u8>)>, e: (u64, Seq<u8>)) -> Seq<(u64, Seq<u8>)>
    decreases s.len(),
{
    if s.len() == 0 {
        seq![e]
    } else if s.last().0 > e.0 {
        insert_by_xid(s.drop_last(), e).push(s.last())
    } else {
        s.push(e)
    }
}

/// `s` stably sorted by xid.
pub open spec fn sort_by_xid(s: Seq<(u64, Seq<u8>)>) -> Seq<(u64, Seq<u8>)>
    decreases s.len(),
{
    if s.len() == 0 {
        s
    } else {
        insert_by_xid(sort_by_xid(s.drop_last()), s.last())
    }
}

/// Record `rec` of a snapshot-metadata tree can be read: its key holds an
/// object id and type, and a metadata value holds its name.
pub open spec fn snapshot_record_ok(rec: (Seq<u8>, Seq<u8>)) -> bool {
    &&& rec.0.len() >= 8
    &&& key_type(rec.0) == jrec::APFS_TYPE_SNAP_METADATA ==> rec.1.len() >= 50 + le_at(rec.1, 48, 2)
}

/// The snapshot entries of `recs` can be read exactly when each record can.
proof fn lemma_snapshot_entries_ok(recs: Seq<(Seq<u8>, Seq<u8>)>)
    ensures
        snapshot_entries(recs) is Some <==> forall|j: int| 0 <= j < recs.len() ==> snapshot_record_ok(#[trigger] recs[j]),
    decreases recs.len(),
{
    if recs.len() > 0 {
        let r1 = recs.drop_last();
        lemma_snapshot_entries_ok(r1);
        if forall|j: int| 0 <= j < recs.len() ==> snapshot_record_ok(#[trigger] recs[j]) {
            assert forall|j: int| 0 <= j < r1.len() implies snapshot_record_ok(#[trigger] r1[j]) by {
                assert(r1[j] == recs[j]);
            }
            assert(snapshot_record_ok(recs[recs.len() - 1]));
        }
        if snapshot_entries(recs) is Some {
            assert forall|j: int| 0 <= j < recs.len() implies snapshot_record_ok(#[trigger] recs[j]) by {
                if j < recs.len() - 1 {
                    assert(r1[j] == recs[j]);
                }
            }
        }
    }
}

/// `s` is in ascending xid order.
pub open spec fn xid_ascending(s: Seq<(u64, Seq<u8>)>) -> bool {
    forall|i: int, j: int| 0 <= i < j < s.len() ==> s[i].0 <= s[j].0
}

proof fn lemma_insert_by_xid(t: Seq<(u64, Seq<u8>)>, e: (u64, Seq<u8>), bound: u64)
    requires
        xid_ascending(t),
        forall|m: int| 0 <= m < t.len() ==> (#[trigger] t[m]).0 <= bound,
        e.0 <= bound,
    ensures
        insert_by_xid(t, e).len() == t.len() + 1,
        xid_ascending(insert_by_xid(t, e)),
        insert_by_xid(t, e).to_multiset() == t.to_multiset().insert(e),
        forall|k: int| 0 <= k < t.len() + 1 ==> (#[trigger] insert_by_xid(t, e)[k]).0 <= bound,
    decreases t.len(),
{
    broadcast use vstd::seq_lib::group_to_multiset_ensures;

    if t.len() == 0 {
        assert(insert_by_xid(t, e) =~= t.push(e));
    } else if t.last().0 > e.0 {
        let t1 = t.drop_last();
        let last = t.last();
        assert forall|m: int| 0 <= m < t1.len() implies (#[trigger] t1[m]).0 <= last.0 by {
            assert(t[m] == t1[m]);
        }
        lemma_insert_by_xid(t1, e, last.0);
        assert(t1.push(last) =~= t);
    } else {
        assert forall|i: int, j: int| 0 <= i < j < t.len() + 1 implies t.push(e)[i].0 <= t.push(e)[j].0 by {
            if j == t.len() {
                if i < t.len() - 1 {
                    assert(t[i].0 <= t[t.len() - 1].0);
                }
            }
        }
    }
}

/// Listing snapshots puts them oldest first: sorting entries by xid gives
/// ascending xids and keeps every entry, as often as it occurs.
pub proof fn snapshots_sorted_oldest_first(s: Seq<(u64, Seq<u8>)>)
    ensures
        xid_ascending(sort_by_xid(s)),
        sort_by_xid(s).to_multiset() == s.to_multiset(),
    decreases s.len(),
{
    broadcast use vstd::seq_lib::group_to_multiset_ensures;

    if s.len() > 0 {
        let s1 = s.drop_last();
        snapshots_sorted_oldest_first(s1);
        lemma_insert_by_xid(sort_by_xid(s1), s.last(), 0xffff_ffff_ffff_ffffu64);
        assert(s1.push(s.last()) =~= s);
    }
}

/// The snapshot entries of a volume whose snapshot-metadata tree is
/// `tree_oid` of type `tree_type`, in the tree's record order: one per
/// snapshot-metadata record; `None` when the tree cannot be walked or a
/// record is malformed. A virtual tree the object map does not know holds no
/// snapshots.
pub open spec fn snapshot_records_of(c: Seq<u8>, bs: int, tree_oid: u64, tree_type: u32, omap_root: u64, max_xid: u64) -> Option<
    Seq<(u64, Seq<u8>)>,
> {
    if tree_oid == 0 {
        Some(Seq::empty())
    } else {
        let w = if tree_type & OBJ_STORAGETYPE_MASK == OBJ_PHYSICAL {
            Some(fs_walk_stream(c, bs, None, tree_oid, max_xid))
        } else {
            match omap_lookup(c, bs, omap_root, tree_oid, max_xid) {
                Lookup::Bad => None,
                Lookup::Absent => Some((Seq::empty(), true)),
                Lookup::Found(e) => Some(fs_walk_stream(c, bs, Some(omap_root), e.val.paddr, max_xid)),
            }
        };
        match w {
            None => None,
            Some(w) => if !w.1 {
                None
            } else {
                snapshot_entries(w.0)
            },
        }
    }
}

/// The snapshots of a volume whose snapshot-metadata tree is `tree_oid` of
/// type `tree_type`, oldest xid first (see [`snapshot_records_of`]).
pub open spec fn snapshot_list(c: Seq<u8>, bs: int, tree_oid: u64, tree_type: u32, omap_root: u64, max_xid: u64) -> Option<
    Seq<(u64, Seq<u8>)>,
> {
    match snapshot_records_of(c, bs, tree_oid, tree_type, omap_root, max_xid) {
        None => None,
        Some(e) => Some(sort_by_xid(e)),
    }
}

/// A volume's snapshot listing is in ascending xid order and holds exactly
/// one entry per snapshot-metadata record of its tree.
pub proof fn snapshot_listing_sorted_and_complete(c: Seq<u8>, bs: int, tree_oid: u64, tree_type: u32, omap_root: u64, max_xid: u64)
    ensures
        snapshot_list(c, bs, tree_oid, tree_type, omap_root, max_xid) matches Some(l) ==> {
            &&& snapshot_records_of(c, bs, tree_oid, tree_type, omap_root, max_xid) matches Some(e) && l.to_multiset()
                == e.to_multiset()
            &&& xid_ascending(l)
        },
        tree_oid == 0 ==> snapshot_list(c, bs, tree_oid, tree_type, omap_root, max_xid) == Some(Seq::<(u64, Seq<u8>)>::empty()),
{
    if let Some(e) = snapshot_records_of(c, bs, tree_oid, tree_type, omap_root, max_xid) {
        snapshots_sorted_oldest_first(e);
    }
}

/// Collects the snapshots of the records handed to it.
struct SnapshotCollector {
    snaps: Vec<SnapshotInfo>,
    seen: Ghost<Seq<(Seq<u8>, Seq<u8>)>>,
    fail: Ghost<Option<Error>>,
}

impl RecordVisitor for SnapshotCollector {
    closed spec fn visited(&self) -> Seq<(Seq<u8>, Seq<u8>)> {
        self.seen@
    }

    closed spec fn halted(&self) -> bool {
        false
    }

    closed spec fn failed(&self) -> Option<Error> {
        self.fail@
    }

    closed spec fn inv(&self) -> bool {
        snapshot_entries(self.seen@) matches Some(e) && infos_match(self.snaps@, e)
    }

    closed spec fn accepts(&self, rec: (Seq<u8>, Seq<u8>)) -> bool {
        snapshot_record_ok(rec)
    }

    fn visit(&mut self, key: &[u8], val: &[u8]) -> (r: Result<bool>) {
        let ghost before = self.seen@;
        self.seen = Ghost(self.seen@.push((key@, val@)));
        proof {
            assert(self.seen@.drop_last() =~= before);
        }
        let (obj_id, ty) = match jrec::key_obj_id_and_type(key) {
            Ok(p) => p,
            Err(e) => {
                self.fail = Ghost(Some(e));
                return Err(e);
            },
        };
        if ty == jrec::APFS_TYPE_SNAP_METADATA {
            let meta = match SnapMetadata::parse(val) {
                Ok(m) => m,
                Err(e) => {
                    self.fail = Ghost(Some(e));
                    return Err(e);
                },
            };
            let ghost prev = self.snaps@;
            self.snaps.push(
                SnapshotInfo {
                    xid: obj_id,
                    name: meta.name,
                    sblock_oid: meta.sblock_oid,
                    extentref_tree_oid: meta.extentref_tree_oid,
                    create_time: meta.create_time,
                    change_time: meta.change_time,
                },
            );
            proof {
                let e = snapshot_entries(before)->0;
                let ne = e.push((obj_id, val@));
                assert forall|k: int| 0 <= k < self.snaps@.len() implies snapshot_is(
                    #[trigger] self.snaps@[k],
                    ne[k].0,
                    ne[k].1,
                ) by {
                    if k < prev.len() {
                        assert(self.snaps@[k] == prev[k]);
                    }
                }
            }
        }
        Ok(true)
    }
}


proof fn lemma_insert_xid_after_greater(a: Seq<(u64, Seq<u8>)>, b: Seq<(u64, Seq<u8>)>, e: (u64, Seq<u8>))
    requires
        forall|m: int| 0 <= m < b.len() ==> (#[trigger] b[m]).0 > e.0,
    ensures
        insert_by_xid(a + b, e) == insert_by_xid(a, e) + b,
    decreases b.len(),
{
    if b.len() == 0 {
        assert(a + b =~= a);
        assert(insert_by_xid(a, e) + b =~= insert_by_xid(a, e));
    } else {
        let b1 = b.drop_last();
        assert((a + b).drop_last() =~= a + b1);
        assert((a + b).last() == b.last());
        lemma_insert_xid_after_greater(a, b1, e);
        assert(insert_by_xid(a, e) + b =~= (insert_by_xid(a, e) + b1).push(b.last()));
    }
}

/// Stably sort `v`, which describes `e`, by xid.
fn sort_snapshots(v: &mut Vec<SnapshotInfo>, Ghost(e): Ghost<Seq<(u64, Seq<u8>)>>)
    requires
        infos_match(old(v)@, e),
    ensures
        infos_match(final(v)@, sort_by_xid(e)),
{
    let n = v.len();
    let ghost mut ge = e;
    let mut i: usize = 0;
    proof {
        assert(ge.subrange(0, 0) =~= sort_by_xid(e.subrange(0, 0)));
        assert(ge.subrange(0, n as int) =~= e.subrange(0, n as int));
    }
    while i < n
        invariant
            v@.len() == n == e.len() == ge.len(),
            i <= n,
            infos_match(v@, ge),
            ge.subrange(0, i as int) == sort_by_xid(e.subrange(0, i as int)),
            ge.subrange(i as int, n as int) == e.subrange(i as int, n as int),
        decreases n - i,
    {
        let ghost sorted = ge.subrange(0, i as int);
        let ghost gi = ge[i as int];
        let ghost rest = ge.subrange(i + 1, n as int);
        assert(snapshot_is(v@[i as int], ge[i as int].0, ge[i as int].1));
        let item = v.remove(i);
        proof {
            let g0 = ge;
            ge = ge.remove(i as int);
            assert forall|k: int| 0 <= k < v@.len() implies snapshot_is(#[trigger] v@[k], ge[k].0, ge[k].1) by {}
            assert(ge.subrange(0, i as int) =~= sorted);
            assert(gi == e[i as int]) by {
                assert(g0.subrange(i as int, n as int)[0] == e.subrange(i as int, n as int)[0]);
            }
            assert(ge.subrange(i as int, n - 1) =~= rest);
        }
        let mut j: usize = i;
        while j > 0 && v[j - 1].xid > item.xid
            invariant
                v@.len() == n - 1 == ge.len(),
                j <= i < n,
                infos_match(v@, ge),
                ge.subrange(0, i as int) == sorted,
                sorted.len() == i,
                item.xid == gi.0,
                forall|m: int| j <= m < i ==> (#[trigger] sorted[m]).0 > gi.0,
            decreases j,
        {
            assert(snapshot_is(v@[j - 1], ge[j - 1].0, ge[j - 1].1));
            assert(ge[j - 1] == sorted[j - 1]) by {
                assert(ge.subrange(0, i as int)[j - 1] == ge[j - 1]);
            }
            j = j - 1;
        }
        let ghost before = v@;
        v.insert(j, item);
        proof {
            let g1 = ge;
            ge = ge.insert(j as int, gi);
            assert forall|k: int| 0 <= k < v@.len() implies snapshot_is(#[trigger] v@[k], ge[k].0, ge[k].1) by {
                if k < j {
                    assert(v@[k] == before[k]);
                    assert(ge[k] == g1[k]);
                } else if k > j {
                    assert(v@[k] == before[k - 1]);
                    assert(ge[k] == g1[k - 1]);
                }
            }
            let a = sorted.subrange(0, j as int);
            let b = sorted.subrange(j as int, i as int);
            assert(sorted =~= a + b);
            lemma_insert_xid_after_greater(a, b, gi);
            if j > 0 {
                assert(a.last() == g1[j - 1]);
                assert(snapshot_is(before[j - 1], g1[j - 1].0, g1[j - 1].1));
            }
            assert(insert_by_xid(a, gi) == a.push(gi));
            assert(e.subrange(0, i + 1).drop_last() =~= e.subrange(0, i as int));
            assert(e.subrange(0, i + 1).last() == gi);
            assert(ge.subrange(0, i + 1) =~= a.push(gi) + b);
            assert(ge.subrange(i + 1, n as int) =~= rest);
            assert(rest =~= e.subrange(i + 1, n as int)) by {
                assert(e.subrange(i + 1, n as int) =~= e.subrange(i as int, n as int).subrange(1, n - i));
            }
        }
        i = i + 1;
    }
    proof {
        assert(ge =~= ge.subrange(0, n as int));
        assert(e =~= e.subrange(0, n as int));
    }
}


/// The index of the first entry of `l` from `i` on whose name is `name`.
pub open spec fn first_named(l: Seq<(u64, Seq<u8>)>, name: Seq<char>, i: int) -> Option<int>
    decreases l.len() - i,
{
    if i >= l.len() {
        None
    } else if snapshot_name(l[i].1) == name {
        Some(i)
    } else {
        first_named(l, name, i + 1)
    }
}

/// The index of the first entry of `l` from `i` on whose xid is `xid`.
pub open spec fn first_with_xid(l: Seq<(u64, Seq<u8>)>, xid: u64, i: int) -> Option<int>
    decreases l.len() - i,
{
    if i >= l.len() {
        None
    } else if l[i].0 == xid {
        Some(i)
    } else {
        first_with_xid(l, xid, i + 1)
    }
}

/// The snapshots of volume `vol` read through `bt`.
pub open spec fn volume_snapshots<D: BlockDevice + ?Sized>(c: Seq<u8>, bs: int, vol: &Volume<'_, D>) -> Option<Seq<(u64, Seq<u8>)>> {
    snapshot_list(c, bs, vol.apsb.snap_meta_tree_oid, vol.apsb.snap_meta_tree_type, vol.omap_tree_root, vol.max_xid)
}

/// A bound on the node blocks that listing the snapshots of the tree
/// `tree_oid` (of storage type `tree_type`) loads: the object-map lookup of
/// a virtual tree, then its walk.
pub open spec fn snapshot_list_loads(c: Seq<u8>, bs: int, tree_oid: u64, tree_type: u32, omap_root: u64, max_xid: u64) -> nat {
    if tree_oid == 0 {
        0
    } else if tree_type & OBJ_STORAGETYPE_MASK == OBJ_PHYSICAL {
        fs_walk_loads(c, bs, None, tree_oid, max_xid)
    } else {
        lookup_cost(Some(omap_root)) + match omap_lookup(c, bs, omap_root, tree_oid, max_xid) {
            Lookup::Found(e) => fs_walk_loads(c, bs, Some(omap_root), e.val.paddr, max_xid),
            _ => 0,
        }
    }
}

/// A bound on the node blocks that listing the snapshots of `vol` loads.
pub open spec fn snapshot_loads<D: BlockDevice + ?Sized>(c: Seq<u8>, bs: int, vol: &Volume<'_, D>) -> nat {
    snapshot_list_loads(c, bs, vol.apsb.snap_meta_tree_oid, vol.apsb.snap_meta_tree_type, vol.omap_tree_root, vol.max_xid)
}

/// List a volume's snapshots, oldest XID first.
pub fn list_snapshots<D: BlockDevice + ?Sized>(vol: &Volume<'_, D>, bt: &mut BtreeReader<'_, D>) -> (r: Result<Vec<SnapshotInfo>>)
    requires
        old(bt).wf(),
    ensures
        final(bt).wf(),
        final(bt).same_source(old(bt)),
        r matches Ok(v) ==> (volume_snapshots(old(bt).source(), old(bt).bsize(), vol) matches Some(l) && infos_match(v@, l)),
        r matches Ok(v) ==> forall|i: int, j: int| 0 <= i < j < v@.len() ==> (#[trigger] v@[i]).xid <= (#[trigger] v@[j]).xid,
        vol.apsb.snap_meta_tree_oid == 0 ==> (r matches Ok(v) && v@.len() == 0),
        volume_snapshots(old(bt).source(), old(bt).bsize(), vol) is None ==> r is Err,
        old(bt).loads_left() - snapshot_loads(old(bt).source(), old(bt).bsize(), vol) <= final(bt).loads_left(),
        final(bt).reliable() == old(bt).reliable(),
        old(bt).reliable() && old(bt).loads_left() >= snapshot_loads(old(bt).source(), old(bt).bsize(), vol)
            && volume_snapshots(old(bt).source(), old(bt).bsize(), vol) is Some ==> r is Ok,
{
    let tree_oid = vol.apsb.snap_meta_tree_oid;
    if tree_oid == 0 {
        let v: Vec<SnapshotInfo> = Vec::new();
        assert(infos_match(v@, Seq::empty()));
        return Ok(v);
    }
    // The snapshot-metadata tree is typically a physical B-tree, so its root
    // OID is a block address and its child links are physical too. If a
    // volume marks it virtual, resolve the root and the child links through
    // the volume omap.
    let physical = vol.apsb.snap_meta_tree_type & OBJ_STORAGETYPE_MASK == OBJ_PHYSICAL;
    let (root_block, omap_root) = if physical {
        (tree_oid, None)
    } else {
        match bt.omap_get(vol.omap_tree_root, tree_oid, vol.max_xid)? {
            Some(e) => (e.val.paddr, Some(vol.omap_tree_root)),
            None => {
                let v: Vec<SnapshotInfo> = Vec::new();
                proof {
                    assert(snapshot_entries(Seq::empty()) == Some(Seq::<(u64, Seq<u8>)>::empty()));
                    assert(sort_by_xid(Seq::empty()) == Seq::<(u64, Seq<u8>)>::empty());
                }
                assert(infos_match(v@, Seq::empty()));
                return Ok(v);
            },
        }
    };
    let mut col = SnapshotCollector { snaps: Vec::new(), seen: Ghost(Seq::empty()), fail: Ghost(None) };
    proof {
        assert(infos_match(col.snaps@, Seq::empty()));
        let w = fs_walk_stream(old(bt).source(), old(bt).bsize(), omap_root, root_block, vol.max_xid);
        lemma_snapshot_entries_ok(w.0);
        if snapshot_entries(w.0) is Some {
            assert forall|j: int| 0 <= j < w.0.len() implies col.accepts(#[trigger] w.0[j]) by {
                assert(snapshot_record_ok(w.0[j]));
            }
        }
    }
    bt.fs_walk(omap_root, root_block, vol.max_xid, &mut col)?;
    let ghost entries = snapshot_entries(col.seen@)->0;
    proof {
        assert(Seq::<(Seq<u8>, Seq<u8>)>::empty() + col.seen@ =~= col.seen@);
    }
    let mut snaps = col.snaps;
    sort_snapshots(&mut snaps, Ghost(entries));
    proof {
        let c = old(bt).source();
        let bs = old(bt).bsize();
        snapshot_listing_sorted_and_complete(
            c,
            bs,
            vol.apsb.snap_meta_tree_oid,
            vol.apsb.snap_meta_tree_type,
            vol.omap_tree_root,
            vol.max_xid,
        );
        let l = volume_snapshots(c, bs, vol)->0;
        assert forall|i: int, j: int| 0 <= i < j < snaps@.len() implies (#[trigger] snaps@[i]).xid
            <= (#[trigger] snaps@[j]).xid by {
            assert(snapshot_is(snaps@[i], l[i].0, l[i].1));
            assert(snapshot_is(snaps@[j], l[j].0, l[j].1));
        }
    }
    Ok(snaps)
}

/// Find a snapshot by exact name (the first such, oldest first).
pub fn find_by_name<D: BlockDevice + ?Sized>(vol: &Volume<'_, D>, bt: &mut BtreeReader<'_, D>, name: &str) -> (r: Result<SnapshotInfo>)
    requires
        old(bt).wf(),
    ensures
        final(bt).wf(),
        final(bt).same_source(old(bt)),
        r matches Ok(s) ==> (volume_snapshots(old(bt).source(), old(bt).bsize(), vol) matches Some(l) && first_named(
            l,
            name@,
            0,
        ) matches Some(k) && snapshot_is(s, l[k].0, l[k].1)),
        r matches Ok(s) ==> s.name@ == name@,
        volume_snapshots(old(bt).source(), old(bt).bsize(), vol) is None ==> r is Err,
        (volume_snapshots(old(bt).source(), old(bt).bsize(), vol) matches Some(l) && first_named(l, name@, 0) is None)
            ==> r is Err,
        final(bt).reliable() == old(bt).reliable(),
        old(bt).loads_left() - snapshot_loads(old(bt).source(), old(bt).bsize(), vol) <= final(bt).loads_left(),
        old(bt).reliable() && old(bt).loads_left() >= snapshot_loads(old(bt).source(), old(bt).bsize(), vol) && (
        volume_snapshots(old(bt).source(), old(bt).bsize(), vol) matches Some(l) && first_named(l, name@, 0) is Some)
            ==> r is Ok,
{
    let mut list = list_snapshots(vol, bt)?;
    let ghost l = volume_snapshots(old(bt).source(), old(bt).bsize(), vol)->0;
    let target = String::from_str(name);
    let mut i: usize = 0;
    while i < list.len()
        invariant
            infos_match(list@, l),
            volume_snapshots(old(bt).source(), old(bt).bsize(), vol) == Some(l),
            bt.wf(),
            bt.same_source(old(bt)),
            bt.reliable() == old(bt).reliable(),
            old(bt).loads_left() - snapshot_loads(old(bt).source(), old(bt).bsize(), vol) <= bt.loads_left(),
            target@ == name@,
            i <= list@.len(),
            first_named(l, name@, 0) == first_named(l, name@, i as int),
        decreases list@.len() - i,
    {
        assert(snapshot_is(list@[i as int], l[i as int].0, l[i as int].1));
        if list[i].name == target {
            let s = list.remove(i);
            return Ok(s);
        }
        i = i + 1;
    }
    let mut m = String::from_str("no snapshot named `");
    text::push_str(&mut m, name);
    text::push_str(&mut m, "`");
    Err(not_found_obj(m))
}

/// Find a snapshot by XID (the first such).
pub fn find_by_xid<D: BlockDevice + ?Sized>(vol: &Volume<'_, D>, bt: &mut BtreeReader<'_, D>, xid: u64) -> (r: Result<SnapshotInfo>)
    requires
        old(bt).wf(),
    ensures
        final(bt).wf(),
        final(bt).same_source(old(bt)),
        r matches Ok(s) ==> (volume_snapshots(old(bt).source(), old(bt).bsize(), vol) matches Some(l) && first_with_xid(
            l,
            xid,
            0,
        ) matches Some(k) && snapshot_is(s, l[k].0, l[k].1)),
        r matches Ok(s) ==> s.xid == xid,
        volume_snapshots(old(bt).source(), old(bt).bsize(), vol) is None ==> r is Err,
        (volume_snapshots(old(bt).source(), old(bt).bsize(), vol) matches Some(l) && first_with_xid(l, xid, 0) is None)
            ==> r is Err,
        final(bt).reliable() == old(bt).reliable(),
        old(bt).loads_left() - snapshot_loads(old(bt).source(), old(bt).bsize(), vol) <= final(bt).loads_left(),
        old(bt).reliable() && old(bt).loads_left() >= snapshot_loads(old(bt).source(), old(bt).bsize(), vol) && (
        volume_snapshots(old(bt).source(), old(bt).bsize(), vol) matches Some(l) && first_with_xid(l, xid, 0) is Some)
            ==> r is Ok,
{
    let mut list = list_snapshots(vol, bt)?;
    let ghost l = volume_snapshots(old(bt).source(), old(bt).bsize(), vol)->0;
    let mut i: usize = 0;
    while i < list.len()
        invariant
            infos_match(list@, l),
            volume_snapshots(old(bt).source(), old(bt).bsize(), vol) == Some(l),
            bt.wf(),
            bt.same_source(old(bt)),
            bt.reliable() == old(bt).reliable(),
            old(bt).loads_left() - snapshot_loads(old(bt).source(), old(bt).bsize(), vol) <= bt.loads_left(),
            i <= list@.len(),
            first_with_xid(l, xid, 0) == first_with_xid(l, xid, i as int),
        decreases list@.len() - i,
    {
        assert(snapshot_is(list@[i as int], l[i as int].0, l[i as int].1));
        if list[i].xid == xid {
            let s = list.remove(i);
            return Ok(s);
        }
        i = i + 1;
    }
    let mut m = String::from_str("no snapshot with xid ");
    text::push_str(&mut m, text::hex_prefixed(xid).as_str());
    Err(not_found_obj(m))
}

/// The error opening snapshot `snap` of a volume whose object map is
/// rooted at `omap_root` ends in when no read fails: a short or bad-magic
/// captured superblock is corrupt, and a root tree the object map does not
/// hold at the snapshot's xid is not found. `None` when the superblock
/// cannot be read or the snapshot opens. The superblock is read from a
/// device holding `c` with blocks of `bs` bytes, the object map from one
/// holding `tc` with blocks of `tbs` bytes.
pub open spec fn snapshot_open_error(c: Seq<u8>, bs: int, tc: Seq<u8>, tbs: int, omap_root: u64, snap: SnapshotInfo) -> Option<ErrorKind> {
    match block_bytes(c, snap.sblock_oid as int, bs) {
        None => None,
        Some(b) => if b.len() < APSB_PARSE_LEN || le_at(b, 32, 4) != APFS_MAGIC {
            Some(ErrorKind::Corrupt)
        } else {
            match omap_lookup(tc, tbs, omap_root, le_at(b, 136, 8) as u64, snap.xid) {
                Lookup::Absent => Some(ErrorKind::ObjectNotFound),
                _ => None,
            }
        },
    }
}

/// Open a snapshot as a [`Volume`] view.
///
/// A snapshot is browsed through the live volume's object map (which keeps
/// every object version keyed by XID), resolving objects at the snapshot's
/// XID. The captured volume superblock at `sblock_oid` only provides the
/// root-tree OID that was current when the snapshot was taken; that virtual
/// OID is resolved through the live object map at `snap.xid`.
pub fn open_snapshot<'a, D: BlockDevice + ?Sized>(live: &Volume<'a, D>, bt: &mut BtreeReader<'_, D>, snap: &SnapshotInfo) -> (r:
    Result<Volume<'a, D>>)
    requires
        live.wf(),
        old(bt).wf(),
    ensures
        final(bt).wf(),
        final(bt).same_source(old(bt)),
        r matches Ok(v) ==> {
            &&& v.wf()
            &&& v.dev == live.dev
            &&& v.block_size == live.block_size
            &&& block_bytes(live.dev.contents(), snap.sblock_oid as int, live.block_size as int) matches Some(b)
                && b.len() >= APSB_PARSE_LEN && apsb_matches(v.apsb, b)
            &&& v.apsb.magic == APFS_MAGIC
            &&& v.omap_tree_root == live.omap_tree_root
            &&& omap_lookup(old(bt).source(), old(bt).bsize(), live.omap_tree_root, v.apsb.root_tree_oid, snap.xid) matches Lookup::Found(
                e,
            ) && v.root_tree_root == e.val.paddr
            &&& v.max_xid == snap.xid
        },
        block_bytes(live.dev.contents(), snap.sblock_oid as int, live.block_size as int) is None ==> r is Err,
        (block_bytes(live.dev.contents(), snap.sblock_oid as int, live.block_size as int) matches Some(b) && (b.len()
            < APSB_PARSE_LEN || le_at(b, 32, 4) != APFS_MAGIC || omap_lookup(
            old(bt).source(),
            old(bt).bsize(),
            live.omap_tree_root,
            le_at(b, 136, 8) as u64,
            snap.xid,
        ) !is Found)) ==> r is Err,
        !live.dev.fallible() && old(bt).reliable() && old(bt).loads_left() >= MAX_NODE_DESCENT && (block_bytes(
            live.dev.contents(),
            snap.sblock_oid as int,
            live.block_size as int,
        ) matches Some(b) && b.len() >= APSB_PARSE_LEN && le_at(b, 32, 4) == APFS_MAGIC && omap_lookup(
            old(bt).source(),
            old(bt).bsize(),
            live.omap_tree_root,
            le_at(b, 136, 8) as u64,
            snap.xid,
        ) is Found) ==> r is Ok,
        r matches Err(e) ==> read_failure(e.kind) || e.kind == ErrorKind::ObjectNotFound,
        snapshot_open_error(
            live.dev.contents(),
            live.block_size as int,
            old(bt).source(),
            old(bt).bsize(),
            live.omap_tree_root,
            *snap,
        ) matches Some(kind)
            ==> (r matches Err(e) && (e.kind == kind || read_failure(e.kind))),
        snapshot_open_error(
            live.dev.contents(),
            live.block_size as int,
            old(bt).source(),
            old(bt).bsize(),
            live.omap_tree_root,
            *snap,
        ) matches Some(kind)
            ==> (!live.dev.fallible() && old(bt).reliable() && old(bt).loads_left() >= MAX_NODE_DESCENT ==> (r matches Err(
            e,
        ) && e.kind == kind)),
{
    let blk = live.dev.read_block(snap.sblock_oid, live.block_size)?;
    let apsb = ApfsSuperblock::parse(blk.as_slice())?;
    apsb.check_magic()?;
    let root_entry = match bt.omap_get(live.omap_tree_root, apsb.root_tree_oid, snap.xid)? {
        Some(e) => e,
        None => {
            let mut m = String::from_str("snapshot root tree (virtual OID ");
            text::push_str(&mut m, text::hex_prefixed(apsb.root_tree_oid).as_str());
            text::push_str(&mut m, ") not in volume omap at xid ");
            text::push_str(&mut m, text::hex_prefixed(snap.xid).as_str());
            return Err(not_found_obj(m));
        },
    };
    let mut warnings: Vec<String> = Vec::new();
    match feature::check_volume(&apsb) {
        Ok(mut report) => {
            warnings.append(&mut report.warnings);
        },
        Err(_) => {},
    }
    Ok(
        Volume {
            dev: live.dev,
            block_size: live.block_size,
            apsb,
            omap_tree_root: live.omap_tree_root,
            root_tree_root: root_entry.val.paddr,
            max_xid: snap.xid,
            warnings,
        },
    )
}

} // verus!
