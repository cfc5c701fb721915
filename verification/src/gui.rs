//! State and decisions of the desktop explorer: the current selection, the
//! recently-opened list, default recovery names, and whether an object's data
//! can be recovered.
use vstd::prelude::*;
use vstd::string::StrSliceExecFns;

use crate::apfs::btree::{fs_records, read_failure, records_view, BtreeReader, Record};
use crate::apfs::jrec::{self, inode_is, inode_parses, mode_kind, FileExtent, Inode, Xattr, ROOT_DIR_INO_NUM};
use crate::apfs::path::{
    insensitive, path_components, resolve, split_components, walk_error, walk_error_means_no_walk, walk_path,
    MAX_PATH_COMPONENTS,
};
use crate::apfs::raw::{cstr_text, le_at};
use crate::apfs::vol::{extents_of, first_of_type, Volume};
use crate::device::BlockDevice;
use crate::error::{err, Error, ErrorKind, Result};
use crate::recover::{
    dir_plan, failures_are_reads, objects_carry_inodes, plan_folder, plan_names_safe, plan_view, read_cleanly, FileStatus,
    PlanItem,
};
use crate::text;

verus! {

/// Entries kept in the recently-opened list.
pub const MAX_RECENTS: usize = 10;

/// The container and volume being browsed; no container means the start page
/// is shown.
pub struct Config {
    pub container: Option<String>,
    pub volume: u32,
}

/// A selection as plain values: the container path, if any, and the volume.
pub open spec fn selection_of(c: Config) -> (Option<Seq<char>>, u32) {
    (
        match c.container {
            Some(p) => Some(p@),
            None => None,
        },
        c.volume,
    )
}

impl Config {
    /// The selection after opening the image at `path`: that image, volume 1.
    pub fn opened(path: String) -> (c: Config)
        ensures
            selection_of(c) == (Some(path@), 1u32),
    {
        Config { container: Some(path), volume: 1 }
    }

    /// Close the image: back to the start page, keeping the volume index.
    pub fn close(&mut self)
        ensures
            selection_of(*final(self)) == (None::<Seq<char>>, old(self).volume),
    {
        self.container = None;
    }

    /// Select the 1-based volume `volume`; 0 selects nothing and leaves the
    /// selection as it was.
    pub fn select_volume(&mut self, volume: u32)
        ensures
            selection_of(*final(self)) == (selection_of(*old(self)).0, if volume >= 1 {
                volume
            } else {
                old(self).volume
            }),
    {
        if volume >= 1 {
            self.volume = volume;
        }
    }
}

#[verifier::external_type_specification]
#[verifier::external_body]
#[verifier::reject_recursive_types(T)]
pub struct ExMutex<T: ?Sized>(std::sync::Mutex<T>);

/// What the lock `m` holds, as plain values (see [`selection_of`]).
pub uninterp spec fn lock_selection(m: std::sync::Mutex<Config>) -> (Option<Seq<char>>, u32);

/// Calls `std::sync::Mutex::new`, which by std's documentation makes a lock
/// holding `c`.
#[verifier::external_body]
fn new_lock(c: Config) -> (m: std::sync::Mutex<Config>)
    ensures
        lock_selection(m) == selection_of(c),
{
    std::sync::Mutex::new(c)
}

/// Shared, mutable selection guarded by a lock.
pub struct AppState {
    pub inner: std::sync::Mutex<Config>,
}

impl AppState {
    /// A state whose lock holds the selection `(container, volume)`.
    pub fn new(container: Option<String>, volume: u32) -> (s: AppState)
        ensures
            lock_selection(s.inner) == selection_of((Config { container, volume })),
    {
        AppState { inner: new_lock(Config { container, volume }) }
    }
}

/// One recently-opened image.
#[derive(Debug, Clone)]
pub struct RecentImage {
    pub path: String,
    /// Unix seconds of the last successful open.
    pub last_opened: u64,
}

/// The list as (path, time) pairs.
pub open spec fn recents_view(s: Seq<RecentImage>) -> Seq<(Seq<char>, u64)> {
    s.map_values(|r: RecentImage| (r.path@, r.last_opened))
}

/// `s` without the entries for `path`, in order.
pub open spec fn without_path(s: Seq<(Seq<char>, u64)>, path: Seq<char>) -> Seq<(Seq<char>, u64)>
    decreases s.len(),
{
    if s.len() == 0 {
        s
    } else if s.last().0 == path {
        without_path(s.drop_last(), path)
    } else {
        without_path(s.drop_last(), path).push(s.last())
    }
}

/// The list after opening `path` at time `now`: that entry first, the other
/// entries after it, at most [`MAX_RECENTS`] kept.
pub open spec fn recorded(s: Seq<(Seq<char>, u64)>, path: Seq<char>, now: u64) -> Seq<(Seq<char>, u64)> {
    let l = seq![(path, now)] + without_path(s, path);
    if l.len() > MAX_RECENTS {
        l.subrange(0, MAX_RECENTS as int)
    } else {
        l
    }
}

/// `recents` without the entries for `path`.
fn drop_path(recents: Vec<RecentImage>, path: &String) -> (r: Vec<RecentImage>)
    ensures
        recents_view(r@) == without_path(recents_view(recents@), path@),
{
    let mut out: Vec<RecentImage> = Vec::new();
    let ghost rv = recents_view(recents@);
    let n = recents.len();
    let mut rest = recents;
    let mut taken: usize = 0;
    proof {
        assert(recents_view(out@) =~= without_path(rv.subrange(0, 0), path@));
    }
    while rest.len() > 0
        invariant
            taken + rest@.len() == n == rv.len(),
            recents_view(rest@) == rv.subrange(taken as int, n as int),
            recents_view(out@) == without_path(rv.subrange(0, taken as int), path@),
        decreases rest@.len(),
    {
        let ghost before = out@;
        let ghost old_rest = rest@;
        let r = rest.remove(0);
        proof {
            assert(recents_view(rest@) =~= recents_view(old_rest).drop_first());
            assert(rv.subrange(taken + 1, n as int) =~= rv.subrange(taken as int, n as int).drop_first());
            assert(rv.subrange(0, taken + 1).drop_last() =~= rv.subrange(0, taken as int));
            assert(rv.subrange(0, taken + 1).last() == rv[taken as int]);
            assert(recents_view(rest@) =~= rv.subrange(taken + 1, n as int));
            assert(rv[taken as int] == (r.path@, r.last_opened)) by {
                assert(rv.subrange(taken as int, n as int)[0] == rv[taken as int]);
            }
        }
        if r.path != *path {
            out.push(r);
            proof {
                assert(recents_view(out@) =~= recents_view(before).push(rv[taken as int]));
            }
        }
        taken = taken + 1;
    }
    proof {
        assert(rv.subrange(0, n as int) =~= rv);
    }
    out
}

/// Record a successful open of `path` at time `now`, moving it to the front
/// of the list.
pub fn record_recent(recents: Vec<RecentImage>, path: String, now: u64) -> (r: Vec<RecentImage>)
    ensures
        recents_view(r@) == recorded(recents_view(recents@), path@, now),
{
    let ghost rv = recents_view(recents@);
    let ghost p = path@;
    let mut out = drop_path(recents, &path);
    let ghost w = out@;
    out.insert(0, RecentImage { path, last_opened: now });
    proof {
        assert(recents_view(out@) =~= seq![(p, now)] + recents_view(w));
    }
    let ghost full = out@;
    out.truncate(MAX_RECENTS);
    proof {
        if full.len() > MAX_RECENTS {
            assert(recents_view(out@) =~= recents_view(full).subrange(0, MAX_RECENTS as int));
        }
    }
    out
}

/// Drop `path` from the list.
pub fn remove_recent(recents: Vec<RecentImage>, path: &str) -> (r: Vec<RecentImage>)
    ensures
        recents_view(r@) == without_path(recents_view(recents@), path@),
{
    let p = String::from_str(path);
    drop_path(recents, &p)
}

/// `without_path` leaves no entry for `path` and keeps every other entry.
proof fn lemma_without_path(s: Seq<(Seq<char>, u64)>, path: Seq<char>)
    ensures
        forall|j: int| 0 <= j < without_path(s, path).len() ==> (#[trigger] without_path(s, path)[j]).0 != path,
        without_path(s, path).len() <= s.len(),
    decreases s.len(),
{
    if s.len() > 0 {
        lemma_without_path(s.drop_last(), path);
    }
}

/// Removing an image from the list leaves no entry for it.
pub proof fn removed_image_is_gone(s: Seq<(Seq<char>, u64)>, path: Seq<char>)
    ensures
        forall|j: int| 0 <= j < without_path(s, path).len() ==> (#[trigger] without_path(s, path)[j]).0 != path,
{
    lemma_without_path(s, path);
}

/// Recording an opened image puts it first, with the time it was opened,
/// lists it nowhere else, and keeps at most [`MAX_RECENTS`] entries.
pub proof fn recorded_image_is_first_and_unique(s: Seq<(Seq<char>, u64)>, path: Seq<char>, now: u64)
    ensures
        recorded(s, path, now).len() <= MAX_RECENTS,
        recorded(s, path, now)[0] == (path, now),
        forall|j: int| 1 <= j < recorded(s, path, now).len() ==> (#[trigger] recorded(s, path, now)[j]).0 != path,
{
    lemma_without_path(s, path);
    let l = seq![(path, now)] + without_path(s, path);
    assert forall|j: int| 1 <= j < l.len() implies (#[trigger] l[j]).0 != path by {
        assert(l[j] == without_path(s, path)[j - 1]);
    }
}

/// The last non-empty `/`-separated component of `path`, or `recovered`.
pub open spec fn base_name(path: Seq<char>) -> Seq<char> {
    let c = path_components(path);
    if c.len() > 0 {
        c.last()
    } else {
        "recovered"@
    }
}

/// The last path component, used as the default recovery file name.
pub fn basename(path: &str) -> (r: String)
    ensures
        r@ == base_name(path@),
{
    let mut comps = split_components(path);
    match comps.pop() {
        Some(c) => c,
        None => String::from_str("recovered"),
    }
}

/// The index of the last `.` in `s`, if any.
pub open spec fn last_dot(s: Seq<char>) -> Option<int>
    decreases s.len(),
{
    if s.len() == 0 {
        None
    } else if s.last() == '.' {
        Some(s.len() - 1)
    } else {
        last_dot(s.drop_last())
    }
}

/// `name` with ` (n)` inserted before its extension (the text from its last
/// `.`, when that `.` does not start the name).
pub open spec fn suffixed(name: Seq<char>, n: u32) -> Seq<char> {
    let tag = " ("@ + text::dec_digits(n as nat) + ")"@;
    match last_dot(name) {
        Some(p) => if p > 0 {
            name.take(p) + tag + name.skip(p)
        } else {
            name + tag
        },
        None => name + tag,
    }
}

/// The `n`-th alternative destination name for `name`: `stem (n).ext`.
pub fn suffixed_name(name: &str, n: u32) -> (r: String)
    ensures
        r@ == suffixed(name@, n),
{
    let len = name.unicode_len();
    let mut k: usize = len;
    assert(name@.subrange(0, len as int) =~= name@);
    while k > 0 && name.get_char(k - 1) != '.'
        invariant
            k <= len == name@.len(),
            last_dot(name@) == last_dot(name@.subrange(0, k as int)),
        decreases k,
    {
        proof {
            assert(name@.subrange(0, k as int).drop_last() =~= name@.subrange(0, k - 1));
        }
        k = k - 1;
    }
    proof {
        assert(name@.subrange(0, len as int) =~= name@);
        if k > 0 {
            assert(name@.subrange(0, k as int).last() == '.');
        }
    }
    let mut r = String::new();
    if k > 1 {
        let mut i: usize = 0;
        while i < k - 1
            invariant
                1 < k <= len == name@.len(),
                i <= k - 1,
                r@ == name@.subrange(0, i as int),
            decreases k - 1 - i,
        {
            r.push(name.get_char(i));
            i = i + 1;
            assert(r@ =~= name@.subrange(0, i as int));
        }
        text::push_str(&mut r, " (");
        text::push_decimal(&mut r, n as u64);
        text::push_str(&mut r, ")");
        let mut j: usize = k - 1;
        let ghost head = r@;
        while j < len
            invariant
                1 < k <= len == name@.len(),
                k - 1 <= j <= len,
                r@ == head + name@.subrange(k - 1, j as int),
            decreases len - j,
        {
            r.push(name.get_char(j));
            j = j + 1;
            assert(r@ =~= head + name@.subrange(k - 1, j as int));
        }
        proof {
            assert(name@.take(k - 1) =~= name@.subrange(0, k - 1));
            assert(name@.skip(k - 1) =~= name@.subrange(k - 1, len as int));
            assert(r@ =~= suffixed(name@, n));
        }
    } else {
        text::push_str(&mut r, name);
        text::push_str(&mut r, " (");
        text::push_decimal(&mut r, n as u64);
        text::push_str(&mut r, ")");
        assert(r@ =~= suffixed(name@, n));
    }
    r
}

/// Per-file results a batch recovery reports before truncating (the totals
/// keep counting past this).
pub const MAX_BATCH_RESULTS: usize = 1000;

/// The running totals of a batch recovery.
#[derive(Debug, Clone, Copy)]
pub struct BatchTally {
    pub files_done: u64,
    pub bytes_total: u64,
    pub recovered: u64,
    pub partial: u64,
    pub errors: u64,
}

impl BatchTally {
    /// Every counted file is recovered, partial or failed.
    pub open spec fn wf(&self) -> bool {
        self.recovered + self.partial + self.errors == self.files_done
    }

    pub fn new() -> (t: BatchTally)
        ensures
            t.wf(),
            t.files_done == 0 && t.bytes_total == 0 && t.recovered == 0 && t.partial == 0 && t.errors == 0,
    {
        BatchTally { files_done: 0, bytes_total: 0, recovered: 0, partial: 0, errors: 0 }
    }

    /// Count one file with `status` and `bytes` written, given that
    /// `reported` results were reported so far. Returns whether to report
    /// this result (the first [`MAX_BATCH_RESULTS`] are) and whether to send
    /// a progress event (for the first 100 files, then every 25th).
    pub fn push(&mut self, status: FileStatus, bytes: u64, reported: usize) -> (r: (bool, bool))
        requires
            old(self).wf(),
            old(self).files_done < u64::MAX,
            old(self).bytes_total + bytes <= u64::MAX,
        ensures
            final(self).wf(),
            final(self).files_done == old(self).files_done + 1,
            final(self).bytes_total == old(self).bytes_total + bytes,
            final(self).recovered == old(self).recovered + (if status == FileStatus::Recovered {
                1int
            } else {
                0
            }),
            final(self).partial == old(self).partial + (if status == FileStatus::Partial {
                1int
            } else {
                0
            }),
            final(self).errors == old(self).errors + (if status != FileStatus::Recovered && status
                != FileStatus::Partial {
                1int
            } else {
                0
            }),
            r.0 == (reported < MAX_BATCH_RESULTS),
            r.1 == (final(self).files_done <= 100 || final(self).files_done % 25 == 0),
    {
        self.files_done = self.files_done + 1;
        self.bytes_total = self.bytes_total + bytes;
        match status {
            FileStatus::Recovered => {
                self.recovered = self.recovered + 1;
            },
            FileStatus::Partial => {
                self.partial = self.partial + 1;
            },
            _ => {
                self.errors = self.errors + 1;
            },
        }
        let keep = reported < MAX_BATCH_RESULTS;
        let emit = self.files_done <= 100 || self.files_done % 25 == 0;
        (keep, emit)
    }
}

/// Whether an object's data can be recovered.
#[derive(Debug, Clone, Copy, PartialEq, Eq, Structural)]
pub enum RecoverStatus {
    /// The volume is encrypted; data cannot be decrypted.
    Encrypted,
    /// A directory, recovered recursively.
    Directory,
    /// A symlink.
    Symlink,
    /// Fully backed by extents (or empty).
    Recoverable,
    /// Backed by extents with sparse holes.
    RecoverableSparse,
    /// A non-empty file without extents.
    NoExtents,
}

/// The label each recoverability status is reported under.
pub open spec fn status_label(s: RecoverStatus) -> Seq<char> {
    match s {
        RecoverStatus::Encrypted => "encrypted"@,
        RecoverStatus::Directory => "ok"@,
        RecoverStatus::Symlink => "ok"@,
        RecoverStatus::Recoverable => "ok"@,
        RecoverStatus::RecoverableSparse => "ok-sparse"@,
        RecoverStatus::NoExtents => "no-extents"@,
    }
}

impl RecoverStatus {
    /// The label the status is reported under: directories, symlinks and
    /// fully backed files are all "ok".
    pub fn label(self) -> (r: &'static str)
        ensures
            r@ == status_label(self),
    {
        match self {
            RecoverStatus::Encrypted => "encrypted",
            RecoverStatus::Directory => "ok",
            RecoverStatus::Symlink => "ok",
            RecoverStatus::Recoverable => "ok",
            RecoverStatus::RecoverableSparse => "ok-sparse",
            RecoverStatus::NoExtents => "no-extents",
        }
    }
}

/// The recoverability of a file of `size` bytes whose extents are `ex`.
pub open spec fn file_status(size: u64, ex: Seq<FileExtent>) -> RecoverStatus {
    let has_extent = ex.len() > 0;
    let has_hole = exists|k: int| 0 <= k < ex.len() && #[trigger] ex[k].phys_block_num == 0;
    if size == 0 || (has_extent && !has_hole) {
        RecoverStatus::Recoverable
    } else if has_extent {
        RecoverStatus::RecoverableSparse
    } else {
        RecoverStatus::NoExtents
    }
}

/// Explain whether an object's data is recoverable: encrypted volumes,
/// directories and symlinks first, then a file by its extents. Returns the
/// status, the logical size used and whether extents exist.
pub fn recoverability(volume_encrypted: bool, inode: &Inode, records: &[Record]) -> (r: Result<(RecoverStatus, u64, bool)>)
    ensures
        volume_encrypted ==> (r matches Ok((s, size, has)) && s == RecoverStatus::Encrypted && size == 0 && !has),
        !volume_encrypted && inode.mode & 0o170000 == 0o040000 ==> (r matches Ok((s, size, has)) && s
            == RecoverStatus::Directory && size == 0 && !has),
        !volume_encrypted && inode.mode & 0o170000 != 0o040000 && inode.mode & 0o170000 == 0o120000 ==> (r matches Ok(
            (s, size, has),
        ) && s == RecoverStatus::Symlink && size == 0 && !has),
        !volume_encrypted && inode.mode & 0o170000 != 0o040000 && inode.mode & 0o170000 != 0o120000 ==> match extents_of(
            records_view(records@),
            0,
        ) {
            None => r is Err,
            Some(ex) => r matches Ok((s, size, has)) && size == jrec::inode_logical_size(*inode).unwrap_or(0) && has == (
            ex.len() > 0) && s == file_status(size, ex),
        },
{
    if volume_encrypted {
        return Ok((RecoverStatus::Encrypted, 0, false));
    }
    if inode.is_dir() {
        return Ok((RecoverStatus::Directory, 0, false));
    }
    if inode.is_symlink() {
        return Ok((RecoverStatus::Symlink, 0, false));
    }
    let size = match inode.logical_size() {
        Some(s) => s,
        None => 0,
    };
    let ghost recs = records_view(records@);
    let mut has_extent = false;
    let mut has_hole = false;
    let ghost mut seen: Seq<FileExtent> = Seq::empty();
    let mut i: usize = 0;
    while i < records.len()
        invariant
            recs == records_view(records@),
            !volume_encrypted,
            inode.mode & 0o170000 != 0o040000,
            inode.mode & 0o170000 != 0o120000,
            i <= records@.len(),
            extents_of(recs, 0) == match extents_of(recs, i as int) {
                Some(rest) => Some(seen + rest),
                None => None,
            },
            has_extent == (seen.len() > 0),
            has_hole == exists|k: int| 0 <= k < seen.len() && #[trigger] seen[k].phys_block_num == 0,
        decreases records@.len() - i,
    {
        let rec = &records[i];
        let (_oid, ty) = jrec::key_obj_id_and_type(rec.key.as_slice())?;
        assert(recs[i as int] == (rec.key@, rec.val@));
        if ty == jrec::APFS_TYPE_FILE_EXTENT {
            let fe = FileExtent::parse(rec.key.as_slice(), rec.val.as_slice())?;
            proof {
                if let Some(rest) = extents_of(recs, i + 1) {
                    assert(seen + (seq![fe] + rest) =~= seen.push(fe) + rest);
                }
                let ns = seen.push(fe);
                if fe.phys_block_num == 0 {
                    assert(ns[seen.len() as int].phys_block_num == 0);
                }
                if has_hole {
                    let k = choose|k: int| 0 <= k < seen.len() && #[trigger] seen[k].phys_block_num == 0;
                    assert(ns[k] == seen[k]);
                }
                seen = ns;
            }
            has_extent = true;
            if fe.is_hole() {
                has_hole = true;
            }
        }
        i = i + 1;
    }
    proof {
        assert(seen + Seq::<FileExtent>::empty() =~= seen);
    }
    let status = if size == 0 || (has_extent && !has_hole) {
        RecoverStatus::Recoverable
    } else if has_extent {
        RecoverStatus::RecoverableSparse
    } else {
        RecoverStatus::NoExtents
    };
    Ok((status, size, has_extent))
}


/// Check a batch recovery before anything is recovered: something must be
/// selected, and plaintext is not recovered from an encrypted volume.
pub fn batch_precheck(selected: usize, encrypted: bool) -> (r: Result<()>)
    ensures
        r is Ok <==> selected > 0 && !encrypted,
        selected == 0 ==> (r matches Err(e) && e.kind == ErrorKind::Usage),
        selected > 0 && encrypted ==> (r matches Err(e) && e.kind == ErrorKind::EncryptedUnsupported),
{
    if selected == 0 {
        return Err(err(ErrorKind::Usage, "nothing selected"));
    }
    if encrypted {
        return Err(err(ErrorKind::EncryptedUnsupported, "volume is encrypted; refusing plaintext recovery"));
    }
    Ok(())
}

/// The value of the inode record among `recs`, if there is one.
pub open spec fn stored_inode(recs: Seq<(Seq<u8>, Seq<u8>)>) -> Option<Seq<u8>> {
    match first_of_type(recs, jrec::APFS_TYPE_INODE, 0) {
        Some(Some(k)) => Some(recs[k].1),
        _ => None,
    }
}

/// What one selected path of a batch recovery comes to.
pub enum BatchTarget {
    /// The path, its records or its inode could not be had; reported as an
    /// error result, and the batch goes on.
    Failed(Error),
    /// The object (FSOID) has records but no inode.
    NoInode(u64),
    /// A directory (FSOID), recovered by walking it with this plan.
    Folder(u64, Vec<PlanItem>),
    /// Any other object (FSOID), recovered from its inode and records.
    Object(u64, Inode, Vec<Record>),
}

/// Resolve one selected path of a batch recovery to its FSOID.
fn batch_resolve<D: BlockDevice + ?Sized>(vol: &Volume<'_, D>, bt: &mut BtreeReader<'_, D>, path: &str) -> (r: Result<u64>)
    requires
        old(bt).wf(),
    ensures
        final(bt).wf(),
        final(bt).same_source(old(bt)),
        ({
            let c = old(bt).source();
            let bs = old(bt).bsize();
            let om = vol.omap_tree_root;
            let rt = vol.root_tree_root;
            let mx = vol.max_xid;
            let comps = path_components(path@);
            let ci = insensitive(vol.apsb.incompatible_features);
            let walk = walk_path(c, bs, om, rt, mx, comps, ci, 0, ROOT_DIR_INO_NUM, "dir"@);
            let ok_path = path@.len() > 0 && path@[0] == '/' && comps.len() <= MAX_PATH_COMPONENTS;
            &&& r matches Err(e) ==> read_failure(e.kind) || e.kind == ErrorKind::Usage || e.kind == ErrorKind::PathNotFound
                || e.kind == ErrorKind::NotADirectory
            &&& !ok_path ==> (r matches Err(e) && e.kind == ErrorKind::Usage)
            &&& ok_path ==> (walk_error(c, bs, om, rt, mx, comps, ci, 0, ROOT_DIR_INO_NUM) matches Some(kind) ==> (
            r matches Err(e) && (e.kind == kind || read_failure(e.kind))))
            &&& r matches Ok(f) ==> walk is Some && (walk->0).0 == f
            &&& r matches Err(e) ==> (ok_path && walk is Some ==> read_failure(e.kind))
        }),
{
    let ghost c = bt.source();
    let ghost bs = bt.bsize();
    match resolve(vol, bt, path) {
        Ok(res) => Ok(res.fsoid),
        Err(e) => {
            proof {
                let comps = path_components(path@);
                let ci = insensitive(vol.apsb.incompatible_features);
                if path@.len() > 0 && path@[0] == '/' && comps.len() <= MAX_PATH_COMPONENTS && (e.kind
                    == ErrorKind::PathNotFound || e.kind == ErrorKind::NotADirectory) {
                    walk_error_means_no_walk(
                        c,
                        bs,
                        vol.omap_tree_root,
                        vol.root_tree_root,
                        vol.max_xid,
                        comps,
                        ci,
                        0,
                        ROOT_DIR_INO_NUM,
                        "dir"@,
                    );
                }
            }
            Err(e)
        },
    }
}

/// Resolve one selected `path` of a batch recovery and decide what it comes
/// to: a failure to resolve it or to read its records or inode, an object
/// without an inode, a directory with the plan of its walk, or another
/// object with its inode and records.
#[verifier::spinoff_prover]
#[verifier::rlimit(100)]
pub fn batch_target<D: BlockDevice + ?Sized>(vol: &Volume<'_, D>, bt: &mut BtreeReader<'_, D>, path: &str) -> (r: BatchTarget)
    requires
        old(bt).wf(),
    ensures
        final(bt).wf(),
        final(bt).same_source(old(bt)),
        ({
            let c = old(bt).source();
            let bs = old(bt).bsize();
            let om = vol.omap_tree_root;
            let rt = vol.root_tree_root;
            let mx = vol.max_xid;
            let comps = path_components(path@);
            let ci = insensitive(vol.apsb.incompatible_features);
            let walk = walk_path(c, bs, om, rt, mx, comps, ci, 0, ROOT_DIR_INO_NUM, "dir"@);
            let ok_path = path@.len() > 0 && path@[0] == '/' && comps.len() <= MAX_PATH_COMPONENTS;
            &&& r matches BatchTarget::Failed(e) ==> read_failure(e.kind) || e.kind == ErrorKind::Usage || e.kind
                == ErrorKind::PathNotFound || e.kind == ErrorKind::NotADirectory
            &&& !ok_path ==> (r matches BatchTarget::Failed(e) && e.kind == ErrorKind::Usage)
            &&& ok_path ==> (walk_error(c, bs, om, rt, mx, comps, ci, 0, ROOT_DIR_INO_NUM) matches Some(kind) ==> (
            r matches BatchTarget::Failed(e) && (e.kind == kind || read_failure(e.kind))))
            &&& r matches BatchTarget::NoInode(f) ==> (fs_records(c, bs, Some(om), rt, f, mx) matches Some(recs)
                && first_of_type(recs, jrec::APFS_TYPE_INODE, 0) == Some(None::<int>) && walk is Some && (walk->0).0 == f)
            &&& r matches BatchTarget::Object(f, inode, records) ==> (first_of_type(
                records_view(records@),
                jrec::APFS_TYPE_INODE,
                0,
            ) matches Some(Some(k)) && inode_is(inode, records@[k].val@) && mode_kind(inode.mode) != 0o040000 && walk
                is Some && (walk->0).0 == f && fs_records(c, bs, Some(om), rt, f, mx) == Some(records_view(records@)))
            &&& r matches BatchTarget::Folder(f, plan) ==> (fs_records(c, bs, Some(om), rt, f, mx) matches Some(recs)
                && first_of_type(recs, jrec::APFS_TYPE_INODE, 0) matches Some(Some(k)) && inode_parses(recs[k].1)
                && mode_kind(le_at(recs[k].1, 80, 2) as u16) == 0o040000 && walk is Some && (walk->0).0 == f
                && objects_carry_inodes(plan@) && plan_names_safe(plan@) && failures_are_reads(plan@) && (read_cleanly(
                plan_view(plan@),
            ) ==> plan_view(plan@) == dir_plan(c, bs, om, rt, mx, f, Seq::empty(), 0)))
            &&& (ok_path && walk is Some && fs_records(c, bs, Some(om), rt, (walk->0).0, mx) is Some && first_of_type(
                fs_records(c, bs, Some(om), rt, (walk->0).0, mx)->0,
                jrec::APFS_TYPE_INODE,
                0,
            ) == Some(None::<int>)) ==> (r is NoInode || (r matches BatchTarget::Failed(e) && read_failure(e.kind)))
            &&& fs_records(c, bs, Some(om), rt, (walk->0).0, mx) matches Some(recs) ==> (stored_inode(recs) matches Some(v)
                ==> (inode_parses(v) && ok_path && walk is Some ==> (if mode_kind(le_at(v, 80, 2) as u16) == 0o040000 {
                r is Folder
            } else {
                r is Object
            } || (r matches BatchTarget::Failed(e) && read_failure(e.kind)))))
        }),
{
    let fsoid = match batch_resolve(vol, bt, path) {
        Ok(f) => f,
        Err(e) => {
            return BatchTarget::Failed(e);
        },
    };
    let records = match vol.records(bt, fsoid) {
        Ok(r) => r,
        Err(e) => {
            return BatchTarget::Failed(e);
        },
    };
    let ghost recs = records_view(records@);
    proof {
        crate::apfs::vol::lemma_first_of_type_in_range(recs, jrec::APFS_TYPE_INODE, 0);
    }
    match Volume::<D>::inode_from_records(records.as_slice()) {
        Ok(Some(inode)) => {
            proof {
                let k = first_of_type(recs, jrec::APFS_TYPE_INODE, 0)->0->0;
                assert(recs[k] == (records@[k].key@, records@[k].val@));
                assert(inode.mode == le_at(recs[k].1, 80, 2));
                assert(inode_parses(recs[k].1));
            }
            if inode.is_dir() {
                let plan = plan_folder(vol, bt, fsoid);
                BatchTarget::Folder(fsoid, plan)
            } else {
                BatchTarget::Object(fsoid, inode, records)
            }
        },
        Ok(None) => BatchTarget::NoInode(fsoid),
        Err(e) => BatchTarget::Failed(e),
    }
}


/// Extended attribute `x` is the one stored in record `(key, val)`.
pub open spec fn xattr_is(x: Xattr, key: Seq<u8>, val: Seq<u8>) -> bool {
    &&& x.name@ == cstr_text(key.subrange(10, 10 + le_at(key, 8, 2) as int))
    &&& x.flags == le_at(val, 0, 2)
    &&& x.data@ == val.subrange(4, 4 + jrec::xattr_data_len(val))
}

/// The indices, from `i` on, of the records of `recs` of type `t` that
/// parse as `ok` says, in order.
pub open spec fn parsed_of_type(
    recs: Seq<(Seq<u8>, Seq<u8>)>,
    t: u8,
    ok: spec_fn(Seq<u8>, Seq<u8>) -> bool,
    i: int,
) -> Seq<int>
    decreases recs.len() - i,
{
    if i < 0 || i >= recs.len() {
        Seq::empty()
    } else if jrec::key_type(recs[i].0) == t && ok(recs[i].0, recs[i].1) {
        seq![i] + parsed_of_type(recs, t, ok, i + 1)
    } else {
        parsed_of_type(recs, t, ok, i + 1)
    }
}

/// What the records of an object show: each record's type and key and
/// value lengths, its extended attributes and its file extents.
#[derive(Debug, Clone)]
pub struct StatRecords {
    pub kinds: Vec<(u8, usize, usize)>,
    pub xattrs: Vec<Xattr>,
    pub extents: Vec<FileExtent>,
}

/// Summarise an object's records for display: the type and key and value
/// lengths of every record, and, in record order, the extended attributes
/// and the file extents that parse (others are left out). Fails when a
/// record key is too short to hold its object id and type.
pub fn stat_records(records: &[Record]) -> (r: Result<StatRecords>)
    ensures
        ({
            let recs = records_view(records@);
            &&& r is Err <==> exists|i: int| 0 <= i < recs.len() && #[trigger] recs[i].0.len() < 8
            &&& r matches Err(e) ==> e.kind == ErrorKind::Corrupt
            &&& r matches Ok(st) ==> {
                &&& st.kinds@.len() == recs.len()
                &&& forall|i: int|
                    0 <= i < recs.len() ==> #[trigger] st.kinds@[i] == (
                        jrec::key_type(recs[i].0),
                        recs[i].0.len() as usize,
                        recs[i].1.len() as usize,
                    )
                &&& st.xattrs@.len() == parsed_of_type(recs, jrec::APFS_TYPE_XATTR, |k: Seq<u8>, v: Seq<u8>| jrec::xattr_parses(k, v), 0).len()
                &&& forall|j: int|
                    0 <= j < st.xattrs@.len() ==> xattr_is(
                        #[trigger] st.xattrs@[j],
                        recs[parsed_of_type(recs, jrec::APFS_TYPE_XATTR, |k: Seq<u8>, v: Seq<u8>| jrec::xattr_parses(k, v), 0)[j]].0,
                        recs[parsed_of_type(recs, jrec::APFS_TYPE_XATTR, |k: Seq<u8>, v: Seq<u8>| jrec::xattr_parses(k, v), 0)[j]].1,
                    )
                &&& st.extents@ == parsed_of_type(recs, jrec::APFS_TYPE_FILE_EXTENT, |k: Seq<u8>, v: Seq<u8>| jrec::file_extent_parses(k, v), 0).map_values(
                    |i: int| jrec::file_extent_of(recs[i].0, recs[i].1),
                )
            }
        }),
{
    let ghost recs = records_view(records@);
    let ghost xok = |k: Seq<u8>, v: Seq<u8>| jrec::xattr_parses(k, v);
    let ghost fok = |k: Seq<u8>, v: Seq<u8>| jrec::file_extent_parses(k, v);
    let mut kinds: Vec<(u8, usize, usize)> = Vec::new();
    let mut xattrs: Vec<Xattr> = Vec::new();
    let mut extents: Vec<FileExtent> = Vec::new();
    let ghost mut xi: Seq<int> = Seq::empty();
    let ghost mut fi: Seq<int> = Seq::empty();
    let mut i: usize = 0;
    while i < records.len()
        invariant
            recs == records_view(records@),
            i <= recs.len(),
            forall|j: int| 0 <= j < i ==> #[trigger] recs[j].0.len() >= 8,
            kinds@.len() == i,
            forall|j: int|
                0 <= j < i ==> #[trigger] kinds@[j] == (jrec::key_type(recs[j].0), recs[j].0.len() as usize, recs[j].1.len() as usize),
            parsed_of_type(recs, jrec::APFS_TYPE_XATTR, xok, 0) == xi + parsed_of_type(recs, jrec::APFS_TYPE_XATTR, xok, i as int),
            parsed_of_type(recs, jrec::APFS_TYPE_FILE_EXTENT, fok, 0) == fi + parsed_of_type(recs, jrec::APFS_TYPE_FILE_EXTENT, fok, i as int),
            xattrs@.len() == xi.len(),
            forall|j: int| 0 <= j < xi.len() ==> 0 <= #[trigger] xi[j] < recs.len() && xattr_is(xattrs@[j], recs[xi[j]].0, recs[xi[j]].1),
            extents@ == fi.map_values(|k: int| jrec::file_extent_of(recs[k].0, recs[k].1)),
            forall|j: int| 0 <= j < fi.len() ==> 0 <= #[trigger] fi[j] < recs.len(),
            xok == (|k: Seq<u8>, v: Seq<u8>| jrec::xattr_parses(k, v)),
            fok == (|k: Seq<u8>, v: Seq<u8>| jrec::file_extent_parses(k, v)),
        decreases recs.len() - i,
    {
        let rec = &records[i];
        assert(recs[i as int] == (rec.key@, rec.val@));
        let ty = match jrec::key_obj_id_and_type(rec.key.as_slice()) {
            Ok((_, t)) => t,
            Err(e) => {
                return Err(e);
            },
        };
        kinds.push((ty, rec.key.len(), rec.val.len()));
        if ty == jrec::APFS_TYPE_XATTR {
            match Xattr::parse(rec.key.as_slice(), rec.val.as_slice()) {
                Ok(x) => {
                    let ghost before = xattrs@;
                    xattrs.push(x);
                    proof {
                        assert(xi + (seq![i as int] + parsed_of_type(recs, jrec::APFS_TYPE_XATTR, xok, i + 1)) =~= xi.push(
                            i as int,
                        ) + parsed_of_type(recs, jrec::APFS_TYPE_XATTR, xok, i + 1));
                        assert forall|j: int| 0 <= j < xi.len() + 1 implies 0 <= #[trigger] xi.push(i as int)[j] < recs.len()
                            && xattr_is(xattrs@[j], recs[xi.push(i as int)[j]].0, recs[xi.push(i as int)[j]].1) by {
                            if j < xi.len() {
                                assert(xattrs@[j] == before[j]);
                            }
                        }
                        xi = xi.push(i as int);
                    }
                },
                Err(_) => {},
            }
        }
        if ty == jrec::APFS_TYPE_FILE_EXTENT {
            match FileExtent::parse(rec.key.as_slice(), rec.val.as_slice()) {
                Ok(x) => {
                    extents.push(x);
                    proof {
                        assert(fi + (seq![i as int] + parsed_of_type(recs, jrec::APFS_TYPE_FILE_EXTENT, fok, i + 1)) =~= fi.push(
                            i as int,
                        ) + parsed_of_type(recs, jrec::APFS_TYPE_FILE_EXTENT, fok, i + 1));
                        assert(x == jrec::file_extent_of(recs[i as int].0, recs[i as int].1));
                        assert(fi.push(i as int).map_values(|k: int| jrec::file_extent_of(recs[k].0, recs[k].1)) =~= fi.map_values(
                            |k: int| jrec::file_extent_of(recs[k].0, recs[k].1),
                        ).push(x));
                        fi = fi.push(i as int);
                    }
                },
                Err(_) => {},
            }
        }
        i = i + 1;
    }
    proof {
        assert(xi + Seq::<int>::empty() =~= xi);
        assert(fi + Seq::<int>::empty() =~= fi);
    }
    Ok(StatRecords { kinds, xattrs, extents })
}

} // verus!
