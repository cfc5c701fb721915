//! Path resolution within a volume or snapshot.
//!
//! Resolution walks directory records from the root inode, matching one path
//! component at a time. On case-insensitive volumes a match of the exact name
//! is tried first and a Unicode case-folded match second, so the lookup is
//! not purely bytewise. The legacy `"/<snapshot>/.../path"` form needs no
//! special handling because those components are ordinary nested directories.
use vstd::prelude::*;
use vstd::string::StrSliceExecFns;

use super::btree::{fs_record_loads, fs_records, read_failure, BtreeReader, MAX_FS_RECORDS};
use super::jrec::{dir_rec_is, drec_name_len, dt_text, DirRec, DREC_TYPE_MASK, ROOT_DIR_INO_NUM};
use super::raw::{cstr_text, le_at};
use super::vol::{dir_record_indices, entries_match, Volume};
use super::volume::{APFS_INCOMPAT_CASE_INSENSITIVE, APFS_INCOMPAT_NORMALIZATION_INSENSITIVE};
use crate::device::BlockDevice;
use crate::error::{Error, ErrorKind, Result};
use crate::text;

verus! {

/// Cap on the number of components of a path.
pub const MAX_PATH_COMPONENTS: usize = 4096;

/// Outcome of resolving a path: the FSOID and its directory-entry type name.
#[derive(Debug, Clone)]
pub struct Resolved {
    pub fsoid: u64,
    pub entry_type: String,
}

/// What `char::to_lowercase` makes of `c`: its Unicode lowercase mapping,
/// which may be several characters.
pub uninterp spec fn char_lowercase(c: char) -> Seq<char>;

/// Calls `char::to_lowercase` and collects the characters it yields. Its
/// result is named by [`char_lowercase`]; by std's documentation an ASCII
/// upper-case letter maps to its lower-case letter, every other ASCII
/// character to itself, and every character to one or more characters.
#[verifier::external_body]
fn lowercase_chars(c: char) -> (s: String)
    ensures
        s@ == char_lowercase(c),
        s@.len() >= 1,
        'A' <= c <= 'Z' ==> s@ == seq![((c as u32) + 32) as char],
        (c as u32) < 128 && !('A' <= c <= 'Z') ==> s@ == seq![c],
{
    c.to_lowercase().collect()
}

/// `s` with every character replaced by its lowercase mapping.
pub open spec fn fold_case(s: Seq<char>) -> Seq<char>
    decreases s.len(),
{
    if s.len() == 0 {
        Seq::empty()
    } else {
        fold_case(s.drop_last()) + char_lowercase(s.last())
    }
}

/// The ASCII lowercase of a character: `A`-`Z` to `a`-`z`, everything else
/// unchanged.
pub open spec fn ascii_lower(ch: char) -> char {
    if 'A' <= ch <= 'Z' {
        ((ch as u32) + 32) as char
    } else {
        ch
    }
}

/// Every character of `s` is ASCII.
pub open spec fn all_ascii(s: Seq<char>) -> bool {
    forall|i: int| 0 <= i < s.len() ==> (s[i] as u32) < 128
}

/// Lowercase a string for case-insensitive comparison (Unicode-aware, each
/// character by `char::to_lowercase`): every character gives at least one,
/// and an ASCII string only has `A`-`Z` lowered.
pub fn casefold(s: &str) -> (r: String)
    ensures
        r@ == fold_case(s@),
        r@.len() >= s@.len(),
        all_ascii(s@) ==> r@ == s@.map_values(|ch: char| ascii_lower(ch)),
{
    let n = s.unicode_len();
    let mut out = String::new();
    let mut i: usize = 0;
    while i < n
        invariant
            n == s@.len(),
            i <= n,
            out@ == fold_case(s@.subrange(0, i as int)),
            out@.len() >= i,
            all_ascii(s@) ==> out@ == s@.subrange(0, i as int).map_values(|ch: char| ascii_lower(ch)),
        decreases n - i,
    {
        let c = s.get_char(i);
        let l = lowercase_chars(c);
        let ghost before = out@;
        text::push_str(&mut out, l.as_str());
        proof {
            assert(s@.subrange(0, i + 1).drop_last() =~= s@.subrange(0, i as int));
            if all_ascii(s@) {
                assert((s@[i as int] as u32) < 128);
                assert(l@ =~= seq![ascii_lower(c)]);
                assert(s@.subrange(0, i + 1).map_values(|ch: char| ascii_lower(ch)) =~= s@.subrange(0, i as int).map_values(
                    |ch: char| ascii_lower(ch),
                ).push(ascii_lower(c)));
            }
        }
        i = i + 1;
    }
    proof {
        assert(s@.subrange(0, n as int) =~= s@);
    }
    out
}

/// Splitting the first `n` characters of `s` at `/`: the completed non-empty
/// components, and the component in progress.
pub open spec fn split_prefix(s: Seq<char>, n: nat) -> (Seq<Seq<char>>, Seq<char>)
    decreases n,
{
    if n == 0 {
        (Seq::empty(), Seq::empty())
    } else {
        let (done, cur) = split_prefix(s, (n - 1) as nat);
        if s[n - 1] == '/' {
            (if cur.len() > 0 { done.push(cur) } else { done }, Seq::empty())
        } else {
            (done, cur.push(s[n - 1]))
        }
    }
}

/// The non-empty `/`-separated components of `s`, in order.
pub open spec fn path_components(s: Seq<char>) -> Seq<Seq<char>> {
    let (done, cur) = split_prefix(s, s.len());
    if cur.len() > 0 {
        done.push(cur)
    } else {
        done
    }
}

/// The non-empty `/`-separated components of `path`.
pub fn split_components(path: &str) -> (v: Vec<String>)
    ensures
        v@.len() == path_components(path@).len(),
        forall|k: int| 0 <= k < v@.len() ==> (#[trigger] v@[k])@ == path_components(path@)[k],
{
    let n = path.unicode_len();
    let mut done: Vec<String> = Vec::new();
    let mut cur = String::new();
    let mut i: usize = 0;
    while i < n
        invariant
            n == path@.len(),
            i <= n,
            done@.len() == split_prefix(path@, i as nat).0.len(),
            forall|k: int| 0 <= k < done@.len() ==> (#[trigger] done@[k])@ == split_prefix(path@, i as nat).0[k],
            cur@ == split_prefix(path@, i as nat).1,
        decreases n - i,
    {
        let c = path.get_char(i);
        if c == '/' {
            if cur.unicode_len() > 0 {
                let ghost before = done@;
                let mut taken = String::new();
                std::mem::swap(&mut taken, &mut cur);
                done.push(taken);
                proof {
                    assert forall|k: int| 0 <= k < done@.len() implies (#[trigger] done@[k])@ == split_prefix(
                        path@,
                        (i + 1) as nat,
                    ).0[k] by {
                        if k < before.len() {
                            assert(done@[k] == before[k]);
                        }
                    }
                }
            } else {
                cur = String::new();
            }
        } else {
            cur.push(c);
        }
        i = i + 1;
    }
    if cur.unicode_len() > 0 {
        let ghost before = done@;
        done.push(cur);
        proof {
            assert forall|k: int| 0 <= k < done@.len() implies (#[trigger] done@[k])@ == path_components(path@)[k] by {
                if k < before.len() {
                    assert(done@[k] == before[k]);
                }
            }
        }
    }
    done
}

/// The names of `entries`.
pub open spec fn entry_names(entries: Seq<DirRec>) -> Seq<Seq<char>> {
    entries.map_values(|d: DirRec| d.name@)
}

/// The index of the first name equal to `name` from `i` on.
pub open spec fn first_equal(names: Seq<Seq<char>>, name: Seq<char>, i: int) -> Option<int>
    decreases names.len() - i,
{
    if i >= names.len() {
        None
    } else if names[i] == name {
        Some(i)
    } else {
        first_equal(names, name, i + 1)
    }
}

/// The index of the first name that folds to the same text as `name`, from
/// `i` on.
pub open spec fn first_folded(names: Seq<Seq<char>>, name: Seq<char>, i: int) -> Option<int>
    decreases names.len() - i,
{
    if i >= names.len() {
        None
    } else if fold_case(names[i]) == fold_case(name) {
        Some(i)
    } else {
        first_folded(names, name, i + 1)
    }
}

/// The entry that `name` selects: the first exact match, else, on a
/// case-insensitive volume, the first case-folded match.
pub open spec fn matched_entry(names: Seq<Seq<char>>, name: Seq<char>, case_insensitive: bool) -> Option<int> {
    match first_equal(names, name, 0) {
        Some(i) => Some(i),
        None => if case_insensitive {
            first_folded(names, name, 0)
        } else {
            None
        },
    }
}

/// Find the directory entry matching `name`, preferring an exact match and
/// falling back to a case-folded match on case-insensitive volumes.
fn match_entry(entries: &[DirRec], name: &String, case_insensitive: bool) -> (r: Option<usize>)
    ensures
        r matches Some(i) ==> matched_entry(entry_names(entries@), name@, case_insensitive) == Some(i as int) && i
            < entries@.len(),
        r is None ==> matched_entry(entry_names(entries@), name@, case_insensitive) is None,
{
    let ghost names = entry_names(entries@);
    let mut i: usize = 0;
    while i < entries.len()
        invariant
            names == entry_names(entries@),
            i <= entries@.len(),
            first_equal(names, name@, 0) == first_equal(names, name@, i as int),
        decreases entries@.len() - i,
    {
        if entries[i].name == *name {
            return Some(i);
        }
        i = i + 1;
    }
    if !case_insensitive {
        return None;
    }
    let folded = casefold(name.as_str());
    let mut j: usize = 0;
    while j < entries.len()
        invariant
            names == entry_names(entries@),
            first_equal(names, name@, 0) is None,
            case_insensitive,
            folded@ == fold_case(name@),
            j <= entries@.len(),
            first_folded(names, name@, 0) == first_folded(names, name@, j as int),
        decreases entries@.len() - j,
    {
        let f = casefold(entries[j].name.as_str());
        if f == folded {
            return Some(j);
        }
        j = j + 1;
    }
    None
}


/// The entries of a directory whose records are `recs` and whose directory
/// records sit at `idx`: (name, target FSOID, type name).
pub open spec fn dir_listing(recs: Seq<(Seq<u8>, Seq<u8>)>, idx: Seq<int>) -> Seq<(Seq<char>, u64, Seq<char>)> {
    idx.map_values(
        |i: int|
            (
                cstr_text(recs[i].0.subrange(12, 12 + drec_name_len(recs[i].0))),
                le_at(recs[i].1, 0, 8) as u64,
                dt_text((le_at(recs[i].1, 16, 2) as u16) & DREC_TYPE_MASK),
            ),
    )
}

/// One step of path resolution: the entry named `name` (see
/// [`matched_entry`]) of directory `fsoid`, as (target FSOID, type name);
/// `None` when the directory cannot be listed, has no such entry, or the
/// entry is not a directory although more components follow (`last` false).
pub open spec fn walk_step(
    c: Seq<u8>,
    bs: int,
    omap_root: u64,
    root: u64,
    max_xid: u64,
    name: Seq<char>,
    case_insensitive: bool,
    last: bool,
    fsoid: u64,
) -> Option<(u64, Seq<char>)> {
    match fs_records(c, bs, Some(omap_root), root, fsoid, max_xid) {
        None => None,
        Some(recs) => match dir_record_indices(recs, 0) {
            None => None,
            Some(idx) => {
                let entries = dir_listing(recs, idx);
                match matched_entry(entries.map_values(|e: (Seq<char>, u64, Seq<char>)| e.0), name, case_insensitive) {
                    None => None,
                    Some(j) => if !last && entries[j].2 != "dir"@ {
                        None
                    } else {
                        Some((entries[j].1, entries[j].2))
                    },
                }
            },
        },
    }
}

/// Resolving components `comps[k..]` from directory `fsoid` (whose type name
/// is `ty`): the FSOID and type name reached, or `None` when a step fails.
pub open spec fn walk_path(
    c: Seq<u8>,
    bs: int,
    omap_root: u64,
    root: u64,
    max_xid: u64,
    comps: Seq<Seq<char>>,
    case_insensitive: bool,
    k: int,
    fsoid: u64,
    ty: Seq<char>,
) -> Option<(u64, Seq<char>)>
    decreases comps.len() - k,
{
    if k >= comps.len() {
        Some((fsoid, ty))
    } else {
        match walk_step(c, bs, omap_root, root, max_xid, comps[k], case_insensitive, k + 1 >= comps.len(), fsoid) {
            None => None,
            Some((next, nty)) => walk_path(c, bs, omap_root, root, max_xid, comps, case_insensitive, k + 1, next, nty),
        }
    }
}

/// The typed error of looking `name` up in directory `fsoid` whose listing
/// succeeds: "path not found" when no entry matches, "not a directory" when
/// the entry is not a directory although more components follow; `None`
/// when the step succeeds or the listing itself fails.
pub open spec fn step_error(
    c: Seq<u8>,
    bs: int,
    omap_root: u64,
    root: u64,
    max_xid: u64,
    name: Seq<char>,
    case_insensitive: bool,
    last: bool,
    fsoid: u64,
) -> Option<ErrorKind> {
    match fs_records(c, bs, Some(omap_root), root, fsoid, max_xid) {
        None => None,
        Some(recs) => if recs.len() > MAX_FS_RECORDS {
            None
        } else {
            match dir_record_indices(recs, 0) {
                None => None,
                Some(idx) => {
                    let entries = dir_listing(recs, idx);
                    match matched_entry(entries.map_values(|e: (Seq<char>, u64, Seq<char>)| e.0), name, case_insensitive) {
                        None => Some(ErrorKind::PathNotFound),
                        Some(j) => if !last && entries[j].2 != "dir"@ {
                            Some(ErrorKind::NotADirectory)
                        } else {
                            None
                        },
                    }
                },
            }
        },
    }
}

/// The typed error (see [`step_error`]) of the first step that fails while
/// resolving `comps[k..]` from directory `fsoid`, if the directories listed
/// on the way list successfully.
pub open spec fn walk_error(
    c: Seq<u8>,
    bs: int,
    omap_root: u64,
    root: u64,
    max_xid: u64,
    comps: Seq<Seq<char>>,
    case_insensitive: bool,
    k: int,
    fsoid: u64,
) -> Option<ErrorKind>
    decreases comps.len() - k,
{
    if k >= comps.len() {
        None
    } else {
        match step_error(c, bs, omap_root, root, max_xid, comps[k], case_insensitive, k + 1 >= comps.len(), fsoid) {
            Some(e) => Some(e),
            None => match walk_step(c, bs, omap_root, root, max_xid, comps[k], case_insensitive, k + 1 >= comps.len(), fsoid) {
                None => None,
                Some((next, _)) => walk_error(c, bs, omap_root, root, max_xid, comps, case_insensitive, k + 1, next),
            },
        }
    }
}

/// A walk that fails with a typed error does not resolve.
pub proof fn walk_error_means_no_walk(
    c: Seq<u8>,
    bs: int,
    omap_root: u64,
    root: u64,
    max_xid: u64,
    comps: Seq<Seq<char>>,
    case_insensitive: bool,
    k: int,
    fsoid: u64,
    ty: Seq<char>,
)
    requires
        walk_error(c, bs, omap_root, root, max_xid, comps, case_insensitive, k, fsoid) is Some,
    ensures
        walk_path(c, bs, omap_root, root, max_xid, comps, case_insensitive, k, fsoid, ty) is None,
    decreases comps.len() - k,
{
    if k < comps.len() {
        if step_error(c, bs, omap_root, root, max_xid, comps[k], case_insensitive, k + 1 >= comps.len(), fsoid) is None {
            if let Some((next, nty)) = walk_step(
                c,
                bs,
                omap_root,
                root,
                max_xid,
                comps[k],
                case_insensitive,
                k + 1 >= comps.len(),
                fsoid,
            ) {
                walk_error_means_no_walk(c, bs, omap_root, root, max_xid, comps, case_insensitive, k + 1, next, nty);
            }
        }
    }
}

/// The directory reached by resolving the first `k` components of `comps`
/// from the root, each looked up as it is when resolving all of `comps`;
/// `None` when one of them does not resolve.
pub open spec fn walk_reaches(
    c: Seq<u8>,
    bs: int,
    omap_root: u64,
    root: u64,
    max_xid: u64,
    comps: Seq<Seq<char>>,
    case_insensitive: bool,
    k: int,
) -> Option<u64>
    decreases k,
{
    if k <= 0 {
        Some(ROOT_DIR_INO_NUM)
    } else {
        match walk_reaches(c, bs, omap_root, root, max_xid, comps, case_insensitive, k - 1) {
            None => None,
            Some(f) => match walk_step(c, bs, omap_root, root, max_xid, comps[k - 1], case_insensitive, k >= comps.len(), f) {
                None => None,
                Some((next, _)) => Some(next),
            },
        }
    }
}

proof fn lemma_walk_reaches(
    c: Seq<u8>,
    bs: int,
    omap_root: u64,
    root: u64,
    max_xid: u64,
    comps: Seq<Seq<char>>,
    case_insensitive: bool,
    k: int,
)
    requires
        0 <= k <= comps.len(),
    ensures
        walk_reaches(c, bs, omap_root, root, max_xid, comps, case_insensitive, k) matches Some(d) ==> walk_error(
            c,
            bs,
            omap_root,
            root,
            max_xid,
            comps,
            case_insensitive,
            0,
            ROOT_DIR_INO_NUM,
        ) == walk_error(c, bs, omap_root, root, max_xid, comps, case_insensitive, k, d),
    decreases k,
{
    if k > 0 {
        lemma_walk_reaches(c, bs, omap_root, root, max_xid, comps, case_insensitive, k - 1);
    }
}

/// Resolution fails at the first component that does not resolve: when the
/// first `k` components lead to directory `d`, and component `k` has no
/// entry in `d`'s listing (path not found) or names something other than a
/// directory while more components follow (not a directory), that is the
/// error of resolving the whole path.
pub proof fn resolve_fails_at_component(
    c: Seq<u8>,
    bs: int,
    omap_root: u64,
    root: u64,
    max_xid: u64,
    comps: Seq<Seq<char>>,
    case_insensitive: bool,
    k: int,
    d: u64,
)
    requires
        0 <= k < comps.len(),
        walk_reaches(c, bs, omap_root, root, max_xid, comps, case_insensitive, k) == Some(d),
        step_error(c, bs, omap_root, root, max_xid, comps[k], case_insensitive, k + 1 >= comps.len(), d) is Some,
    ensures
        walk_error(c, bs, omap_root, root, max_xid, comps, case_insensitive, 0, ROOT_DIR_INO_NUM) == step_error(
            c,
            bs,
            omap_root,
            root,
            max_xid,
            comps[k],
            case_insensitive,
            k + 1 >= comps.len(),
            d,
        ),
{
    lemma_walk_reaches(c, bs, omap_root, root, max_xid, comps, case_insensitive, k);
}

/// A bound on the node loads of resolving `comps[k..]` from directory
/// `fsoid`: one directory listing per component.
pub open spec fn walk_loads(
    c: Seq<u8>,
    bs: int,
    omap_root: u64,
    root: u64,
    max_xid: u64,
    comps: Seq<Seq<char>>,
    case_insensitive: bool,
    k: int,
    fsoid: u64,
) -> nat
    decreases comps.len() - k,
{
    if k >= comps.len() {
        0
    } else {
        fs_record_loads(c, bs, Some(omap_root), root, fsoid, max_xid) + match walk_step(
            c,
            bs,
            omap_root,
            root,
            max_xid,
            comps[k],
            case_insensitive,
            k + 1 >= comps.len(),
            fsoid,
        ) {
            None => 0,
            Some((next, _)) => walk_loads(c, bs, omap_root, root, max_xid, comps, case_insensitive, k + 1, next),
        }
    }
}

/// Every directory listed while resolving `comps[k..]` from directory
/// `fsoid` holds at most [`MAX_FS_RECORDS`] records.
pub open spec fn walk_within_cap(
    c: Seq<u8>,
    bs: int,
    omap_root: u64,
    root: u64,
    max_xid: u64,
    comps: Seq<Seq<char>>,
    case_insensitive: bool,
    k: int,
    fsoid: u64,
) -> bool
    decreases comps.len() - k,
{
    k >= comps.len() || ((fs_records(c, bs, Some(omap_root), root, fsoid, max_xid) matches Some(recs) ==> recs.len()
        <= MAX_FS_RECORDS) && match walk_step(
        c,
        bs,
        omap_root,
        root,
        max_xid,
        comps[k],
        case_insensitive,
        k + 1 >= comps.len(),
        fsoid,
    ) {
        None => true,
        Some((next, _)) => walk_within_cap(c, bs, omap_root, root, max_xid, comps, case_insensitive, k + 1, next),
    })
}

/// The case-insensitivity of a volume whose incompatible features are
/// `incompat`.
pub open spec fn insensitive(incompat: u64) -> bool {
    incompat & APFS_INCOMPAT_CASE_INSENSITIVE != 0 || incompat & APFS_INCOMPAT_NORMALIZATION_INSENSITIVE != 0
}

/// One resolution step: look `component` up in directory `fsoid`.
fn resolve_step<D: BlockDevice + ?Sized>(
    vol: &Volume<'_, D>,
    bt: &mut BtreeReader<'_, D>,
    fsoid: u64,
    component: &String,
    case_insensitive: bool,
    last: bool,
) -> (r: Result<(u64, String)>)
    requires
        old(bt).wf(),
    ensures
        final(bt).wf(),
        final(bt).same_source(old(bt)),
        r matches Err(e) ==> read_failure(e.kind) || e.kind == ErrorKind::PathNotFound || e.kind == ErrorKind::NotADirectory,
        r matches Err(e) ==> ((e.kind == ErrorKind::PathNotFound || e.kind == ErrorKind::NotADirectory) ==> step_error(
            old(bt).source(),
            old(bt).bsize(),
            vol.omap_tree_root,
            vol.root_tree_root,
            vol.max_xid,
            component@,
            case_insensitive,
            last,
            fsoid,
        ) == Some(e.kind)),
        r matches Ok((next, ty)) ==> walk_step(
            old(bt).source(),
            old(bt).bsize(),
            vol.omap_tree_root,
            vol.root_tree_root,
            vol.max_xid,
            component@,
            case_insensitive,
            last,
            fsoid,
        ) == Some((next, ty@)),
        walk_step(
            old(bt).source(),
            old(bt).bsize(),
            vol.omap_tree_root,
            vol.root_tree_root,
            vol.max_xid,
            component@,
            case_insensitive,
            last,
            fsoid,
        ) is None ==> r is Err,
        old(bt).loads_left() - fs_record_loads(old(bt).source(), old(bt).bsize(), Some(vol.omap_tree_root), vol.root_tree_root, fsoid, vol.max_xid)
            <= final(bt).loads_left() <= old(bt).loads_left(),
        final(bt).reliable() == old(bt).reliable(),
        old(bt).reliable() && old(bt).loads_left() >= fs_record_loads(
            old(bt).source(),
            old(bt).bsize(),
            Some(vol.omap_tree_root),
            vol.root_tree_root,
            fsoid,
            vol.max_xid,
        ) ==> {
            &&& step_error(
                old(bt).source(),
                old(bt).bsize(),
                vol.omap_tree_root,
                vol.root_tree_root,
                vol.max_xid,
                component@,
                case_insensitive,
                last,
                fsoid,
            ) matches Some(kind) ==> (r matches Err(e) && e.kind == kind)
            &&& (fs_records(old(bt).source(), old(bt).bsize(), Some(vol.omap_tree_root), vol.root_tree_root, fsoid, vol.max_xid)
                matches Some(recs) && recs.len() <= MAX_FS_RECORDS && walk_step(
                old(bt).source(),
                old(bt).bsize(),
                vol.omap_tree_root,
                vol.root_tree_root,
                vol.max_xid,
                component@,
                case_insensitive,
                last,
                fsoid,
            ) is Some) ==> r is Ok
        },
{
    let ghost c = old(bt).source();
    let ghost bs = old(bt).bsize();
    let entries = vol.list_dir(bt, fsoid)?;
    let ghost recs = fs_records(c, bs, Some(vol.omap_tree_root), vol.root_tree_root, fsoid, vol.max_xid)->0;
    let ghost idx = dir_record_indices(recs, 0)->0;
    let ghost listing = dir_listing(recs, idx);
    proof {
        assert(entry_names(entries@) =~= listing.map_values(|e: (Seq<char>, u64, Seq<char>)| e.0)) by {
            assert forall|k: int| 0 <= k < entries@.len() implies entry_names(entries@)[k] == listing.map_values(
                |e: (Seq<char>, u64, Seq<char>)| e.0,
            )[k] by {
                assert(entries_match(entries@, idx, recs));
                assert(dir_rec_is(entries@[k], recs[idx[k]].0, recs[idx[k]].1));
            }
        }
    }
    let j = match match_entry(entries.as_slice(), component, case_insensitive) {
        Some(j) => j,
        None => {
            let mut m = String::from_str("no entry `");
            text::push_str(&mut m, component.as_str());
            text::push_str(&mut m, "` under FSOID ");
            text::push_str(&mut m, text::hex_prefixed(fsoid).as_str());
            return Err(Error::new(ErrorKind::PathNotFound, m));
        },
    };
    let matched = &entries[j];
    let ty = matched.entry_type();
    proof {
        assert(entries_match(entries@, idx, recs));
        assert(dir_rec_is(entries@[j as int], recs[idx[j as int]].0, recs[idx[j as int]].1));
    }
    let dir_lit = String::from_str("dir");
    let ty_string = String::from_str(ty);
    if !last && ty_string != dir_lit {
        let mut m = String::from_str("`");
        text::push_str(&mut m, component.as_str());
        text::push_str(&mut m, "` is a ");
        text::push_str(&mut m, ty);
        text::push_str(&mut m, ", not a directory");
        return Err(Error::new(ErrorKind::NotADirectory, m));
    }
    Ok((matched.file_id, ty_string))
}

/// Resolve `path` (absolute, `/`-separated) to an FSOID starting at the
/// volume root. Returns a structured error identifying why resolution failed.
pub fn resolve<D: BlockDevice + ?Sized>(vol: &Volume<'_, D>, bt: &mut BtreeReader<'_, D>, path: &str) -> (r: Result<Resolved>)
    requires
        old(bt).wf(),
    ensures
        final(bt).wf(),
        final(bt).same_source(old(bt)),
        (path@.len() == 0 || path@[0] != '/') ==> (r matches Err(e) && e.kind == ErrorKind::Usage),
        (path@.len() > 0 && path@[0] == '/' && path_components(path@).len() == 0) ==> (r matches Ok(res) && res.fsoid
            == ROOT_DIR_INO_NUM && res.entry_type@ == "dir"@),
        r matches Err(e) ==> e.kind == ErrorKind::Usage || read_failure(e.kind) || e.kind == ErrorKind::PathNotFound
            || e.kind == ErrorKind::NotADirectory,
        r matches Err(e) ==> (e.kind == ErrorKind::Usage ==> (path@.len() == 0 || path@[0] != '/' || path_components(
            path@,
        ).len() > MAX_PATH_COMPONENTS)),
        r matches Err(e) ==> ((e.kind == ErrorKind::PathNotFound || e.kind == ErrorKind::NotADirectory) ==> walk_error(
            old(bt).source(),
            old(bt).bsize(),
            vol.omap_tree_root,
            vol.root_tree_root,
            vol.max_xid,
            path_components(path@),
            insensitive(vol.apsb.incompatible_features),
            0,
            ROOT_DIR_INO_NUM,
        ) == Some(e.kind)),
        (path@.len() > 0 && path@[0] == '/' && path_components(path@).len() <= MAX_PATH_COMPONENTS) ==> (walk_error(
            old(bt).source(),
            old(bt).bsize(),
            vol.omap_tree_root,
            vol.root_tree_root,
            vol.max_xid,
            path_components(path@),
            insensitive(vol.apsb.incompatible_features),
            0,
            ROOT_DIR_INO_NUM,
        ) matches Some(kind) ==> (r matches Err(e) && (e.kind == kind || read_failure(e.kind)))),
        (path@.len() > 0 && path@[0] == '/' && path_components(path@).len() > MAX_PATH_COMPONENTS) ==> (r matches Err(e)
            && e.kind == ErrorKind::Usage),
        r matches Ok(res) ==> {
            &&& path@.len() > 0 && path@[0] == '/'
            &&& path_components(path@).len() <= MAX_PATH_COMPONENTS
            &&& walk_path(
                old(bt).source(),
                old(bt).bsize(),
                vol.omap_tree_root,
                vol.root_tree_root,
                vol.max_xid,
                path_components(path@),
                insensitive(vol.apsb.incompatible_features),
                0,
                ROOT_DIR_INO_NUM,
                "dir"@,
            ) == Some((res.fsoid, res.entry_type@))
        },
        (path@.len() > 0 && path@[0] == '/' && walk_path(
            old(bt).source(),
            old(bt).bsize(),
            vol.omap_tree_root,
            vol.root_tree_root,
            vol.max_xid,
            path_components(path@),
            insensitive(vol.apsb.incompatible_features),
            0,
            ROOT_DIR_INO_NUM,
            "dir"@,
        ) is None) ==> r is Err,
        final(bt).reliable() == old(bt).reliable(),
        (path@.len() > 0 && path@[0] == '/' && path_components(path@).len() <= MAX_PATH_COMPONENTS) ==> old(bt).loads_left()
            - walk_loads(
            old(bt).source(),
            old(bt).bsize(),
            vol.omap_tree_root,
            vol.root_tree_root,
            vol.max_xid,
            path_components(path@),
            insensitive(vol.apsb.incompatible_features),
            0,
            ROOT_DIR_INO_NUM,
        ) <= final(bt).loads_left(),
        (path@.len() > 0 && path@[0] == '/' && path_components(path@).len() <= MAX_PATH_COMPONENTS && old(bt).reliable()
            && old(bt).loads_left() >= walk_loads(
            old(bt).source(),
            old(bt).bsize(),
            vol.omap_tree_root,
            vol.root_tree_root,
            vol.max_xid,
            path_components(path@),
            insensitive(vol.apsb.incompatible_features),
            0,
            ROOT_DIR_INO_NUM,
        ) && walk_within_cap(
            old(bt).source(),
            old(bt).bsize(),
            vol.omap_tree_root,
            vol.root_tree_root,
            vol.max_xid,
            path_components(path@),
            insensitive(vol.apsb.incompatible_features),
            0,
            ROOT_DIR_INO_NUM,
        )) ==> {
            &&& walk_path(
                old(bt).source(),
                old(bt).bsize(),
                vol.omap_tree_root,
                vol.root_tree_root,
                vol.max_xid,
                path_components(path@),
                insensitive(vol.apsb.incompatible_features),
                0,
                ROOT_DIR_INO_NUM,
                "dir"@,
            ) is Some ==> r is Ok
            &&& walk_error(
                old(bt).source(),
                old(bt).bsize(),
                vol.omap_tree_root,
                vol.root_tree_root,
                vol.max_xid,
                path_components(path@),
                insensitive(vol.apsb.incompatible_features),
                0,
                ROOT_DIR_INO_NUM,
            ) matches Some(kind) ==> (r matches Err(e) && e.kind == kind)
        },
{
    let ghost c = old(bt).source();
    let ghost bs = old(bt).bsize();
    if path.unicode_len() == 0 || path.get_char(0) != '/' {
        return Err(Error::new(ErrorKind::Usage, String::from_str("path must be absolute (start with `/`)")));
    }
    let mut fsoid = ROOT_DIR_INO_NUM;
    let mut entry_type = String::from_str("dir");
    let case_insensitive = vol.apsb.is_case_insensitive() || vol.apsb.is_normalization_insensitive();
    let components = split_components(path);
    let ghost comps = path_components(path@);
    if components.len() > MAX_PATH_COMPONENTS {
        return Err(Error::new(ErrorKind::Usage, String::from_str("path has too many components")));
    }
    let ghost l0 = bt.loads_left();
    let ghost ci = case_insensitive;
    let ghost om = vol.omap_tree_root;
    let ghost rt = vol.root_tree_root;
    let ghost mx = vol.max_xid;
    let mut i: usize = 0;
    while i < components.len()
        invariant
            bt.wf(),
            bt.source() == c,
            bt.bsize() == bs,
            bt.reliable() == old(bt).reliable(),
            l0 == old(bt).loads_left(),
            om == vol.omap_tree_root,
            rt == vol.root_tree_root,
            mx == vol.max_xid,
            ci == case_insensitive,
            l0 - bt.loads_left() + walk_loads(c, bs, om, rt, mx, comps, ci, i as int, fsoid) <= walk_loads(
                c,
                bs,
                om,
                rt,
                mx,
                comps,
                ci,
                0,
                ROOT_DIR_INO_NUM,
            ),
            walk_within_cap(c, bs, om, rt, mx, comps, ci, 0, ROOT_DIR_INO_NUM) ==> walk_within_cap(
                c,
                bs,
                om,
                rt,
                mx,
                comps,
                ci,
                i as int,
                fsoid,
            ),
            walk_error(c, bs, om, rt, mx, comps, ci, 0, ROOT_DIR_INO_NUM) == walk_error(
                c,
                bs,
                om,
                rt,
                mx,
                comps,
                ci,
                i as int,
                fsoid,
            ),
            c == old(bt).source(),
            bs == old(bt).bsize(),
            path@.len() > 0 && path@[0] == '/',
            comps == path_components(path@),
            comps.len() <= MAX_PATH_COMPONENTS,
            components@.len() == comps.len(),
            forall|k: int| 0 <= k < components@.len() ==> (#[trigger] components@[k])@ == comps[k],
            case_insensitive == insensitive(vol.apsb.incompatible_features),
            i <= components@.len(),
            walk_path(c, bs, vol.omap_tree_root, vol.root_tree_root, vol.max_xid, comps, case_insensitive, 0, ROOT_DIR_INO_NUM, "dir"@)
                == walk_path(c, bs, vol.omap_tree_root, vol.root_tree_root, vol.max_xid, comps, case_insensitive, i as int, fsoid, entry_type@),
        decreases components@.len() - i,
    {
        let last = i + 1 == components.len();
        let (next, ty) = resolve_step(vol, bt, fsoid, &components[i], case_insensitive, last)?;
        fsoid = next;
        entry_type = ty;
        i = i + 1;
    }
    Ok(Resolved { fsoid, entry_type })
}

} // verus!
