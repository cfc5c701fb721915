//! Decisions shared by the command-line commands: which container and volume
//! to open, and how names and paths are formed.
use vstd::prelude::*;
use vstd::string::StrSliceExecFns;

use crate::apfs::btree::{omap_lookup, BtreeReader, Lookup, MAX_NODE_DESCENT, MAX_NODE_LOADS};
use crate::apfs::container::{volume_slots, Container};
use crate::apfs::raw::{cstr_text, le_at};
use crate::apfs::volume::{apsb_matches, APFS_MAGIC, APSB_PARSE_LEN};
use crate::apfs::snapshot::{self, SnapshotInfo};
use crate::apfs::vol::{superblock_opens, volume_omap_tree, Volume};
use crate::cli::Options;
use crate::device::{block_bytes, device_failure, BlockDevice, OffsetDevice};
use crate::error::{Error, ErrorKind, Result};
use crate::source::{OpenOptions, OpenedImage};
use crate::text;

verus! {

/// Require `--container`.
pub fn require_container(opts: &Options) -> (r: Result<String>)
    ensures
        match opts.container {
            Some(c) => r matches Ok(p) && p@ == c@,
            None => r matches Err(e) && e.kind == ErrorKind::Usage,
        },
{
    match &opts.container {
        Some(c) => Ok(c.clone()),
        None => Err(Error::new(ErrorKind::Usage, String::from_str("`--container` is required"))),
    }
}

/// Build [`OpenOptions`] from parsed options.
pub fn open_options(opts: &Options) -> (r: Result<OpenOptions>)
    ensures
        match opts.container {
            Some(c) => r matches Ok(o) && o.container_path@ == c@ && o.partition == opts.partition && o.offset
                == opts.offset && o.max_xid == opts.max_xid,
            None => r matches Err(e) && e.kind == ErrorKind::Usage,
        },
{
    Ok(
        OpenOptions {
            container_path: require_container(opts)?,
            partition: opts.partition,
            offset: opts.offset,
            max_xid: opts.max_xid,
        },
    )
}

/// The volume name stored in a volume-superblock block.
pub open spec fn volume_name_of(b: Seq<u8>) -> Seq<char> {
    cstr_text(b.subrange(704, 960))
}

/// The index of the first listed volume from `k` on whose name is `name`.
pub open spec fn first_volume_named(s: Seq<(int, Seq<u8>)>, name: Seq<char>, k: int) -> Option<int>
    decreases s.len() - k,
{
    if k >= s.len() {
        None
    } else if volume_name_of(s[k].1) == name {
        Some(s[k].0)
    } else {
        first_volume_named(s, name, k + 1)
    }
}

/// The volumes listed in a container.
pub open spec fn listed_volumes<D: BlockDevice>(k: &Container<D>) -> Option<Seq<(int, Seq<u8>)>> {
    volume_slots(k.dev.contents(), k.block_size as int, k.nx_omap_tree_root, k.nx.fs_oids@, k.nx.xid, 0)
}

/// The 1-based volume index that `opts` selects in `opened`: `--volume`
/// when given (volume 0 selects none), else the first volume named by
/// `--volume-name`.
pub open spec fn selected_volume<D: BlockDevice + ?Sized>(opened: &OpenedImage<'_, D>, opts: &Options) -> Option<int> {
    match opts.volume {
        Some(i) => if i == 0 {
            None
        } else {
            Some(i as int)
        },
        None => match opts.volume_name {
            Some(name) => match listed_volumes(&opened.container) {
                Some(s) => first_volume_named(s, name@, 0),
                None => None,
            },
            None => None,
        },
    }
}

/// Resolve the requested volume index, honouring `--volume-name`.
pub fn resolve_volume_index<D: BlockDevice + ?Sized>(opened: &OpenedImage<'_, D>, opts: &Options) -> (r: Result<u32>)
    requires
        opened.container.wf(),
    ensures
        opts.volume == Some(0u32) ==> (r matches Err(e) && e.kind == ErrorKind::Usage),
        (opts.volume matches Some(i) && i != 0) ==> r == Ok::<u32, Error>(opts.volume->0),
        (opts.volume is None && opts.volume_name is None) ==> (r matches Err(e) && e.kind == ErrorKind::Usage),
        opts.volume is None ==> (opts.volume_name matches Some(name) ==> {
            &&& r matches Ok(i) ==> (listed_volumes(&opened.container) matches Some(s) && first_volume_named(s, name@, 0)
                == Some(i as int))
            &&& listed_volumes(&opened.container) is None ==> r is Err
            &&& (listed_volumes(&opened.container) matches Some(s) && first_volume_named(s, name@, 0) is None) ==> (r matches Err(
                e,
            ) && (e.kind == ErrorKind::Usage || device_failure(e.kind) || e.kind == ErrorKind::Corrupt))
            &&& (listed_volumes(&opened.container) matches Some(s) && first_volume_named(s, name@, 0) is None
                && !opened.container.dev.fallible()) ==> (r matches Err(e) && e.kind == ErrorKind::Usage)
        }),
        r matches Ok(i) ==> selected_volume(opened, opts) == Some(i as int),
        (opts.volume is Some || !opened.container.dev.fallible()) && selected_volume(opened, opts) is Some ==> r is Ok,
{
    if let Some(idx) = opts.volume {
        if idx == 0 {
            return Err(
                Error::new(
                    ErrorKind::Usage,
                    String::from_str("volume 0 is invalid for filesystem commands (volumes are 1-based)"),
                ),
            );
        }
        return Ok(idx);
    }
    match &opts.volume_name {
        Some(name) => {
            let slots = opened.container.list_volumes()?;
            let ghost s = listed_volumes(&opened.container)->0;
            let mut k: usize = 0;
            while k < slots.len()
                invariant
                    crate::apfs::container::slots_match(slots@, s),
                    listed_volumes(&opened.container) == Some(s),
                    k <= slots@.len(),
                    opts.volume is None,
                    opts.volume_name == Some(*name),
                    first_volume_named(s, name@, 0) == first_volume_named(s, name@, k as int),
                decreases slots@.len() - k,
            {
                proof {
                    assert(slots@[k as int].index == s[k as int].0);
                }
                if slots[k].apsb.volname == *name {
                    return Ok(slots[k].index);
                }
                k = k + 1;
            }
            let mut m = String::from_str("no volume named `");
            text::push_str(&mut m, name.as_str());
            text::push_str(&mut m, "`");
            Err(Error::new(ErrorKind::Usage, m))
        },
        None => Err(
            Error::new(ErrorKind::Usage, String::from_str("`--volume <index>` (or `--volume-name <name>`) is required")),
        ),
    }
}

/// The snapshot a request names among the snapshots `l`: by xid when one is
/// given, else by name.
pub open spec fn requested_snapshot(l: Seq<(u64, Seq<u8>)>, opts: Options) -> Option<int> {
    match opts.snapshot_xid {
        Some(x) => snapshot::first_with_xid(l, x, 0),
        None => match opts.snapshot {
            Some(n) => snapshot::first_named(l, n@, 0),
            None => None,
        },
    }
}

/// The volume whose superblock is `b` lists its snapshots within the node
/// budget of one reader, the requested snapshot is among them, and the
/// superblock it captured opens through the live object map.
pub open spec fn snapshot_opens(c: Seq<u8>, bs: int, b: Seq<u8>, opts: Options) -> bool {
    let omap = volume_omap_tree(c, bs, le_at(b, 128, 8) as u64)->0;
    let xid = le_at(b, 16, 8) as u64;
    let tree_oid = le_at(b, 152, 8) as u64;
    let tree_type = le_at(b, 124, 4) as u32;
    &&& snapshot::snapshot_list_loads(c, bs, tree_oid, tree_type, omap, xid) + MAX_NODE_DESCENT <= MAX_NODE_LOADS
    &&& snapshot::snapshot_list(c, bs, tree_oid, tree_type, omap, xid) matches Some(l) && requested_snapshot(l, opts)
        matches Some(k) && block_bytes(c, le_at(l[k].1, 8, 8) as int, bs) matches Some(sb) && sb.len()
        >= APSB_PARSE_LEN && le_at(sb, 32, 4) == APFS_MAGIC && omap_lookup(c, bs, omap, le_at(sb, 136, 8) as u64, l[k].0)
        is Found
}

/// `v` (with snapshot `s`) is a view that opening the volume `opts`
/// selects on `opened` can give: the selected live volume, or the requested
/// snapshot of it.
pub open spec fn view_opened<'a, 'i, D: BlockDevice + ?Sized>(
    opened: &'a OpenedImage<'i, D>,
    opts: &Options,
    v: Volume<'a, OffsetDevice<'i, D>>,
    s: Option<SnapshotInfo>,
) -> bool {
    &&& v.wf()
    &&& v.dev == &opened.container.dev
    &&& v.block_size == opened.container.block_size
    &&& selected_volume(opened, opts) is Some
    &&& opened.container.volume_block(selected_volume(opened, opts)->0) matches Some(b) && volume_omap_tree(
        opened.container.dev.contents(),
        opened.container.block_size as int,
        le_at(b, 128, 8) as u64,
    ) == Some(v.omap_tree_root)
    &&& omap_lookup(
        opened.container.dev.contents(),
        opened.container.block_size as int,
        v.omap_tree_root,
        v.apsb.root_tree_oid,
        v.max_xid,
    ) matches Lookup::Found(e) && v.root_tree_root == e.val.paddr
    &&& match s {
        None => {
            &&& opts.snapshot is None && opts.snapshot_xid is None && v.max_xid == v.apsb.xid
            &&& opened.container.volume_block(selected_volume(opened, opts)->0) matches Some(b) && apsb_matches(
                v.apsb,
                b,
            )
        },
        Some(snap) => {
            &&& block_bytes(opened.container.dev.contents(), snap.sblock_oid as int, opened.container.block_size as int)
                matches Some(b) && apsb_matches(v.apsb, b)
            &&& v.max_xid == snap.xid
            &&& match opts.snapshot_xid {
                Some(x) => snap.xid == x,
                None => opts.snapshot matches Some(n) && snap.name@ == n@,
            }
        },
    }
}

/// Opening the volume `opts` selects on `opened` succeeds when no read
/// fails: the selected volume's superblock opens, and so does the requested
/// snapshot, if any.
pub open spec fn view_opens<'i, D: BlockDevice + ?Sized>(opened: &OpenedImage<'i, D>, opts: &Options) -> bool {
    &&& selected_volume(opened, opts) matches Some(i) && opened.container.volume_block(i) matches Some(b)
        && superblock_opens(opened.container.dev.contents(), opened.container.block_size as int, b)
        && ((opts.snapshot is Some || opts.snapshot_xid is Some) ==> snapshot_opens(
        opened.container.dev.contents(),
        opened.container.block_size as int,
        b,
        *opts,
    ))
}

/// Open a volume view: the live volume, or a snapshot of it when
/// `--snapshot`/`--snapshot-xid` is given (the xid wins).
#[verifier::rlimit(60)]
pub fn open_volume_view<'a, 'i, D: BlockDevice + ?Sized>(opened: &'a OpenedImage<'i, D>, opts: &Options) -> (r: Result<
    (Volume<'a, OffsetDevice<'i, D>>, Option<SnapshotInfo>),
>)
    requires
        opened.container.wf(),
    ensures
        opts.volume == Some(0u32) ==> (r matches Err(e) && e.kind == ErrorKind::Usage),
        (opts.volume is None && opts.volume_name is None) ==> (r matches Err(e) && e.kind == ErrorKind::Usage),
        r matches Ok((v, s)) ==> view_opened(opened, opts, v, s),
        !opened.container.dev.fallible() && view_opens(opened, opts) ==> r is Ok,
{
    let index = resolve_volume_index(opened, opts)?;
    let live = Volume::open(&opened.container, index)?;
    if opts.snapshot.is_none() && opts.snapshot_xid.is_none() {
        return Ok((live, None));
    }
    let mut bt = live.btree();
    let snap = match opts.snapshot_xid {
        Some(xid) => snapshot::find_by_xid(&live, &mut bt, xid)?,
        None => match &opts.snapshot {
            Some(name) => snapshot::find_by_name(&live, &mut bt, name.as_str())?,
            None => {
                return Err(Error::new(ErrorKind::Usage, String::from_str("no snapshot selected")));
            },
        },
    };
    let view = snapshot::open_snapshot(&live, &mut bt, &snap)?;
    Ok((view, Some(snap)))
}

/// `base` joined with `name` by a single `/` (none added when `base` already
/// ends with one).
pub open spec fn joined(base: Seq<char>, name: Seq<char>) -> Seq<char> {
    if base.len() > 0 && base.last() == '/' {
        base + name
    } else {
        base + seq!['/'] + name
    }
}

/// Join a listing's base path and an entry name.
pub fn join_path(base: &str, name: &str) -> (s: String)
    ensures
        s@ == joined(base@, name@),
{
    let n = base.unicode_len();
    let mut s = String::new();
    text::push_str(&mut s, base);
    if !(n > 0 && base.get_char(n - 1) == '/') {
        s.push('/');
    }
    text::push_str(&mut s, name);
    assert(s@ =~= joined(base@, name@));
    s
}

/// A name that can safely be created inside a destination directory: not
/// empty, `.` or `..`, and holding no `/` or NUL.
pub open spec fn safe_name(name: Seq<char>) -> bool {
    &&& name.len() > 0
    &&& name != seq!['.']
    &&& name != seq!['.', '.']
    &&& !name.contains('/')
    &&& !name.contains('\0')
}

/// Reject empty, `.` and `..` names and names holding a path separator or
/// NUL.
pub fn is_safe_name(name: &str) -> (r: bool)
    ensures
        r == safe_name(name@),
{
    let n = name.unicode_len();
    if n == 0 {
        return false;
    }
    if n == 1 && name.get_char(0) == '.' {
        assert(name@ =~= seq!['.']);
        return false;
    }
    if n == 2 && name.get_char(0) == '.' && name.get_char(1) == '.' {
        assert(name@ =~= seq!['.', '.']);
        return false;
    }
    let mut i: usize = 0;
    while i < n
        invariant
            n == name@.len(),
            i <= n,
            forall|j: int| 0 <= j < i ==> name@[j] != '/' && name@[j] != '\0',
        decreases n - i,
    {
        let c = name.get_char(i);
        if c == '/' || c == '\0' {
            return false;
        }
        i = i + 1;
    }
    proof {
        if n == 1 {
            assert(name@ != seq!['.']) by {
                if name@ == seq!['.'] {
                    assert(name@[0] == '.');
                }
            }
        }
        if n == 2 {
            assert(name@ != seq!['.', '.']) by {
                if name@ == seq!['.', '.'] {
                    assert(name@[0] == '.' && name@[1] == '.');
                }
            }
        }
    }
    true
}

/// The recoverability hint of a listed entry: nothing on an encrypted
/// volume, data for files and folders, only metadata for anything else.
pub open spec fn hint_text(encrypted: bool, entry_type: Seq<char>) -> Seq<char> {
    if encrypted {
        "encrypted"@
    } else if entry_type == "file"@ || entry_type == "dir"@ {
        "ok"@
    } else {
        "metadata-only"@
    }
}

/// The recoverability hint shown for a listed entry of type `entry_type`.
pub fn recoverable_hint(encrypted: bool, entry_type: &str) -> (r: &'static str)
    ensures
        r@ == hint_text(encrypted, entry_type@),
{
    proof {
        reveal_strlit("encrypted");
        reveal_strlit("ok");
        reveal_strlit("metadata-only");
        reveal_strlit("file");
        reveal_strlit("dir");
    }
    if encrypted {
        "encrypted"
    } else if same_text(entry_type, "file") || same_text(entry_type, "dir") {
        "ok"
    } else {
        "metadata-only"
    }
}

/// `a` and `b` hold the same text.
pub(crate) fn same_text(a: &str, b: &str) -> (r: bool)
    ensures
        r == (a@ == b@),
{
    let n = a.unicode_len();
    if n != b.unicode_len() {
        return false;
    }
    let mut i: usize = 0;
    while i < n
        invariant
            n == a@.len() == b@.len(),
            i <= n,
            forall|k: int| 0 <= k < i ==> a@[k] == b@[k],
        decreases n - i,
    {
        if a.get_char(i) != b.get_char(i) {
            return false;
        }
        i = i + 1;
    }
    assert(a@ =~= b@);
    true
}

} // verus!
