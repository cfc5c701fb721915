//! Structural integrity checks run before recovery: the container opened at
//! a checkpoint, block 0 and the container object-map root carry valid
//! checksums, and for a selected volume its superblock magic, its filesystem
//! root and, optionally, the readability of one file's extents.
use vstd::prelude::*;

use crate::apfs::btree::{fs_record_loads, fs_records, omap_lookup, records_view, Lookup, Record, MAX_FS_RECORDS, MAX_NODE_LOADS};
use crate::apfs::checksum::{self, valid_block};
use crate::apfs::container::Container;
use crate::apfs::jrec::{self, file_extent_of, file_extent_parses, key_type, FileExtent};
use crate::apfs::jrec::ROOT_DIR_INO_NUM;
use crate::apfs::raw::le_at;
use crate::apfs::path::{self, insensitive, path_components, walk_loads, walk_path, walk_within_cap, MAX_PATH_COMPONENTS};
use crate::apfs::vol::{volume_omap_tree, Volume};
use crate::apfs::volume::APFS_MAGIC;
use crate::cli::Options;
use crate::commands::{open_volume_view, selected_volume, view_opened, view_opens};
use crate::device::{block_bytes, BlockDevice};
use crate::error::{display_text, Error, ErrorKind, Result};
use crate::apfs::snapshot::SnapshotInfo;
use crate::device::OffsetDevice;
use crate::source::OpenedImage;
use crate::text;

verus! {

/// One structural check: its name, whether it passed, and a detail.
#[derive(Debug, Clone)]
pub struct Check {
    pub name: String,
    pub ok: bool,
    pub detail: Option<String>,
}

/// A check as plain values.
pub open spec fn check_view(c: Check) -> (Seq<char>, bool, Option<Seq<char>>) {
    (
        c.name@,
        c.ok,
        match c.detail {
            Some(d) => Some(d@),
            None => None,
        },
    )
}

/// The checks as plain values.
pub open spec fn checks_view(s: Seq<Check>) -> Seq<(Seq<char>, bool, Option<Seq<char>>)> {
    s.map_values(|c: Check| check_view(c))
}

fn check(name: &str, ok: bool, detail: Option<String>) -> (c: Check)
    ensures
        c.name@ == name@,
        c.ok == ok,
        c.detail == detail,
{
    Check { name: String::from_str(name), ok, detail }
}

/// Every check passed.
pub fn all_passed(checks: &[Check]) -> (r: bool)
    ensures
        r == forall|j: int| 0 <= j < checks@.len() ==> (#[trigger] checks@[j]).ok,
{
    let mut i: usize = 0;
    while i < checks.len()
        invariant
            i <= checks@.len(),
            forall|j: int| 0 <= j < i ==> (#[trigger] checks@[j]).ok,
        decreases checks@.len() - i,
    {
        if !checks[i].ok {
            return false;
        }
        i = i + 1;
    }
    true
}

/// The block `block` of a device holding `c` (blocks of `bs` bytes) is
/// present and carries a valid checksum.
pub open spec fn block_checks_out(c: Seq<u8>, block: u64, bs: int) -> bool {
    block_bytes(c, block as int, bs) matches Some(b) && valid_block(b)
}

/// The container checks of `container`, as plain values.
pub open spec fn container_checks_view<D: BlockDevice>(container: &Container<D>) -> Seq<
    (Seq<char>, bool, Option<Seq<char>>),
> {
    let c = container.dev.contents();
    let bs = container.block_size as int;
    seq![
        ("container_open"@, true, Some("checkpoint xid "@ + seq!['0', 'x'] + text::hex_digits(container.checkpoint_xid as nat, false))),
        ("block0_checksum"@, block_checks_out(c, 0, bs), None::<Seq<char>>),
        ("container_omap_root"@, block_checks_out(c, container.nx_omap_tree_root, bs), None),
    ]
}

/// The container checks of `verify` validate checksums, not mere
/// readability: the `block0_checksum` check passes exactly when block 0 is
/// on the device and its stored Fletcher-64 checksum matches its contents,
/// and the `container_omap_root` check exactly when the same holds of the
/// block at the container object map's tree root.
pub proof fn container_checks_validate_checksums<D: BlockDevice>(container: &Container<D>)
    ensures
        ({
            let v = container_checks_view(container);
            let c = container.dev.contents();
            let bs = container.block_size as int;
            &&& v.len() == 3
            &&& v[1].0 == "block0_checksum"@
            &&& v[1].1 == (block_bytes(c, 0, bs) matches Some(b) && valid_block(b))
            &&& v[2].0 == "container_omap_root"@
            &&& v[2].1 == (block_bytes(c, container.nx_omap_tree_root as int, bs) matches Some(b) && valid_block(b))
        }),
{
}

/// The checks of an opened container: that it opened (noting the
/// checkpoint xid), and the checksums of block 0 and of the container
/// object-map root.
pub fn container_checks<D: BlockDevice>(container: &Container<D>) -> (r: Result<Vec<Check>>)
    requires
        container.wf(),
    ensures
        r matches Ok(v) ==> {
            let c = container.dev.contents();
            let bs = container.block_size as int;
            &&& checks_view(v@) == container_checks_view(container)
            &&& block_bytes(c, 0, bs) is Some && block_bytes(c, container.nx_omap_tree_root as int, bs) is Some
            &&& v@.len() == 3
            &&& v@[1].ok == valid_block(block_bytes(c, 0, bs)->0)
            &&& v@[2].ok == valid_block(block_bytes(c, container.nx_omap_tree_root as int, bs)->0)
        },
        block_bytes(container.dev.contents(), 0, container.block_size as int) is None || block_bytes(
            container.dev.contents(),
            container.nx_omap_tree_root as int,
            container.block_size as int,
        ) is None ==> r is Err,
        !container.dev.fallible() && block_bytes(container.dev.contents(), 0, container.block_size as int) is Some
            && block_bytes(container.dev.contents(), container.nx_omap_tree_root as int, container.block_size as int)
            is Some ==> r is Ok,
{
    let mut checks: Vec<Check> = Vec::new();
    let mut detail = String::from_str("checkpoint xid ");
    let x = text::hex_prefixed(container.checkpoint_xid);
    text::push_str(&mut detail, x.as_str());
    let ghost d = detail@;
    checks.push(check("container_open", true, Some(detail)));
    let block0 = container.dev.read_block(0, container.block_size)?;
    checks.push(check("block0_checksum", checksum::is_valid(block0.as_slice()), None));
    let omap_root = container.dev.read_block(container.nx_omap_tree_root, container.block_size)?;
    checks.push(check("container_omap_root", checksum::is_valid(omap_root.as_slice()), None));
    proof {
        reveal_strlit("container_open");
        reveal_strlit("block0_checksum");
        reveal_strlit("container_omap_root");
        reveal_strlit("checkpoint xid ");
        assert(d =~= "checkpoint xid "@ + seq!['0', 'x'] + text::hex_digits(container.checkpoint_xid as nat, false));
        assert(check_view(checks@[0]) == ("container_open"@, true, Some(d)));
        assert(check_view(checks@[1]) == ("block0_checksum"@, block_checks_out(container.dev.contents(), 0, container.block_size as int), None::<Seq<char>>));
        assert(check_view(checks@[2]) == ("container_omap_root"@, block_checks_out(container.dev.contents(), container.nx_omap_tree_root, container.block_size as int), None::<Seq<char>>));
        assert(checks_view(checks@) =~= seq![
            ("container_open"@, true, Some("checkpoint xid "@ + seq!['0', 'x'] + text::hex_digits(container.checkpoint_xid as nat, false))),
            ("block0_checksum"@, block_checks_out(container.dev.contents(), 0, container.block_size as int), None::<Seq<char>>),
            ("container_omap_root"@, block_checks_out(container.dev.contents(), container.nx_omap_tree_root, container.block_size as int), None),
        ]);
    }
    Ok(checks)
}

/// What a scan of the records `recs[i..]` finds on a device holding `c`
/// (blocks of `bs` bytes): the file extents, and those of them that are not
/// holes and whose first block lies outside the device.
pub open spec fn extent_scan(c: Seq<u8>, bs: int, recs: Seq<(Seq<u8>, Seq<u8>)>, i: int) -> (nat, nat)
    decreases recs.len() - i,
{
    if i < 0 || i >= recs.len() {
        (0, 0)
    } else {
        let rest = extent_scan(c, bs, recs, i + 1);
        let (k, v) = recs[i];
        if k.len() >= 8 && key_type(k) == jrec::APFS_TYPE_FILE_EXTENT && file_extent_parses(k, v) {
            let fe = file_extent_of(k, v);
            let unreadable = fe.phys_block_num != 0 && block_bytes(c, fe.phys_block_num as int, bs) is None;
            (rest.0 + 1, rest.1 + if unreadable {
                1nat
            } else {
                0nat
            })
        } else {
            rest
        }
    }
}

/// Count the file extents among `records` and those that are not holes and
/// whose first block cannot be read.
pub fn scan_extents<D: BlockDevice + ?Sized>(vol: &Volume<'_, D>, records: &[Record]) -> (r: (u64, u64))
    requires
        vol.wf(),
    ensures
        r.0 == extent_scan(vol.dev.contents(), vol.block_size as int, records_view(records@), 0).0,
        extent_scan(vol.dev.contents(), vol.block_size as int, records_view(records@), 0).1 <= r.1 <= r.0,
        !vol.dev.fallible() ==> r.1 == extent_scan(vol.dev.contents(), vol.block_size as int, records_view(records@), 0).1,
{
    let ghost c = vol.dev.contents();
    let ghost bs = vol.block_size as int;
    let ghost recs = records_view(records@);
    let n = records.len();
    let mut extents: u64 = 0;
    let mut bad: u64 = 0;
    let mut i: usize = n;
    while i > 0
        invariant
            vol.wf(),
            c == vol.dev.contents(),
            bs == vol.block_size as int,
            recs == records_view(records@),
            n == records@.len(),
            i <= n,
            extents == extent_scan(c, bs, recs, i as int).0,
            extent_scan(c, bs, recs, i as int).1 <= bad <= extents,
            extents <= n - i,
            !vol.dev.fallible() ==> bad == extent_scan(c, bs, recs, i as int).1,
        decreases i,
    {
        i = i - 1;
        let rec = &records[i];
        proof {
            assert(recs[i as int] == (rec.key@, rec.val@));
        }
        match jrec::key_obj_id_and_type(rec.key.as_slice()) {
            Ok((_oid, ty)) => {
                if ty == jrec::APFS_TYPE_FILE_EXTENT {
                    match FileExtent::parse(rec.key.as_slice(), rec.val.as_slice()) {
                        Ok(fe) => {
                            extents = extents + 1;
                            if !fe.is_hole() {
                                match vol.dev.read_block(fe.phys_block_num, vol.block_size) {
                                    Ok(_) => {},
                                    Err(_) => {
                                        bad = bad + 1;
                                    },
                                }
                            }
                        },
                        Err(_) => {},
                    }
                }
            },
            Err(_) => {},
        }
    }
    (extents, bad)
}

/// The characters of each string of `s`.
pub open spec fn strings_view(s: Seq<String>) -> Seq<Seq<char>> {
    s.map_values(|x: String| x@)
}

/// The path to check, as characters.
pub open spec fn path_seq(p: Option<String>) -> Option<Seq<char>> {
    match p {
        Some(s) => Some(s@),
        None => None,
    }
}

/// `cs` are the checks of the volume view `vol` with the file `path` to
/// check, if any (see [`volume_checks`]).
pub open spec fn volume_checks_of<D: BlockDevice + ?Sized>(vol: &Volume<'_, D>, path: Option<Seq<char>>, cs: Seq<Check>) -> bool {
    &&& cs.len() == (if path is Some {
        3int
    } else {
        2int
    })
    &&& check_view(cs[0]) == ("volume_superblock"@, vol.apsb.magic == APFS_MAGIC, Some(vol.apsb.volname@))
    &&& check_view(cs[1]) == ("fs_root_tree_checksum"@, block_checks_out(
        vol.dev.contents(),
        vol.root_tree_root,
        vol.block_size as int,
    ), None::<Seq<char>>)
    &&& path matches Some(p) ==> path_check_result(vol, p, cs[2])
}

/// The checks for a selected volume view: the superblock magic (noting the
/// volume name), the filesystem root tree's checksum, and, for `path`, the
/// readability of the file's extents (or why its records could not be had).
pub fn volume_checks<D: BlockDevice + ?Sized>(vol: &Volume<'_, D>, path: Option<&String>) -> (r: Result<Vec<Check>>)
    requires
        vol.wf(),
    ensures
        r matches Ok(v) ==> volume_checks_of(
            vol,
            match path {
                Some(p) => Some(p@),
                None => None,
            },
            v@,
        ),
        block_bytes(vol.dev.contents(), vol.root_tree_root as int, vol.block_size as int) is None ==> r is Err,
        !vol.dev.fallible() && block_bytes(vol.dev.contents(), vol.root_tree_root as int, vol.block_size as int) is Some
            ==> r is Ok,
{
    let mut checks: Vec<Check> = Vec::new();
    checks.push(check("volume_superblock", vol.apsb.magic == APFS_MAGIC, Some(vol.apsb.volname.clone())));
    let root = vol.dev.read_block(vol.root_tree_root, vol.block_size)?;
    checks.push(check("fs_root_tree_checksum", checksum::is_valid(root.as_slice()), None));
    match path {
        Some(p) => {
            let c = path_check(vol, p.as_str());
            checks.push(c);
        },
        None => {},
    }
    proof {
        reveal_strlit("volume_superblock");
        reveal_strlit("fs_root_tree_checksum");
    }
    Ok(checks)
}

/// `c` is what checking the extents of the file at `p` on `vol` gives:
/// `path_resolve` or `path_records` (failed) when the path or its records
/// cannot be had, else `path_extents`, which passes only when no extent's
/// first block is unreadable (and whenever none is, on a device that
/// cannot fail).
pub open spec fn path_check_result<D: BlockDevice + ?Sized>(vol: &Volume<'_, D>, p: Seq<char>, c: Check) -> bool {
    &&& c.name@ == "path_resolve"@ || c.name@ == "path_records"@ || c.name@ == "path_extents"@
    &&& c.name@ != "path_extents"@ ==> !c.ok
    &&& c.name@ == "path_extents"@ ==> match walk_path(
        vol.dev.contents(),
        vol.block_size as int,
        vol.omap_tree_root,
        vol.root_tree_root,
        vol.max_xid,
        path_components(p),
        insensitive(vol.apsb.incompatible_features),
        0,
        ROOT_DIR_INO_NUM,
        "dir"@,
    ) {
        Some((f, _)) => match fs_records(
            vol.dev.contents(),
            vol.block_size as int,
            Some(vol.omap_tree_root),
            vol.root_tree_root,
            f,
            vol.max_xid,
        ) {
            Some(recs) => {
                &&& c.ok ==> extent_scan(vol.dev.contents(), vol.block_size as int, recs, 0).1 == 0
                &&& !vol.dev.fallible() ==> (c.ok <==> extent_scan(vol.dev.contents(), vol.block_size as int, recs, 0).1 == 0)
            },
            None => false,
        },
        None => false,
    }
    &&& !path_resolves(vol, p) ==> c.name@ == "path_resolve"@
    &&& path_readable(vol, p) ==> c.name@ == "path_extents"@
}

/// `p` is an absolute path of acceptable length that resolves on `vol`.
pub open spec fn path_resolves<D: BlockDevice + ?Sized>(vol: &Volume<'_, D>, p: Seq<char>) -> bool {
    &&& p.len() > 0 && p[0] == '/'
    &&& path_components(p).len() <= MAX_PATH_COMPONENTS
    &&& walk_path(
        vol.dev.contents(),
        vol.block_size as int,
        vol.omap_tree_root,
        vol.root_tree_root,
        vol.max_xid,
        path_components(p),
        insensitive(vol.apsb.incompatible_features),
        0,
        ROOT_DIR_INO_NUM,
        "dir"@,
    ) is Some
}

/// On a device that cannot fail, `p` resolves and the file's records can be
/// read within one reader's load budget and the record cap.
pub open spec fn path_readable<D: BlockDevice + ?Sized>(vol: &Volume<'_, D>, p: Seq<char>) -> bool {
    let c = vol.dev.contents();
    let bs = vol.block_size as int;
    let comps = path_components(p);
    let ci = insensitive(vol.apsb.incompatible_features);
    &&& !vol.dev.fallible()
    &&& path_resolves(vol, p)
    &&& walk_within_cap(c, bs, vol.omap_tree_root, vol.root_tree_root, vol.max_xid, comps, ci, 0, ROOT_DIR_INO_NUM)
    &&& walk_path(c, bs, vol.omap_tree_root, vol.root_tree_root, vol.max_xid, comps, ci, 0, ROOT_DIR_INO_NUM, "dir"@) matches Some(
        (f, _),
    ) && walk_loads(c, bs, vol.omap_tree_root, vol.root_tree_root, vol.max_xid, comps, ci, 0, ROOT_DIR_INO_NUM)
        + fs_record_loads(c, bs, Some(vol.omap_tree_root), vol.root_tree_root, f, vol.max_xid) <= MAX_NODE_LOADS && (
    fs_records(c, bs, Some(vol.omap_tree_root), vol.root_tree_root, f, vol.max_xid) matches Some(recs) && recs.len()
        <= MAX_FS_RECORDS)
}

/// The check of one file's extents: `path_resolve` or `path_records` when
/// the path cannot be resolved or its records read (with the error), else
/// `path_extents`, passing when every extent's first block reads.
pub fn path_check<D: BlockDevice + ?Sized>(vol: &Volume<'_, D>, p: &str) -> (c: Check)
    requires
        vol.wf(),
    ensures
        path_check_result(vol, p@, c),
{
    proof {
        reveal_strlit("path_resolve");
        reveal_strlit("path_records");
        reveal_strlit("path_extents");
        assert("path_resolve"@[5] != "path_extents"@[5]);
        assert("path_records"@[5] != "path_extents"@[5]);
    }
    let mut bt = vol.btree();
    let resolved = match path::resolve(vol, &mut bt, p) {
        Ok(r) => r,
        Err(e) => {
            return check("path_resolve", false, Some(e.to_display_string()));
        },
    };
    let records = match vol.records(&mut bt, resolved.fsoid) {
        Ok(r) => r,
        Err(e) => {
            return check("path_records", false, Some(e.to_display_string()));
        },
    };
    let (extents, bad) = scan_extents(vol, records.as_slice());
    let mut detail = text::decimal(extents);
    text::push_str(&mut detail, " extent(s), ");
    let b = text::decimal(bad);
    text::push_str(&mut detail, b.as_str());
    text::push_str(&mut detail, " unreadable");
    check("path_extents", bad == 0, Some(detail))
}

/// Every object that the object map of the volume selected by `opts`
/// resolves, at any xid, lies inside the container (vacuous when no volume
/// is selected or its object map cannot be found).
pub open spec fn selected_objects_inside<'i, D: BlockDevice + ?Sized>(opened: &OpenedImage<'i, D>, opts: &Options) -> bool {
    let c = opened.container.dev.contents();
    let bs = opened.container.block_size as int;
    selected_volume(opened, opts) matches Some(i) && opened.container.volume_block(i) matches Some(b)
        && volume_omap_tree(c, bs, le_at(b, 128, 8) as u64) matches Some(t) ==> forall|oid: u64, x: u64|
        #[trigger] omap_lookup(c, bs, t, oid, x) matches Lookup::Found(e) ==> block_bytes(c, e.val.paddr as int, bs)
            is Some
}

proof fn lemma_selected_root_inside<'i, D: BlockDevice + ?Sized>(
    opened: &OpenedImage<'i, D>,
    opts: &Options,
    t: u64,
    root_oid: u64,
    xid: u64,
    root: u64,
)
    requires
        selected_objects_inside(opened, opts),
        selected_volume(opened, opts) matches Some(i) && opened.container.volume_block(i) matches Some(b) && volume_omap_tree(
            opened.container.dev.contents(),
            opened.container.block_size as int,
            le_at(b, 128, 8) as u64,
        ) == Some(t),
        omap_lookup(opened.container.dev.contents(), opened.container.block_size as int, t, root_oid, xid) matches Lookup::Found(e)
            && root == e.val.paddr,
    ensures
        block_bytes(opened.container.dev.contents(), root as int, opened.container.block_size as int) is Some,
{
    let c = opened.container.dev.contents();
    let bs = opened.container.block_size as int;
    assert(omap_lookup(c, bs, t, root_oid, xid) matches Lookup::Found(e) ==> block_bytes(c, e.val.paddr as int, bs) is Some);
}

/// `c` is a failed `volume_open` check whose detail is the text of error `e`.
pub open spec fn failed_open_check(c: Check, e: Error) -> bool {
    &&& c.name@ == "volume_open"@
    &&& !c.ok
    &&& check_view(c).2 == Some(display_text(e))
}

/// The checks and warnings of the volume `opts` selects on `opened`: the
/// view's checks and warnings when it opens, else one failed `volume_open`
/// check carrying why, and no warnings.
#[verifier::spinoff_prover]
#[verifier::rlimit(50)]
fn volume_report<'a, 'i, D: BlockDevice + ?Sized>(opened: &'a OpenedImage<'i, D>, opts: &Options) -> (r: Result<(
    Vec<Check>,
    Vec<String>,
)>)
    requires
        opened.container.wf(),
    ensures
        r matches Ok((cs, vw)) ==> cs@.len() >= 1 && (cs@[0].name@ == "volume_open"@ ==> !cs@[0].ok && cs@.len() == 1),
        r matches Ok((cs, vw)) ==> (exists|v: Volume<'a, OffsetDevice<'i, D>>, s: Option<SnapshotInfo>|
            #![trigger view_opened(opened, opts, v, s)]
            view_opened(opened, opts, v, s) && volume_checks_of(&v, path_seq(opts.path), cs@) && strings_view(vw@)
                == strings_view(v.warnings@)) || (cs@.len() == 1 && vw@.len() == 0 && exists|e: Error|
            #[trigger] failed_open_check(cs@[0], e)),
        opts.volume == Some(0u32) ==> (r matches Ok((cs, vw)) && cs@.len() == 1 && exists|e: Error|
            #[trigger] failed_open_check(cs@[0], e) && e.kind == ErrorKind::Usage),
        r matches Ok((cs, vw)) ==> (!opened.container.dev.fallible() && view_opens(opened, opts) ==> cs@[0].name@
            == "volume_superblock"@),
        !opened.container.dev.fallible() && selected_objects_inside(opened, opts) ==> r is Ok,
{
    match open_volume_view(opened, opts) {
        Ok((vol, snap)) => {
            proof {
                if selected_objects_inside(opened, opts) {
                    lemma_selected_root_inside(opened, opts, vol.omap_tree_root, vol.apsb.root_tree_oid, vol.max_xid, vol.root_tree_root);
                    assert(block_bytes(vol.dev.contents(), vol.root_tree_root as int, vol.block_size as int) is Some);
                }
            }
            let vc = volume_checks(&vol, opts.path.as_ref())?;
            proof {
                reveal_strlit("volume_superblock");
                reveal_strlit("volume_open");
                assert(vc@[0].name@ == "volume_superblock"@);
            }
            let vw = vol.warnings.clone();
            proof {
                assert(strings_view(vw@) =~= strings_view(vol.warnings@));
                assert(view_opened(opened, opts, vol, snap));
            }
            Ok((vc, vw))
        },
        Err(e) => {
            let mut cs: Vec<Check> = Vec::new();
            cs.push(check("volume_open", false, Some(e.to_display_string())));
            let vw: Vec<String> = Vec::new();
            proof {
                reveal_strlit("volume_open");
                reveal_strlit("volume_superblock");
                assert(failed_open_check(cs@[0], e));
            }
            Ok((cs, vw))
        },
    }
}

/// All checks of the `verify` command for an opened image: the container's,
/// then, when a volume is selected, either its checks or a failed
/// `volume_open` check naming why it did not open. Also returns the
/// warnings gathered (the container's, then the volume's).
#[verifier::spinoff_prover]
#[verifier::rlimit(50)]
pub fn verify_report<'a, 'i, D: BlockDevice + ?Sized>(opened: &'a OpenedImage<'i, D>, opts: &Options) -> (r: Result<(
    Vec<Check>,
    Vec<String>,
)>)
    requires
        opened.container.wf(),
    ensures
        r matches Ok((checks, _)) ==> {
            &&& checks@.len() >= 3
            &&& checks_view(checks@).subrange(0, 3) == container_checks_view(&opened.container)
            &&& opts.volume is None && opts.volume_name is None ==> checks@.len() == 3
            &&& (opts.volume is Some || opts.volume_name is Some) ==> {
                &&& checks@.len() > 3
                &&& checks@[3].name@ == "volume_open"@ ==> !checks@[3].ok && checks@.len() == 4
            }
        },
        r matches Ok((checks, w)) ==> (opts.volume is None && opts.volume_name is None ==> strings_view(w@)
            == strings_view(opened.container.warnings@)),
        r matches Ok((checks, w)) ==> ((opts.volume is Some || opts.volume_name is Some) ==> ((exists|
            v: Volume<'a, OffsetDevice<'i, D>>,
            s: Option<SnapshotInfo>,
        |
            #![trigger view_opened(opened, opts, v, s)]
            view_opened(opened, opts, v, s) && volume_checks_of(
                &v,
                path_seq(opts.path),
                checks@.subrange(3, checks@.len() as int),
            ) && strings_view(w@) == strings_view(opened.container.warnings@) + strings_view(v.warnings@)) || (
        checks@.len() == 4 && strings_view(w@) == strings_view(opened.container.warnings@) && exists|e: Error|
            #[trigger] failed_open_check(checks@[3], e)))),
        r matches Ok((checks, w)) ==> (opts.volume == Some(0u32) ==> checks@.len() == 4 && exists|e: Error|
            #[trigger] failed_open_check(checks@[3], e) && e.kind == ErrorKind::Usage),
        r matches Ok((checks, w)) ==> ((opts.volume is Some || opts.volume_name is Some) && !opened.container.dev.fallible()
            && view_opens(opened, opts) ==> checks@[3].name@ == "volume_superblock"@),
        block_bytes(opened.container.dev.contents(), 0, opened.container.block_size as int) is None ==> r is Err,
        block_bytes(
            opened.container.dev.contents(),
            opened.container.nx_omap_tree_root as int,
            opened.container.block_size as int,
        ) is None ==> r is Err,
        !opened.container.dev.fallible() && block_bytes(opened.container.dev.contents(), 0, opened.container.block_size as int)
            is Some && block_bytes(
            opened.container.dev.contents(),
            opened.container.nx_omap_tree_root as int,
            opened.container.block_size as int,
        ) is Some && (opts.volume is None && opts.volume_name is None || selected_objects_inside(opened, opts))
            ==> r is Ok,
{
    let mut checks = container_checks(&opened.container)?;
    assert(checks_view(checks@).len() == checks@.len());
    let ghost first = checks@;
    let mut warnings = opened.container.warnings.clone();
    proof {
        assert(strings_view(warnings@) =~= strings_view(opened.container.warnings@));
    }
    if opts.volume.is_some() || opts.volume_name.is_some() {
        let (mut vc, mut vw) = volume_report(opened, opts)?;
        let ghost vv = vc@;
        let ghost w0 = warnings@;
        let ghost vwv = vw@;
        checks.append(&mut vc);
        warnings.append(&mut vw);
        proof {
            assert(checks@ =~= first + vv);
            assert(checks@.subrange(3, checks@.len() as int) =~= vv);
            assert(checks@[3] == vv[0]);
            assert(warnings@ =~= w0 + vwv);
            assert(strings_view(warnings@) =~= strings_view(w0) + strings_view(vwv));
            if vwv.len() == 0 {
                assert(strings_view(vwv) =~= Seq::<Seq<char>>::empty());
            }
            if exists|v: Volume<'a, OffsetDevice<'i, D>>, sn: Option<SnapshotInfo>|
                #![trigger view_opened(opened, opts, v, sn)]
                view_opened(opened, opts, v, sn) && volume_checks_of(&v, path_seq(opts.path), vv) && strings_view(vwv)
                    == strings_view(v.warnings@) {
                let (v, sn) = choose|v: Volume<'a, OffsetDevice<'i, D>>, sn: Option<SnapshotInfo>|
                    #![trigger view_opened(opened, opts, v, sn)]
                    view_opened(opened, opts, v, sn) && volume_checks_of(&v, path_seq(opts.path), vv) && strings_view(vwv)
                        == strings_view(v.warnings@);
                assert(view_opened(opened, opts, v, sn));
            }
        }
    }
    proof {
        assert(checks@.subrange(0, 3) =~= first);
        assert(checks_view(checks@).subrange(0, 3) =~= checks_view(first));
    }
    Ok((checks, warnings))
}

} // verus!
