//! Image opening: turn an opened backing device plus partition/offset
//! selectors into an opened container, locating the APFS container window
//! via an explicit offset, GPT auto-detection, or an explicit partition.
use vstd::prelude::*;

use crate::apfs::container::{boot_ok, has_loadable_candidate, opened_at, Container};
use crate::device::partition::{
    apfs_only, has_gpt, selection_chooses, selection_refused, resolve_container_window, table_of, window_from_entry,
    window_len_of, Partition, PartitionSelector, PartitionTable,
};
use crate::device::offset::window;
use crate::device::{BlockDevice, OffsetDevice};
use crate::error::{ErrorKind, Result};

verus! {

/// What kind of backend an image path resolved to.
#[derive(Debug, Clone, Copy, PartialEq, Eq, Structural)]
pub enum ImageKind {
    SparseBundle,
    RawFile,
}

/// Options controlling how an image is opened.
pub struct OpenOptions {
    pub container_path: String,
    pub partition: PartitionSelector,
    pub offset: Option<u64>,
    pub max_xid: u64,
}

/// A fully-opened image: the backing device, the APFS container window, and
/// the opened container at a selected checkpoint.
pub struct OpenedImage<'a, D: BlockDevice + ?Sized> {
    /// The backing device (the whole sparsebundle or file).
    pub image: &'a D,
    pub kind: ImageKind,
    /// Byte offset of the APFS container within the image.
    pub container_offset: u64,
    /// 1-based GPT partition index, if one was selected.
    pub partition_index: Option<u32>,
    pub container: Container<OffsetDevice<'a, D>>,
}

/// The container window `(off, len)` (and GPT index `idx`) chosen in an
/// image holding `c`: an explicit offset spans the rest of the image; without
/// one, a bare image is one container, and a GPT image's window is the
/// selected partition.
pub open spec fn window_chosen(
    c: Seq<u8>,
    selector: PartitionSelector,
    explicit: Option<u64>,
    off: u64,
    len: u64,
    idx: Option<u32>,
) -> bool {
    match explicit {
        Some(o) => o < c.len() && off == o && len == c.len() - o && idx is None,
        None => match idx {
            None => !has_gpt(c) && off == 0 && len == c.len(),
            Some(i) => has_gpt(c) && window_from_entry(c, selector, off, len, i),
        },
    }
}

/// Read the partition table of an image, if any.
pub fn read_partition_table<D: BlockDevice + ?Sized>(image: &D) -> (r: Result<Option<PartitionTable>>)
    ensures
        match r {
            Ok(None) => !has_gpt(image.contents()),
            Ok(Some(t)) => has_gpt(image.contents()) && table_of(t.entries@, image.contents()),
            Err(_) => image.contents().len() >= 1024 && image.fallible(),
        },
{
    PartitionTable::parse(image)
}

/// Every window that choosing a partition with `sel` from the GPT of an
/// image holding `c` can give holds a container that opens at a checkpoint
/// with `xid <= max_xid`.
pub open spec fn gpt_window_opens(c: Seq<u8>, sel: PartitionSelector, max_xid: u64) -> bool {
    forall|off: u64, len: u64, idx: u32|
        #[trigger] window_from_entry(c, sel, off, len, idx) ==> boot_ok(window(c, off as int, len as nat))
            && has_loadable_candidate(window(c, off as int, len as nat), max_xid)
}

/// Open the container inside `image` (a backend of kind `kind`): locate the
/// container window, then open the container it holds at the newest usable
/// checkpoint with `xid <= max_xid`.
pub fn open<'a, D: BlockDevice + ?Sized>(
    image: &'a D,
    kind: ImageKind,
    partition: PartitionSelector,
    offset: Option<u64>,
    max_xid: u64,
) -> (r: Result<OpenedImage<'a, D>>)
    ensures
        r matches Ok(o) ==> {
            &&& o.image == image
            &&& o.kind == kind
            &&& window_chosen(image.contents(), partition, offset, o.container_offset, o.container.dev.spec_len(), o.partition_index)
            &&& o.container.dev.spec_inner() == image.contents()
            &&& o.container.dev.spec_inner_fallible() == image.fallible()
            &&& o.container.dev.spec_base() == o.container_offset
            &&& opened_at(o.container.dev.contents(), o.container.dev.fallible(), max_xid, &o.container)
        },
        (offset matches Some(x) && x >= image.contents().len()) ==> (r matches Err(e) && e.kind == ErrorKind::Usage),
        !image.fallible() && (offset matches Some(x) && x < image.contents().len() && boot_ok(
            window(image.contents(), x as int, (image.contents().len() - x) as nat),
        ) && has_loadable_candidate(window(image.contents(), x as int, (image.contents().len() - x) as nat), max_xid))
            ==> r is Ok,
        !image.fallible() && offset is None && !has_gpt(image.contents()) && boot_ok(
            window(image.contents(), 0, image.contents().len()),
        ) && has_loadable_candidate(window(image.contents(), 0, image.contents().len()), max_xid) ==> r is Ok,
        forall|kind: ErrorKind|
            offset is None && !image.fallible() && has_gpt(image.contents()) && #[trigger] selection_refused(image.contents(), partition, kind) ==> (r matches Err(e) && e.kind == kind),
        offset is None && !image.fallible() && has_gpt(image.contents()) && selection_chooses(image.contents(), partition)
            && gpt_window_opens(image.contents(), partition, max_xid) ==> r is Ok,
{
    let ghost c = image.contents();
    let (off, len, partition_index) = resolve_container_window(image, partition, offset)?;
    proof {
        if offset is None && !image.fallible() && has_gpt(c) && selection_chooses(c, partition) && gpt_window_opens(
            c,
            partition,
            max_xid,
        ) {
            let idx = partition_index->0;
            assert(window_from_entry(c, partition, off, len, idx));
            assert(boot_ok(window(c, off as int, len as nat)));
            let (es, j) = choose|es: Seq<Partition>, j: int|
                #![trigger table_of(es, c), es[j]]
                table_of(es, c) && 0 <= j < es.len() && es[j].index == idx && off == es[j].first_lba * 512 && len
                    == window_len_of(c.len() as int, es[j]) && match partition {
                    PartitionSelector::Auto => es[j].is_apfs && apfs_only(es).len() == 1,
                    PartitionSelector::Index(k) => k == idx,
                };
            assert(off + len <= c.len());
        }
    }
    let dev = OffsetDevice::new(image, off, len);
    let container = Container::open(dev, max_xid)?;
    Ok(OpenedImage { image, kind, container_offset: off, partition_index, container })
}

} // verus!
