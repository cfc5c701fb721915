//! File-data extraction engine: turn a set of file extents into a byte stream
//! following the logical file layout. Separated from the `recover` command so
//! the byte-exact layout logic can be checked without a CLI or a real
//! container.
use vstd::prelude::*;

use super::btree::{lemma_prepend_assoc, lemma_prepend_empty, prepend_some};
use super::jrec::FileExtent;
use crate::device::{block_bytes, BlockDevice};
use crate::error::{err, ErrorKind, Result};
use crate::text;

verus! {

/// A destination for the bytes of a recovered file.
pub trait ByteSink {
    /// Everything written so far. A sink that does not say what it holds
    /// promises nothing about it.
    closed spec fn written(&self) -> Seq<u8> {
        vstd::pervasive::arbitrary()
    }

    /// Writing to the sink never fails. A sink that does not say so may
    /// fail any write.
    closed spec fn infallible(&self) -> bool {
        false
    }

    /// Write all of `data`.
    fn write_all(&mut self, data: &[u8]) -> (r: Result<()>)
        ensures
            r is Ok ==> final(self).written() == old(self).written() + data@,
            old(self).infallible() ==> r is Ok,
            final(self).infallible() == old(self).infallible(),
    ;
}

impl ByteSink for Vec<u8> {
    open spec fn written(&self) -> Seq<u8> {
        self@
    }

    open spec fn infallible(&self) -> bool {
        true
    }

    /// Appending to a vector never fails.
    fn write_all(&mut self, data: &[u8]) -> (r: Result<()>)
        ensures
            r is Ok,
    {
        let ghost start = self@;
        let mut i: usize = 0;
        while i < data.len()
            invariant
                i <= data@.len(),
                self@ == start + data@.subrange(0, i as int),
            decreases data@.len() - i,
        {
            self.push(data[i]);
            i = i + 1;
            assert(self@ =~= start + data@.subrange(0, i as int));
        }
        assert(data@.subrange(0, data@.len() as int) =~= data@);
        Ok(())
    }
}

/// Outcome of writing file bytes.
#[derive(Debug, Clone, Copy)]
pub struct Written {
    /// Total bytes written (equal to the logical file size on success).
    pub bytes: u64,
    /// Number of zero-filled hole/gap regions.
    pub holes: u64,
    /// Number of overlapping extents skipped.
    pub overlaps: u64,
    /// Bytes that could not be written (file size minus bytes written).
    pub missing: u64,
}

impl Default for Written {
    fn default() -> (w: Written)
        ensures
            w.bytes == 0 && w.holes == 0 && w.overlaps == 0 && w.missing == 0,
    {
        Written { bytes: 0, holes: 0, overlaps: 0, missing: 0 }
    }
}

/// The decimal digits of `n` followed by `what`.
pub open spec fn count_text(n: u64, what: Seq<char>) -> Seq<char> {
    text::dec_digits(n as nat) + what
}

/// The anomaly parts of a [`Written`] record, in order.
pub open spec fn note_parts(w: Written) -> Seq<Seq<char>> {
    (if w.holes > 0 { seq![count_text(w.holes, " hole(s)"@)] } else { Seq::empty() })
        + (if w.overlaps > 0 { seq![count_text(w.overlaps, " overlap(s)"@)] } else { Seq::empty() })
        + (if w.missing > 0 { seq![count_text(w.missing, " missing byte(s)"@)] } else { Seq::empty() })
}

/// `parts` joined with `", "`.
pub open spec fn join_comma(parts: Seq<Seq<char>>) -> Seq<char>
    decreases parts.len(),
{
    if parts.len() == 0 {
        Seq::empty()
    } else if parts.len() == 1 {
        parts[0]
    } else {
        join_comma(parts.drop_last()) + ", "@ + parts.last()
    }
}

impl Written {
    /// A short human note describing anomalies, or `None` if clean.
    pub fn note(&self) -> (r: Option<String>)
        ensures
            note_parts(*self).len() == 0 ==> r is None,
            note_parts(*self).len() > 0 ==> (r matches Some(s) && s@ == join_comma(note_parts(*self))),
    {
        let mut s = String::new();
        let mut count: u64 = 0;
        let ghost mut parts: Seq<Seq<char>> = Seq::empty();
        if self.holes > 0 {
            text::push_decimal(&mut s, self.holes);
            text::push_str(&mut s, " hole(s)");
            count = count + 1;
            proof {
                parts = parts.push(count_text(self.holes, " hole(s)"@));
                assert(s@ =~= join_comma(parts));
            }
        }
        if self.overlaps > 0 {
            if count > 0 {
                text::push_str(&mut s, ", ");
            }
            text::push_decimal(&mut s, self.overlaps);
            text::push_str(&mut s, " overlap(s)");
            count = count + 1;
            proof {
                let prev = parts;
                parts = parts.push(count_text(self.overlaps, " overlap(s)"@));
                assert(parts.drop_last() =~= prev);
                assert(s@ =~= join_comma(parts));
            }
        }
        if self.missing > 0 {
            if count > 0 {
                text::push_str(&mut s, ", ");
            }
            text::push_decimal(&mut s, self.missing);
            text::push_str(&mut s, " missing byte(s)");
            count = count + 1;
            proof {
                let prev = parts;
                parts = parts.push(count_text(self.missing, " missing byte(s)"@));
                assert(parts.drop_last() =~= prev);
                assert(s@ =~= join_comma(parts));
            }
        }
        proof {
            assert(parts =~= note_parts(*self));
        }
        if count == 0 {
            None
        } else {
            Some(s)
        }
    }
}

/// `n` zero bytes.
pub open spec fn zeros(n: int) -> Seq<u8> {
    Seq::new(n as nat, |i: int| 0u8)
}

/// The stable insertion of `e` into `s`: after every element whose logical
/// address is not greater than `e`'s.
pub open spec fn insert_by_addr(s: Seq<FileExtent>, e: FileExtent) -> Seq<FileExtent>
    decreases s.len(),
{
    if s.len() == 0 {
        seq![e]
    } else if s.last().logical_addr > e.logical_addr {
        insert_by_addr(s.drop_last(), e).push(s.last())
    } else {
        s.push(e)
    }
}

/// `s` stably sorted by logical address.
pub open spec fn sort_by_addr(s: Seq<FileExtent>) -> Seq<FileExtent>
    decreases s.len(),
{
    if s.len() == 0 {
        s
    } else {
        insert_by_addr(sort_by_addr(s.drop_last()), s.last())
    }
}

/// The `remaining` bytes read from consecutive blocks starting at `block`
/// (whole blocks, the last one cut short), or `None` when a block lies
/// outside the device.
pub open spec fn extent_data(c: Seq<u8>, bs: int, block: int, remaining: int) -> Option<Seq<u8>>
    decreases remaining,
{
    if remaining <= 0 {
        Some(Seq::empty())
    } else if bs <= 0 {
        None
    } else {
        match block_bytes(c, block, bs) {
            None => None,
            Some(d) => {
                let n = if remaining < bs { remaining } else { bs };
                prepend_some(d.subrange(0, n), extent_data(c, bs, block + 1, remaining - n))
            },
        }
    }
}

/// The layout state after some extents: (bytes written, cursor, holes,
/// overlaps).
pub type LayoutState = (Seq<u8>, int, int, int);

/// Lay out extent `e` after state `st` for a file of `fs` bytes: a gap
/// before it becomes a zero-filled hole, an extent starting before the
/// cursor overlaps earlier data and is skipped, a sparse extent is zeros,
/// and output never passes `fs`. `None` when a data block is unreadable.
pub open spec fn extent_step(c: Seq<u8>, bs: int, st: LayoutState, e: FileExtent, fs: int) -> Option<LayoutState> {
    let (out, cur, holes, ovl) = st;
    if cur >= fs {
        Some(st)
    } else if e.logical_addr < cur {
        Some((out, cur, holes, ovl + 1))
    } else {
        let gap = if e.logical_addr - cur < fs - cur { e.logical_addr - cur } else { fs - cur };
        let out1 = if e.logical_addr > cur { out + zeros(gap) } else { out };
        let cur1 = if e.logical_addr > cur { cur + gap } else { cur };
        let holes1 = if e.logical_addr > cur { holes + 1 } else { holes };
        if cur1 >= fs {
            Some((out1, cur1, holes1, ovl))
        } else {
            let want = if e.len < fs - cur1 { e.len as int } else { fs - cur1 };
            if e.phys_block_num == 0 {
                Some((out1 + zeros(want), cur1 + want, holes1 + 1, ovl))
            } else {
                match extent_data(c, bs, e.phys_block_num as int, want) {
                    None => None,
                    Some(d) => Some((out1 + d, cur1 + want, holes1, ovl)),
                }
            }
        }
    }
}

/// The state after laying out the first `n` extents of `exts`.
pub open spec fn layout_prefix(c: Seq<u8>, bs: int, exts: Seq<FileExtent>, fs: int, n: nat) -> Option<LayoutState>
    decreases n,
{
    if n == 0 {
        Some((Seq::empty(), 0, 0, 0))
    } else {
        match layout_prefix(c, bs, exts, fs, (n - 1) as nat) {
            None => None,
            Some(st) => extent_step(c, bs, st, exts[n - 1], fs),
        }
    }
}

/// The whole logical file of `fs` bytes laid out from `exts` (already in
/// order), with any tail past the last extent zero-filled as a final hole.
pub open spec fn file_layout(c: Seq<u8>, bs: int, exts: Seq<FileExtent>, fs: int) -> Option<LayoutState> {
    match layout_prefix(c, bs, exts, fs, exts.len()) {
        None => None,
        Some(st) => if st.1 < fs {
            Some((st.0 + zeros(fs - st.1), fs, st.2 + 1, st.3))
        } else {
            Some(st)
        },
    }
}


proof fn lemma_layout_prefix_some(c: Seq<u8>, bs: int, exts: Seq<FileExtent>, fs: int, n: nat, k: nat)
    requires
        k <= n,
        layout_prefix(c, bs, exts, fs, n) is Some,
    ensures
        layout_prefix(c, bs, exts, fs, k) is Some,
    decreases n,
{
    if k < n {
        lemma_layout_prefix_some(c, bs, exts, fs, (n - 1) as nat, k);
    }
}

proof fn lemma_insert_len(s: Seq<FileExtent>, e: FileExtent)
    ensures
        insert_by_addr(s, e).len() == s.len() + 1,
    decreases s.len(),
{
    if s.len() > 0 && s.last().logical_addr > e.logical_addr {
        lemma_insert_len(s.drop_last(), e);
    }
}

/// Sorting keeps the number of extents.
proof fn lemma_sort_len(s: Seq<FileExtent>)
    ensures
        sort_by_addr(s).len() == s.len(),
    decreases s.len(),
{
    if s.len() > 0 {
        lemma_sort_len(s.drop_last());
        lemma_insert_len(sort_by_addr(s.drop_last()), s.last());
    }
}

proof fn lemma_insert_after_greater(a: Seq<FileExtent>, b: Seq<FileExtent>, e: FileExtent)
    requires
        forall|m: int| 0 <= m < b.len() ==> (#[trigger] b[m]).logical_addr > e.logical_addr,
    ensures
        insert_by_addr(a + b, e) == insert_by_addr(a, e) + b,
    decreases b.len(),
{
    if b.len() == 0 {
        assert(a + b =~= a);
        assert(insert_by_addr(a, e) + b =~= insert_by_addr(a, e));
    } else {
        let b1 = b.drop_last();
        assert((a + b).drop_last() =~= a + b1);
        assert((a + b).last() == b.last());
        lemma_insert_after_greater(a, b1, e);
        assert(insert_by_addr(a, e) + b =~= (insert_by_addr(a, e) + b1).push(b.last()));
    }
}

/// Stably sort `v` by logical address (insertion sort).
fn sort_extents(v: &mut Vec<FileExtent>)
    ensures
        final(v)@ == sort_by_addr(old(v)@),
{
    let ghost orig = v@;
    let n = v.len();
    let mut i: usize = 0;
    proof {
        assert(orig.subrange(0, 0) =~= Seq::<FileExtent>::empty());
        assert(v@.subrange(0, 0) =~= sort_by_addr(orig.subrange(0, 0)));
    }
    while i < n
        invariant
            v@.len() == n == orig.len(),
            i <= n,
            v@.subrange(0, i as int) == sort_by_addr(orig.subrange(0, i as int)),
            v@.subrange(i as int, n as int) == orig.subrange(i as int, n as int),
        decreases n - i,
    {
        let ghost sorted = v@.subrange(0, i as int);
        let e = v[i];
        assert(e == orig[i as int]) by {
            assert(v@[i as int] == v@.subrange(i as int, n as int)[0]);
        }
        let mut j: usize = i;
        proof {
            assert(v@.subrange(i + 1, n as int) =~= v@.subrange(i as int, n as int).subrange(1, n - i));
            assert(orig.subrange(i + 1, n as int) =~= orig.subrange(i as int, n as int).subrange(1, n - i));
            assert(v@.subrange(i + 1, i + 1) =~= sorted.subrange(i as int, i as int));
            assert(sorted.subrange(0, i as int) =~= sorted);
        }
        while j > 0 && v[j - 1].logical_addr > e.logical_addr
            invariant
                v@.len() == n,
                j <= i < n,
                v@.subrange(0, j as int) == sorted.subrange(0, j as int),
                v@[j as int] == e,
                v@.subrange(j + 1, i + 1) == sorted.subrange(j as int, i as int),
                v@.subrange(i + 1, n as int) == orig.subrange(i + 1, n as int),
                forall|m: int| j <= m < i ==> (#[trigger] sorted[m]).logical_addr > e.logical_addr,
                sorted.len() == i,
            decreases j,
        {
            let ghost before = v@;
            let prev = v[j - 1];
            v.set(j, prev);
            v.set(j - 1, e);
            proof {
                assert(v@.subrange(0, j - 1) =~= before.subrange(0, j - 1));
                assert(sorted.subrange(0, j - 1) =~= sorted.subrange(0, j as int).subrange(0, j - 1));
                assert(prev == sorted[j - 1]) by {
                    assert(before.subrange(0, j as int)[j - 1] == before[j - 1]);
                }
                assert(v@.subrange(j as int, i + 1) =~= seq![prev] + before.subrange(j + 1, i + 1));
                assert(sorted.subrange(j - 1, i as int) =~= seq![sorted[j - 1]] + sorted.subrange(j as int, i as int));
                assert(v@.subrange(i + 1, n as int) =~= before.subrange(i + 1, n as int));
            }
            j = j - 1;
        }
        proof {
            let a = sorted.subrange(0, j as int);
            let b = sorted.subrange(j as int, i as int);
            assert(sorted =~= a + b);
            lemma_insert_after_greater(a, b, e);
            if j > 0 {
                assert(a.last() == v@[j - 1]) by {
                    assert(v@.subrange(0, j as int)[j - 1] == v@[j - 1]);
                }
            }
            assert(insert_by_addr(a, e) == a.push(e));
            assert(orig.subrange(0, i + 1).drop_last() =~= orig.subrange(0, i as int));
            assert(orig.subrange(0, i + 1).last() == e);
            assert(v@.subrange(0, i + 1) =~= a.push(e) + b) by {
                assert(v@.subrange(0, j as int) =~= a);
            }
            assert(v@.subrange(i + 1, n as int) =~= orig.subrange(i + 1, n as int));
        }
        i = i + 1;
    }
    proof {
        assert(v@ =~= v@.subrange(0, n as int));
        assert(orig =~= orig.subrange(0, n as int));
    }
}

/// Write `n` zero bytes, in chunks no longer than `zero`.
fn write_zeros<W: ByteSink>(writer: &mut W, n: u64, zero: &[u8]) -> (r: Result<()>)
    requires
        zero@.len() > 0,
        forall|i: int| 0 <= i < zero@.len() ==> zero@[i] == 0,
    ensures
        r is Ok ==> final(writer).written() == old(writer).written() + zeros(n as int),
        old(writer).infallible() ==> r is Ok,
        final(writer).infallible() == old(writer).infallible(),
{
    let ghost start = writer.written();
    let mut left = n;
    while left > 0
        invariant
            left <= n,
            zero@.len() > 0,
            forall|i: int| 0 <= i < zero@.len() ==> zero@[i] == 0,
            writer.written() == start + zeros(n - left),
            start == old(writer).written(),
            writer.infallible() == old(writer).infallible(),
        decreases left,
    {
        let chunk: usize = if left < zero.len() as u64 { left as usize } else { zero.len() };
        let part = vstd::slice::slice_subrange(zero, 0, chunk);
        writer.write_all(part)?;
        proof {
            assert(zeros(n - left) + part@ =~= zeros(n - left + chunk));
        }
        left = left - chunk as u64;
    }
    Ok(())
}


/// A buffer of `n` zero bytes.
fn zero_block(n: usize) -> (z: Vec<u8>)
    ensures
        z@.len() == n,
        forall|i: int| 0 <= i < n ==> z@[i] == 0,
{
    let mut z: Vec<u8> = Vec::new();
    while z.len() < n
        invariant
            z@.len() <= n,
            forall|i: int| 0 <= i < z@.len() ==> z@[i] == 0,
        decreases n - z@.len(),
    {
        z.push(0);
    }
    z
}

/// Lay out one extent after `(out, cursor, holes, overlaps)`; see
/// [`extent_step`].
fn lay_extent<D: BlockDevice + ?Sized, W: ByteSink>(
    dev: &D,
    block_size: u32,
    zero: &[u8],
    e: FileExtent,
    file_size: u64,
    cursor: u64,
    holes: u64,
    overlaps: u64,
    writer: &mut W,
    Ghost(out): Ghost<Seq<u8>>,
    Ghost(wbase): Ghost<Seq<u8>>,
) -> (r: Result<(u64, u64, u64)>)
    requires
        block_size > 0,
        zero@.len() == block_size,
        forall|i: int| 0 <= i < zero@.len() ==> zero@[i] == 0,
        cursor <= file_size,
        holes + 2 <= u64::MAX,
        overlaps + 1 <= u64::MAX,
        old(writer).written() == wbase + out,
    ensures
        r matches Ok((c2, h2, o2)) ==> (extent_step(
            dev.contents(),
            block_size as int,
            (out, cursor as int, holes as int, overlaps as int),
            e,
            file_size as int,
        ) matches Some(st) && final(writer).written() == wbase + st.0 && st.1 == c2 && st.2 == h2 && st.3 == o2
            && c2 <= file_size && h2 <= holes + 2 && o2 <= overlaps + 1),
        extent_step(dev.contents(), block_size as int, (out, cursor as int, holes as int, overlaps as int), e, file_size as int)
            is None ==> r is Err,
        !dev.fallible() && old(writer).infallible() && extent_step(
            dev.contents(),
            block_size as int,
            (out, cursor as int, holes as int, overlaps as int),
            e,
            file_size as int,
        ) is Some ==> r is Ok,
        final(writer).infallible() == old(writer).infallible(),
{
    let ghost c = dev.contents();
    let ghost bs = block_size as int;
    if cursor >= file_size {
        return Ok((cursor, holes, overlaps));
    }
    if e.logical_addr < cursor {
        return Ok((cursor, holes, overlaps + 1));
    }
    let mut cur = cursor;
    let mut h = holes;
    let ghost mut out1 = out;
    if e.logical_addr > cur {
        let gap = if e.logical_addr - cur < file_size - cur { e.logical_addr - cur } else { file_size - cur };
        write_zeros(writer, gap, zero)?;
        proof {
            assert(wbase + out + zeros(gap as int) =~= wbase + (out + zeros(gap as int)));
            out1 = out + zeros(gap as int);
        }
        h = h + 1;
        cur = cur + gap;
    }
    if cur >= file_size {
        return Ok((cur, h, overlaps));
    }
    let want = if e.len < file_size - cur { e.len } else { file_size - cur };
    if e.is_hole() {
        write_zeros(writer, want, zero)?;
        proof {
            assert(wbase + out1 + zeros(want as int) =~= wbase + (out1 + zeros(want as int)));
        }
        return Ok((cur + want, h + 1, overlaps));
    }
    let ghost p = e.phys_block_num as int;
    let ghost mut acc: Seq<u8> = Seq::empty();
    let ghost wmid = writer.written();
    let ghost ok = !dev.fallible() && writer.infallible() && extent_data(c, bs, p, want as int) is Some;
    proof {
        assert(extent_step(c, bs, (out, cursor as int, holes as int, overlaps as int), e, file_size as int) is Some
            ==> extent_data(c, bs, p, want as int) is Some);
    }
    proof {
        lemma_prepend_empty(extent_data(c, bs, p, want as int));
        assert(wmid + acc =~= wmid);
    }
    let mut block = e.phys_block_num;
    let mut remaining = want;
    while remaining > 0
        invariant
            c == dev.contents(),
            bs == block_size > 0,
            zero@.len() == block_size,
            remaining <= want,
            writer.written() == wmid + acc,
            extent_data(c, bs, p, want as int) == prepend_some(acc, extent_data(c, bs, block as int, remaining as int)),
            writer.infallible() == old(writer).infallible(),
            ok == (!dev.fallible() && old(writer).infallible() && extent_data(c, bs, p, want as int) is Some),
            ok ==> extent_data(c, bs, block as int, remaining as int) is Some,
            (!dev.fallible() && old(writer).infallible() && extent_step(
                c,
                bs,
                (out, cursor as int, holes as int, overlaps as int),
                e,
                file_size as int,
            ) is Some) ==> ok,
        decreases remaining,
    {
        let data = dev.read_block(block, block_size)?;
        let n: u64 = if remaining < block_size as u64 { remaining } else { block_size as u64 };
        let part = vstd::slice::slice_subrange(data.as_slice(), 0, n as usize);
        writer.write_all(part)?;
        proof {
            lemma_prepend_assoc(acc, part@, extent_data(c, bs, block + 1, remaining - n));
            assert(wmid + acc + part@ =~= wmid + (acc + part@));
            acc = acc + part@;
        }
        remaining = remaining - n;
        if remaining > 0 {
            block = match block.checked_add(1) {
                Some(b) => b,
                None => {
                    // No block past the last address lies inside a device
                    // whose size is a u64.
                    let _ = dev.size();
                    proof {
                        let nb = block + 1;
                        assert(nb * bs >= nb) by (nonlinear_arith)
                            requires
                                nb >= 0,
                                bs >= 1,
                        ;
                        assert(block_bytes(c, nb, bs) is None);
                    }
                    return Err(err(ErrorKind::Corrupt, "extent runs past the last block address"));
                },
            };
        }
    }
    proof {
        assert(acc + Seq::<u8>::empty() =~= acc);
        assert(wmid + acc =~= wbase + (out1 + acc));
    }
    Ok((cur + want, h, overlaps))
}

/// Write `file_size` bytes to `writer` following the logical layout of
/// `extents`. Extents are sorted by logical address (stably, in place); gaps
/// and zero-block extents become zero-filled holes; overlapping extents keep
/// the earlier data; output stops exactly at `file_size`. Works sequentially,
/// so it suits both a seekable file and a stream.
pub fn write_extents<D: BlockDevice + ?Sized, W: ByteSink>(
    dev: &D,
    block_size: u32,
    extents: &mut Vec<FileExtent>,
    file_size: u64,
    writer: &mut W,
) -> (r: Result<Written>)
    requires
        block_size > 0,
        old(extents)@.len() < 0x4000_0000_0000_0000,
    ensures
        final(extents)@ == sort_by_addr(old(extents)@),
        r matches Ok(w) ==> (file_layout(dev.contents(), block_size as int, sort_by_addr(old(extents)@), file_size as int)
            matches Some(st) && final(writer).written() == old(writer).written() + st.0 && w.bytes == st.1 && w.holes
            == st.2 && w.overlaps == st.3 && w.missing == 0),
        file_layout(dev.contents(), block_size as int, sort_by_addr(old(extents)@), file_size as int) is None ==> r is Err,
        !dev.fallible() && old(writer).infallible() && file_layout(
            dev.contents(),
            block_size as int,
            sort_by_addr(old(extents)@),
            file_size as int,
        ) is Some ==> r is Ok,
        final(writer).infallible() == old(writer).infallible(),
{
    let ghost c = dev.contents();
    let ghost bs = block_size as int;
    let ghost fs = file_size as int;
    sort_extents(extents);
    let ghost exts = extents@;
    proof {
        lemma_sort_len(old(extents)@);
    }
    let zero = zero_block(block_size as usize);
    let mut cursor: u64 = 0;
    let mut holes: u64 = 0;
    let mut overlaps: u64 = 0;
    let ghost w0 = writer.written();
    let ghost mut out: Seq<u8> = Seq::empty();
    proof {
        assert(w0 + out =~= w0);
    }
    let mut i: usize = 0;
    while i < extents.len()
        invariant
            c == dev.contents(),
            bs == block_size > 0,
            fs == file_size,
            exts == extents@,
            exts == sort_by_addr(old(extents)@),
            exts.len() < 0x4000_0000_0000_0000,
            zero@.len() == block_size,
            forall|k: int| 0 <= k < zero@.len() ==> zero@[k] == 0,
            i <= exts.len(),
            cursor <= file_size,
            holes <= 2 * i,
            overlaps <= i,
            writer.written() == w0 + out,
            layout_prefix(c, bs, exts, fs, i as nat) == Some((out, cursor as int, holes as int, overlaps as int)),
            writer.infallible() == old(writer).infallible(),
        decreases exts.len() - i,
    {
        let e = extents[i];
        let ghost st = (out, cursor as int, holes as int, overlaps as int);
        proof {
            if file_layout(c, bs, exts, fs) is Some {
                lemma_layout_prefix_some(c, bs, exts, fs, exts.len(), (i + 1) as nat);
            }
        }
        let (c2, h2, o2) = lay_extent(dev, block_size, zero.as_slice(), e, file_size, cursor, holes, overlaps, writer, Ghost(out), Ghost(w0))?;
        proof {
            let nst = extent_step(c, bs, st, e, fs)->0;
            out = nst.0;
        }
        cursor = c2;
        holes = h2;
        overlaps = o2;
        i = i + 1;
    }
    if cursor < file_size {
        write_zeros(writer, file_size - cursor, zero.as_slice())?;
        proof {
            assert(w0 + out + zeros(fs - cursor) =~= w0 + (out + zeros(fs - cursor)));
        }
        holes = holes + 1;
        cursor = file_size;
    }
    Ok(Written { bytes: cursor, holes, overlaps, missing: file_size - cursor })
}


/// The data of an extent is the run of device bytes starting at its first
/// block.
pub proof fn extent_data_is_contiguous(c: Seq<u8>, bs: int, block: int, remaining: int)
    ensures
        extent_data(c, bs, block, remaining) matches Some(d) ==> remaining > 0 ==> {
            &&& 0 <= block * bs
            &&& block * bs + remaining <= c.len()
            &&& d == c.subrange(block * bs, block * bs + remaining)
        },
    decreases remaining,
{
    if remaining > 0 && bs > 0 {
        if let Some(d0) = block_bytes(c, block, bs) {
            let n = if remaining < bs { remaining } else { bs };
            extent_data_is_contiguous(c, bs, block + 1, remaining - n);
            if let Some(rest) = extent_data(c, bs, block + 1, remaining - n) {
                let x = block * bs;
                assert((block + 1) * bs == block * bs + bs) by (nonlinear_arith);
                assert(d0.subrange(0, n) =~= c.subrange(x, x + n));
                if remaining - n > 0 {
                    assert(rest =~= c.subrange(x + n, x + remaining));
                } else {
                    assert(rest =~= c.subrange(x + n, x + remaining));
                }
                assert(c.subrange(x, x + n) + rest =~= c.subrange(x, x + remaining));
            }
        }
    }
}

proof fn lemma_extent_data_len(c: Seq<u8>, bs: int, block: int, remaining: int)
    ensures
        extent_data(c, bs, block, remaining) matches Some(d) ==> d.len() == (if remaining < 0 { 0 } else { remaining }),
    decreases remaining,
{
    if remaining > 0 && bs > 0 {
        let n = if remaining < bs { remaining } else { bs };
        lemma_extent_data_len(c, bs, block + 1, remaining - n);
    }
}

proof fn lemma_layout_prefix_len(c: Seq<u8>, bs: int, exts: Seq<FileExtent>, fs: int, n: nat)
    requires
        fs >= 0,
        n <= exts.len(),
    ensures
        layout_prefix(c, bs, exts, fs, n) matches Some(st) ==> st.0.len() == st.1 && 0 <= st.1 <= fs,
    decreases n,
{
    if n > 0 {
        lemma_layout_prefix_len(c, bs, exts, fs, (n - 1) as nat);
        if let Some(st) = layout_prefix(c, bs, exts, fs, (n - 1) as nat) {
            let e = exts[n - 1];
            let cur = st.1;
            let gap = if e.logical_addr - cur < fs - cur { e.logical_addr - cur } else { fs - cur };
            let cur1 = if e.logical_addr > cur { cur + gap } else { cur };
            let want = if e.len < fs - cur1 { e.len as int } else { fs - cur1 };
            lemma_extent_data_len(c, bs, e.phys_block_num as int, want);
        }
    }
}

/// A laid-out file has exactly `file_size` bytes, and the cursor ends at
/// `file_size`.
pub proof fn file_layout_has_file_size(c: Seq<u8>, bs: int, exts: Seq<FileExtent>, fs: int)
    requires
        fs >= 0,
    ensures
        file_layout(c, bs, exts, fs) matches Some(st) ==> st.0.len() == fs && st.1 == fs,
{
    lemma_layout_prefix_len(c, bs, exts, fs, exts.len());
}

/// Byte `x` at position `p` of a file is data of one of the extents `exts`:
/// an extent with blocks (not a sparse hole) covers `p`, and `x` is the
/// device byte at `p`'s place in that extent's run of blocks.
pub open spec fn byte_of_extent(c: Seq<u8>, bs: int, exts: Seq<FileExtent>, p: int, x: u8) -> bool {
    exists|k: int|
        #![trigger exts[k]]
        0 <= k < exts.len() && exts[k].phys_block_num != 0 && exts[k].logical_addr <= p < exts[k].logical_addr
            + exts[k].len && 0 <= exts[k].phys_block_num * bs + (p - exts[k].logical_addr) < c.len() && x
            == c[exts[k].phys_block_num * bs + (p - exts[k].logical_addr)]
}

proof fn lemma_layout_prefix_bytes(c: Seq<u8>, bs: int, exts: Seq<FileExtent>, fs: int, n: nat)
    requires
        fs >= 0,
        n <= exts.len(),
    ensures
        layout_prefix(c, bs, exts, fs, n) matches Some(st) ==> forall|p: int|
            0 <= p < st.0.len() ==> #[trigger] st.0[p] == 0u8 || byte_of_extent(c, bs, exts, p, st.0[p]),
    decreases n,
{
    if n > 0 {
        lemma_layout_prefix_bytes(c, bs, exts, fs, (n - 1) as nat);
        lemma_layout_prefix_len(c, bs, exts, fs, (n - 1) as nat);
        if let Some(st) = layout_prefix(c, bs, exts, fs, (n - 1) as nat) {
            let k = n - 1;
            let e = exts[k];
            let (out, cur, holes, ovl) = st;
            if let Some(st2) = layout_prefix(c, bs, exts, fs, n) {
                if cur < fs && e.logical_addr >= cur {
                    let gap = if e.logical_addr - cur < fs - cur { e.logical_addr - cur } else { fs - cur };
                    let out1 = if e.logical_addr > cur { out + zeros(gap) } else { out };
                    let cur1 = if e.logical_addr > cur { cur + gap } else { cur };
                    assert(out1.len() == cur1);
                    assert forall|p: int| 0 <= p < out1.len() implies #[trigger] out1[p] == 0u8 || byte_of_extent(
                        c,
                        bs,
                        exts,
                        p,
                        out1[p],
                    ) by {
                        if p < out.len() {
                            assert(out1[p] == out[p]);
                        }
                    }
                    if cur1 < fs {
                        let want = if e.len < fs - cur1 { e.len as int } else { fs - cur1 };
                        assert(cur1 == e.logical_addr);
                        if e.phys_block_num != 0 {
                            let d = extent_data(c, bs, e.phys_block_num as int, want)->0;
                            extent_data_is_contiguous(c, bs, e.phys_block_num as int, want);
                            lemma_extent_data_len(c, bs, e.phys_block_num as int, want);
                            assert(st2.0 == out1 + d);
                            assert forall|p: int| 0 <= p < st2.0.len() implies #[trigger] st2.0[p] == 0u8 || byte_of_extent(
                                c,
                                bs,
                                exts,
                                p,
                                st2.0[p],
                            ) by {
                                if p < out1.len() {
                                    assert(st2.0[p] == out1[p]);
                                } else {
                                    let q = p - out1.len();
                                    assert(st2.0[p] == d[q]);
                                    assert(d[q] == c[e.phys_block_num * bs + q]);
                                    assert(exts[k] == e);
                                }
                            }
                        } else {
                            assert forall|p: int| 0 <= p < st2.0.len() implies #[trigger] st2.0[p] == 0u8 || byte_of_extent(
                                c,
                                bs,
                                exts,
                                p,
                                st2.0[p],
                            ) by {
                                if p < out1.len() {
                                    assert(st2.0[p] == out1[p]);
                                }
                            }
                        }
                    }
                }
            }
        }
    }
}

/// A laid-out file is exactly `file_size` bytes, and every byte that is not
/// zero is data of an extent covering its position, read from the device
/// at its place in that extent: gaps between extents, sparse holes and the
/// tail past the last extent read as zeros.
pub proof fn file_layout_zero_outside_extents(c: Seq<u8>, bs: int, exts: Seq<FileExtent>, fs: int)
    requires
        fs >= 0,
    ensures
        file_layout(c, bs, exts, fs) matches Some(st) ==> {
            &&& st.0.len() == fs
            &&& forall|p: int| 0 <= p < fs ==> #[trigger] st.0[p] == 0u8 || byte_of_extent(c, bs, exts, p, st.0[p])
        },
{
    lemma_layout_prefix_len(c, bs, exts, fs, exts.len());
    lemma_layout_prefix_bytes(c, bs, exts, fs, exts.len());
    if let Some(st) = layout_prefix(c, bs, exts, fs, exts.len()) {
        if st.1 < fs {
            let full = st.0 + zeros(fs - st.1);
            assert forall|p: int| 0 <= p < fs implies #[trigger] full[p] == 0u8 || byte_of_extent(c, bs, exts, p, full[p]) by {
                if p < st.0.len() {
                    assert(full[p] == st.0[p]);
                }
            }
        }
    }
}


/// No extent before index `k` of `exts` reaches past the start of extent `k`.
pub open spec fn clear_before(exts: Seq<FileExtent>, k: int) -> bool {
    forall|j: int| 0 <= j < k ==> #[trigger] exts[j].logical_addr + exts[j].len <= exts[k].logical_addr
}

/// Extent `e` holds data (it is not sparse) and covers file position `p`
/// below the file size `fs`.
pub open spec fn data_covers(e: FileExtent, p: int, fs: int) -> bool {
    e.phys_block_num != 0 && e.logical_addr <= p < e.logical_addr + e.len && p < fs
}

/// The device byte of `c` (blocks of `bs` bytes) at file position `p` of
/// extent `e`: its offset into the extent, counted from its first block.
pub open spec fn device_byte(c: Seq<u8>, bs: int, e: FileExtent, p: int) -> u8 {
    c[e.phys_block_num * bs + (p - e.logical_addr)]
}

proof fn lemma_cursor_bound(c: Seq<u8>, bs: int, exts: Seq<FileExtent>, fs: int, n: nat, x: int)
    requires
        fs >= 0,
        x >= 0,
        n <= exts.len(),
        forall|j: int| 0 <= j < n ==> #[trigger] exts[j].logical_addr + exts[j].len <= x,
    ensures
        layout_prefix(c, bs, exts, fs, n) matches Some(st) ==> st.1 <= x,
    decreases n,
{
    if n > 0 {
        lemma_cursor_bound(c, bs, exts, fs, (n - 1) as nat, x);
        let e = exts[n - 1];
        assert(e.logical_addr + e.len <= x);
    }
}

/// `out` holds, at each position that one of the first `n` extents covers
/// with data and no earlier extent reaches, the device byte of that extent.
pub open spec fn copies_data(c: Seq<u8>, bs: int, exts: Seq<FileExtent>, fs: int, n: int, out: Seq<u8>) -> bool {
    forall|k: int, p: int|
        #![trigger data_covers(exts[k], p, fs)]
        (0 <= k && k < n && data_covers(exts[k], p, fs) && clear_before(exts, k)) ==> (p < out.len() && out[p]
            == device_byte(c, bs, exts[k], p))
}

proof fn lemma_copies_at(c: Seq<u8>, bs: int, exts: Seq<FileExtent>, fs: int, n: int, out: Seq<u8>, k: int, p: int)
    requires
        copies_data(c, bs, exts, fs, n, out),
        0 <= k < n,
        data_covers(exts[k], p, fs),
        clear_before(exts, k),
    ensures
        p < out.len() && out[p] == device_byte(c, bs, exts[k], p),
{
}

proof fn lemma_layout_prefix_data(c: Seq<u8>, bs: int, exts: Seq<FileExtent>, fs: int, n: nat)
    requires
        fs >= 0,
        n <= exts.len(),
    ensures
        layout_prefix(c, bs, exts, fs, n) matches Some(st) ==> copies_data(c, bs, exts, fs, n as int, st.0),
    decreases n,
{
    if n > 0 {
        let n1 = (n - 1) as nat;
        lemma_layout_prefix_data(c, bs, exts, fs, n1);
        lemma_layout_prefix_len(c, bs, exts, fs, n1);
        if let Some(st) = layout_prefix(c, bs, exts, fs, n1) {
            if let Some(st2) = layout_prefix(c, bs, exts, fs, n) {
                let e = exts[n1 as int];
                let (out, cur, holes, ovl) = st;
                assert(st2 == extent_step(c, bs, st, e, fs)->0);
                // Output only grows: earlier bytes stay.
                assert(st2.0.len() >= st.0.len() && forall|q: int| 0 <= q < st.0.len() ==> st2.0[q] == st.0[q]) by {
                    if cur < fs && e.logical_addr >= cur {
                        let gap = if e.logical_addr - cur < fs - cur { e.logical_addr - cur } else { fs - cur };
                        let out1 = if e.logical_addr > cur { out + zeros(gap) } else { out };
                        let cur1 = if e.logical_addr > cur { cur + gap } else { cur };
                        if cur1 < fs {
                            let want = if e.len < fs - cur1 { e.len as int } else { fs - cur1 };
                            if e.phys_block_num != 0 {
                                lemma_extent_data_len(c, bs, e.phys_block_num as int, want);
                            }
                        }
                    }
                }
                assert forall|k: int, p: int|
                    #![trigger data_covers(exts[k], p, fs)]
                    (0 <= k && k < n && data_covers(exts[k], p, fs) && clear_before(exts, k)) implies (p < st2.0.len()
                        && st2.0[p] == device_byte(c, bs, exts[k], p)) by {
                    if k < n1 {
                        lemma_copies_at(c, bs, exts, fs, n1 as int, st.0, k, p);
                        assert(p < st.0.len() && st.0[p] == device_byte(c, bs, exts[k], p));
                        assert(st2.0[p] == st.0[p]);
                    } else {
                        assert(k == n1);
                        assert forall|j: int| 0 <= j < n1 implies #[trigger] exts[j].logical_addr + exts[j].len
                            <= e.logical_addr by {
                            assert(exts[j].logical_addr + exts[j].len <= exts[k].logical_addr);
                        }
                        lemma_cursor_bound(c, bs, exts, fs, n1, e.logical_addr as int);
                        assert(cur <= e.logical_addr);
                        let gap = if e.logical_addr - cur < fs - cur { e.logical_addr - cur } else { fs - cur };
                        let out1 = if e.logical_addr > cur { out + zeros(gap) } else { out };
                        let cur1 = if e.logical_addr > cur { cur + gap } else { cur };
                        assert(cur1 == e.logical_addr);
                        assert(out1.len() == cur1);
                        let want = if e.len < fs - cur1 { e.len as int } else { fs - cur1 };
                        let d = extent_data(c, bs, e.phys_block_num as int, want)->0;
                        extent_data_is_contiguous(c, bs, e.phys_block_num as int, want);
                        lemma_extent_data_len(c, bs, e.phys_block_num as int, want);
                        assert(st2.0 == out1 + d);
                        let q = p - e.logical_addr;
                        assert(st2.0[p] == d[q]);
                        assert(d[q] == c[e.phys_block_num * bs + q]);
                    }
                }
                assert(copies_data(c, bs, exts, fs, n as int, st2.0));
            }
        }
    }
}

/// Every file position that an extent with data covers, below the file size
/// and not reached by any earlier extent, holds the device byte at the same
/// offset into that extent's run of blocks: a multi-block extent is copied
/// whole, block after block, from its first physical block.
pub proof fn file_layout_copies_extent_data(c: Seq<u8>, bs: int, exts: Seq<FileExtent>, fs: int)
    requires
        fs >= 0,
    ensures
        file_layout(c, bs, exts, fs) matches Some(st) ==> forall|k: int, p: int|
            #![trigger data_covers(exts[k], p, fs)]
            0 <= k < exts.len() && data_covers(exts[k], p, fs) && clear_before(exts, k) ==> st.0[p] == device_byte(
                c,
                bs,
                exts[k],
                p,
            ),
{
    lemma_layout_prefix_data(c, bs, exts, fs, exts.len());
    lemma_layout_prefix_len(c, bs, exts, fs, exts.len());
    if let Some(st) = layout_prefix(c, bs, exts, fs, exts.len()) {
        if st.1 < fs {
            let full = st.0 + zeros(fs - st.1);
            assert forall|k: int, p: int|
                #![trigger data_covers(exts[k], p, fs)]
                0 <= k < exts.len() && data_covers(exts[k], p, fs) && clear_before(exts, k) implies full[p]
                    == device_byte(c, bs, exts[k], p) by {
                lemma_copies_at(c, bs, exts, fs, exts.len() as int, st.0, k, p);
                assert(p < st.0.len() && st.0[p] == device_byte(c, bs, exts[k], p));
            }
        }
    }
}

} // verus!
