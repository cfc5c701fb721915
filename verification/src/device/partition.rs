//! GPT partition discovery and the `PartitionedImageDevice` window.
//!
//! A whole-disk image typically carries a GUID Partition Table; the APFS
//! container lives inside an `Apple_APFS` partition rather than at byte 0.
//! This module parses the GPT, lists partitions, finds the APFS one, and
//! produces an [`OffsetDevice`] window onto the chosen partition. GPT
//! addressing uses a fixed 512-byte LBA.
use vstd::prelude::*;

use super::offset::{window, OffsetDevice};
use super::{device_failure, device_slice, BlockDevice};
use crate::apfs::raw::{hex2, le_at};
use crate::error::{err, Error, ErrorKind, Result};
use crate::text::{self, hex_digits, zero_pad};

verus! {

/// LBA size used for GPT addressing.
pub const GPT_LBA_SIZE: u64 = 512;

/// On-disk (mixed-endian) bytes of the Apple_APFS partition type GUID
/// `7C3457EF-0000-11AA-AA11-00306543ECAC`.
pub open spec fn apfs_type_guid() -> Seq<u8> {
    seq![0xEFu8, 0x57, 0x34, 0x7C, 0x00, 0x00, 0xAA, 0x11, 0xAA, 0x11, 0x00, 0x30, 0x65, 0x43, 0xEC, 0xAC]
}

fn apfs_type_guid_bytes() -> (v: Vec<u8>)
    ensures
        v@ == apfs_type_guid(),
{
    let v: Vec<u8> = vec![0xEFu8, 0x57, 0x34, 0x7C, 0x00, 0x00, 0xAA, 0x11, 0xAA, 0x11, 0x00, 0x30, 0x65, 0x43, 0xEC, 0xAC];
    assert(v@ =~= apfs_type_guid());
    v
}

/// One GPT partition entry, decoded.
#[derive(Debug, Clone)]
pub struct Partition {
    /// 1-based index as presented to the user.
    pub index: u32,
    /// Partition type GUID in canonical text form.
    pub type_guid: String,
    /// Unique partition GUID in canonical text form.
    pub unique_guid: String,
    pub first_lba: u64,
    pub last_lba: u64,
    /// UTF-16LE partition name, cut at the first NUL unit.
    pub name: String,
    /// True if the type GUID is `Apple_APFS`.
    pub is_apfs: bool,
}

/// Canonical text of 16 mixed-endian GUID bytes: the first three groups are
/// little-endian numbers, the last eight bytes are printed in order.
pub open spec fn guid_text(b: Seq<u8>) -> Seq<char> {
    zero_pad(hex_digits(le_at(b, 0, 4), true), 8) + "-"@ + zero_pad(hex_digits(le_at(b, 4, 2), true), 4) + "-"@
        + zero_pad(hex_digits(le_at(b, 6, 2), true), 4) + "-"@ + hex2(b[8]) + hex2(b[9]) + "-"@ + hex2(b[10])
        + hex2(b[11]) + hex2(b[12]) + hex2(b[13]) + hex2(b[14]) + hex2(b[15])
}

/// UTF-16LE code units of `b`, read pairwise and cut at the first zero unit.
pub open spec fn utf16_units(b: Seq<u8>) -> Seq<u16>
    decreases b.len(),
{
    if b.len() < 2 || le_at(b, 0, 2) == 0 {
        Seq::empty()
    } else {
        seq![le_at(b, 0, 2) as u16] + utf16_units(b.skip(2))
    }
}

/// The partition-name text of a name field.
pub open spec fn utf16_name(b: Seq<u8>) -> Seq<char> {
    text::utf16_lossy(utf16_units(b))
}

/// The entry-size-limited name field of a GPT entry.
pub open spec fn name_field(e: Seq<u8>) -> Seq<u8> {
    e.subrange(56, if e.len() < 128 { e.len() as int } else { 128 })
}

/// `p` is the decoded form of GPT entry bytes `e` at 0-based slot `i`.
pub open spec fn partition_matches(p: Partition, e: Seq<u8>, i: int) -> bool {
    &&& p.index == i + 1
    &&& p.type_guid@ == guid_text(e.subrange(0, 16))
    &&& p.unique_guid@ == guid_text(e.subrange(16, 32))
    &&& p.first_lba == le_at(e, 32, 8)
    &&& p.last_lba == le_at(e, 40, 8)
    &&& p.name@ == utf16_name(name_field(e))
    &&& p.is_apfs == (e.subrange(0, 16) == apfs_type_guid())
}

/// A slot whose type GUID is all zeros is empty.
pub open spec fn slot_empty(e: Seq<u8>) -> bool {
    forall|j: int| 0 <= j < 16 ==> e[j] == 0
}

impl Partition {
    /// Byte offset of the partition within the image.
    pub fn byte_offset(&self) -> (r: u64)
        requires
            self.first_lba * 512 <= u64::MAX,
        ensures
            r == self.first_lba * 512,
    {
        self.first_lba * GPT_LBA_SIZE
    }

    /// The partition's byte offset and byte length fit in a `u64`.
    pub fn addressable(&self) -> (r: bool)
        ensures
            r == (self.first_lba * 512 <= u64::MAX && (self.last_lba >= self.first_lba ==> (self.last_lba
                - self.first_lba + 1) * 512 <= u64::MAX)),
    {
        !(self.first_lba > u64::MAX / 512 || (self.last_lba >= self.first_lba && self.last_lba - self.first_lba
            >= u64::MAX / 512))
    }

    /// Byte length of the partition (inclusive LBA range; 0 if reversed).
    pub fn byte_len(&self) -> (r: u64)
        requires
            self.last_lba >= self.first_lba ==> (self.last_lba - self.first_lba + 1) * 512 <= u64::MAX,
        ensures
            r == if self.last_lba >= self.first_lba {
                (self.last_lba - self.first_lba + 1) * 512
            } else {
                0
            },
    {
        if self.last_lba >= self.first_lba {
            (self.last_lba - self.first_lba + 1) * GPT_LBA_SIZE
        } else {
            0
        }
    }
}

/// A parsed GUID Partition Table.
#[derive(Debug, Clone)]
pub struct PartitionTable {
    pub entries: Vec<Partition>,
}

/// Little-endian `u32` at `off` of `b` (in range).
fn read_u32(b: &[u8], off: usize) -> (v: u32)
    requires
        off + 4 <= b@.len(),
    ensures
        v == le_at(b@, off as int, 4),
{
    let v = crate::apfs::raw::le_read(b, off, 4);
    proof {
        crate::apfs::raw::lemma_le_value_bound(b@.subrange(off as int, off + 4));
        crate::apfs::raw::lemma_pow256_small();
    }
    v as u32
}

/// Little-endian `u64` at `off` of `b` (in range).
fn read_u64(b: &[u8], off: usize) -> (v: u64)
    requires
        off + 8 <= b@.len(),
    ensures
        v == le_at(b@, off as int, 8),
{
    crate::apfs::raw::le_read(b, off, 8)
}

/// Format 16 raw GUID bytes (mixed-endian on-disk layout) as canonical text.
pub fn format_guid(b: &[u8]) -> (s: String)
    requires
        b@.len() >= 16,
    ensures
        s@ == guid_text(b@),
{
    let d1 = read_u32(b, 0);
    let d2 = crate::apfs::raw::le_read(b, 4, 2);
    let d3 = crate::apfs::raw::le_read(b, 6, 2);
    let mut s = String::new();
    text::push_hex_padded(&mut s, d1 as u64, 8, true);
    text::push_str(&mut s, "-");
    text::push_hex_padded(&mut s, d2, 4, true);
    text::push_str(&mut s, "-");
    text::push_hex_padded(&mut s, d3, 4, true);
    text::push_str(&mut s, "-");
    text::push_hex_padded(&mut s, b[8] as u64, 2, true);
    text::push_hex_padded(&mut s, b[9] as u64, 2, true);
    text::push_str(&mut s, "-");
    text::push_hex_padded(&mut s, b[10] as u64, 2, true);
    text::push_hex_padded(&mut s, b[11] as u64, 2, true);
    text::push_hex_padded(&mut s, b[12] as u64, 2, true);
    text::push_hex_padded(&mut s, b[13] as u64, 2, true);
    text::push_hex_padded(&mut s, b[14] as u64, 2, true);
    text::push_hex_padded(&mut s, b[15] as u64, 2, true);
    assert(s@ =~= guid_text(b@));
    s
}

/// Decode a UTF-16LE partition name field, stopping at the first NUL pair.
pub fn decode_utf16le_name(b: &[u8]) -> (s: String)
    ensures
        s@ == utf16_name(b@),
{
    let mut units: Vec<u16> = Vec::new();
    let mut i: usize = 0;
    let blen = b.len();
    assert(b@.skip(0) =~= b@);
    assert(units@ + utf16_units(b@) =~= utf16_units(b@));
    while i + 1 < blen
        invariant
            blen == b@.len(),
            i % 2 == 0,
            i <= blen,
            units@ + utf16_units(b@.skip(i as int)) == utf16_units(b@),
        decreases blen - i,
    {
        let u = crate::apfs::raw::le_read(b, i, 2);
        proof {
            assert(b@.skip(i as int).subrange(0, 2) =~= b@.subrange(i as int, i + 2));
            crate::apfs::raw::lemma_le_value_bound(b@.subrange(i as int, i + 2));
            crate::apfs::raw::lemma_pow256_small();
        }
        if u == 0 {
            assert(utf16_units(b@.skip(i as int)) =~= Seq::<u16>::empty());
            assert(units@ =~= utf16_units(b@));
            return text::from_utf16_lossy(units.as_slice());
        }
        let ghost prev = units@;
        units.push(u as u16);
        proof {
            assert(b@.skip(i as int).skip(2) =~= b@.skip(i + 2));
            assert(units@ + utf16_units(b@.skip(i + 2)) =~= prev + utf16_units(b@.skip(i as int)));
        }
        i = i + 2;
    }
    assert(utf16_units(b@.skip(i as int)) =~= Seq::<u16>::empty());
    assert(units@ =~= utf16_units(b@));
    text::from_utf16_lossy(units.as_slice())
}

/// The bytes `"EFI PART"` that open a GPT header.
pub open spec fn efi_magic() -> Seq<u8> {
    seq![0x45u8, 0x46, 0x49, 0x20, 0x50, 0x41, 0x52, 0x54]
}

/// The GPT header block (LBA 1) of a device holding `c`.
pub open spec fn gpt_header(c: Seq<u8>) -> Seq<u8> {
    c.subrange(512, 1024)
}

/// The device holds a GPT: it spans two LBAs and LBA 1 opens with the magic.
pub open spec fn has_gpt(c: Seq<u8>) -> bool {
    c.len() >= 1024 && gpt_header(c).subrange(0, 8) == efi_magic()
}

/// How many entry slots of the table described by GPT header `h` are worth
/// decoding: none when the entry size is implausible (outside 128..=4096
/// bytes), else the declared count, capped at 1024.
pub open spec fn gpt_slot_count(h: Seq<u8>) -> int {
    let num = le_at(h, 80, 4);
    let esz = le_at(h, 84, 4);
    if esz < 128 || esz > 4096 {
        0
    } else if num > 1024 {
        1024
    } else {
        num as int
    }
}

/// Byte offset of entry slot `i` of a table at `lba` with `esz`-byte entries.
pub open spec fn slot_offset(lba: int, esz: int, i: int) -> int {
    lba * 512 + i * esz
}

/// The bytes of entry slot `i`.
pub open spec fn slot_bytes(c: Seq<u8>, lba: int, esz: int, i: int) -> Seq<u8> {
    c.subrange(slot_offset(lba, esz, i), slot_offset(lba, esz, i) + esz)
}

/// The 0-based indices of the non-empty slots among the first `k`.
pub open spec fn nonempty_slots(c: Seq<u8>, lba: int, esz: int, k: nat) -> Seq<int>
    decreases k,
{
    if k == 0 {
        Seq::empty()
    } else {
        let i = k - 1;
        nonempty_slots(c, lba, esz, (k - 1) as nat) + if slot_empty(slot_bytes(c, lba, esz, i)) {
            Seq::<int>::empty()
        } else {
            seq![i]
        }
    }
}

/// `entries` are the decoded non-empty slots among the first `k` slots of the
/// table described by the header of `c`, and all those slots lie in `c`.
pub open spec fn table_prefix(entries: Seq<Partition>, c: Seq<u8>, k: nat) -> bool {
    let h = gpt_header(c);
    let lba = le_at(h, 72, 8) as int;
    let esz = le_at(h, 84, 4) as int;
    let idx = nonempty_slots(c, lba, esz, k);
    &&& k <= gpt_slot_count(h)
    &&& forall|i: int| 0 <= i < k ==> slot_offset(lba, esz, i) + esz <= c.len()
    &&& entries.len() == idx.len()
    &&& forall|j: int|
        0 <= j < entries.len() ==> partition_matches(#[trigger] entries[j], slot_bytes(c, lba, esz, idx[j]), idx[j])
}

/// The number of slots from `i` on, up to `num`, before the first slot of a
/// table at `lba` (entries of `esz` bytes) that runs past the end of `c`.
pub open spec fn readable_from(c: Seq<u8>, lba: int, esz: int, num: int, i: int) -> int
    decreases num - i,
{
    if i >= num {
        num
    } else if slot_offset(lba, esz, i) + esz > c.len() {
        i
    } else {
        readable_from(c, lba, esz, num, i + 1)
    }
}

/// How many leading slots of the table described by the header of `c` lie
/// inside `c`.
pub open spec fn gpt_readable_slots(c: Seq<u8>) -> int {
    let h = gpt_header(c);
    readable_from(c, le_at(h, 72, 8) as int, le_at(h, 84, 4) as int, gpt_slot_count(h), 0)
}

/// `entries` are the decoded non-empty slots of some prefix of the table.
pub open spec fn table_of(entries: Seq<Partition>, c: Seq<u8>) -> bool {
    exists|k: nat| table_prefix(entries, c, k)
}

impl PartitionTable {
    /// Parse the GPT of `dev`. Returns `Ok(None)` if there is no GPT (the image
    /// is a bare APFS container), `Err` only on a read failure of LBA 1 (the
    /// device's own error). Entry slots are decoded in order, only as many as
    /// are plausible (see [`gpt_slot_count`]); decoding stops cleanly at the
    /// first slot that cannot be read.
    #[verifier::spinoff_prover]
    #[verifier::rlimit(40)]
    pub fn parse<D: BlockDevice + ?Sized>(dev: &D) -> (r: Result<Option<PartitionTable>>)
        ensures
            match r {
                Ok(None) => !has_gpt(dev.contents()),
                Ok(Some(t)) => has_gpt(dev.contents()) && table_of(t.entries@, dev.contents()),
                Err(e) => dev.contents().len() >= 1024 && dev.fallible() && device_failure(e.kind),
            },
            !dev.fallible() && has_gpt(dev.contents()) ==> (r matches Ok(Some(t)) && table_prefix(
                t.entries@,
                dev.contents(),
                gpt_readable_slots(dev.contents()) as nat,
            )),
    {
        let ghost c = dev.contents();
        if dev.size() < 2 * GPT_LBA_SIZE {
            return Ok(None);
        }
        let header = dev.read_vec(GPT_LBA_SIZE, GPT_LBA_SIZE as usize)?;
        assert(header@ == gpt_header(c));
        let magic: Vec<u8> = vec![0x45u8, 0x46, 0x49, 0x20, 0x50, 0x41, 0x52, 0x54];
        let mut j: usize = 0;
        while j < 8
            invariant
                j <= 8,
                c == dev.contents(),
                c.len() >= 1024,
                header@ == gpt_header(c),
                header@.len() == 512,
                magic@ == efi_magic(),
                forall|q: int| 0 <= q < j ==> header@[q] == efi_magic()[q],
            decreases 8 - j,
        {
            if header[j] != magic[j] {
                assert(header@.subrange(0, 8)[j as int] != efi_magic()[j as int]);
                assert(header@.subrange(0, 8) != efi_magic());
                assert(!has_gpt(c));
                return Ok(None);
            }
            j = j + 1;
        }
        assert(header@.subrange(0, 8) =~= efi_magic());

        let entry_lba = read_u64(&header, 72);
        let declared = read_u32(&header, 80);
        let entry_size = read_u32(&header, 84);

        // Do not trust the on-disk counts: decode nothing when the entry size
        // is implausible, and at most 1024 slots.
        let num_entries: u32 = if entry_size < 128 || entry_size > 4096 {
            0
        } else if declared > 1024 {
            1024
        } else {
            declared
        };

        let apfs_guid = apfs_type_guid_bytes();
        let mut entries: Vec<Partition> = Vec::new();
        let mut i: u32 = 0;
        while i < num_entries
            invariant
                c == dev.contents(),
                has_gpt(c),
                header@ == gpt_header(c),
                entry_lba == le_at(header@, 72, 8),
                num_entries == gpt_slot_count(header@),
                entry_size == le_at(header@, 84, 4),
                num_entries > 0 ==> 128 <= entry_size <= 4096,
                num_entries <= 1024,
                apfs_guid@ == apfs_type_guid(),
                i <= num_entries,
                table_prefix(entries@, c, i as nat),
                c.len() <= u64::MAX,
                !dev.fallible() ==> forall|q: int| 0 <= q < i ==> slot_offset(entry_lba as int, entry_size as int, q)
                    + entry_size <= c.len(),
                !dev.fallible() ==> readable_from(c, entry_lba as int, entry_size as int, num_entries as int, 0)
                    == readable_from(c, entry_lba as int, entry_size as int, num_entries as int, i as int),
            ensures
                exists|k: nat| table_prefix(entries@, c, k),
                !dev.fallible() ==> table_prefix(
                    entries@,
                    c,
                    readable_from(c, entry_lba as int, entry_size as int, num_entries as int, 0) as nat,
                ),
            decreases num_entries - i,
        {
            let ghost lba = entry_lba as int;
            let ghost esz = entry_size as int;
            assert(i as u64 * entry_size as u64 <= 1024 * 4096) by (nonlinear_arith)
                requires
                    i <= 1024,
                    entry_size <= 4096,
            ;
            let off = match entry_lba.checked_mul(GPT_LBA_SIZE) {
                Some(base) => match base.checked_add(i as u64 * entry_size as u64) {
                    Some(o) => o,
                    None => break,
                },
                None => break,
            };
            // Some images declare more entries than the device holds; stop
            // cleanly at the first unreadable entry.
            let entry = match dev.read_vec(off, entry_size as usize) {
                Ok(e) => e,
                Err(_) => break,
            };
            assert(entry@ == slot_bytes(c, lba, esz, i as int));
            let ghost prev = entries@;
            let mut all_zero = true;
            let mut is_apfs = true;
            let mut q: usize = 0;
            while q < 16
                invariant
                    q <= 16,
                    entry@.len() == entry_size >= 128,
                    apfs_guid@ == apfs_type_guid(),
                    all_zero == forall|t: int| 0 <= t < q ==> entry@[t] == 0,
                    is_apfs == forall|t: int| 0 <= t < q ==> entry@[t] == apfs_type_guid()[t],
                decreases 16 - q,
            {
                if entry[q] != 0 {
                    all_zero = false;
                }
                if entry[q] != apfs_guid[q] {
                    is_apfs = false;
                }
                q = q + 1;
            }
            assert(is_apfs == (entry@.subrange(0, 16) == apfs_type_guid())) by {
                if is_apfs {
                    assert(entry@.subrange(0, 16) =~= apfs_type_guid());
                } else {
                    if entry@.subrange(0, 16) == apfs_type_guid() {
                        let t = choose|t: int| 0 <= t < 16 && entry@[t] != apfs_type_guid()[t];
                        assert(entry@.subrange(0, 16)[t] == entry@[t]);
                    }
                }
            }
            if !all_zero {
                let name_end: usize = if entry_size < 128 { entry_size as usize } else { 128 };
                let p = Partition {
                    index: i + 1,
                    type_guid: format_guid(vstd::slice::slice_subrange(entry.as_slice(), 0, 16)),
                    unique_guid: format_guid(vstd::slice::slice_subrange(entry.as_slice(), 16, 32)),
                    first_lba: read_u64(&entry, 32),
                    last_lba: read_u64(&entry, 40),
                    name: decode_utf16le_name(vstd::slice::slice_subrange(entry.as_slice(), 56, name_end)),
                    is_apfs,
                };
                entries.push(p);
            }
            proof {
                let idx0 = nonempty_slots(c, lba, esz, i as nat);
                let idx1 = nonempty_slots(c, lba, esz, (i + 1) as nat);
                assert(slot_empty(entry@) == all_zero);
                if all_zero {
                    assert(idx1 =~= idx0);
                } else {
                    assert(idx1 =~= idx0.push(i as int));
                    assert(entries@.drop_last() =~= prev);
                    assert(partition_matches(entries@[entries@.len() - 1], entry@, i as int));
                }
                assert forall|j: int| 0 <= j < entries@.len() implies partition_matches(
                    #[trigger] entries@[j],
                    slot_bytes(c, lba, esz, idx1[j]),
                    idx1[j],
                ) by {
                    if j < prev.len() {
                        assert(entries@[j] == prev[j]);
                    }
                }
            }
            i = i + 1;
        }
        let ghost k = choose|k: nat| table_prefix(entries@, c, k);
        assert(table_prefix(entries@, c, k));
        let t = PartitionTable { entries };
        assert(table_prefix(t.entries@, c, k));
        assert(has_gpt(dev.contents()));
        assert(table_prefix(t.entries@, dev.contents(), k));
        assert(table_of(t.entries@, dev.contents()));
        Ok(Some(t))
    }

    /// All APFS partitions, in table order.
    pub fn apfs_partitions(&self) -> (r: Vec<&Partition>)
        ensures
            r@.map_values(|p: &Partition| *p) == apfs_only(self.entries@),
    {
        let mut r: Vec<&Partition> = Vec::new();
        let mut i: usize = 0;
        while i < self.entries.len()
            invariant
                i <= self.entries@.len(),
                r@.map_values(|p: &Partition| *p) == apfs_only(self.entries@.take(i as int)),
            decreases self.entries@.len() - i,
        {
            assert(self.entries@.take(i + 1).drop_last() =~= self.entries@.take(i as int));
            let ghost prev = r@.map_values(|p: &Partition| *p);
            if self.entries[i].is_apfs {
                r.push(&self.entries[i]);
                assert(r@.map_values(|p: &Partition| *p) =~= prev.push(self.entries@[i as int]));
            }
            i = i + 1;
            assert(r@.map_values(|p: &Partition| *p) =~= apfs_only(self.entries@.take(i as int)));
        }
        assert(self.entries@.take(i as int) =~= self.entries@);
        r
    }
}

/// The APFS partitions among `es`, in order.
pub open spec fn apfs_only(es: Seq<Partition>) -> Seq<Partition>
    decreases es.len(),
{
    if es.len() == 0 {
        Seq::empty()
    } else {
        apfs_only(es.drop_last()) + if es.last().is_apfs {
            seq![es.last()]
        } else {
            Seq::empty()
        }
    }
}

/// How to choose a partition when no explicit offset is given.
#[derive(Debug, Clone, Copy, PartialEq, Eq, Structural)]
pub enum PartitionSelector {
    /// Auto-detect the single APFS partition (error if ambiguous).
    Auto,
    /// A specific 1-based GPT index.
    Index(u32),
}

/// The LBA range of `p` is addressable in bytes.
pub open spec fn partition_addressable(p: Partition) -> bool {
    &&& p.first_lba * 512 <= u64::MAX
    &&& p.last_lba >= p.first_lba ==> (p.last_lba - p.first_lba + 1) * 512 <= u64::MAX
}

/// Byte length of `p`'s range (0 if reversed).
pub open spec fn byte_len_of(p: Partition) -> int {
    if p.last_lba >= p.first_lba {
        (p.last_lba - p.first_lba + 1) * 512
    } else {
        0
    }
}

/// Length of the container window for `p` on a device of `size` bytes: the
/// partition length, unless it is zero or runs past the device end, in which
/// case everything from the partition start to the device end.
pub open spec fn window_len_of(size: int, p: Partition) -> int {
    let by_dev = if size > p.first_lba * 512 { size - p.first_lba * 512 } else { 0 };
    if byte_len_of(p) == 0 || byte_len_of(p) > by_dev {
        by_dev
    } else {
        byte_len_of(p)
    }
}

fn window_len<D: BlockDevice + ?Sized>(dev: &D, p: &Partition) -> (l: u64)
    requires
        partition_addressable(*p),
    ensures
        l == window_len_of(dev.contents().len() as int, *p),
{
    let by_len = p.byte_len();
    let by_dev = dev.size().saturating_sub(p.byte_offset());
    if by_len == 0 || by_len > by_dev {
        by_dev
    } else {
        by_len
    }
}

fn check_addressable(p: &Partition) -> (r: Result<()>)
    ensures
        match r {
            Ok(_) => partition_addressable(*p),
            Err(e) => !partition_addressable(*p) && e.kind == ErrorKind::Corrupt,
        },
{
    if p.first_lba > u64::MAX / 512 || (p.last_lba >= p.first_lba && p.last_lba - p.first_lba >= u64::MAX / 512) {
        return Err(err(ErrorKind::Corrupt, "GPT partition range is not addressable"));
    }
    Ok(())
}

/// The container window `(offset, len, Some(index))` chosen from a GPT entry:
/// some decoded table of the device holds `p` with that index, and the window
/// spans `p` as [`window_len_of`] describes.
pub open spec fn window_from_entry(c: Seq<u8>, sel: PartitionSelector, off: u64, len: u64, idx: u32) -> bool {
    exists|es: Seq<Partition>, j: int|
        #![trigger table_of(es, c), es[j]]
        table_of(es, c) && 0 <= j < es.len() && es[j].index == idx && off == es[j].first_lba * 512 && len
            == window_len_of(c.len() as int, es[j]) && match sel {
            PartitionSelector::Auto => es[j].is_apfs && apfs_only(es).len() == 1,
            PartitionSelector::Index(k) => k == idx,
        }
}

/// What choosing a partition with `sel` from the decoded table of a device
/// holding `c` gives: with `Auto`, "unsupported format" when no partition is
/// APFS, a usage error when several are, and a window when exactly one is
/// and its range is addressable; with `Index(k)`, a usage error when no
/// partition has index `k`, and a window when one has and every such one is
/// addressable.
pub open spec fn selection_outcome(c: Seq<u8>, sel: PartitionSelector, r: Result<(u64, u64, Option<u32>)>) -> bool {
    let k = gpt_readable_slots(c) as nat;
    match sel {
        PartitionSelector::Auto => {
            &&& (forall|es: Seq<Partition>| #[trigger] table_prefix(es, c, k) ==> apfs_only(es).len() == 0) ==> (r matches Err(e)
                && e.kind == ErrorKind::UnsupportedFormat)
            &&& (forall|es: Seq<Partition>| #[trigger] table_prefix(es, c, k) ==> apfs_only(es).len() > 1) ==> (r matches Err(e)
                && e.kind == ErrorKind::Usage)
            &&& (forall|es: Seq<Partition>|
                #[trigger] table_prefix(es, c, k) ==> apfs_only(es).len() == 1 && partition_addressable(apfs_only(es)[0]))
                ==> r is Ok
        },
        PartitionSelector::Index(i) => {
            &&& (forall|es: Seq<Partition>|
                #[trigger] table_prefix(es, c, k) ==> forall|j: int| 0 <= j < es.len() ==> (#[trigger] es[j]).index != i)
                ==> (r matches Err(e) && e.kind == ErrorKind::Usage)
            &&& (forall|es: Seq<Partition>|
                #[trigger] table_prefix(es, c, k) ==> (exists|j: int| 0 <= j < es.len() && (#[trigger] es[j]).index == i)
                    && forall|j: int| 0 <= j < es.len() && (#[trigger] es[j]).index == i ==> partition_addressable(es[j]))
                ==> r is Ok
        },
    }
}

/// Choosing a partition with `sel` from the decoded table of a device
/// holding `c` gives a window (see [`selection_outcome`]).
pub open spec fn selection_chooses(c: Seq<u8>, sel: PartitionSelector) -> bool {
    let k = gpt_readable_slots(c) as nat;
    match sel {
        PartitionSelector::Auto => forall|es: Seq<Partition>|
            #[trigger] table_prefix(es, c, k) ==> apfs_only(es).len() == 1 && partition_addressable(apfs_only(es)[0]),
        PartitionSelector::Index(i) => forall|es: Seq<Partition>|
            #[trigger] table_prefix(es, c, k) ==> (exists|j: int| 0 <= j < es.len() && (#[trigger] es[j]).index == i)
                && forall|j: int| 0 <= j < es.len() && (#[trigger] es[j]).index == i ==> partition_addressable(es[j]),
    }
}

/// Choosing a partition with `sel` from the decoded table of a device
/// holding `c` is refused with an error of `kind` (see
/// [`selection_outcome`]).
pub open spec fn selection_refused(c: Seq<u8>, sel: PartitionSelector, kind: ErrorKind) -> bool {
    let k = gpt_readable_slots(c) as nat;
    match sel {
        PartitionSelector::Auto => {
            ||| kind == ErrorKind::UnsupportedFormat && forall|es: Seq<Partition>|
                #[trigger] table_prefix(es, c, k) ==> apfs_only(es).len() == 0
            ||| kind == ErrorKind::Usage && forall|es: Seq<Partition>|
                #[trigger] table_prefix(es, c, k) ==> apfs_only(es).len() > 1
        },
        PartitionSelector::Index(i) => kind == ErrorKind::Usage && forall|es: Seq<Partition>|
            #[trigger] table_prefix(es, c, k) ==> forall|j: int| 0 <= j < es.len() ==> (#[trigger] es[j]).index != i,
    }
}

/// Resolve the APFS container offset for an image.
///
/// `explicit_offset` wins; otherwise `selector` chooses among GPT partitions.
/// Returns `(offset, len, partition index)` of the container window.
pub fn resolve_container_window<D: BlockDevice + ?Sized>(
    dev: &D,
    selector: PartitionSelector,
    explicit_offset: Option<u64>,
) -> (r: Result<(u64, u64, Option<u32>)>)
    ensures
        match explicit_offset {
            Some(o) => match r {
                Ok(w) => o < dev.contents().len() && w.0 == o && w.1 == dev.contents().len() - o && w.2 is None,
                Err(e) => o >= dev.contents().len() && e.kind == ErrorKind::Usage,
            },
            None => match r {
                Ok((off, len, None)) => !has_gpt(dev.contents()) && off == 0 && len == dev.contents().len(),
                Ok((off, len, Some(idx))) => has_gpt(dev.contents()) && window_from_entry(
                    dev.contents(),
                    selector,
                    off,
                    len,
                    idx,
                ),
                Err(_) => true,
            },
        },
        explicit_offset is None && !dev.fallible() && !has_gpt(dev.contents()) ==> r == Ok::<(u64, u64, Option<u32>), Error>(
            (0, dev.contents().len() as u64, None),
        ),
        explicit_offset is None && !dev.fallible() && has_gpt(dev.contents()) ==> selection_outcome(
            dev.contents(),
            selector,
            r,
        ),
{
    let ghost c = dev.contents();
    let size = dev.size();
    if let Some(off) = explicit_offset {
        if off >= size {
            let mut m = String::from_str("--offset ");
            text::push_decimal(&mut m, off);
            text::push_str(&mut m, " is past the image size ");
            text::push_decimal(&mut m, size);
            return Err(Error::new(ErrorKind::Usage, m));
        }
        return Ok((off, size - off, None));
    }

    let table = match PartitionTable::parse(dev)? {
        // No GPT: bare container at offset 0.
        None => {
            return Ok((0, size, None));
        },
        Some(t) => t,
    };

    match selector {
        PartitionSelector::Auto => {
            let apfs = table.apfs_partitions();
            if apfs.len() == 0 {
                return Err(err(ErrorKind::UnsupportedFormat, "no Apple_APFS partition found in GPT"));
            } else if apfs.len() == 1 {
                let p = apfs[0];
                check_addressable(p)?;
                proof {
                    assert(apfs@.map_values(|q: &Partition| *q)[0] == *p);
                    lemma_apfs_only_member(table.entries@, 0);
                    let j = choose|j: int| 0 <= j < table.entries@.len() && table.entries@[j] == apfs_only(table.entries@)[0];
                    assert(table_of(table.entries@, c) && table.entries@[j] == *p);
                }
                Ok((p.byte_offset(), window_len(dev, p), Some(p.index)))
            } else {
                let mut m = String::from_str("image has ");
                text::push_decimal(&mut m, apfs.len() as u64);
                text::push_str(&mut m, " APFS partitions; choose one with --partition <index>");
                Err(Error::new(ErrorKind::Usage, m))
            }
        },
        PartitionSelector::Index(idx) => {
            let mut i: usize = 0;
            while i < table.entries.len()
                invariant
                    i <= table.entries@.len(),
                    explicit_offset is None,
                    c == dev.contents(),
                    has_gpt(c),
                    table_of(table.entries@, c),
                    !dev.fallible() ==> table_prefix(table.entries@, c, gpt_readable_slots(c) as nat),
                    selector == PartitionSelector::Index(idx),
                    forall|j: int| 0 <= j < i ==> table.entries@[j].index != idx,
                decreases table.entries@.len() - i,
            {
                if table.entries[i].index == idx {
                    let p = &table.entries[i];
                    let ghost es = table.entries@;
                    assert(es[i as int].index == idx);
                    check_addressable(p)?;
                    assert(table_of(table.entries@, c) && table.entries@[i as int] == *p);
                    return Ok((p.byte_offset(), window_len(dev, p), Some(p.index)));
                }
                i = i + 1;
            }
            let mut m = String::from_str("no partition with index ");
            text::push_decimal(&mut m, idx as u64);
            Err(Error::new(ErrorKind::Usage, m))
        },
    }
}

proof fn lemma_apfs_only_member(es: Seq<Partition>, k: int)
    requires
        0 <= k < apfs_only(es).len(),
    ensures
        exists|j: int| 0 <= j < es.len() && es[j] == apfs_only(es)[k],
        apfs_only(es)[k].is_apfs,
    decreases es.len(),
{
    if es.len() > 0 {
        let head = apfs_only(es.drop_last());
        if k < head.len() {
            lemma_apfs_only_member(es.drop_last(), k);
            let j = choose|j: int| 0 <= j < es.drop_last().len() && es.drop_last()[j] == head[k];
            assert(es[j] == apfs_only(es)[k]);
        } else {
            assert(es[es.len() - 1] == apfs_only(es)[k]);
        }
    }
}

/// A read-only window onto a partition (or explicit-offset region) of an
/// image: a thin newtype over [`OffsetDevice`].
pub struct PartitionedImageDevice<'a, D: ?Sized> {
    inner: OffsetDevice<'a, D>,
}

impl<'a, D: BlockDevice + ?Sized> PartitionedImageDevice<'a, D> {
    pub closed spec fn spec_window(&self) -> OffsetDevice<'a, D> {
        self.inner
    }

    pub fn new(image: &'a D, offset: u64, len: u64) -> (d: Self)
        ensures
            d.contents() == window(image.contents(), offset as int, len as nat),
    {
        PartitionedImageDevice { inner: OffsetDevice::new(image, offset, len) }
    }
}

impl<'a, D: BlockDevice + ?Sized> BlockDevice for PartitionedImageDevice<'a, D> {
    open spec fn contents(&self) -> Seq<u8> {
        self.spec_window().contents()
    }

    open spec fn fallible(&self) -> bool {
        self.spec_window().fallible()
    }

    fn size(&self) -> (s: u64) {
        self.inner.size()
    }

    /// A read of the window is the image's read at the window's start plus
    /// `offset`; an empty read always succeeds.
    fn read_at(&self, offset: u64, buf: &mut [u8]) -> (r: Result<()>)
        ensures
            r is Ok ==> final(buf)@ == device_slice(
                self.spec_window().spec_inner(),
                self.spec_window().spec_base() + offset,
                old(buf)@.len() as int,
            ),
            old(buf)@.len() == 0 ==> r is Ok,
    {
        self.inner.read_at(offset, buf)
    }

    open spec fn described_as(&self) -> Seq<char> {
        self.spec_window().described_as()
    }

    fn description(&self) -> &str {
        self.inner.description()
    }
}

} // verus!
