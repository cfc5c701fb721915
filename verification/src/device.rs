//! The central read-only block-device abstraction.
//!
//! Every APFS parser reads through [`BlockDevice`]. No APFS code opens files,
//! seeks, or knows whether the source is a sparsebundle, a raw image, or a
//! device path. Backends are read-only by construction: the trait exposes no
//! write method.
use vstd::prelude::*;

use crate::error::{err, Error, ErrorKind, Result};
use crate::text;

pub mod mem;
pub mod offset;
pub mod partition;
pub mod sparsebundle;

pub use mem::MemDevice;
pub use offset::OffsetDevice;
pub use partition::{Partition, PartitionTable, PartitionedImageDevice};



verus! {

/// The bytes a read of `n` bytes at `off` yields from a device holding `c`.
pub open spec fn device_slice(c: Seq<u8>, off: int, n: int) -> Seq<u8> {
    if n == 0 {
        Seq::empty()
    } else {
        c.subrange(off, off + n)
    }
}

/// The bytes of block `block` (of `bs` bytes) of a device holding `c`, when
/// the whole block lies within the device.
pub open spec fn block_bytes(c: Seq<u8>, block: int, bs: int) -> Option<Seq<u8>> {
    if 0 <= block && 0 < bs && block * bs + bs <= c.len() {
        Some(c.subrange(block * bs, block * bs + bs))
    } else {
        None
    }
}

/// The kinds of error a device read reports: the source failed or could not
/// be reached, or the read fell outside the device.
pub open spec fn device_failure(k: ErrorKind) -> bool {
    k == ErrorKind::Io || k == ErrorKind::NotFound || k == ErrorKind::PermissionDenied || k == ErrorKind::Internal
}

/// A read-only random-access block device backing an APFS container.
///
/// A device holds a fixed sequence of bytes, [`BlockDevice::contents`]. Reads
/// past the end of the logical device are an [`ErrorKind::Io`] error, not a
/// panic; a read that succeeds yields exactly the requested bytes. A backend
/// may also fail a read inside the device, with one of the
/// [`device_failure`] kinds.
pub trait BlockDevice {
    /// The logical bytes of the device. Every device of this library says
    /// what they are; the default, which promises nothing about them, is
    /// there for devices written outside Verus, which cannot define a spec
    /// function and whose contracts nothing checks.
    closed spec fn contents(&self) -> Seq<u8> {
        vstd::pervasive::arbitrary()
    }

    /// A read inside the device may still fail (an I/O error); a device that
    /// is not fallible answers every in-range read. A device that does not
    /// say otherwise may fail any read.
    closed spec fn fallible(&self) -> bool {
        true
    }

    /// Logical size of the device in bytes.
    fn size(&self) -> (s: u64)
        ensures
            s == self.contents().len(),
    ;

    /// Read exactly `buf.len()` bytes starting at byte `offset`.
    fn read_at(&self, offset: u64, buf: &mut [u8]) -> (r: Result<()>)
        ensures
            final(buf)@.len() == old(buf)@.len(),
            r is Ok ==> (old(buf)@.len() == 0 || offset + old(buf)@.len() <= self.contents().len()) && final(buf)@
                == device_slice(self.contents(), offset as int, old(buf)@.len() as int),
            r matches Err(e) ==> device_failure(e.kind),
            old(buf)@.len() > 0 && offset + old(buf)@.len() > self.contents().len() ==> (r matches Err(e) && e.kind
                == ErrorKind::Io),
            !self.fallible() && (old(buf)@.len() == 0 || offset + old(buf)@.len() <= self.contents().len()) ==> r is Ok,
    ;

    /// The text the device describes its source with. As for
    /// [`BlockDevice::contents`], the default promises nothing and is there
    /// for devices written outside Verus.
    closed spec fn described_as(&self) -> Seq<char> {
        vstd::pervasive::arbitrary()
    }

    /// A short human description of the source.
    fn description(&self) -> (d: &str)
        ensures
            d@ == self.described_as(),
    ;

    /// Read `len` bytes at `offset` into a fresh `Vec`.
    fn read_vec(&self, offset: u64, len: usize) -> (r: Result<Vec<u8>>)
        ensures
            r matches Ok(v) ==> v@.len() == len && (len == 0 || offset + len <= self.contents().len()) && v@
                == device_slice(self.contents(), offset as int, len as int),
            r matches Err(e) ==> device_failure(e.kind),
            len > 0 && offset + len > self.contents().len() ==> (r matches Err(e) && e.kind == ErrorKind::Io),
            !self.fallible() && (len == 0 || offset + len <= self.contents().len()) ==> r is Ok,
    {
        let mut buf: Vec<u8> = vec![0u8; len];
        self.read_at(offset, buf.as_mut_slice())?;
        Ok(buf)
    }

    /// Read APFS block number `block` given `block_size`. Blocks are
    /// `block_size`-byte units numbered from 0. A block whose address
    /// overflows is [`ErrorKind::Corrupt`]; other failures are the device's.
    fn read_block(&self, block: u64, block_size: u32) -> (r: Result<Vec<u8>>)
        requires
            block_size > 0,
        ensures
            r matches Ok(v) ==> block_bytes(self.contents(), block as int, block_size as int) == Some(v@),
            block_bytes(self.contents(), block as int, block_size as int) is None ==> r is Err,
            r matches Err(e) ==> device_failure(e.kind) || (e.kind == ErrorKind::Corrupt && block_bytes(
                self.contents(),
                block as int,
                block_size as int,
            ) is None),
            !self.fallible() && block_bytes(self.contents(), block as int, block_size as int) is Some ==> r is Ok,
    {
        let offset = match block.checked_mul(block_size as u64) {
            Some(o) => o,
            None => {
                // No block this far out lies inside a device whose size is a u64.
                let _ = self.size();
                return Err(err(ErrorKind::Corrupt, "block address overflow"));
            },
        };
        self.read_vec(offset, block_size as usize)
    }
}

/// Validate a requested range against the device size.
pub fn check_range(offset: u64, len: usize, size: u64) -> (r: Result<()>)
    ensures
        match r {
            Ok(_) => offset + len <= size,
            Err(e) => offset + len > size && e.kind == ErrorKind::Io,
        },
{
    let end = match offset.checked_add(len as u64) {
        Some(e) => e,
        None => {
            return Err(err(ErrorKind::Io, "read range overflows u64"));
        },
    };
    if end > size {
        let mut m = String::from_str("read of ");
        text::push_decimal(&mut m, len as u64);
        text::push_str(&mut m, " bytes at offset ");
        text::push_decimal(&mut m, offset);
        text::push_str(&mut m, " extends past device size ");
        text::push_decimal(&mut m, size);
        return Err(Error::new(ErrorKind::Io, m));
    }
    Ok(())
}

} // verus!
