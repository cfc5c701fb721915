//! `OffsetDevice` — a sub-window of another [`BlockDevice`] starting at a fixed
//! byte offset, re-based to 0. Used to present an APFS container that begins
//! at a partition offset (or any user-supplied offset) as if it began at 0.
use vstd::prelude::*;

use super::{check_range, device_slice, BlockDevice};
use crate::error::{err, ErrorKind, Result};
use crate::text::{self, dec_digits};

verus! {

/// The bytes of a window of `len` bytes at `base` over a device holding `c`;
/// positions past the end of `c` never read successfully and are shown as 0.
pub open spec fn window(c: Seq<u8>, base: int, len: nat) -> Seq<u8> {
    Seq::new(len, |i: int| if base + i < c.len() { c[base + i] } else { 0u8 })
}

/// A read-only view of `[base, base+len)` of an inner device, re-based to 0.
pub struct OffsetDevice<'a, D: ?Sized> {
    inner: &'a D,
    base: u64,
    len: u64,
    description: String,
}

impl<'a, D: BlockDevice + ?Sized> OffsetDevice<'a, D> {
    pub closed spec fn spec_inner(&self) -> Seq<u8> {
        self.inner.contents()
    }

    pub closed spec fn spec_inner_fallible(&self) -> bool {
        self.inner.fallible()
    }

    pub closed spec fn spec_base(&self) -> u64 {
        self.base
    }

    pub closed spec fn spec_len(&self) -> u64 {
        self.len
    }

    /// The window's description: the inner device's, then its offset and
    /// length.
    pub closed spec fn spec_description(&self) -> Seq<char> {
        self.description@
    }

    /// Window `inner` to `len` bytes starting at byte `base`.
    pub fn new(inner: &'a D, base: u64, len: u64) -> (d: Self)
        ensures
            d.spec_inner() == inner.contents(),
            d.spec_inner_fallible() == inner.fallible(),
            d.spec_base() == base,
            d.spec_len() == len,
            d.spec_description() == inner.described_as() + " @ offset "@ + dec_digits(base as nat) + " ("@ + dec_digits(
                len as nat,
            ) + " bytes)"@,
    {
        let mut description = String::from_str(inner.description());
        text::push_str(&mut description, " @ offset ");
        text::push_decimal(&mut description, base);
        text::push_str(&mut description, " (");
        text::push_decimal(&mut description, len);
        text::push_str(&mut description, " bytes)");
        proof {
            assert(description@ =~= inner.described_as() + " @ offset "@ + dec_digits(base as nat) + " ("@ + dec_digits(
                len as nat,
            ) + " bytes)"@);
        }
        OffsetDevice { inner, base, len, description }
    }
}

impl<'a, D: BlockDevice + ?Sized> BlockDevice for OffsetDevice<'a, D> {
    open spec fn contents(&self) -> Seq<u8> {
        window(self.spec_inner(), self.spec_base() as int, self.spec_len() as nat)
    }

    /// Reads fail where the inner device may fail, and where the window runs
    /// past the end of the inner device.
    open spec fn fallible(&self) -> bool {
        self.spec_inner_fallible() || self.spec_base() + self.spec_len() > self.spec_inner().len()
    }

    fn size(&self) -> (s: u64) {
        self.len
    }

    /// A read of the window is the inner device's read at `base + offset`.
    fn read_at(&self, offset: u64, buf: &mut [u8]) -> (r: Result<()>)
        ensures
            r is Ok ==> final(buf)@ == device_slice(self.spec_inner(), self.spec_base() + offset, old(buf)@.len() as int),
            old(buf)@.len() == 0 ==> r is Ok,
    {
        if buf.len() == 0 {
            return Ok(());
        }
        check_range(offset, buf.len(), self.len)?;
        let at = match self.base.checked_add(offset) {
            Some(a) => a,
            None => {
                // Only possible for a window past the end of the inner device.
                let _ = self.inner.size();
                return Err(err(ErrorKind::Io, "read range overflows u64"));
            },
        };
        let ghost n = old(buf)@.len();
        let r = self.inner.read_at(at, buf);
        proof {
            if r is Ok {
                assert(buf@ =~= device_slice(self.contents(), offset as int, n as int));
            }
        }
        r
    }

    open spec fn described_as(&self) -> Seq<char> {
        self.spec_description()
    }

    fn description(&self) -> &str {
        self.description.as_str()
    }
}

} // verus!
