//! `MemDevice` — an in-memory, read-only block device over a byte vector.
use vstd::prelude::*;

use super::{check_range, device_slice, BlockDevice};
use crate::error::Result;

verus! {

/// A read-only block device whose contents are held in memory.
pub struct MemDevice {
    pub data: Vec<u8>,
}

impl MemDevice {
    pub fn new(data: Vec<u8>) -> (d: MemDevice)
        ensures
            d.data@ == data@,
    {
        MemDevice { data }
    }
}

impl BlockDevice for MemDevice {
    open spec fn contents(&self) -> Seq<u8> {
        self.data@
    }

    open spec fn fallible(&self) -> bool {
        false
    }

    fn size(&self) -> (s: u64) {
        self.data.len() as u64
    }

    fn read_at(&self, offset: u64, buf: &mut [u8]) -> (r: Result<()>) {
        let n = buf.len();
        if n == 0 {
            return Ok(());
        }
        check_range(offset, n, self.data.len() as u64)?;
        let dlen = self.data.len();
        let o = offset as usize;
        let mut i: usize = 0;
        while i < n
            invariant
                n == buf@.len() == old(buf)@.len(),
                o + n <= self.data@.len() == dlen,
                o == offset,
                i <= n,
                forall|j: int| 0 <= j < i ==> buf@[j] == self.data@[o + j],
            decreases n - i,
        {
            buf[i] = self.data[o + i];
            i = i + 1;
        }
        assert(buf@ =~= device_slice(self.data@, offset as int, n as int));
        Ok(())
    }

    open spec fn described_as(&self) -> Seq<char> {
        "mem"@
    }

    fn description(&self) -> &str {
        "mem"
    }
}

} // verus!
