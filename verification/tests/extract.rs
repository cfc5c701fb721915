use apfsrelic::apfs::extract::write_extents;
use apfsrelic::apfs::jrec::FileExtent;
use apfsrelic::device::mem::MemDevice;

fn extent(logical: u64, len: u64, phys: u64) -> FileExtent {
    FileExtent {
        logical_addr: logical,
        len,
        phys_block_num: phys,
        crypto_id: 0,
    }
}

#[test]
fn writes_sparse_file_with_hole() {
    let bs = 4u32;
    let mut data = vec![0u8; 12];
    data[4..8].copy_from_slice(b"AAAA");
    data[8..12].copy_from_slice(b"BBBB");
    let dev = MemDevice::new(data);

    let mut extents = vec![extent(0, 4, 1), extent(8, 4, 2)];
    let mut out = Vec::new();
    let w = write_extents(&dev, bs, &mut extents, 12, &mut out).unwrap();
    assert_eq!(out, b"AAAA\0\0\0\0BBBB");
    assert_eq!(w.bytes, 12);
    assert!(w.holes >= 1);
    assert_eq!(w.missing, 0);
}

#[test]
fn explicit_hole_extent_zero_fills() {
    let bs = 4u32;
    let dev = MemDevice::new(b"WXYZ".to_vec());
    let mut extents = vec![extent(0, 4, 0)];
    let mut out = Vec::new();
    let w = write_extents(&dev, bs, &mut extents, 4, &mut out).unwrap();
    assert_eq!(out, b"\0\0\0\0");
    assert_eq!(w.bytes, 4);
}

#[test]
fn stops_at_logical_size() {
    let bs = 4u32;
    let dev = MemDevice::new(b"ABCD".to_vec());
    let mut extents = vec![extent(0, 4, 0)];
    let mut out = Vec::new();
    let w = write_extents(&dev, bs, &mut extents, 2, &mut out).unwrap();
    assert_eq!(out, b"\0\0");
    assert_eq!(w.bytes, 2);
}

#[test]
fn unsorted_extents_are_laid_out_by_address() {
    let bs = 4u32;
    let mut data = vec![0u8; 12];
    data[4..8].copy_from_slice(b"AAAA");
    data[8..12].copy_from_slice(b"BBBB");
    let dev = MemDevice::new(data);
    let mut extents = vec![extent(4, 4, 2), extent(0, 4, 1)];
    let mut out = Vec::new();
    let w = write_extents(&dev, bs, &mut extents, 8, &mut out).unwrap();
    assert_eq!(out, b"AAAABBBB");
    assert_eq!(extents[0].logical_addr, 0);
    assert_eq!(extents[1].logical_addr, 4);
    assert_eq!(w.bytes, 8);
    assert_eq!(w.holes, 0);
    assert_eq!(w.overlaps, 0);
}

#[test]
fn overlapping_extent_is_skipped_and_tail_zero_filled() {
    let bs = 4u32;
    let mut data = vec![0u8; 12];
    data[4..8].copy_from_slice(b"AAAA");
    data[8..12].copy_from_slice(b"BBBB");
    let dev = MemDevice::new(data);
    // The second extent starts inside the first: it is skipped.
    let mut extents = vec![extent(0, 4, 1), extent(2, 4, 2)];
    let mut out = Vec::new();
    let w = write_extents(&dev, bs, &mut extents, 6, &mut out).unwrap();
    assert_eq!(out, b"AAAA\0\0");
    assert_eq!(w.overlaps, 1);
    assert_eq!(w.bytes, 6);
}

#[test]
fn extent_past_device_end_is_an_error() {
    let bs = 4u32;
    let dev = MemDevice::new(b"ABCD".to_vec());
    let mut extents = vec![extent(0, 4, 5)];
    let mut out = Vec::new();
    assert!(write_extents(&dev, bs, &mut extents, 4, &mut out).is_err());
}
