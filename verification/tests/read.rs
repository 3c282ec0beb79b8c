use presser::{
    copy_from_slice_to_offset, copy_from_slice_to_offset_with_align, copy_to_offset,
    copy_to_offset_with_align, ffi_readback_target, get_maybe_uninit_at_offset_mut,
    get_maybe_uninit_at_offset_mut_unchecked, get_maybe_uninit_slice_at_offset_mut,
    get_maybe_uninit_slice_at_offset_mut_unchecked, read_at_offset, read_at_offset_unchecked,
    read_slice_at_offset, read_slice_at_offset_unchecked, readback_from_ffi,
    readback_slice_from_ffi, values_from_bytes, write_bytes, BorrowedRawAllocation, Error,
    HeapSlab, Layout, RawAllocation,
};

fn region(base: usize, size: usize) -> BorrowedRawAllocation {
    RawAllocation::from_raw_parts(base, size).borrow_as_slab()
}

#[test]
fn readback_ffi() {
    const MAX_HITS: usize = 32;
    const HITS_TO_WRITE: [u32; 12] = [1, 2, 10, 0, 1, 0, 11, 5, 100, 0, 0, 1];

    let mut hits_slab = HeapSlab::new(Layout::from_size_align(MAX_HITS * 4, 4).unwrap());
    let (address, writable) = ffi_readback_target::<u32, HeapSlab>(&hits_slab).unwrap();
    assert_eq!(address % 4, 0);
    assert_eq!(writable, MAX_HITS * 4 - 4);

    copy_from_slice_to_offset(&HITS_TO_WRITE, &mut hits_slab, 0).unwrap();
    let written = HITS_TO_WRITE.len();

    let readback_hits: Vec<u32> = readback_slice_from_ffi(&hits_slab, written).unwrap();
    assert_eq!(&HITS_TO_WRITE[..], &readback_hits[..]);
}

#[test]
fn copy_then_read_gives_the_value_back() {
    for base in [0usize, 1, 6, 64] {
        for offset in 0usize..12 {
            for floor in [0usize, 1, 2, 8, 16] {
                let mut slab = region(base, 64);
                let value = 0xDEADBEEF_u32.wrapping_mul(offset as u32 + 1);
                let rec = copy_to_offset_with_align(&value, &mut slab, offset, floor).unwrap();
                let back: u32 = read_at_offset(&slab, rec.start_offset).unwrap();
                assert_eq!(back, value);
                let back: u32 = read_at_offset_unchecked(&slab, rec.start_offset);
                assert_eq!(back, value);
            }
        }
    }
    let mut slab = region(0, 64);
    let rec = copy_to_offset(&0x0123456789ABCDEFu64, &mut slab, 9).unwrap();
    assert_eq!(read_at_offset::<u64, _>(&slab, rec.start_offset), Ok(0x0123456789ABCDEF));
    let rec = copy_to_offset(&0xABu8, &mut slab, 63).unwrap();
    assert_eq!(read_at_offset::<u8, _>(&slab, rec.start_offset), Ok(0xAB));
    let rec = copy_to_offset(&0xABCDu16, &mut slab, 1).unwrap();
    assert_eq!(read_at_offset::<u16, _>(&slab, rec.start_offset), Ok(0xABCD));
}

#[test]
fn read_is_always_exact() {
    let mut slab = region(0, 16);
    write_bytes(&mut slab, 0, &[0; 16]);
    assert_eq!(read_at_offset::<u32, _>(&slab, 1), Err(Error::RequestedOffsetUnaligned));
    assert_eq!(read_at_offset::<u32, _>(&slab, 4), Ok(0));
    assert_eq!(read_slice_at_offset::<u16, _>(&slab, 3, 2), Err(Error::RequestedOffsetUnaligned));
    let mut slab = region(2, 16);
    write_bytes(&mut slab, 0, &[0; 16]);
    assert_eq!(read_at_offset::<u32, _>(&slab, 0), Err(Error::RequestedOffsetUnaligned));
    assert_eq!(read_at_offset::<u32, _>(&slab, 2), Ok(0));
}

#[test]
fn read_bounds() {
    let mut slab = region(0, 10);
    write_bytes(&mut slab, 0, &[1; 10]);
    assert_eq!(read_at_offset::<u32, _>(&slab, 8), Err(Error::OutOfMemory));
    assert_eq!(read_at_offset::<u32, _>(&slab, 12), Err(Error::OffsetOutOfBounds));
    assert_eq!(read_at_offset::<u32, _>(&slab, usize::MAX - 3), Err(Error::InvalidLayout));
    assert_eq!(read_at_offset::<u16, _>(&slab, 8), Ok(0x0101));
    assert_eq!(read_slice_at_offset::<u16, _>(&slab, 4, 4), Err(Error::OutOfMemory));
    assert_eq!(read_slice_at_offset::<u16, _>(&slab, 12, 1), Err(Error::OffsetOutOfBounds));
    assert_eq!(read_slice_at_offset::<u16, _>(&slab, 0, usize::MAX), Err(Error::InvalidLayout));
    assert_eq!(read_slice_at_offset::<u16, _>(&slab, 10, 0), Ok(vec![]));
}

#[test]
fn slice_copy_then_read_gives_the_values_back() {
    let values = [3u16, 1, 4, 1, 5, 9, 2, 6];
    for offset in 0usize..6 {
        let mut slab = region(0, 64);
        let rec = copy_from_slice_to_offset_with_align(&values, &mut slab, offset, 4).unwrap();
        let back: Vec<u16> = read_slice_at_offset(&slab, rec.start_offset, values.len()).unwrap();
        assert_eq!(&back[..], &values[..]);
        let back: Vec<u16> = read_slice_at_offset_unchecked(&slab, rec.start_offset, 3);
        assert_eq!(&back[..], &values[..3]);
    }
}

#[test]
fn values_from_bytes_splits_by_size() {
    assert_eq!(values_from_bytes::<u16>(&[1, 0, 2, 0, 3, 1], 3), vec![1, 2, 259]);
    assert_eq!(values_from_bytes::<u8>(&[1, 0, 2], 3), vec![1, 0, 2]);
    assert_eq!(values_from_bytes::<u64>(&[], 0), Vec::<u64>::new());
}

#[test]
fn readback_of_one_value() {
    let mut slab = region(5, 16);
    assert_eq!(ffi_readback_target::<u32, _>(&slab), Ok((8, 9)));
    copy_to_offset(&77u32, &mut slab, 0).unwrap();
    assert_eq!(readback_from_ffi::<u32, _>(&slab), Ok(77));
    let small = region(5, 6);
    assert_eq!(ffi_readback_target::<u32, _>(&small), Err(Error::OutOfMemory));
    assert_eq!(readback_from_ffi::<u32, _>(&small), Err(Error::OutOfMemory));
    let tiny = region(5, 2);
    assert_eq!(ffi_readback_target::<u32, _>(&tiny), Err(Error::OffsetOutOfBounds));
}

#[test]
fn readback_checks_the_count() {
    let mut slab = region(0, 16);
    write_bytes(&mut slab, 0, &[1, 0, 0, 0, 2, 0, 0, 0, 3, 0, 0, 0, 4, 0, 0, 0]);
    assert_eq!(readback_slice_from_ffi::<u32, _>(&slab, 4), Ok(vec![1, 2, 3, 4]));
    assert_eq!(readback_slice_from_ffi::<u32, _>(&slab, 2), Ok(vec![1, 2]));
    assert_eq!(readback_slice_from_ffi::<u32, _>(&slab, 0), Ok(vec![]));
    assert_eq!(readback_slice_from_ffi::<u32, _>(&slab, 5), Err(Error::OutOfMemory));
    assert_eq!(readback_slice_from_ffi::<u32, _>(&slab, usize::MAX), Err(Error::InvalidLayout));
    let small = region(0, 3);
    assert_eq!(readback_slice_from_ffi::<u32, _>(&small, 0), Err(Error::OutOfMemory));
}

#[test]
fn maybe_uninit_place_tells_written_from_unwritten() {
    let mut slab = region(0, 16);
    write_bytes(&mut slab, 4, &[1, 2, 3, 4, 5, 6]);
    assert_eq!(get_maybe_uninit_at_offset_mut::<u32, _>(&slab, 4), Ok(Some(0x04030201)));
    assert_eq!(get_maybe_uninit_at_offset_mut::<u32, _>(&slab, 8), Ok(None));
    assert_eq!(get_maybe_uninit_at_offset_mut::<u32, _>(&slab, 0), Ok(None));
    assert_eq!(get_maybe_uninit_at_offset_mut::<u16, _>(&slab, 8), Ok(Some(0x0605)));
    assert_eq!(get_maybe_uninit_at_offset_mut::<u16, _>(&slab, 10), Ok(None));
    assert_eq!(
        get_maybe_uninit_at_offset_mut::<u32, _>(&slab, 6),
        Err(Error::RequestedOffsetUnaligned)
    );
    assert_eq!(get_maybe_uninit_at_offset_mut::<u32, _>(&slab, 16), Err(Error::OutOfMemory));
    assert_eq!(get_maybe_uninit_at_offset_mut::<u32, _>(&slab, 20), Err(Error::OffsetOutOfBounds));
    assert_eq!(get_maybe_uninit_at_offset_mut_unchecked::<u32, _>(&slab, 4), Some(0x04030201));
    assert_eq!(get_maybe_uninit_at_offset_mut_unchecked::<u32, _>(&slab, 12), None);
}

#[test]
fn maybe_uninit_places_of_a_block() {
    let mut slab = region(0, 16);
    write_bytes(&mut slab, 2, &[1, 0, 2, 0, 3]);
    write_bytes(&mut slab, 10, &[5, 0]);
    assert_eq!(
        get_maybe_uninit_slice_at_offset_mut::<u16, _>(&slab, 0, 8),
        Ok(vec![None, Some(1), Some(2), None, None, Some(5), None, None])
    );
    assert_eq!(
        get_maybe_uninit_slice_at_offset_mut::<u16, _>(&slab, 2, 2),
        Ok(vec![Some(1), Some(2)])
    );
    assert_eq!(get_maybe_uninit_slice_at_offset_mut::<u16, _>(&slab, 16, 0), Ok(vec![]));
    assert_eq!(
        get_maybe_uninit_slice_at_offset_mut::<u16, _>(&slab, 1, 2),
        Err(Error::RequestedOffsetUnaligned)
    );
    assert_eq!(
        get_maybe_uninit_slice_at_offset_mut::<u16, _>(&slab, 0, 9),
        Err(Error::OutOfMemory)
    );
    assert_eq!(
        get_maybe_uninit_slice_at_offset_mut::<u16, _>(&slab, 0, usize::MAX),
        Err(Error::InvalidLayout)
    );
    assert_eq!(
        get_maybe_uninit_slice_at_offset_mut_unchecked::<u16, _>(&slab, 8, 3),
        vec![None, Some(5), None]
    );
}
