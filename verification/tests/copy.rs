use presser::{
    copy_bytes_to_offset, copy_from_iter_to_offset_with_align,
    copy_from_iter_to_offset_with_align_exact_packed, copy_from_iter_to_offset_with_align_packed,
    copy_from_slice_to_offset, copy_from_slice_to_offset_exact,
    copy_from_slice_to_offset_with_align, copy_from_slice_to_offset_with_align_exact,
    copy_to_offset, copy_to_offset_exact, copy_to_offset_with_align,
    copy_to_offset_with_align_exact, slice_to_bytes, write_bytes, BorrowedRawAllocation,
    CopyRecord, Error, HeapSlab, Layout, Plain, RawAllocation, Slab,
};

fn region(base: usize, size: usize) -> BorrowedRawAllocation {
    RawAllocation::from_raw_parts(base, size).borrow_as_slab()
}

fn record(start_offset: usize, end_offset: usize, end_offset_padded: usize) -> CopyRecord {
    CopyRecord { start_offset, end_offset, end_offset_padded }
}

fn snapshot<S: Slab>(slab: &S) -> Vec<Option<u8>> {
    slab.as_maybe_uninit_bytes().to_vec()
}

fn canary(size: usize) -> Vec<u8> {
    (0..size).map(|i| 0xA0u8.wrapping_add(i as u8)).collect()
}

#[test]
fn raw_allocation_keeps_its_parts() {
    let mut raw = RawAllocation::from_raw_parts(4096, 24);
    assert_eq!(raw.base_ptr, 4096);
    assert_eq!(raw.size, 24);
    let slab = raw.borrow_as_slab();
    assert_eq!(slab.base_ptr(), 4096);
    assert_eq!(slab.size(), 24);
    assert!(slab.as_maybe_uninit_bytes().iter().all(|b| b.is_none()));
    assert_eq!(raw.base_ptr, 4096);
    assert_eq!(raw.size, 24);
}

#[test]
fn heap_slab_starts_unwritten_and_aligned() {
    let slab = HeapSlab::new(Layout::from_size_align(40, 8).unwrap());
    assert_eq!(slab.size(), 40);
    assert_eq!(slab.base_ptr() % 8, 0);
    assert_eq!(snapshot(&slab), vec![None; 40]);
}

#[test]
fn ffi_buffer_gives_address_and_length() {
    let slab = region(1000, 32);
    assert_eq!(slab.as_ffi_buffer(0, 32), (1000, 32));
    assert_eq!(slab.as_ffi_buffer(8, 20), (1008, 12));
    assert_eq!(slab.as_ffi_buffer(32, 32), (1032, 0));
}

#[test]
fn write_bytes_touches_its_range_only() {
    let mut slab = region(0, 6);
    write_bytes(&mut slab, 2, &[7, 8, 9]);
    assert_eq!(snapshot(&slab), vec![None, None, Some(7), Some(8), Some(9), None]);
    assert_eq!(slab.assume_range_initialized_as_bytes(2, 5), vec![7, 8, 9]);
    write_bytes(&mut slab, 0, &[1, 2]);
    write_bytes(&mut slab, 5, &[3]);
    assert_eq!(slab.assume_initialized_as_bytes(), vec![1, 2, 7, 8, 9, 3]);
}

#[test]
fn plain_bytes_of_integers() {
    assert_eq!(7u8.to_bytes(), vec![7]);
    assert_eq!(0x0102u16.to_bytes(), vec![2, 1]);
    assert_eq!(0x01020304u32.to_bytes(), vec![4, 3, 2, 1]);
    assert_eq!(0x0102030405060708u64.to_bytes(), vec![8, 7, 6, 5, 4, 3, 2, 1]);
    assert_eq!(u8::from_bytes(&[7]), 7);
    assert_eq!(u16::from_bytes(&[2, 1]), 0x0102);
    assert_eq!(u32::from_bytes(&[4, 3, 2, 1]), 0x01020304);
    assert_eq!(u64::from_bytes(&[8, 7, 6, 5, 4, 3, 2, 1]), 0x0102030405060708);
    assert_eq!((u8::layout().size(), u8::layout().align()), (1, 1));
    assert_eq!((u16::layout().size(), u16::layout().align()), (2, 2));
    assert_eq!((u32::layout().size(), u32::layout().align()), (4, 4));
    assert_eq!((u64::layout().size(), u64::layout().align()), (8, 8));
    assert_eq!(slice_to_bytes(&[1u16, 2, 3]), vec![1, 0, 2, 0, 3, 0]);
    assert_eq!(slice_to_bytes::<u32>(&[]), Vec::<u8>::new());
}

#[test]
fn floating_copy_moves_forward_to_the_alignment() {
    let mut slab = HeapSlab::new(Layout::from_size_align(16, 4).unwrap());
    let r = copy_to_offset(&0xDDCCBBAAu32, &mut slab, 1);
    assert_eq!(r, Ok(record(4, 8, 8)));
    let mut expected = vec![None; 16];
    expected[4] = Some(0xAA);
    expected[5] = Some(0xBB);
    expected[6] = Some(0xCC);
    expected[7] = Some(0xDD);
    assert_eq!(snapshot(&slab), expected);
}

#[test]
fn exact_copy_refuses_an_unaligned_offset() {
    let mut slab = region(0, 16);
    write_bytes(&mut slab, 0, &canary(16));
    let before = snapshot(&slab);
    let r = copy_to_offset_exact(&0xDDCCBBAAu32, &mut slab, 1);
    assert_eq!(r, Err(Error::RequestedOffsetUnaligned));
    assert_eq!(snapshot(&slab), before);
    let r = copy_to_offset_with_align_exact(&0xDDCCBBAAu32, &mut slab, 4, 8);
    assert_eq!(r, Err(Error::RequestedOffsetUnaligned));
    assert_eq!(snapshot(&slab), before);
    let r = copy_from_slice_to_offset_exact(&[1u16, 2], &mut slab, 3);
    assert_eq!(r, Err(Error::RequestedOffsetUnaligned));
    assert_eq!(snapshot(&slab), before);
    let r = copy_from_slice_to_offset_with_align_exact(&[1u16, 2], &mut slab, 2, 4);
    assert_eq!(r, Err(Error::RequestedOffsetUnaligned));
    assert_eq!(snapshot(&slab), before);
}

#[test]
fn exact_copy_at_an_aligned_offset() {
    let mut slab = region(0, 16);
    let r = copy_to_offset_exact(&0x1122u16, &mut slab, 6);
    assert_eq!(r, Ok(record(6, 8, 8)));
    let r = copy_to_offset_with_align_exact(&0x33u8, &mut slab, 8, 8);
    assert_eq!(r, Ok(record(8, 9, 16)));
    let bytes = snapshot(&slab);
    assert_eq!(bytes[6], Some(0x22));
    assert_eq!(bytes[7], Some(0x11));
    assert_eq!(bytes[8], Some(0x33));
    assert_eq!(bytes[9], None);
    assert_eq!(bytes.iter().filter(|b| b.is_some()).count(), 3);
}

#[test]
fn copy_leaves_the_padding_alone() {
    let mut slab = region(0, 32);
    write_bytes(&mut slab, 0, &canary(32));
    let before = snapshot(&slab);
    let r = copy_to_offset_with_align(&0x01020304u32, &mut slab, 3, 16);
    assert_eq!(r, Ok(record(16, 20, 32)));
    let after = snapshot(&slab);
    assert_eq!(&after[..16], &before[..16]);
    assert_eq!(&after[16..20], &[Some(4), Some(3), Some(2), Some(1)]);
    assert_eq!(&after[20..], &before[20..]);
}

#[test]
fn copy_follows_the_address_of_an_unaligned_base() {
    let mut slab = region(3, 16);
    let r = copy_to_offset(&5u32, &mut slab, 0);
    assert_eq!(r, Ok(record(1, 5, 5)));
    let r = copy_to_offset_exact(&5u32, &mut slab, 5);
    assert_eq!(r, Ok(record(5, 9, 9)));
    let r = copy_to_offset_exact(&5u32, &mut slab, 4);
    assert_eq!(r, Err(Error::RequestedOffsetUnaligned));
}

#[test]
fn copy_out_of_memory_writes_nothing() {
    let mut slab = region(0, 10);
    write_bytes(&mut slab, 0, &canary(10));
    let before = snapshot(&slab);
    assert_eq!(copy_to_offset(&1u32, &mut slab, 7), Err(Error::OutOfMemory));
    assert_eq!(copy_to_offset(&1u32, &mut slab, 8), Err(Error::OutOfMemory));
    assert_eq!(copy_to_offset_with_align(&1u32, &mut slab, 0, 16), Err(Error::OutOfMemory));
    assert_eq!(copy_from_slice_to_offset(&[1u32, 2, 3], &mut slab, 0), Err(Error::OutOfMemory));
    assert_eq!(snapshot(&slab), before);
}

#[test]
fn copy_offset_out_of_bounds_writes_nothing() {
    let mut slab = region(0, 10);
    write_bytes(&mut slab, 0, &canary(10));
    let before = snapshot(&slab);
    assert_eq!(copy_to_offset(&1u32, &mut slab, 9), Err(Error::OffsetOutOfBounds));
    assert_eq!(copy_to_offset(&1u8, &mut slab, 11), Err(Error::OffsetOutOfBounds));
    assert_eq!(copy_to_offset_exact(&1u8, &mut slab, 11), Err(Error::OffsetOutOfBounds));
    assert_eq!(copy_to_offset(&1u8, &mut slab, 10), Err(Error::OutOfMemory));
    assert_eq!(snapshot(&slab), before);
}

#[test]
fn copy_invalid_layout_writes_nothing() {
    let mut slab = region(0, 10);
    write_bytes(&mut slab, 0, &canary(10));
    let before = snapshot(&slab);
    assert_eq!(
        copy_to_offset_with_align(&1u32, &mut slab, 0, usize::MAX),
        Err(Error::InvalidLayout)
    );
    assert_eq!(copy_to_offset(&1u32, &mut slab, usize::MAX), Err(Error::InvalidLayout));
    assert_eq!(copy_to_offset_exact(&1u32, &mut slab, usize::MAX), Err(Error::InvalidLayout));
    assert_eq!(snapshot(&slab), before);
}

#[test]
fn copy_eight_bytes_with_floor_sixteen_into_eight() {
    let mut slab = HeapSlab::new(Layout::from_size_align(8, 8).unwrap());
    let r = copy_to_offset_with_align(&1u64, &mut slab, 0, 16);
    assert_eq!(r, Err(Error::OutOfMemory));
    assert_eq!(snapshot(&slab), vec![None; 8]);
    let mut slab = region(16, 8);
    let r = copy_to_offset_with_align(&1u64, &mut slab, 0, 16);
    assert_eq!(r, Err(Error::OutOfMemory));
    assert_eq!(snapshot(&slab), vec![None; 8]);
}

#[test]
fn slice_copy_is_one_block() {
    let mut slab = region(0, 32);
    let r = copy_from_slice_to_offset(&[0x0101u16, 0x0202, 0x0303], &mut slab, 1);
    assert_eq!(r, Ok(record(2, 8, 8)));
    let r = copy_from_slice_to_offset_with_align(&[0x0404u16, 0x0505, 0x0606], &mut slab, 9, 8);
    assert_eq!(r, Ok(record(16, 22, 24)));
    let bytes = snapshot(&slab);
    assert_eq!(&bytes[2..8], &[Some(1), Some(1), Some(2), Some(2), Some(3), Some(3)]);
    assert_eq!(&bytes[16..22], &[Some(4), Some(4), Some(5), Some(5), Some(6), Some(6)]);
    assert_eq!(bytes.iter().filter(|b| b.is_some()).count(), 12);
}

#[test]
fn slice_copy_exact() {
    let mut slab = region(0, 32);
    let r = copy_from_slice_to_offset_exact(&[1u32, 2], &mut slab, 8);
    assert_eq!(r, Ok(record(8, 16, 16)));
    let r = copy_from_slice_to_offset_with_align_exact(&[1u32, 2, 3], &mut slab, 16, 16);
    assert_eq!(r, Ok(record(16, 28, 32)));
    let r = copy_from_slice_to_offset_exact(&[1u32, 2], &mut slab, 9);
    assert_eq!(r, Err(Error::RequestedOffsetUnaligned));
}

#[test]
fn empty_slice_copy_may_sit_at_the_end() {
    let mut slab = region(0, 8);
    let none: [u32; 0] = [];
    assert_eq!(copy_from_slice_to_offset(&none, &mut slab, 8), Ok(record(8, 8, 8)));
    assert_eq!(copy_from_slice_to_offset(&none, &mut slab, 5), Ok(record(8, 8, 8)));
    assert_eq!(copy_from_slice_to_offset(&none, &mut slab, 9), Err(Error::OffsetOutOfBounds));
    assert_eq!(snapshot(&slab), vec![None; 8]);
}

#[test]
fn copy_bytes_with_a_layout_of_its_own() {
    let mut slab = region(0, 16);
    let layout = Layout::from_size_align(3, 2).unwrap();
    let r = copy_bytes_to_offset(&[9, 8, 7], layout, &mut slab, 1, 1, false);
    assert_eq!(r, Ok(record(2, 5, 6)));
    let r = copy_bytes_to_offset(&[9, 8, 7], layout, &mut slab, 7, 1, true);
    assert_eq!(r, Err(Error::RequestedOffsetUnaligned));
    let bytes = snapshot(&slab);
    assert_eq!(&bytes[2..6], &[Some(9), Some(8), Some(7), None]);
}

#[test]
fn each_value_gets_a_record() {
    let mut slab = region(0, 64);
    let r = copy_from_iter_to_offset_with_align(&[1u32, 2, 3], &mut slab, 1, 8);
    assert_eq!(r, Ok(vec![record(8, 12, 16), record(16, 20, 24), record(24, 28, 32)]));
    let bytes = snapshot(&slab);
    for start in [8usize, 16, 24] {
        assert!(bytes[start..start + 4].iter().all(|b| b.is_some()));
        assert!(bytes[start + 4..start + 8].iter().all(|b| b.is_none()));
    }
    let r = copy_from_iter_to_offset_with_align(&[1u32, 2, 3], &mut slab, 32, 1);
    assert_eq!(r, Ok(vec![record(32, 36, 36), record(36, 40, 40), record(40, 44, 44)]));
}

#[test]
fn each_value_of_none_is_no_record() {
    let mut slab = region(0, 8);
    let none: [u32; 0] = [];
    assert_eq!(copy_from_iter_to_offset_with_align(&none, &mut slab, 0, 8), Ok(vec![]));
    assert_eq!(copy_from_iter_to_offset_with_align(&none, &mut slab, 100, 8), Ok(vec![]));
    assert_eq!(snapshot(&slab), vec![None; 8]);
}

#[test]
fn each_value_stops_at_the_first_refusal() {
    let mut slab = region(0, 20);
    let r = copy_from_iter_to_offset_with_align(&[1u32, 2, 3], &mut slab, 0, 8);
    assert_eq!(r, Err(Error::OutOfMemory));
    let bytes = snapshot(&slab);
    assert_eq!(&bytes[0..4], &[Some(1), Some(0), Some(0), Some(0)]);
    assert_eq!(&bytes[8..12], &[Some(2), Some(0), Some(0), Some(0)]);
    assert_eq!(bytes.iter().filter(|b| b.is_some()).count(), 8);
}

#[test]
fn packed_values_lie_side_by_side() {
    let mut slab = region(0, 64);
    let items = [1u32, 2, 3, 4, 5];
    let r = copy_from_iter_to_offset_with_align_packed(&items, &mut slab, 3, 16);
    assert_eq!(r, Ok(Some(record(16, 36, 36))));
    let bytes = snapshot(&slab);
    let expected: Vec<Option<u8>> = slice_to_bytes(&items).into_iter().map(Some).collect();
    assert_eq!(&bytes[16..36], &expected[..]);
    assert_eq!(bytes.iter().filter(|b| b.is_some()).count(), 20);
    for o in 0usize..8 {
        for n in 1usize..6 {
            let mut slab = region(0, 64);
            let r = copy_from_iter_to_offset_with_align_packed(&items[..n], &mut slab, o, 1);
            let rec = r.unwrap().unwrap();
            assert_eq!(rec.end_offset, rec.start_offset + n * 4);
            assert_eq!(rec.start_offset, (o + 3) / 4 * 4);
        }
    }
}

#[test]
fn packed_single_value_keeps_its_padding() {
    let mut slab = region(0, 64);
    let r = copy_from_iter_to_offset_with_align_packed(&[1u32], &mut slab, 3, 16);
    assert_eq!(r, Ok(Some(record(16, 20, 32))));
    let r = copy_from_iter_to_offset_with_align_exact_packed(&[1u32], &mut slab, 32, 16);
    assert_eq!(r, Ok(Some(record(32, 36, 48))));
}

#[test]
fn packed_of_none_is_no_record() {
    let mut slab = region(0, 8);
    let none: [u32; 0] = [];
    assert_eq!(copy_from_iter_to_offset_with_align_packed(&none, &mut slab, 0, 8), Ok(None));
    assert_eq!(copy_from_iter_to_offset_with_align_exact_packed(&none, &mut slab, 1, 8), Ok(None));
    assert_eq!(copy_from_iter_to_offset_with_align_packed(&none, &mut slab, 100, 8), Ok(None));
    assert_eq!(snapshot(&slab), vec![None; 8]);
}

#[test]
fn packed_exact() {
    let mut slab = region(0, 64);
    let r = copy_from_iter_to_offset_with_align_exact_packed(&[1u16, 2, 3], &mut slab, 8, 8);
    assert_eq!(r, Ok(Some(record(8, 14, 14))));
    let r = copy_from_iter_to_offset_with_align_exact_packed(&[1u16, 2, 3], &mut slab, 18, 8);
    assert_eq!(r, Err(Error::RequestedOffsetUnaligned));
    assert_eq!(snapshot(&slab).iter().filter(|b| b.is_some()).count(), 6);
}

#[test]
fn packed_stops_where_the_region_ends() {
    let mut slab = region(0, 14);
    let r = copy_from_iter_to_offset_with_align_packed(&[1u32, 2, 3, 4], &mut slab, 1, 1);
    assert_eq!(r, Err(Error::OutOfMemory));
    let bytes = snapshot(&slab);
    assert_eq!(bytes.iter().filter(|b| b.is_some()).count(), 8);
    assert!(bytes[4..12].iter().all(|b| b.is_some()));
    let mut slab = region(0, 3);
    let r = copy_from_iter_to_offset_with_align_packed(&[1u32, 2], &mut slab, 0, 1);
    assert_eq!(r, Err(Error::OutOfMemory));
    assert_eq!(snapshot(&slab), vec![None; 3]);
}
