use pagetable::error::PagingError;
use pagetable::physicalmem::{allocate, allocate_aligned, deallocate, init, total_memory_size};

#[test]
fn allocator_bumps_through_region() {
    let mut mem = init(0x10_0000, 0x20_0000);
    assert_eq!(total_memory_size(&mem), 0x10_0000);
    assert_eq!(allocate(&mut mem, 4096), Ok(0x10_0000));
    assert_eq!(allocate(&mut mem, 4096), Ok(0x10_1000));
    assert_eq!(allocate_aligned(&mut mem, 4096, 0x1_0000), Ok(0x11_0000));
    assert_eq!(allocate(&mut mem, 4096), Ok(0x11_1000));
}

#[test]
fn allocator_fails_when_exhausted() {
    let mut mem = init(0x10_0000, 0x10_2000);
    assert_eq!(allocate(&mut mem, 4096), Ok(0x10_0000));
    assert_eq!(allocate(&mut mem, 0x20_0000), Err(PagingError::AllocationFailure));
    assert_eq!(allocate(&mut mem, 4096), Ok(0x10_1000));
    assert_eq!(allocate(&mut mem, 4096), Err(PagingError::AllocationFailure));
}

#[test]
fn allocator_reuses_returned_frames_first() {
    let mut mem = init(0x10_0000, 0x20_0000);
    let a = allocate(&mut mem, 4096).unwrap();
    let b = allocate(&mut mem, 4096).unwrap();
    deallocate(&mut mem, a, 4096);
    deallocate(&mut mem, b, 4096);
    assert_eq!(mem.free_frames(), &[(a, 4096), (b, 4096)]);
    assert_eq!(allocate(&mut mem, 4096), Ok(a));
    assert_eq!(mem.free_frames(), &[(b, 4096)]);
    assert_eq!(allocate(&mut mem, 0x20_0000), Err(PagingError::AllocationFailure));
    assert_eq!(allocate(&mut mem, 4096), Ok(b));
    assert_eq!(allocate(&mut mem, 4096), Ok(0x10_2000));
}
