use pagetable::addr::{PAddr, VAddr};
use pagetable::entry::PageTableEntryFlags;
use pagetable::error::PagingError;
use pagetable::page_size::{BasePageSize, HugePageSize, LargePageSize};
use pagetable::paging::{
    get_application_page_size, get_page_range, get_page_table_entry, get_physical_address,
    identity_map, unmap, virtual_to_physical, KernelImage, PageTables,
};
use pagetable::physicalmem::{init, FrameAllocator};
use pagetable::virtualmem::{task_heap_end, task_heap_start};

fn normal_writable() -> PageTableEntryFlags {
    let mut flags = PageTableEntryFlags::empty();
    flags.normal().writable();
    flags
}

fn fresh() -> (PageTables, FrameAllocator) {
    (PageTables::new(), init(0x8000_0000, 0x9000_0000))
}

#[test]
fn map_three_base_pages_then_translate() {
    let (mut t, mut m) = fresh();
    let r = pagetable::paging::map::<BasePageSize>(
        &mut t,
        &mut m,
        0x2000_0000,
        0x1000_0000,
        3,
        normal_writable(),
    );
    assert_eq!(r, Ok(()));
    assert_eq!(get_physical_address::<BasePageSize>(&t, 0x2000_1800), 0x1000_1800);
    assert_eq!(get_physical_address::<BasePageSize>(&t, 0x2000_0000), 0x1000_0000);
    assert_eq!(get_physical_address::<BasePageSize>(&t, 0x2000_2FFF), 0x1000_2FFF);
    assert_eq!(
        get_page_table_entry::<BasePageSize>(&t, 0x2000_3000),
        None
    );
    assert!(t.flushed().is_empty());
}

#[test]
fn remap_flushes_and_translates_to_new_frame() {
    let (mut t, mut m) = fresh();
    let flags = normal_writable();
    assert_eq!(
        pagetable::paging::map::<BasePageSize>(&mut t, &mut m, 0x2000_0000, 0x1000_0000, 3, flags),
        Ok(())
    );
    assert!(t.flushed().is_empty());
    assert_eq!(
        pagetable::paging::map::<BasePageSize>(&mut t, &mut m, 0x2000_0000, 0x3000_0000, 1, flags),
        Ok(())
    );
    assert_eq!(t.flushed(), &[0x2000_0000]);
    assert_eq!(get_physical_address::<BasePageSize>(&t, 0x2000_0000), 0x3000_0000);
    assert_eq!(get_physical_address::<BasePageSize>(&t, 0x2000_1800), 0x1000_1800);
}

#[test]
fn unmap_returns_each_frame_once() {
    let (mut t, mut m) = fresh();
    let flags = normal_writable();
    assert_eq!(
        pagetable::paging::map::<BasePageSize>(&mut t, &mut m, 0x2000_0000, 0x1000_0000, 3, flags),
        Ok(())
    );
    assert_eq!(
        pagetable::paging::map::<BasePageSize>(&mut t, &mut m, 0x2000_0000, 0x3000_0000, 1, flags),
        Ok(())
    );
    assert!(m.free_frames().is_empty());
    assert_eq!(unmap::<BasePageSize>(&mut t, &mut m, VAddr(0x2000_0000), 3), Ok(()));
    assert_eq!(
        m.free_frames(),
        &[(0x3000_0000, 4096), (0x1000_1000, 4096), (0x1000_2000, 4096)]
    );
    for va in [0x2000_0000u64, 0x2000_1800, 0x2000_2FFF] {
        assert_eq!(
            get_page_table_entry::<BasePageSize>(&t, va),
            None
        );
    }
    assert_eq!(
        t.flushed(),
        &[0x2000_0000, 0x2000_0000, 0x2000_1000, 0x2000_2000]
    );
}

#[test]
fn unmap_twice_frees_nothing_more() {
    let (mut t, mut m) = fresh();
    assert_eq!(
        pagetable::paging::map::<BasePageSize>(
            &mut t,
            &mut m,
            0x2000_0000,
            0x1000_0000,
            3,
            normal_writable()
        ),
        Ok(())
    );
    assert_eq!(unmap::<BasePageSize>(&mut t, &mut m, VAddr(0x2000_0000), 3), Ok(()));
    let frames = m.free_frames().to_vec();
    let flushed = t.flushed().to_vec();
    assert_eq!(frames.len(), 3);
    assert_eq!(unmap::<BasePageSize>(&mut t, &mut m, VAddr(0x2000_0000), 3), Ok(()));
    assert_eq!(m.free_frames(), frames.as_slice());
    assert_eq!(t.flushed(), flushed.as_slice());
}

#[test]
fn unmap_of_never_mapped_pages_is_noop() {
    let (mut t, mut m) = fresh();
    assert_eq!(unmap::<LargePageSize>(&mut t, &mut m, VAddr(0x4000_0000), 4), Ok(()));
    assert!(m.free_frames().is_empty());
    assert!(t.flushed().is_empty());
    assert_eq!(unmap::<BasePageSize>(&mut t, &mut m, VAddr(0x1000), 0), Ok(()));
}

#[test]
fn unmap_beyond_limit_fails() {
    let (mut t, mut m) = fresh();
    assert_eq!(
        unmap::<BasePageSize>(&mut t, &mut m, VAddr(0xFFFF_FFFF_F000), 2),
        Err(PagingError::InvalidAddress)
    );
    assert_eq!(
        unmap::<BasePageSize>(&mut t, &mut m, VAddr(0x1_0000_0000_0000), 1),
        Err(PagingError::InvalidAddress)
    );
}

#[test]
fn round_trip_large_and_huge_pages() {
    let (mut t, mut m) = fresh();
    let flags = normal_writable();
    assert_eq!(
        pagetable::paging::map::<LargePageSize>(&mut t, &mut m, 0x4000_0000, 0x8000_0000, 2, flags),
        Ok(())
    );
    assert_eq!(get_physical_address::<LargePageSize>(&t, 0x4020_0123), 0x8020_0123);
    assert_eq!(get_physical_address::<LargePageSize>(&t, 0x401F_FFFF), 0x801F_FFFF);
    assert_eq!(
        pagetable::paging::map::<HugePageSize>(&mut t, &mut m, 0x80_0000_0000, 0x4000_0000, 1, flags),
        Ok(())
    );
    assert_eq!(get_physical_address::<HugePageSize>(&t, 0x80_1234_5678), 0x5234_5678);
}

#[test]
fn round_trip_unaligned_virtual_start() {
    let (mut t, mut m) = fresh();
    assert_eq!(
        pagetable::paging::map::<BasePageSize>(
            &mut t,
            &mut m,
            0x2000_0ABC,
            0x1000_0000,
            2,
            normal_writable()
        ),
        Ok(())
    );
    assert_eq!(get_physical_address::<BasePageSize>(&t, 0x2000_0ABC), 0x1000_0ABC);
    assert_eq!(get_physical_address::<BasePageSize>(&t, 0x2000_1ABC), 0x1000_1ABC);
    assert_eq!(
        get_page_table_entry::<BasePageSize>(&t, 0x2000_2000),
        None
    );
}

#[test]
fn page_table_entry_lookup_by_size() {
    let (mut t, mut m) = fresh();
    assert_eq!(
        pagetable::paging::map::<BasePageSize>(
            &mut t,
            &mut m,
            0x2000_0000,
            0x1000_0000,
            1,
            normal_writable()
        ),
        Ok(())
    );
    let e = get_page_table_entry::<BasePageSize>(&t, 0x2000_0FFF).unwrap();
    assert_eq!(e.address(), 0x1000_0000);
    assert!(e.is_present());
    // At the larger sizes' levels the walk meets the present pointers to subtables.
    assert!(get_page_table_entry::<LargePageSize>(&t, 0x2000_0000).is_some());
    assert!(get_page_table_entry::<HugePageSize>(&t, 0x2000_0000).is_some());
}

#[test]
fn mapping_under_a_larger_page_is_a_level_mismatch() {
    let (mut t, mut m) = fresh();
    let flags = normal_writable();
    assert_eq!(
        pagetable::paging::map::<LargePageSize>(&mut t, &mut m, 0x4000_0000, 0x8000_0000, 1, flags),
        Ok(())
    );
    let frames_before = m.free_frames().to_vec();
    assert_eq!(
        pagetable::paging::map::<BasePageSize>(&mut t, &mut m, 0x4000_1000, 0x1000_0000, 1, flags),
        Err(PagingError::LevelMismatch)
    );
    assert_eq!(m.free_frames(), frames_before.as_slice());
    assert_eq!(get_physical_address::<LargePageSize>(&t, 0x4000_1000), 0x8000_1000);
}

#[test]
fn large_page_over_a_subtable_replaces_it() {
    let (mut t, mut m) = fresh();
    let flags = normal_writable();
    // Tables at 0x8000_0000 (level 1), 0x8000_1000 (level 2), 0x8000_2000 (level 3).
    assert_eq!(
        pagetable::paging::map::<BasePageSize>(&mut t, &mut m, 0x6000_0000, 0x1000_0000, 1, flags),
        Ok(())
    );
    assert!(get_page_table_entry::<LargePageSize>(&t, 0x6000_0000).is_some());
    assert_eq!(
        pagetable::paging::map::<LargePageSize>(&mut t, &mut m, 0x6000_0000, 0x4000_0000, 1, flags),
        Ok(())
    );
    assert_eq!(get_physical_address::<LargePageSize>(&t, 0x6000_1234), 0x4000_1234);
    assert_eq!(get_page_table_entry::<BasePageSize>(&t, 0x6000_0000), None);
    assert_eq!(m.free_frames(), &[(0x8000_2000, 4096)]);
    assert_eq!(t.flushed(), &[0x6000_0000]);
}

#[test]
fn huge_page_over_subtables_returns_their_frames() {
    let (mut t, mut m) = fresh();
    let flags = normal_writable();
    // Level-1 table 0x8000_0000, level-2 table 0x8000_1000, then two level-3 tables.
    assert_eq!(
        pagetable::paging::map::<BasePageSize>(&mut t, &mut m, 0x4060_0000, 0x1000_0000, 1, flags),
        Ok(())
    );
    assert_eq!(
        pagetable::paging::map::<BasePageSize>(&mut t, &mut m, 0x4020_0000, 0x1100_0000, 1, flags),
        Ok(())
    );
    assert_eq!(
        pagetable::paging::map::<HugePageSize>(&mut t, &mut m, 0x4000_0000, 0x8000_0000, 1, flags),
        Ok(())
    );
    // Level-3 tables in entry order (index 1 before index 3), then the level-2 table.
    assert_eq!(
        m.free_frames(),
        &[(0x8000_3000, 4096), (0x8000_2000, 4096), (0x8000_1000, 4096)]
    );
    assert_eq!(get_physical_address::<HugePageSize>(&t, 0x4060_0010), 0x8060_0010);
    assert_eq!(get_page_table_entry::<BasePageSize>(&t, 0x4060_0000), None);
    assert_eq!(get_page_table_entry::<LargePageSize>(&t, 0x4020_0000), None);
    assert_eq!(t.flushed(), &[0x4000_0000]);
}

#[test]
fn allocation_failure_leaves_mapped_prefix() {
    // Three frames: enough for the tables of the first page, not for the second's.
    let mut t = PageTables::new();
    let mut m = init(0x10_0000, 0x10_3000);
    let r = pagetable::paging::map::<BasePageSize>(
        &mut t,
        &mut m,
        0x201F_F000,
        0x1000_0000,
        2,
        normal_writable(),
    );
    assert_eq!(r, Err(PagingError::AllocationFailure));
    assert_eq!(get_physical_address::<BasePageSize>(&t, 0x201F_F010), 0x1000_0010);
    assert_eq!(
        get_page_table_entry::<BasePageSize>(&t, 0x2020_0000),
        None
    );
}

#[test]
fn map_rejects_bad_arguments_without_change() {
    let (mut t, mut m) = fresh();
    let flags = normal_writable();
    assert_eq!(
        pagetable::paging::map::<BasePageSize>(&mut t, &mut m, 0x2000_0000, 0x1000_0800, 1, flags),
        Err(PagingError::MisalignedAddress)
    );
    assert_eq!(
        pagetable::paging::map::<BasePageSize>(&mut t, &mut m, 0xFFFF_FFFF_F000, 0x1000_0000, 2, flags),
        Err(PagingError::InvalidAddress)
    );
    assert_eq!(
        pagetable::paging::map::<BasePageSize>(&mut t, &mut m, 0x2000_0000, 0xFFFF_FFFF_F000, 2, flags),
        Err(PagingError::InvalidAddress)
    );
    assert_eq!(
        pagetable::paging::map::<BasePageSize>(&mut t, &mut m, 0x2000_0000, 0x1000_0000, 0, flags),
        Ok(())
    );
    assert_eq!(
        get_page_table_entry::<BasePageSize>(&t, 0x2000_0000),
        None
    );
    assert!(m.free_frames().is_empty());
}

#[test]
fn page_range_covers_count_pages() {
    let mut it = get_page_range::<BasePageSize>(0x5123, 2).unwrap();
    assert_eq!(it.next().map(|p| p.address()), Some(0x5000));
    assert_eq!(it.next().map(|p| p.address()), Some(0x6000));
    assert!(it.next().is_none());
    assert_eq!(
        get_page_range::<LargePageSize>(0xFFFF_FFE0_0000, 2).err(),
        Some(PagingError::InvalidAddress)
    );
}

#[test]
fn region_dispatch_picks_page_size() {
    let (mut t, mut m) = fresh();
    let flags = normal_writable();
    let image = KernelImage { start: 0x20_0000, end: 0x60_0000 };
    assert_eq!(
        pagetable::paging::map::<LargePageSize>(&mut t, &mut m, 0x20_0000, 0x4000_0000, 2, flags),
        Ok(())
    );
    assert_eq!(
        pagetable::paging::map::<BasePageSize>(&mut t, &mut m, 0xFFFF_F000, 0x6000_0000, 1, flags),
        Ok(())
    );
    assert_eq!(
        pagetable::paging::map::<LargePageSize>(&mut t, &mut m, 0x1_0000_0000, 0x5000_0000, 1, flags),
        Ok(())
    );
    assert_eq!(virtual_to_physical(&t, &image, 0x20_0000), 0x4000_0000);
    assert_eq!(virtual_to_physical(&t, &image, 0x20_1234), 0x4000_1234);
    assert_eq!(virtual_to_physical(&t, &image, 0x5F_FFFF), 0x403F_FFFF);
    assert_eq!(virtual_to_physical(&t, &image, 0xFFFF_FFFF), 0x6000_0FFF);
    assert_eq!(virtual_to_physical(&t, &image, 0x1_0000_0000), 0x5000_0000);
    assert_eq!(virtual_to_physical(&t, &image, 0x1_0000_1234), 0x5000_1234);
}

#[test]
fn identity_map_maps_each_base_page_to_itself() {
    let (mut t, mut m) = fresh();
    assert_eq!(
        identity_map(&mut t, &mut m, PAddr(0x10_0123), PAddr(0x10_2FFF)),
        Ok(())
    );
    assert_eq!(get_physical_address::<BasePageSize>(&t, 0x10_0000), 0x10_0000);
    assert_eq!(get_physical_address::<BasePageSize>(&t, 0x10_2ABC), 0x10_2ABC);
    assert_eq!(
        get_page_table_entry::<BasePageSize>(&t, 0x10_3000),
        None
    );
    assert_eq!(
        identity_map(&mut t, &mut m, PAddr(0x20_0000), PAddr(0x10_0000)),
        Err(PagingError::InvalidAddress)
    );
    assert_eq!(
        identity_map(&mut t, &mut m, PAddr(0), PAddr(0x1_0000_0000_0000)),
        Err(PagingError::InvalidAddress)
    );
}

#[test]
fn address_space_regions() {
    assert_eq!(task_heap_start(), 0x1_0000_0000);
    assert_eq!(task_heap_end(), 0x8000_0000_0000);
    assert_eq!(get_application_page_size(), 0x20_0000);
}

#[test]
fn map_page_and_unmap_page_on_one_slot() {
    let (mut t, mut m) = fresh();
    let flags = normal_writable();
    let page = pagetable::page::Page::<LargePageSize>::including_address(0x4000_0000);
    assert_eq!(t.map_page(&mut m, page, 0x8000_0000, flags), Ok(()));
    assert_eq!(t.get_page_table_entry(page).map(|e| e.address()), Some(0x8000_0000));
    t.unmap_page(&mut m, page);
    assert_eq!(t.get_page_table_entry(page), None);
    assert_eq!(m.free_frames(), &[(0x8000_0000, 0x20_0000)]);
    let base = pagetable::page::Page::<BasePageSize>::including_address(0x4000_0000);
    assert_eq!(t.map_page(&mut m, base, 0x1000, flags), Ok(()));
    assert_eq!(t.map_page(&mut m, page, 0x8000_0000, flags), Ok(()));
    assert_eq!(t.get_page_table_entry(base), None);
}

#[test]
fn remap_takes_no_frame() {
    // Exactly the three frames that the first mapping needs for its tables.
    let mut t = PageTables::new();
    let mut m = init(0x10_0000, 0x10_3000);
    let flags = normal_writable();
    assert_eq!(
        pagetable::paging::map::<BasePageSize>(&mut t, &mut m, 0x2000_0000, 0x1000_0000, 1, flags),
        Ok(())
    );
    assert_eq!(
        pagetable::paging::map::<BasePageSize>(&mut t, &mut m, 0x2000_0000, 0x3000_0000, 1, flags),
        Ok(())
    );
    assert_eq!(t.flushed(), &[0x2000_0000]);
    assert_eq!(get_physical_address::<BasePageSize>(&t, 0x2000_0000), 0x3000_0000);
}

#[test]
fn returned_frames_back_new_tables() {
    let mut t = PageTables::new();
    let mut m = init(0x10_0000, 0x10_0000);
    for frame in [0x50_0000u64, 0x50_1000, 0x50_2000] {
        pagetable::physicalmem::deallocate(&mut m, frame, 4096);
    }
    assert_eq!(
        pagetable::paging::map::<BasePageSize>(
            &mut t,
            &mut m,
            0x2000_0000,
            0x1000_0000,
            1,
            normal_writable()
        ),
        Ok(())
    );
    assert!(m.free_frames().is_empty());
    assert_eq!(get_physical_address::<BasePageSize>(&t, 0x2000_0123), 0x1000_0123);
    assert_eq!(
        pagetable::paging::map::<BasePageSize>(
            &mut t,
            &mut m,
            0x4000_0000,
            0x1000_0000,
            1,
            normal_writable()
        ),
        Err(PagingError::AllocationFailure)
    );
}
