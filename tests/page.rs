use pagetable::entry::TABLE_OR_4KIB_PAGE;
use pagetable::page::Page;
use pagetable::page_size::{BasePageSize, HugePageSize, LargePageSize, PageSize};
use pagetable::table_address::{subtable_address, L0TABLE_ADDRESS};

#[test]
fn page_sizes_and_levels() {
    assert_eq!(BasePageSize::size(), 4096);
    assert_eq!(BasePageSize::map_level(), 3);
    assert_eq!(BasePageSize::map_extra_flag().bits(), TABLE_OR_4KIB_PAGE);
    assert_eq!(LargePageSize::size(), 0x20_0000);
    assert_eq!(LargePageSize::map_level(), 2);
    assert_eq!(LargePageSize::map_extra_flag().bits(), 0);
    assert_eq!(HugePageSize::size(), 0x4000_0000);
    assert_eq!(HugePageSize::map_level(), 1);
    assert_eq!(HugePageSize::map_extra_flag().bits(), 0);
}

#[test]
fn including_address_rounds_down() {
    let b = Page::<BasePageSize>::including_address(0x2000_1800);
    assert_eq!(b.address(), 0x2000_1000);
    let l = Page::<LargePageSize>::including_address(0x2012_3456);
    assert_eq!(l.address(), 0x2000_0000);
    let h = Page::<HugePageSize>::including_address(0x7FFF_FFFF);
    assert_eq!(h.address(), 0x4000_0000);
    let top = Page::<BasePageSize>::including_address(0xFFFF_FFFF_FFFF);
    assert_eq!(top.address(), 0xFFFF_FFFF_F000);
}

#[test]
fn including_address_rejects_addresses_above_limit() {
    assert!(Page::<BasePageSize>::is_valid_address(0xFFFF_FFFF_FFFF));
    assert!(!Page::<BasePageSize>::is_valid_address(0x1_0000_0000_0000));
}

#[test]
fn table_index_takes_nine_bits_per_level() {
    let p = Page::<BasePageSize>::including_address(0x2000_1800);
    assert_eq!(p.table_index(3), 1);
    assert_eq!(p.table_index(2), 256);
    assert_eq!(p.table_index(1), 0);
    assert_eq!(p.table_index(0), 0);
    let q = Page::<BasePageSize>::including_address(0x7FFF_FFFF_F000);
    assert_eq!(q.table_index(0), 255);
    assert_eq!(q.table_index(1), 511);
    assert_eq!(q.table_index(2), 511);
    assert_eq!(q.table_index(3), 511);
    let v: u64 = 0x1234_5678_9000;
    let b = Page::<BasePageSize>::including_address(v);
    for level in 0..4usize {
        let shift = 12 + 9 * (3 - level as u64);
        assert_eq!(b.table_index(level), (v >> shift) & 0x1FF);
    }
    let l = Page::<LargePageSize>::including_address(v);
    assert_eq!(l.table_index(2), (v >> 21) & 0x1FF);
    let h = Page::<HugePageSize>::including_address(v);
    assert_eq!(h.table_index(1), (v >> 30) & 0x1FF);
}

#[test]
fn page_range_walks_from_first_to_last() {
    let first = Page::<BasePageSize>::including_address(0x1000);
    let last = Page::<BasePageSize>::including_address(0x3FFF);
    let mut it = Page::range(first, last);
    assert_eq!(it.next().map(|p| p.address()), Some(0x1000));
    assert_eq!(it.next().map(|p| p.address()), Some(0x2000));
    assert_eq!(it.next().map(|p| p.address()), Some(0x3000));
    assert!(it.next().is_none());
    assert!(it.next().is_none());
    let mut again = Page::range(first, last);
    assert_eq!(again.next().map(|p| p.address()), Some(0x1000));
}

#[test]
fn single_page_range() {
    let p = Page::<LargePageSize>::including_address(0x20_0000);
    let mut it = Page::range(p, p);
    assert_eq!(it.next().map(|p| p.address()), Some(0x20_0000));
    assert!(it.next().is_none());
}

#[test]
fn flush_records_the_page() {
    let p = Page::<BasePageSize>::including_address(0x5000);
    let mut log = Vec::new();
    p.flush_from_tlb(&mut log);
    assert_eq!(log, vec![0x5000]);
}

#[test]
fn subtable_address_descends_one_level() {
    assert_eq!(subtable_address(L0TABLE_ADDRESS, 0), 0xFFFF_FFE0_0000);
    assert_eq!(subtable_address(L0TABLE_ADDRESS, 3), 0xFFFF_FFE0_3000);
    assert_eq!(subtable_address(L0TABLE_ADDRESS, 511), L0TABLE_ADDRESS);
    assert_eq!(subtable_address(0xFFFF_FFE0_0000, 1), 0xFFFF_C000_1000);
}
