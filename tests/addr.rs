use pagetable::addr::{align_down, align_up, is_power_of_two, PAddr, VAddr};

#[test]
fn align_down_and_up_round_to_power_of_two() {
    assert_eq!(align_down(0x1234, 0x1000), 0x1000);
    assert_eq!(align_up(0x1234, 0x1000), 0x2000);
    assert_eq!(align_up(0x1000, 0x1000), 0x1000);
    assert_eq!(align_down(0x1000, 0x1000), 0x1000);
}

#[test]
fn power_of_two_detection() {
    assert!(is_power_of_two(1));
    assert!(is_power_of_two(0x1000));
    assert!(is_power_of_two(0x8000_0000_0000_0000));
    assert!(!is_power_of_two(0));
    assert!(!is_power_of_two(3));
    assert!(!is_power_of_two(0x1001));
}

#[test]
fn paddr_alignment_and_zero() {
    let p = PAddr(0x1234);
    assert_eq!(p.align_up(0x1000), PAddr(0x2000));
    assert_eq!(p.align_down(0x1000), PAddr(0x1000));
    assert!(!p.is_aligned(0x1000u64));
    assert!(PAddr(0x2000).is_aligned(0x1000u64));
    assert!(!PAddr(0).is_aligned(3u64));
    assert!(PAddr::zero().is_zero());
    assert!(!p.is_zero());
    assert_eq!(p.as_u64(), 0x1234);
    assert_eq!(p.as_usize(), 0x1234);
}

#[test]
fn vaddr_page_offsets_and_alignment() {
    let v = VAddr::from_u64(0x20_1234);
    assert_eq!(v.base_page_offset(), 0x234);
    assert_eq!(v.large_page_offset(), 0x1234);
    assert_eq!(v.align_down_to_base_page(), VAddr(0x20_1000));
    assert_eq!(v.align_down_to_large_page(), VAddr(0x20_0000));
    assert_eq!(v.align_up_to_base_page(), VAddr(0x20_2000));
    assert_eq!(v.align_up_to_large_page(), VAddr(0x40_0000));
    assert!(!v.is_base_page_aligned());
    assert!(!v.is_large_page_aligned());
    assert!(VAddr(0x40_0000).is_large_page_aligned());
    assert!(VAddr(0x40_1000).is_base_page_aligned());
    assert!(v.is_aligned(4u64));
    assert!(!v.is_aligned(6u64));
}

#[test]
fn vaddr_conversions() {
    let v = VAddr::from_usize(0x4000);
    assert_eq!(v.as_u64(), 0x4000);
    assert_eq!(v.as_usize(), 0x4000);
    assert!(VAddr::zero().is_zero());
    assert!(!v.is_zero());
    assert_eq!(v.align_up(0x1_0000), VAddr(0x1_0000));
    assert_eq!(v.align_down(0x1_0000), VAddr(0));
    assert!(VAddr(0x1000) < VAddr(0x2000));
}

#[test]
fn paddr_arithmetic_keeps_wrapper() {
    let p = PAddr(0x1000);
    assert_eq!(p + PAddr(0x234), PAddr(0x1234));
    assert_eq!(p + 0x10u64, PAddr(0x1010));
    assert_eq!(p - PAddr(0x800), PAddr(0x800));
    assert_eq!(p - 0x1u64, PAddr(0xFFF));
    assert_eq!(PAddr(0x1234) % PAddr(0x1000), PAddr(0x234));
    assert_eq!(PAddr(0x1234) % 0x1000u64, 0x234u64);
    assert_eq!(PAddr(0x1234) & PAddr(0xF0F), PAddr(0x204));
    assert_eq!(PAddr(0x1234) & 0xFFu64, 0x34u64);
    assert_eq!(PAddr(0x1000) | PAddr(0x234), PAddr(0x1234));
    assert_eq!(PAddr(0x1000) | 0x1u64, 0x1001u64);
    assert_eq!(PAddr(0x1000) >> 12u64, 1u64);
    assert_eq!(PAddr::from(0x42u64), PAddr(0x42));
}

#[test]
fn vaddr_arithmetic_keeps_wrapper() {
    let v = VAddr(0x2000_0000);
    assert_eq!(v + VAddr(0x1800), VAddr(0x2000_1800));
    assert_eq!(v + 0x1000u64, VAddr(0x2000_1000));
    assert_eq!(v - VAddr(0x1000_0000), VAddr(0x1000_0000));
    assert_eq!(v - 0x1u64, VAddr(0x1FFF_FFFF));
    assert_eq!(VAddr(0x2000_1800) % VAddr(0x1000), VAddr(0x800));
    assert_eq!(VAddr(0x2000_1800) % 0x1000u64, 0x800u64);
    assert_eq!(VAddr(0x2000_1800) & VAddr(0xFFF), VAddr(0x800));
    assert_eq!(VAddr(0x2000_1800) & 0xF000u64, VAddr(0x1000));
    assert_eq!(v | VAddr(0x10), VAddr(0x2000_0010));
    assert_eq!(v | 0x20u64, VAddr(0x2000_0020));
    assert_eq!(VAddr(0x2000_1800) >> 12u64, 0x2_0001u64);
    assert_eq!(VAddr::from(7u64), VAddr(7));
}
