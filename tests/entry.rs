use pagetable::entry::{
    PageTableEntry, PageTableEntryFlags, ACCESSED, INNER_SHAREABLE, NORMAL, PRESENT,
    PRIVILEGED_EXECUTE_NEVER, READ_ONLY, UNPRIVILEGED_EXECUTE_NEVER,
};

#[test]
fn flag_builders_set_their_bits() {
    let mut f = PageTableEntryFlags::empty();
    assert_eq!(f.bits(), 0);
    f.normal().writable();
    assert_eq!(f.bits(), NORMAL);
    f.read_only();
    assert_eq!(f.bits(), NORMAL | READ_ONLY);
    f.writable();
    assert_eq!(f.bits(), NORMAL);
    f.execute_disable();
    assert_eq!(
        f.bits(),
        NORMAL | PRIVILEGED_EXECUTE_NEVER | UNPRIVILEGED_EXECUTE_NEVER
    );
    assert!(f.contains(NORMAL));
    assert!(!f.contains(READ_ONLY));
    let mut d = PageTableEntryFlags::empty();
    d.device();
    assert_eq!(d.bits(), 0x4);
}

#[test]
fn flags_from_bits_rejects_unknown_bits() {
    assert!(PageTableEntryFlags::from_bits(0x1000).is_none());
    assert!(PageTableEntryFlags::from_bits(1 << 60).is_none());
    let f = PageTableEntryFlags::from_bits(0x13).unwrap();
    assert_eq!(f.bits(), 0x13);
    let g = f.union(PageTableEntryFlags::from_bits(0x80).unwrap());
    assert_eq!(g.bits(), 0x93);
    let mut h = g;
    h.remove(0x3);
    assert_eq!(h.bits(), 0x90);
}

#[test]
fn set_on_aligned_address_reads_back() {
    let mut flags = PageTableEntryFlags::empty();
    flags.normal().writable();
    let mut e = PageTableEntry::unused();
    assert!(!e.is_present());
    e.set(0x1234_5000, flags);
    assert!(e.is_present());
    assert_eq!(e.address(), 0x1234_5000);
    for pa in [0u64, 0x1000, 0xFFFF_FFFF_F000, 0x8000_0000] {
        let mut e = PageTableEntry::unused();
        e.set(pa, flags);
        assert_eq!(e.address(), pa);
        assert!(e.is_present());
    }
}

#[test]
fn set_forces_present_shareable_accessed() {
    let flags = PageTableEntryFlags::empty();
    let mut e = PageTableEntry::unused();
    e.set(0x2000, flags);
    let mut expected = PageTableEntry::unused();
    let forced = PageTableEntryFlags::from_bits(PRESENT | INNER_SHAREABLE | ACCESSED).unwrap();
    expected.set(0x2000, forced);
    assert_eq!(e, expected);
}

#[test]
fn entry_address_drops_bits_above_48() {
    let flags = PageTableEntryFlags::empty();
    let mut e = PageTableEntry::unused();
    e.set(0x1_0000_0000_1000, flags);
    assert_eq!(e.address(), 0x1000);
}
