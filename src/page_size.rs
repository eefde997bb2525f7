//! Page granularities and the geometry of the table levels.
use crate::entry::{lemma_flags_known, PageTableEntryFlags, TABLE_OR_4KIB_PAGE};
use vstd::arithmetic::power2::{lemma2_to64, lemma2_to64_rest, pow2};
use vstd::prelude::*;

verus! {

/// Number of offset bits of a virtual address within a 4 KiB page.
pub const PAGE_BITS: u64 = 12;

/// Number of index bits that each table level takes from a virtual address.
pub const PAGE_MAP_BITS: u64 = 9;

/// Mask of `PAGE_MAP_BITS` bits, to extract a table index.
pub const PAGE_MAP_MASK: u64 = 0x1FF;

/// Virtual addresses below this limit are valid.
pub const VIRTUAL_ADDRESS_LIMIT: u64 = 0x1_0000_0000_0000;

/// The number of bytes that one entry of a table at `level` covers.
pub open spec fn size_at_level(level: nat) -> u64 {
    if level == 3 {
        0x1000
    } else if level == 2 {
        0x20_0000
    } else if level == 1 {
        0x4000_0000
    } else {
        0x80_0000_0000
    }
}

/// How far the index field of `level` sits in a virtual address.
pub open spec fn shift_at_level(level: nat) -> u64 {
    if level == 3 {
        12
    } else if level == 2 {
        21
    } else if level == 1 {
        30
    } else {
        39
    }
}

/// The extra entry flag that a page mapped at `level` needs.
pub open spec fn extra_flag_at_level(level: nat) -> u64 {
    if level == 3 {
        TABLE_OR_4KIB_PAGE
    } else {
        0
    }
}

/// The 9-bit index of `va` in a table at `level`.
pub open spec fn spec_table_index(level: nat, va: u64) -> u64 {
    (va >> shift_at_level(level)) & PAGE_MAP_MASK
}

/// A table index has 9 bits.
pub proof fn lemma_table_index_bound(level: nat, va: u64)
    ensures
        spec_table_index(level, va) < 512,
{
    let s = shift_at_level(level);
    assert((va >> s) & 0x1FFu64 < 512) by (bit_vector);
}

/// The index of `va` at `level` is the 9-bit field of `va` that starts at bit
/// `12 + 9 * (3 - level)`. `Page::table_index` computes it for the levels at or above
/// the level of the page's size, and its `requires` rejects every deeper level.
pub proof fn lemma_table_index_field(level: nat, va: u64)
    requires
        level <= 3,
    ensures
        shift_at_level(level) == 12 + 9 * (3 - level),
        spec_table_index(level, va) as int == (va as int / pow2(shift_at_level(level) as nat) as int)
            % 512,
{
    lemma2_to64();
    if level == 0 {
        assert(pow2(39) == 0x80_0000_0000) by {
            lemma2_to64_rest();
        }
        assert((va >> 39u64) & 0x1FFu64 == (va / 0x80_0000_0000u64) % 512) by (bit_vector);
    } else if level == 1 {
        assert((va >> 30u64) & 0x1FFu64 == (va / 0x4000_0000u64) % 512) by (bit_vector);
    } else if level == 2 {
        assert((va >> 21u64) & 0x1FFu64 == (va / 0x20_0000u64) % 512) by (bit_vector);
    } else {
        assert((va >> 12u64) & 0x1FFu64 == (va / 0x1000u64) % 512) by (bit_vector);
    }
}

/// A page granularity: its byte size, the level at which it is mapped, and the extra
/// flag its entries carry.
pub trait PageSize: Copy {
    /// The table level at which a page of this size is mapped.
    spec fn spec_map_level() -> nat;

    /// The page size in bytes.
    fn size() -> (r: u64)
        ensures
            1 <= Self::spec_map_level() <= 3,
            r == size_at_level(Self::spec_map_level()),
    ;

    /// The table level at which a page of this size is mapped.
    fn map_level() -> (r: usize)
        ensures
            1 <= Self::spec_map_level() <= 3,
            r == Self::spec_map_level(),
    ;

    /// The extra flag that an entry mapping a page of this size needs.
    fn map_extra_flag() -> (r: PageTableEntryFlags)
        ensures
            r@ == extra_flag_at_level(Self::spec_map_level()),
            r.valid(),
    ;
}

/// A 4 KiB page, mapped in a level-3 table.
#[derive(Clone, Copy, Debug)]
pub struct BasePageSize;

impl PageSize for BasePageSize {
    open spec fn spec_map_level() -> nat {
        3
    }

    fn size() -> (r: u64) {
        0x1000
    }

    fn map_level() -> (r: usize) {
        3
    }

    fn map_extra_flag() -> (r: PageTableEntryFlags) {
        let mut f = PageTableEntryFlags::empty();
        proof {
            lemma_flags_known();
        }
        f.insert(TABLE_OR_4KIB_PAGE);
        assert(0u64 | TABLE_OR_4KIB_PAGE == TABLE_OR_4KIB_PAGE) by (bit_vector);
        f
    }
}

/// A 2 MiB page, mapped in a level-2 table.
#[derive(Clone, Copy, Debug)]
pub struct LargePageSize;

impl PageSize for LargePageSize {
    open spec fn spec_map_level() -> nat {
        2
    }

    fn size() -> (r: u64) {
        0x20_0000
    }

    fn map_level() -> (r: usize) {
        2
    }

    fn map_extra_flag() -> (r: PageTableEntryFlags) {
        PageTableEntryFlags::empty()
    }
}

/// A 1 GiB page, mapped in a level-1 table.
#[derive(Clone, Copy, Debug)]
pub struct HugePageSize;

impl PageSize for HugePageSize {
    open spec fn spec_map_level() -> nat {
        1
    }

    fn size() -> (r: u64) {
        0x4000_0000
    }

    fn map_level() -> (r: usize) {
        1
    }

    fn map_extra_flag() -> (r: PageTableEntryFlags) {
        PageTableEntryFlags::empty()
    }
}

} // verus!
