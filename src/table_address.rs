//! Self-referential table addressing.
//!
//! The root table is reached at a fixed virtual address; the table one level below,
//! for index `i`, is reached at the parent's address shifted left by one index width
//! and with `i` put in the freed bits. So the address of a table encodes the path of
//! indices from the root, and no table stores a pointer to another.
use crate::page_size::{
    shift_at_level, size_at_level, spec_table_index, PAGE_BITS, PAGE_MAP_BITS,
    VIRTUAL_ADDRESS_LIMIT,
};
use vstd::prelude::*;

verus! {

/// The virtual address at which the root table is reached.
pub const L0TABLE_ADDRESS: u64 = 0xFFFF_FFFF_F000;

/// The address of a subtable, derived from its parent's address and its index there.
pub open spec fn spec_subtable_address(table_address: u64, index: u64) -> u64 {
    ((table_address << 9u64) & !(u64::MAX << 48u64)) | (index << 12u64)
}

/// The address of the table at `level` on the path that translates `va`, in closed
/// form: the leading bits are ones, followed by the indices of the levels above.
pub open spec fn table_address(level: nat, va: u64) -> u64 {
    if level == 0 {
        L0TABLE_ADDRESS
    } else if level == 1 {
        0xFFFF_FFE0_0000 | ((va >> 39u64) << 12u64)
    } else if level == 2 {
        0xFFFF_C000_0000 | ((va >> 30u64) << 12u64)
    } else {
        0xFF80_0000_0000 | ((va >> 21u64) << 12u64)
    }
}

/// The key under which the table at `level` on the path of `va` is kept: its address
/// with the level in the low bits. The level tells apart the root and the tables that
/// the root's last entry reaches at the same address.
pub open spec fn table_key(level: nat, va: u64) -> u64 {
    table_address(level, va) | (level as u64)
}

/// The page number of `va` at `level`: which entry-sized region it lies in.
pub open spec fn page_number(level: nat, va: u64) -> int {
    va as int / size_at_level(level) as int
}

/// The number of the region that a whole table at `level` covers.
pub open spec fn table_number(level: nat, va: u64) -> int {
    va as int / (size_at_level(level) as int * 512)
}

/// Computes the address of a subtable from its parent's address and its index.
pub fn subtable_address(table_address: u64, index: u64) -> (r: u64)
    ensures
        r == spec_subtable_address(table_address, index),
{
    (table_address << PAGE_MAP_BITS) & !(u64::MAX << 48u64) | (index << PAGE_BITS)
}

/// Descending one level in the address equals descending one level in the hierarchy.
pub proof fn lemma_subtable_address(level: nat, va: u64)
    requires
        level < 3,
        va < VIRTUAL_ADDRESS_LIMIT,
    ensures
        spec_subtable_address(table_address(level, va), spec_table_index(level, va))
            == table_address(level + 1, va),
{
    if level == 0 {
        assert(((0xFFFF_FFFF_F000u64 << 9u64) & !(u64::MAX << 48u64)) | (((va >> 39u64)
            & 0x1FFu64) << 12u64) == 0xFFFF_FFE0_0000u64 | ((va >> 39u64) << 12u64))
            by (bit_vector)
            requires
                va < 0x1_0000_0000_0000u64,
        ;
    } else if level == 1 {
        assert((((0xFFFF_FFE0_0000u64 | ((va >> 39u64) << 12u64)) << 9u64) & !(u64::MAX
            << 48u64)) | (((va >> 30u64) & 0x1FFu64) << 12u64) == 0xFFFF_C000_0000u64 | ((va
            >> 30u64) << 12u64)) by (bit_vector)
            requires
                va < 0x1_0000_0000_0000u64,
        ;
    } else {
        assert((((0xFFFF_C000_0000u64 | ((va >> 30u64) << 12u64)) << 9u64) & !(u64::MAX
            << 48u64)) | (((va >> 21u64) & 0x1FFu64) << 12u64) == 0xFF80_0000_0000u64 | ((va
            >> 21u64) << 12u64)) by (bit_vector)
            requires
                va < 0x1_0000_0000_0000u64,
        ;
    }
}

/// Every table address lies on a 4 KiB boundary.
proof fn lemma_table_address_aligned(va: u64)
    by (bit_vector)
    ensures
        0xFFFF_FFFF_F000u64 & 0xFFFu64 == 0,
        (0xFFFF_FFE0_0000u64 | ((va >> 39u64) << 12u64)) & 0xFFFu64 == 0,
        (0xFFFF_C000_0000u64 | ((va >> 30u64) << 12u64)) & 0xFFFu64 == 0,
        (0xFF80_0000_0000u64 | ((va >> 21u64) << 12u64)) & 0xFFFu64 == 0,
{
}

/// Two addresses meet the same table at `level` when they lie in the region it
/// covers, and share its key; keys of different levels or regions differ.
pub proof fn lemma_table_key(l1: nat, x: u64, l2: nat, y: u64)
    requires
        l1 <= 3,
        l2 <= 3,
        x < VIRTUAL_ADDRESS_LIMIT,
        y < VIRTUAL_ADDRESS_LIMIT,
    ensures
        table_key(l1, x) == table_key(l2, y) <==> (l1 == l2 && table_number(l1, x)
            == table_number(l1, y)),
{
    let a = table_address(l1, x);
    let b = table_address(l2, y);
    let k1 = l1 as u64;
    let k2 = l2 as u64;
    lemma_table_address_aligned(x);
    assert(a & 0xFFFu64 == 0);
    lemma_table_address_aligned(y);
    assert(b & 0xFFFu64 == 0);
    assert((a | k1) == (b | k2) <==> (a == b && k1 == k2)) by (bit_vector)
        requires
            a & 0xFFFu64 == 0,
            b & 0xFFFu64 == 0,
            k1 < 4,
            k2 < 4,
    ;
    if l1 == l2 {
        if l1 == 0 {
            assert(x / 0x1_0000_0000_0000u64 == 0 && y / 0x1_0000_0000_0000u64 == 0)
                by (bit_vector)
                requires
                    x < 0x1_0000_0000_0000u64,
                    y < 0x1_0000_0000_0000u64,
            ;
        } else if l1 == 1 {
            assert((0xFFFF_FFE0_0000u64 | ((x >> 39u64) << 12u64)) == (0xFFFF_FFE0_0000u64 | ((y
                >> 39u64) << 12u64)) <==> x / 0x80_0000_0000u64 == y / 0x80_0000_0000u64)
                by (bit_vector)
                requires
                    x < 0x1_0000_0000_0000u64,
                    y < 0x1_0000_0000_0000u64,
            ;
        } else if l1 == 2 {
            assert((0xFFFF_C000_0000u64 | ((x >> 30u64) << 12u64)) == (0xFFFF_C000_0000u64 | ((y
                >> 30u64) << 12u64)) <==> x / 0x4000_0000u64 == y / 0x4000_0000u64)
                by (bit_vector)
                requires
                    x < 0x1_0000_0000_0000u64,
                    y < 0x1_0000_0000_0000u64,
            ;
        } else {
            assert((0xFF80_0000_0000u64 | ((x >> 21u64) << 12u64)) == (0xFF80_0000_0000u64 | ((y
                >> 21u64) << 12u64)) <==> x / 0x20_0000u64 == y / 0x20_0000u64) by (bit_vector)
                requires
                    x < 0x1_0000_0000_0000u64,
                    y < 0x1_0000_0000_0000u64,
            ;
        }
    }
}

/// The low bits of a key hold its level.
pub proof fn lemma_key_level(level: nat, va: u64)
    requires
        level <= 3,
    ensures
        table_key(level, va) & 3 == level,
        table_key(0, va) == L0TABLE_ADDRESS,
{
    assert(0xFFFF_FFFF_F000u64 | 0u64 == 0xFFFF_FFFF_F000u64) by (bit_vector);
    if level == 0 {
        assert((0xFFFF_FFFF_F000u64 | 0u64) & 3 == 0) by (bit_vector);
    } else if level == 1 {
        assert((0xFFFF_FFE0_0000u64 | ((va >> 39u64) << 12u64) | 1u64) & 3 == 1) by (bit_vector);
    } else if level == 2 {
        assert((0xFFFF_C000_0000u64 | ((va >> 30u64) << 12u64) | 2u64) & 3 == 2) by (bit_vector);
    } else {
        assert((0xFF80_0000_0000u64 | ((va >> 21u64) << 12u64) | 3u64) & 3 == 3) by (bit_vector);
    }
}

/// Within the region of one table, the index at `level` tells the page numbers apart.
pub proof fn lemma_page_number(level: nat, x: u64, y: u64)
    requires
        level <= 3,
    ensures
        page_number(level, x) == page_number(level, y) <==> (table_number(level, x)
            == table_number(level, y) && spec_table_index(level, x) == spec_table_index(
            level,
            y,
        )),
{
    if level == 0 {
        assert(x / 0x80_0000_0000u64 == y / 0x80_0000_0000u64 <==> (x / 0x1_0000_0000_0000u64
            == y / 0x1_0000_0000_0000u64 && ((x >> 39u64) & 0x1FFu64) == ((y >> 39u64)
            & 0x1FFu64))) by (bit_vector);
    } else if level == 1 {
        assert(x / 0x4000_0000u64 == y / 0x4000_0000u64 <==> (x / 0x80_0000_0000u64 == y
            / 0x80_0000_0000u64 && ((x >> 30u64) & 0x1FFu64) == ((y >> 30u64) & 0x1FFu64)))
            by (bit_vector);
    } else if level == 2 {
        assert(x / 0x20_0000u64 == y / 0x20_0000u64 <==> (x / 0x4000_0000u64 == y
            / 0x4000_0000u64 && ((x >> 21u64) & 0x1FFu64) == ((y >> 21u64) & 0x1FFu64)))
            by (bit_vector);
    } else {
        assert(x / 0x1000u64 == y / 0x1000u64 <==> (x / 0x20_0000u64 == y / 0x20_0000u64 && ((x
            >> 12u64) & 0x1FFu64) == ((y >> 12u64) & 0x1FFu64))) by (bit_vector);
    }
}

/// The region of a table at `level + 1` is one entry-sized region at `level`.
pub proof fn lemma_table_number_next(level: nat, va: u64)
    requires
        level < 3,
    ensures
        table_number(level + 1, va) == page_number(level, va),
{
}

} // verus!
