//! The page-table entry codec: attribute flags and the packed entry word.
use vstd::prelude::*;

verus! {

/// Set if this entry is valid.
pub const PRESENT: u64 = 0x1;

/// Set if this entry points to a table or to a 4 KiB page.
pub const TABLE_OR_4KIB_PAGE: u64 = 0x2;

/// Device memory: non-gathering, non-reordering, no early write acknowledgement.
pub const DEVICE_NGNRNE: u64 = 0x0;

/// Device memory: non-gathering, non-reordering, early write acknowledgement.
pub const DEVICE_NGNRE: u64 = 0x4;

/// Device memory: gathering, reordering, early write acknowledgement.
pub const DEVICE_GRE: u64 = 0x8;

/// Normal memory, non-cacheable.
pub const NORMAL_NC: u64 = 0xC;

/// Normal memory, cacheable.
pub const NORMAL: u64 = 0x10;

/// The memory referenced by this entry is read-only.
pub const READ_ONLY: u64 = 0x80;

/// The entry is shared between all cores of the system.
pub const INNER_SHAREABLE: u64 = 0x300;

/// Software has accessed this entry.
pub const ACCESSED: u64 = 0x400;

/// Code execution is disabled in privileged mode.
pub const PRIVILEGED_EXECUTE_NEVER: u64 = 0x20_0000_0000_0000;

/// Code execution is disabled in unprivileged mode.
pub const UNPRIVILEGED_EXECUTE_NEVER: u64 = 0x40_0000_0000_0000;

/// Every bit that some flag uses.
pub const ALL_FLAGS: u64 = 0x60_0000_0000_079F;

/// The flags that `PageTableEntry::set` always adds.
pub const FORCED_FLAGS: u64 = 0x701;

/// The bits of an entry word that hold the frame address: bits 12 to 47.
pub const ADDRESS_MASK: u64 = 0xFFFF_FFFF_F000;

/// Each named flag lies within `ALL_FLAGS`.
pub proof fn lemma_flags_known()
    by (bit_vector)
    ensures
        PRESENT & !ALL_FLAGS == 0,
        TABLE_OR_4KIB_PAGE & !ALL_FLAGS == 0,
        DEVICE_NGNRE & !ALL_FLAGS == 0,
        DEVICE_GRE & !ALL_FLAGS == 0,
        NORMAL_NC & !ALL_FLAGS == 0,
        NORMAL & !ALL_FLAGS == 0,
        READ_ONLY & !ALL_FLAGS == 0,
        INNER_SHAREABLE & !ALL_FLAGS == 0,
        ACCESSED & !ALL_FLAGS == 0,
        PRIVILEGED_EXECUTE_NEVER & !ALL_FLAGS == 0,
        UNPRIVILEGED_EXECUTE_NEVER & !ALL_FLAGS == 0,
        FORCED_FLAGS & !ALL_FLAGS == 0,
{
}

/// A set of entry attribute flags.
#[derive(Clone, Copy, PartialEq, Eq, Structural, Debug)]
pub struct PageTableEntryFlags {
    bits: u64,
}

impl View for PageTableEntryFlags {
    type V = u64;

    closed spec fn view(&self) -> u64 {
        self.bits
    }
}

impl PageTableEntryFlags {
    /// Holds no bit outside the known flags.
    pub open spec fn valid(self) -> bool {
        self@ & !ALL_FLAGS == 0
    }

    /// The empty set of flags, as in an unused entry.
    pub fn empty() -> (r: Self)
        ensures
            r@ == 0,
            r.valid(),
    {
        assert(0u64 & !ALL_FLAGS == 0) by (bit_vector);
        PageTableEntryFlags { bits: 0 }
    }

    /// The flags with exactly these bits, if all of them are known flags.
    pub fn from_bits(bits: u64) -> (r: Option<Self>)
        ensures
            r is Some <==> bits & !ALL_FLAGS == 0,
            r matches Some(f) ==> f@ == bits && f.valid(),
    {
        if bits & !ALL_FLAGS == 0 {
            Some(PageTableEntryFlags { bits })
        } else {
            None
        }
    }

    /// The raw bits.
    pub fn bits(&self) -> (r: u64)
        ensures
            r == self@,
    {
        self.bits
    }

    /// Are all bits of `other` set here?
    pub fn contains(&self, other: u64) -> (r: bool)
        ensures
            r == (self@ & other == other),
    {
        self.bits & other == other
    }

    /// Sets the bits of the known flag value `other`.
    pub fn insert(&mut self, other: u64)
        requires
            other & !ALL_FLAGS == 0,
            old(self).valid(),
        ensures
            final(self)@ == old(self)@ | other,
            final(self).valid(),
    {
        let b = self.bits;
        assert((b | other) & !ALL_FLAGS == 0) by (bit_vector)
            requires
                b & !ALL_FLAGS == 0 && other & !ALL_FLAGS == 0,
        ;
        self.bits = b | other;
    }

    /// The flags set here or in `other`.
    pub fn union(self, other: Self) -> (r: Self)
        requires
            self.valid(),
            other.valid(),
        ensures
            r@ == self@ | other@,
            r.valid(),
    {
        let mut r = self;
        r.insert(other.bits);
        r
    }

    /// Clears the bits of `other`.
    pub fn remove(&mut self, other: u64)
        requires
            old(self).valid(),
        ensures
            final(self)@ == old(self)@ & !other,
            final(self).valid(),
    {
        let b = self.bits;
        assert((b & !other) & !ALL_FLAGS == 0) by (bit_vector)
            requires
                b & !ALL_FLAGS == 0,
        ;
        self.bits = b & !other;
    }

    /// Marks the memory as device memory (non-gathering, non-reordering, early acknowledgement).
    pub fn device(&mut self) -> (r: &mut Self)
        requires
            old(self).valid(),
        ensures
            *final(self) == *final(r),
            r@ == old(self)@ | DEVICE_NGNRE,
            r.valid(),
    {
        proof {
            lemma_flags_known();
        }
        self.insert(DEVICE_NGNRE);
        self
    }

    /// Marks the memory as normal cacheable memory.
    pub fn normal(&mut self) -> (r: &mut Self)
        requires
            old(self).valid(),
        ensures
            *final(self) == *final(r),
            r@ == old(self)@ | NORMAL,
            r.valid(),
    {
        proof {
            lemma_flags_known();
        }
        self.insert(NORMAL);
        self
    }

    /// Makes the memory read-only.
    pub fn read_only(&mut self) -> (r: &mut Self)
        requires
            old(self).valid(),
        ensures
            *final(self) == *final(r),
            r@ == old(self)@ | READ_ONLY,
            r.valid(),
    {
        proof {
            lemma_flags_known();
        }
        self.insert(READ_ONLY);
        self
    }

    /// Makes the memory writable.
    pub fn writable(&mut self) -> (r: &mut Self)
        requires
            old(self).valid(),
        ensures
            *final(self) == *final(r),
            r@ == old(self)@ & !READ_ONLY,
            r.valid(),
    {
        self.remove(READ_ONLY);
        self
    }

    /// Forbids code execution in both privileged and unprivileged mode.
    pub fn execute_disable(&mut self) -> (r: &mut Self)
        requires
            old(self).valid(),
        ensures
            *final(self) == *final(r),
            r@ == old(self)@ | PRIVILEGED_EXECUTE_NEVER | UNPRIVILEGED_EXECUTE_NEVER,
            r.valid(),
    {
        proof {
            lemma_flags_known();
        }
        self.insert(PRIVILEGED_EXECUTE_NEVER);
        self.insert(UNPRIVILEGED_EXECUTE_NEVER);
        self
    }
}

/// The frame address held in an entry word.
pub open spec fn spec_entry_address(word: u64) -> u64 {
    word & ADDRESS_MASK
}

/// Whether an entry word is valid (present).
pub open spec fn spec_entry_present(word: u64) -> bool {
    word & PRESENT != 0
}

/// The word that `set` writes for a frame address and flag bits.
pub open spec fn spec_entry_word(physical_address: u64, flags: u64) -> u64 {
    physical_address | flags | FORCED_FLAGS
}

/// A 4 KiB-aligned address below 2^48, packed with known flags, reads back unchanged
/// and is present.
pub proof fn lemma_entry_word(physical_address: u64, flags: u64)
    requires
        physical_address % 4096 == 0,
        physical_address < 0x1_0000_0000_0000,
        flags & !ALL_FLAGS == 0,
    ensures
        spec_entry_address(spec_entry_word(physical_address, flags)) == physical_address,
        spec_entry_present(spec_entry_word(physical_address, flags)),
{
    assert(((physical_address | flags | FORCED_FLAGS) & ADDRESS_MASK) == physical_address
        && (physical_address | flags | FORCED_FLAGS) & PRESENT != 0) by (bit_vector)
        requires
            physical_address % 4096 == 0,
            physical_address < 0x1_0000_0000_0000,
            flags & !ALL_FLAGS == 0,
    ;
}

/// The frame address of an entry word lies below 2^48.
pub proof fn lemma_entry_address_bound(word: u64)
    ensures
        spec_entry_address(word) < 0x1_0000_0000_0000,
{
    assert(word & ADDRESS_MASK < 0x1_0000_0000_0000) by (bit_vector);
}

/// An entry of a translation table: a frame address and flags packed into one word.
#[derive(Clone, Copy, PartialEq, Eq, Structural, Debug)]
pub struct PageTableEntry {
    physical_address_and_flags: u64,
}

impl View for PageTableEntry {
    type V = u64;

    closed spec fn view(&self) -> u64 {
        self.physical_address_and_flags
    }
}

impl PageTableEntry {
    /// An unused entry: all bits clear.
    pub fn unused() -> (r: Self)
        ensures
            r@ == 0,
            !spec_entry_present(r@),
    {
        assert(0u64 & PRESENT == 0) by (bit_vector);
        PageTableEntry { physical_address_and_flags: 0 }
    }

    /// The stored physical frame address, without the flag and offset bits.
    pub fn address(&self) -> (r: u64)
        ensures
            r == spec_entry_address(self@),
            r < 0x1_0000_0000_0000,
    {
        let w = self.physical_address_and_flags;
        proof {
            lemma_entry_address_bound(w);
        }
        assert(w & !4095u64 & !(u64::MAX << 48u64) == w & ADDRESS_MASK) by (bit_vector);
        w & !(4096u64 - 1) & !(u64::MAX << 48u64)
    }

    /// Whether this entry is valid (present).
    pub fn is_present(&self) -> (r: bool)
        ensures
            r == spec_entry_present(self@),
    {
        (self.physical_address_and_flags & PRESENT) != 0
    }

    /// Marks this entry present and sets its frame address and flags; the present,
    /// inner-shareable and accessed flags are always added. An address off a 4 KiB
    /// boundary is a caller's error, left out by `requires`.
    pub fn set(&mut self, physical_address: u64, flags: PageTableEntryFlags)
        requires
            physical_address % 4096 == 0,
        ensures
            final(self)@ == spec_entry_word(physical_address, flags@),
    {
        let mut flags_to_set = flags.bits;
        flags_to_set = flags_to_set | PRESENT;
        flags_to_set = flags_to_set | INNER_SHAREABLE;
        flags_to_set = flags_to_set | ACCESSED;
        let b = flags.bits;
        assert((((b | PRESENT) | INNER_SHAREABLE) | ACCESSED) == b | FORCED_FLAGS) by (bit_vector);
        self.physical_address_and_flags = physical_address | flags_to_set;
        assert(physical_address | (b | FORCED_FLAGS) == physical_address | b | FORCED_FLAGS)
            by (bit_vector);
    }
}

} // verus!
