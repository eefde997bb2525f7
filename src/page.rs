//! Pages of a given size, and ranges of them.
use crate::addr::{align_down, lemma_page_sizes_pow2, spec_align_down};
use crate::page_size::{
    size_at_level, spec_table_index, PageSize, PAGE_BITS, PAGE_MAP_BITS, PAGE_MAP_MASK,
    VIRTUAL_ADDRESS_LIMIT,
};
use core::marker::PhantomData;
use vstd::prelude::*;

verus! {

/// A virtual address below the limit that is aligned to the size of level `level`.
pub open spec fn is_page_address(va: u64, level: nat) -> bool {
    va < VIRTUAL_ADDRESS_LIMIT && va % size_at_level(level) == 0
}

/// A memory page of the size given by `S`: a virtual address rounded down to a boundary
/// of that size.
pub struct Page<S: PageSize> {
    virtual_address: u64,
    size: PhantomData<S>,
}

impl<S: PageSize> Clone for Page<S> {
    fn clone(&self) -> (r: Self)
        ensures
            r == *self,
    {
        Page { virtual_address: self.virtual_address, size: PhantomData }
    }
}

impl<S: PageSize> Copy for Page<S> {

}

impl<S: PageSize> View for Page<S> {
    type V = u64;

    closed spec fn view(&self) -> u64 {
        self.virtual_address
    }
}

impl<S: PageSize> Page<S> {
    /// The address lies below the limit and on a boundary of size `S`.
    pub open spec fn valid(self) -> bool {
        &&& 1 <= S::spec_map_level() <= 3
        &&& is_page_address(self@, S::spec_map_level())
    }

    /// The virtual address of this page.
    pub fn address(&self) -> (r: u64)
        ensures
            r == self@,
    {
        self.virtual_address
    }

    /// Records that stale translations of this page must be flushed from the TLB of
    /// every core: its address is appended to `flushed`.
    pub fn flush_from_tlb(&self, flushed: &mut Vec<u64>)
        ensures
            final(flushed)@ == old(flushed)@.push(self@),
    {
        flushed.push(self.virtual_address);
    }

    /// Whether `virtual_address` is a valid one: only 48 bits of address are translated.
    pub fn is_valid_address(virtual_address: u64) -> (r: bool)
        ensures
            r == (virtual_address < VIRTUAL_ADDRESS_LIMIT),
    {
        virtual_address < VIRTUAL_ADDRESS_LIMIT
    }

    /// The page that includes `virtual_address`: the address rounded down to a page
    /// boundary. An address at or above the limit is a caller's error, left out by
    /// `requires`; `is_valid_address` tests it.
    pub fn including_address(virtual_address: u64) -> (r: Self)
        requires
            virtual_address < VIRTUAL_ADDRESS_LIMIT,
        ensures
            r.valid(),
            r@ == spec_align_down(virtual_address as int, size_at_level(S::spec_map_level()) as int),
    {
        let size = S::size();
        proof {
            lemma_page_sizes_pow2();
        }
        let va = align_down(virtual_address, size);
        assert(va % size == 0) by {
            vstd::arithmetic::div_mod::lemma_mod_self_0(size as int);
            vstd::arithmetic::div_mod::lemma_sub_mod_noop(virtual_address as int, (virtual_address % size) as int, size as int);
        }
        Page { virtual_address: va, size: PhantomData }
    }

    /// The pages from `first` to `last`, both included.
    pub fn range(first: Self, last: Self) -> (r: PageIter<S>)
        requires
            first.valid(),
            last.valid(),
            first@ <= last@,
        ensures
            r.valid(),
            r@ == (first@, last@),
    {
        PageIter { current: first.virtual_address, last: last.virtual_address, size: PhantomData }
    }

    /// The index of this page in a table of level `level`, which must not lie below
    /// the level at which pages of this size are mapped.
    pub fn table_index(&self, level: usize) -> (r: u64)
        requires
            self.valid(),
            level <= S::spec_map_level(),
        ensures
            r == spec_table_index(level as nat, self@),
            r < 512,
    {
        let va = self.virtual_address;
        let shift = (3 - level as u64) * PAGE_MAP_BITS;
        proof {
            if level == 0 {
                assert(va >> 12u64 >> 27u64 == va >> 39u64) by (bit_vector);
            } else if level == 1 {
                assert(va >> 12u64 >> 18u64 == va >> 30u64) by (bit_vector);
            } else if level == 2 {
                assert(va >> 12u64 >> 9u64 == va >> 21u64) by (bit_vector);
            } else {
                assert(va >> 12u64 >> 0u64 == va >> 12u64) by (bit_vector);
            }
            assert((va >> 12u64 >> shift) & 0x1FF < 512) by (bit_vector);
        }
        va >> PAGE_BITS >> shift & PAGE_MAP_MASK
    }
}

/// An iterator over the pages of size `S` from a first to a last page, both included.
pub struct PageIter<S: PageSize> {
    current: u64,
    last: u64,
    size: PhantomData<S>,
}

impl<S: PageSize> View for PageIter<S> {
    /// The next page to hand out, and the last page.
    type V = (u64, u64);

    closed spec fn view(&self) -> (u64, u64) {
        (self.current, self.last)
    }
}

impl<S: PageSize> PageIter<S> {
    /// The last page is a valid page, and the cursor stays on page boundaries at most
    /// one page past it.
    pub open spec fn valid(self) -> bool {
        &&& 1 <= S::spec_map_level() <= 3
        &&& is_page_address(self@.1, S::spec_map_level())
        &&& self@.0 % size_at_level(S::spec_map_level()) == 0
        &&& self@.0 <= self@.1 + size_at_level(S::spec_map_level())
    }

    /// How many pages are left.
    pub open spec fn remaining(self) -> nat {
        if self@.0 <= self@.1 {
            ((self@.1 - self@.0) / (size_at_level(S::spec_map_level()) as int) + 1) as nat
        } else {
            0
        }
    }

    /// Hands out the next page, if any is left, and advances by one page.
    pub fn next(&mut self) -> (r: Option<Page<S>>)
        requires
            old(self).valid(),
        ensures
            final(self).valid(),
            final(self)@.1 == old(self)@.1,
            match r {
                Some(p) => {
                    &&& old(self)@.0 <= old(self)@.1
                    &&& p@ == old(self)@.0
                    &&& p.valid()
                    &&& final(self)@.0 == old(self)@.0 + size_at_level(S::spec_map_level())
                    &&& final(self).remaining() + 1 == old(self).remaining()
                },
                None => old(self)@.0 > old(self)@.1 && final(self)@ == old(self)@ && old(
                    self,
                ).remaining() == 0,
            },
    {
        let size = S::size();
        if self.current <= self.last {
            let p = Page { virtual_address: self.current, size: PhantomData };
            self.current = self.current + size;
            proof {
                let s = size as int;
                let c = old(self)@.0 as int;
                let l = old(self)@.1 as int;
                vstd::arithmetic::div_mod::lemma_mod_self_0(s);
                vstd::arithmetic::div_mod::lemma_add_mod_noop(c, s, s);
                if c + s <= l {
                    vstd::arithmetic::div_mod::lemma_fundamental_div_mod(l - c, s);
                    vstd::arithmetic::div_mod::lemma_div_minus_one(l - c, s);
                    assert((l - (c + s)) / s == (l - c) / s - 1);
                } else {
                    vstd::arithmetic::div_mod::lemma_sub_mod_noop(l, c, s);
                    vstd::arithmetic::div_mod::lemma_small_mod((l - c) as nat, s as nat);
                    vstd::arithmetic::div_mod::lemma_basic_div(l - c, s);
                }
            }
            Some(p)
        } else {
            None
        }
    }
}

} // verus!
