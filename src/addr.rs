//! Typed physical and virtual addresses.
use vstd::arithmetic::div_mod::{lemma_fundamental_div_mod, lemma_mod_multiples_basic};
use vstd::arithmetic::power2::{lemma2_to64, lemma_pow2_pos, pow2};
use vstd::bits::{lemma_u64_low_bits_mask_is_mod, lemma_u64_pow2_no_overflow, lemma_u64_shl_is_mul};
use vstd::prelude::*;

verus! {

/// Size of a base page (4 KiB).
pub const BASE_PAGE_SIZE: usize = 4096;

/// Log2 of the base page size.
pub const BASE_PAGE_SHIFT: usize = 12;

/// Size of a large page (2 MiB).
pub const LARGE_PAGE_SIZE: usize = 0x20_0000;

/// `x` is a power of two that fits in 64 bits.
pub open spec fn is_pow2(x: u64) -> bool {
    exists|n: nat| n < 64 && x == pow2(n)
}

/// The greatest multiple of `align` that is at most `addr`.
pub open spec fn spec_align_down(addr: int, align: int) -> int {
    addr - addr % align
}

/// The smallest multiple of `align` that is at least `addr`.
pub open spec fn spec_align_up(addr: int, align: int) -> int {
    if addr % align == 0 {
        addr
    } else {
        addr - addr % align + align
    }
}

proof fn lemma_mask_bits(x: u64, m: u64)
    ensures
        x & !m == x - (x & m),
        x | m == (x & !m) + m,
{
    assert(x & !m == x - (x & m)) by (bit_vector);
    assert(x | m == (x & !m) + m) by (bit_vector);
}

/// For a power of two `align`, the low-bit mask `align - 1` selects `addr % align`.
pub proof fn lemma_align_mask(addr: u64, align: u64)
    requires
        is_pow2(align),
    ensures
        align > 0,
        addr & ((align - 1) as u64) == addr % align,
        addr & !((align - 1) as u64) == addr - addr % align,
        (addr | ((align - 1) as u64)) == addr - addr % align + align - 1,
{
    let n = choose|n: nat| n < 64 && align == pow2(n);
    lemma_pow2_pos(n);
    lemma_u64_low_bits_mask_is_mod(addr, n);
    lemma_mask_bits(addr, (align - 1) as u64);
}

/// Rounding up gives a multiple of the alignment, and a multiple stays as it is.
pub proof fn lemma_align_up_multiple(x: int, a: int)
    requires
        x >= 0,
        a > 0,
    ensures
        spec_align_up(x, a) % a == 0,
        spec_align_up(x, a) >= x,
        x % a == 0 ==> spec_align_up(x, a) == x,
{
    lemma_fundamental_div_mod(x, a);
    if x % a != 0 {
        assert(spec_align_up(x, a) == a * (x / a + 1)) by (nonlinear_arith)
            requires
                x == a * (x / a) + x % a,
                spec_align_up(x, a) == x - x % a + a,
        ;
        lemma_mod_multiples_basic(x / a + 1, a);
    }
}

/// A power of two is positive.
pub proof fn lemma_pow2_positive(x: u64)
    requires
        is_pow2(x),
    ensures
        x > 0,
{
    let n = choose|n: nat| n < 64 && x == pow2(n);
    lemma_pow2_pos(n);
}

/// The three page sizes are powers of two.
pub proof fn lemma_page_sizes_pow2()
    ensures
        is_pow2(4096),
        is_pow2(0x20_0000),
        is_pow2(0x4000_0000),
{
    lemma2_to64();
    assert(4096 == pow2(12));
    assert(0x20_0000 == pow2(21));
    assert(0x4000_0000 == pow2(30));
}

/// Tests whether `x` is a power of two.
pub fn is_power_of_two(x: u64) -> (r: bool)
    ensures
        r == is_pow2(x),
{
    let mut n: u64 = 0;
    while n < 64
        invariant
            n <= 64,
            forall|k: nat| k < n ==> x != pow2(k),
        decreases 64 - n,
    {
        proof {
            lemma_pow2_pos(n as nat);
            lemma_u64_pow2_no_overflow(n as nat);
            lemma_u64_shl_is_mul(1, n);
        }
        if x == 1u64 << n {
            return true;
        }
        n = n + 1;
    }
    false
}

/// Aligns `addr` downwards to a multiple of the power of two `align`.
pub fn align_down(addr: u64, align: u64) -> (r: u64)
    requires
        is_pow2(align),
    ensures
        r == spec_align_down(addr as int, align as int),
{
    proof {
        lemma_align_mask(addr, align);
    }
    addr & !(align - 1)
}

/// Aligns `addr` upwards to a multiple of the power of two `align`.
pub fn align_up(addr: u64, align: u64) -> (r: u64)
    requires
        is_pow2(align),
        spec_align_up(addr as int, align as int) <= u64::MAX,
    ensures
        r == spec_align_up(addr as int, align as int),
        r % align == 0,
{
    proof {
        lemma_align_mask(addr, align);
        lemma_align_up_multiple(addr as int, align as int);
    }
    let align_mask = align - 1;
    if addr & align_mask == 0 {
        addr
    } else {
        (addr | align_mask) + 1
    }
}

/// A physical address.
#[derive(Clone, Copy, PartialEq, Eq, Structural, PartialOrd, Ord, Hash, Debug)]
pub struct PAddr(pub u64);

impl PAddr {
    /// Converts to `u64`.
    pub fn as_u64(self) -> (r: u64)
        ensures
            r == self.0,
    {
        self.0
    }

    /// Converts to `usize`.
    pub fn as_usize(self) -> (r: usize)
        ensures
            r == self.0 as usize,
    {
        self.0 as usize
    }

    /// Physical address zero.
    pub fn zero() -> (r: Self)
        ensures
            r.0 == 0,
    {
        PAddr(0)
    }

    /// Is this address zero?
    pub fn is_zero(self) -> (r: bool)
        ensures
            r == (self.0 == 0),
    {
        self.0 == 0
    }

    /// Rounds up to a multiple of the power of two `align`.
    pub fn align_up(self, align: u64) -> (r: Self)
        requires
            is_pow2(align),
            spec_align_up(self.0 as int, align as int) <= u64::MAX,
        ensures
            r.0 == spec_align_up(self.0 as int, align as int),
    {
        PAddr(align_up(self.0, align))
    }

    /// Rounds down to a multiple of the power of two `align`.
    pub fn align_down(self, align: u64) -> (r: Self)
        requires
            is_pow2(align),
        ensures
            r.0 == spec_align_down(self.0 as int, align as int),
    {
        PAddr(align_down(self.0, align))
    }

    /// Is this address aligned to `align`? False when `align` is not a power of two.
    pub fn is_aligned(self, align: u64) -> (r: bool)
        ensures
            r == (is_pow2(align) && self.0 % align == 0),
    {
        if !is_power_of_two(align) {
            return false;
        }
        self.align_down(align).0 == self.0
    }
}

/// A virtual address.
#[derive(Clone, Copy, PartialEq, Eq, Structural, PartialOrd, Ord, Hash, Debug)]
pub struct VAddr(pub u64);

impl VAddr {
    /// Converts from `u64`.
    pub fn from_u64(v: u64) -> (r: Self)
        ensures
            r.0 == v,
    {
        VAddr(v)
    }

    /// Converts from `usize`.
    pub fn from_usize(v: usize) -> (r: Self)
        ensures
            r.0 == v as u64,
    {
        VAddr(v as u64)
    }

    /// Converts to `u64`.
    pub fn as_u64(self) -> (r: u64)
        ensures
            r == self.0,
    {
        self.0
    }

    /// Converts to `usize`.
    pub fn as_usize(self) -> (r: usize)
        ensures
            r == self.0 as usize,
    {
        self.0 as usize
    }

    /// Virtual address zero.
    pub fn zero() -> (r: Self)
        ensures
            r.0 == 0,
    {
        VAddr(0)
    }

    /// Is this address zero?
    pub fn is_zero(self) -> (r: bool)
        ensures
            r == (self.0 == 0),
    {
        self.0 == 0
    }

    /// Rounds up to a multiple of the power of two `align`.
    pub fn align_up(self, align: u64) -> (r: Self)
        requires
            is_pow2(align),
            spec_align_up(self.0 as int, align as int) <= u64::MAX,
        ensures
            r.0 == spec_align_up(self.0 as int, align as int),
    {
        VAddr(align_up(self.0, align))
    }

    /// Rounds down to a multiple of the power of two `align`.
    pub fn align_down(self, align: u64) -> (r: Self)
        requires
            is_pow2(align),
        ensures
            r.0 == spec_align_down(self.0 as int, align as int),
    {
        VAddr(align_down(self.0, align))
    }

    /// Offset within the 4 KiB page.
    pub fn base_page_offset(self) -> (r: u64)
        ensures
            r == self.0 % 4096,
    {
        proof {
            lemma_page_sizes_pow2();
        }
        proof {
            lemma_align_mask(self.0, 4096);
        }
        self.0 & (BASE_PAGE_SIZE as u64 - 1)
    }

    /// Offset within the 2 MiB page.
    pub fn large_page_offset(self) -> (r: u64)
        ensures
            r == self.0 % 0x20_0000,
    {
        proof {
            lemma_page_sizes_pow2();
        }
        proof {
            lemma_align_mask(self.0, 0x20_0000);
        }
        self.0 & (LARGE_PAGE_SIZE as u64 - 1)
    }

    /// The nearest 4 KiB page boundary at or below this address.
    pub fn align_down_to_base_page(self) -> (r: Self)
        ensures
            r.0 == spec_align_down(self.0 as int, 4096),
    {
        proof {
            lemma_page_sizes_pow2();
        }
        self.align_down(BASE_PAGE_SIZE as u64)
    }

    /// The nearest 2 MiB page boundary at or below this address.
    pub fn align_down_to_large_page(self) -> (r: Self)
        ensures
            r.0 == spec_align_down(self.0 as int, 0x20_0000),
    {
        proof {
            lemma_page_sizes_pow2();
        }
        self.align_down(LARGE_PAGE_SIZE as u64)
    }

    /// The nearest 4 KiB page boundary at or above this address.
    pub fn align_up_to_base_page(self) -> (r: Self)
        requires
            spec_align_up(self.0 as int, 4096) <= u64::MAX,
        ensures
            r.0 == spec_align_up(self.0 as int, 4096),
    {
        proof {
            lemma_page_sizes_pow2();
        }
        self.align_up(BASE_PAGE_SIZE as u64)
    }

    /// The nearest 2 MiB page boundary at or above this address.
    pub fn align_up_to_large_page(self) -> (r: Self)
        requires
            spec_align_up(self.0 as int, 0x20_0000) <= u64::MAX,
        ensures
            r.0 == spec_align_up(self.0 as int, 0x20_0000),
    {
        proof {
            lemma_page_sizes_pow2();
        }
        self.align_up(LARGE_PAGE_SIZE as u64)
    }

    /// Is this address aligned to a 4 KiB page?
    pub fn is_base_page_aligned(self) -> (r: bool)
        ensures
            r == (self.0 % 4096 == 0),
    {
        proof {
            lemma_page_sizes_pow2();
        }
        self.align_down(BASE_PAGE_SIZE as u64).0 == self.0
    }

    /// Is this address aligned to a 2 MiB page?
    pub fn is_large_page_aligned(self) -> (r: bool)
        ensures
            r == (self.0 % 0x20_0000 == 0),
    {
        proof {
            lemma_page_sizes_pow2();
        }
        self.align_down(LARGE_PAGE_SIZE as u64).0 == self.0
    }

    /// Is this address aligned to `align`? False when `align` is not a power of two.
    pub fn is_aligned(self, align: u64) -> (r: bool)
        ensures
            r == (is_pow2(align) && self.0 % align == 0),
    {
        if !is_power_of_two(align) {
            return false;
        }
        self.align_down(align).0 == self.0
    }
}

// Arithmetic on addresses keeps the wrapper type, as in the types' own methods; each
// operation's spec gives its result and the inputs on which it is defined.
impl core::ops::Add<PAddr> for PAddr {
    type Output = PAddr;

    fn add(self, rhs: PAddr) -> (r: PAddr) {
        PAddr(self.0 + rhs.0)
    }
}

impl vstd::std_specs::ops::AddSpecImpl<PAddr> for PAddr {
    open spec fn obeys_add_spec() -> bool {
        true
    }

    open spec fn add_req(self, rhs: PAddr) -> bool {
        self.0 + rhs.0 <= u64::MAX
    }

    open spec fn add_spec(self, rhs: PAddr) -> PAddr {
        PAddr((self.0 + rhs.0) as u64)
    }
}

impl core::ops::Add<u64> for PAddr {
    type Output = PAddr;

    fn add(self, rhs: u64) -> (r: PAddr) {
        PAddr(self.0 + rhs)
    }
}

impl vstd::std_specs::ops::AddSpecImpl<u64> for PAddr {
    open spec fn obeys_add_spec() -> bool {
        true
    }

    open spec fn add_req(self, rhs: u64) -> bool {
        self.0 + rhs <= u64::MAX
    }

    open spec fn add_spec(self, rhs: u64) -> PAddr {
        PAddr((self.0 + rhs) as u64)
    }
}

impl core::ops::Sub<PAddr> for PAddr {
    type Output = PAddr;

    fn sub(self, rhs: PAddr) -> (r: PAddr) {
        PAddr(self.0 - rhs.0)
    }
}

impl vstd::std_specs::ops::SubSpecImpl<PAddr> for PAddr {
    open spec fn obeys_sub_spec() -> bool {
        true
    }

    open spec fn sub_req(self, rhs: PAddr) -> bool {
        self.0 >= rhs.0
    }

    open spec fn sub_spec(self, rhs: PAddr) -> PAddr {
        PAddr((self.0 - rhs.0) as u64)
    }
}

impl core::ops::Sub<u64> for PAddr {
    type Output = PAddr;

    fn sub(self, rhs: u64) -> (r: PAddr) {
        PAddr(self.0 - rhs)
    }
}

impl vstd::std_specs::ops::SubSpecImpl<u64> for PAddr {
    open spec fn obeys_sub_spec() -> bool {
        true
    }

    open spec fn sub_req(self, rhs: u64) -> bool {
        self.0 >= rhs
    }

    open spec fn sub_spec(self, rhs: u64) -> PAddr {
        PAddr((self.0 - rhs) as u64)
    }
}

impl core::ops::Rem<PAddr> for PAddr {
    type Output = PAddr;

    fn rem(self, rhs: PAddr) -> (r: PAddr) {
        PAddr(self.0 % rhs.0)
    }
}

impl vstd::std_specs::ops::RemSpecImpl<PAddr> for PAddr {
    open spec fn obeys_rem_spec() -> bool {
        true
    }

    open spec fn rem_req(self, rhs: PAddr) -> bool {
        rhs.0 != 0
    }

    open spec fn rem_spec(self, rhs: PAddr) -> PAddr {
        PAddr((self.0 % rhs.0) as u64)
    }
}

impl core::ops::Rem<u64> for PAddr {
    type Output = u64;

    fn rem(self, rhs: u64) -> (r: u64) {
        self.0 % rhs
    }
}

impl vstd::std_specs::ops::RemSpecImpl<u64> for PAddr {
    open spec fn obeys_rem_spec() -> bool {
        true
    }

    open spec fn rem_req(self, rhs: u64) -> bool {
        rhs != 0
    }

    open spec fn rem_spec(self, rhs: u64) -> u64 {
        (self.0 % rhs) as u64
    }
}

impl core::ops::BitAnd<PAddr> for PAddr {
    type Output = PAddr;

    fn bitand(self, rhs: PAddr) -> (r: PAddr) {
        PAddr(self.0 & rhs.0)
    }
}

impl vstd::std_specs::ops::BitAndSpecImpl<PAddr> for PAddr {
    open spec fn obeys_bitand_spec() -> bool {
        true
    }

    open spec fn bitand_req(self, rhs: PAddr) -> bool {
        true
    }

    open spec fn bitand_spec(self, rhs: PAddr) -> PAddr {
        PAddr(self.0 & rhs.0)
    }
}

impl core::ops::BitAnd<u64> for PAddr {
    type Output = u64;

    fn bitand(self, rhs: u64) -> (r: u64) {
        self.0 & rhs
    }
}

impl vstd::std_specs::ops::BitAndSpecImpl<u64> for PAddr {
    open spec fn obeys_bitand_spec() -> bool {
        true
    }

    open spec fn bitand_req(self, rhs: u64) -> bool {
        true
    }

    open spec fn bitand_spec(self, rhs: u64) -> u64 {
        self.0 & rhs
    }
}

impl core::ops::BitOr<PAddr> for PAddr {
    type Output = PAddr;

    fn bitor(self, rhs: PAddr) -> (r: PAddr) {
        PAddr(self.0 | rhs.0)
    }
}

impl vstd::std_specs::ops::BitOrSpecImpl<PAddr> for PAddr {
    open spec fn obeys_bitor_spec() -> bool {
        true
    }

    open spec fn bitor_req(self, rhs: PAddr) -> bool {
        true
    }

    open spec fn bitor_spec(self, rhs: PAddr) -> PAddr {
        PAddr(self.0 | rhs.0)
    }
}

impl core::ops::BitOr<u64> for PAddr {
    type Output = u64;

    fn bitor(self, rhs: u64) -> (r: u64) {
        self.0 | rhs
    }
}

impl vstd::std_specs::ops::BitOrSpecImpl<u64> for PAddr {
    open spec fn obeys_bitor_spec() -> bool {
        true
    }

    open spec fn bitor_req(self, rhs: u64) -> bool {
        true
    }

    open spec fn bitor_spec(self, rhs: u64) -> u64 {
        self.0 | rhs
    }
}

impl core::ops::Shr<u64> for PAddr {
    type Output = u64;

    fn shr(self, rhs: u64) -> (r: u64) {
        self.0 >> rhs
    }
}

impl vstd::std_specs::ops::ShrSpecImpl<u64> for PAddr {
    open spec fn obeys_shr_spec() -> bool {
        true
    }

    open spec fn shr_req(self, rhs: u64) -> bool {
        rhs < 64
    }

    open spec fn shr_spec(self, rhs: u64) -> u64 {
        self.0 >> rhs
    }
}

impl From<u64> for PAddr {
    fn from(num: u64) -> (r: PAddr) {
        PAddr(num)
    }
}

impl vstd::std_specs::convert::FromSpecImpl<u64> for PAddr {
    open spec fn obeys_from_spec() -> bool {
        true
    }

    open spec fn from_spec(num: u64) -> PAddr {
        PAddr(num)
    }
}

impl core::ops::Add<VAddr> for VAddr {
    type Output = VAddr;

    fn add(self, rhs: VAddr) -> (r: VAddr) {
        VAddr(self.0 + rhs.0)
    }
}

impl vstd::std_specs::ops::AddSpecImpl<VAddr> for VAddr {
    open spec fn obeys_add_spec() -> bool {
        true
    }

    open spec fn add_req(self, rhs: VAddr) -> bool {
        self.0 + rhs.0 <= u64::MAX
    }

    open spec fn add_spec(self, rhs: VAddr) -> VAddr {
        VAddr((self.0 + rhs.0) as u64)
    }
}

impl core::ops::Add<u64> for VAddr {
    type Output = VAddr;

    fn add(self, rhs: u64) -> (r: VAddr) {
        VAddr(self.0 + rhs)
    }
}

impl vstd::std_specs::ops::AddSpecImpl<u64> for VAddr {
    open spec fn obeys_add_spec() -> bool {
        true
    }

    open spec fn add_req(self, rhs: u64) -> bool {
        self.0 + rhs <= u64::MAX
    }

    open spec fn add_spec(self, rhs: u64) -> VAddr {
        VAddr((self.0 + rhs) as u64)
    }
}

impl core::ops::Sub<VAddr> for VAddr {
    type Output = VAddr;

    fn sub(self, rhs: VAddr) -> (r: VAddr) {
        VAddr(self.0 - rhs.0)
    }
}

impl vstd::std_specs::ops::SubSpecImpl<VAddr> for VAddr {
    open spec fn obeys_sub_spec() -> bool {
        true
    }

    open spec fn sub_req(self, rhs: VAddr) -> bool {
        self.0 >= rhs.0
    }

    open spec fn sub_spec(self, rhs: VAddr) -> VAddr {
        VAddr((self.0 - rhs.0) as u64)
    }
}

impl core::ops::Sub<u64> for VAddr {
    type Output = VAddr;

    fn sub(self, rhs: u64) -> (r: VAddr) {
        VAddr(self.0 - rhs)
    }
}

impl vstd::std_specs::ops::SubSpecImpl<u64> for VAddr {
    open spec fn obeys_sub_spec() -> bool {
        true
    }

    open spec fn sub_req(self, rhs: u64) -> bool {
        self.0 >= rhs
    }

    open spec fn sub_spec(self, rhs: u64) -> VAddr {
        VAddr((self.0 - rhs) as u64)
    }
}

impl core::ops::Rem<VAddr> for VAddr {
    type Output = VAddr;

    fn rem(self, rhs: VAddr) -> (r: VAddr) {
        VAddr(self.0 % rhs.0)
    }
}

impl vstd::std_specs::ops::RemSpecImpl<VAddr> for VAddr {
    open spec fn obeys_rem_spec() -> bool {
        true
    }

    open spec fn rem_req(self, rhs: VAddr) -> bool {
        rhs.0 != 0
    }

    open spec fn rem_spec(self, rhs: VAddr) -> VAddr {
        VAddr((self.0 % rhs.0) as u64)
    }
}

impl core::ops::Rem<u64> for VAddr {
    type Output = u64;

    fn rem(self, rhs: u64) -> (r: u64) {
        self.0 % rhs
    }
}

impl vstd::std_specs::ops::RemSpecImpl<u64> for VAddr {
    open spec fn obeys_rem_spec() -> bool {
        true
    }

    open spec fn rem_req(self, rhs: u64) -> bool {
        rhs != 0
    }

    open spec fn rem_spec(self, rhs: u64) -> u64 {
        (self.0 % rhs) as u64
    }
}

impl core::ops::BitAnd<VAddr> for VAddr {
    type Output = VAddr;

    fn bitand(self, rhs: VAddr) -> (r: VAddr) {
        VAddr(self.0 & rhs.0)
    }
}

impl vstd::std_specs::ops::BitAndSpecImpl<VAddr> for VAddr {
    open spec fn obeys_bitand_spec() -> bool {
        true
    }

    open spec fn bitand_req(self, rhs: VAddr) -> bool {
        true
    }

    open spec fn bitand_spec(self, rhs: VAddr) -> VAddr {
        VAddr(self.0 & rhs.0)
    }
}

impl core::ops::BitAnd<u64> for VAddr {
    type Output = VAddr;

    fn bitand(self, rhs: u64) -> (r: VAddr) {
        VAddr(self.0 & rhs)
    }
}

impl vstd::std_specs::ops::BitAndSpecImpl<u64> for VAddr {
    open spec fn obeys_bitand_spec() -> bool {
        true
    }

    open spec fn bitand_req(self, rhs: u64) -> bool {
        true
    }

    open spec fn bitand_spec(self, rhs: u64) -> VAddr {
        VAddr(self.0 & rhs)
    }
}

impl core::ops::BitOr<VAddr> for VAddr {
    type Output = VAddr;

    fn bitor(self, rhs: VAddr) -> (r: VAddr) {
        VAddr(self.0 | rhs.0)
    }
}

impl vstd::std_specs::ops::BitOrSpecImpl<VAddr> for VAddr {
    open spec fn obeys_bitor_spec() -> bool {
        true
    }

    open spec fn bitor_req(self, rhs: VAddr) -> bool {
        true
    }

    open spec fn bitor_spec(self, rhs: VAddr) -> VAddr {
        VAddr(self.0 | rhs.0)
    }
}

impl core::ops::BitOr<u64> for VAddr {
    type Output = VAddr;

    fn bitor(self, rhs: u64) -> (r: VAddr) {
        VAddr(self.0 | rhs)
    }
}

impl vstd::std_specs::ops::BitOrSpecImpl<u64> for VAddr {
    open spec fn obeys_bitor_spec() -> bool {
        true
    }

    open spec fn bitor_req(self, rhs: u64) -> bool {
        true
    }

    open spec fn bitor_spec(self, rhs: u64) -> VAddr {
        VAddr(self.0 | rhs)
    }
}

impl core::ops::Shr<u64> for VAddr {
    type Output = u64;

    fn shr(self, rhs: u64) -> (r: u64) {
        self.0 >> rhs
    }
}

impl vstd::std_specs::ops::ShrSpecImpl<u64> for VAddr {
    open spec fn obeys_shr_spec() -> bool {
        true
    }

    open spec fn shr_req(self, rhs: u64) -> bool {
        rhs < 64
    }

    open spec fn shr_spec(self, rhs: u64) -> u64 {
        self.0 >> rhs
    }
}

impl From<u64> for VAddr {
    fn from(num: u64) -> (r: VAddr) {
        VAddr(num)
    }
}

impl vstd::std_specs::convert::FromSpecImpl<u64> for VAddr {
    open spec fn obeys_from_spec() -> bool {
        true
    }

    open spec fn from_spec(num: u64) -> VAddr {
        VAddr(num)
    }
}

} // verus!
