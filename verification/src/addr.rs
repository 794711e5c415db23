//! Physical and virtual page numbers.
use vstd::prelude::*;

verus! {

/// Number of address bits inside a page.
pub const PAGE_SIZE_BIT: usize = 12;

/// Size of a page in bytes (`1 << PAGE_SIZE_BIT`, 4 KiB).
pub const PAGE_SIZE: usize = 4096;

/// Address of the first byte of page number `bits`: the page number times
/// the page size, with the bits that leave the machine word dropped.
pub open spec fn page_addr(bits: usize) -> usize {
    (bits * 4096) as usize
}

/// A page's address is a multiple of the page size.
pub proof fn lemma_page_addr_aligned(bits: usize)
    ensures
        page_addr(bits) % 4096 == 0,
{
    let a = page_addr(bits);
    assert(a % 4096 == 0) by (bit_vector)
        requires
            a == (bits * 4096) as usize,
    ;
}

/// Address of the first byte of page number `bits` (shifted left by the page
/// size, with the bits that leave the machine word dropped).
pub fn page_number_to_addr(bits: usize) -> (r: usize)
    ensures
        r == page_addr(bits),
        r % 4096 == 0,
{
    let r = bits << PAGE_SIZE_BIT;
    assert(r == (bits * 4096) as usize && r % 4096 == 0) by (bit_vector)
        requires
            r == bits << 12usize,
    ;
    r
}

/// A physical page number.
#[derive(Copy, Clone, Debug)]
pub struct PhysicalPageNumber {
    pub bits: usize,
}

impl PhysicalPageNumber {
    /// The page that contains the byte just below `addr`, plus one: the first
    /// page that starts at or above `addr`.
    pub fn ceil(addr: usize) -> (r: Self)
        requires
            addr > 0,
        ensures
            r.bits == (addr - 1) as usize / PAGE_SIZE + 1,
    {
        let a = addr - 1;
        let b = a >> PAGE_SIZE_BIT;
        assert(b == a / 4096) by (bit_vector)
            requires
                b == a >> 12usize,
        ;
        Self { bits: b + 1 }
    }

    /// The page that contains `addr`.
    pub fn floor(addr: usize) -> (r: Self)
        ensures
            r.bits == addr / PAGE_SIZE,
    {
        let b = addr >> PAGE_SIZE_BIT;
        assert(b == addr / 4096) by (bit_vector)
            requires
                b == addr >> 12usize,
        ;
        Self { bits: b }
    }

    /// Address of the first byte of this page.
    pub fn as_addr(&self) -> (r: usize)
        ensures
            r == page_addr(self.bits),
    {
        page_number_to_addr(self.bits)
    }
}

impl From<usize> for PhysicalPageNumber {
    fn from(v: usize) -> (r: Self) {
        Self { bits: v }
    }
}

impl vstd::std_specs::convert::FromSpecImpl<usize> for PhysicalPageNumber {
    open spec fn obeys_from_spec() -> bool {
        true
    }

    open spec fn from_spec(v: usize) -> Self {
        PhysicalPageNumber { bits: v }
    }
}

/// A virtual page number.
#[derive(Copy, Clone, Debug)]
pub struct VirtualPageNumber {
    pub bits: usize,
}

impl VirtualPageNumber {
    /// The first page that starts at or above `addr`.
    pub fn ceil(addr: usize) -> (r: Self)
        requires
            addr > 0,
        ensures
            r.bits == (addr - 1) as usize / PAGE_SIZE + 1,
    {
        let p = PhysicalPageNumber::ceil(addr);
        Self { bits: p.bits }
    }

    /// The page that contains `addr`.
    pub fn floor(addr: usize) -> (r: Self)
        ensures
            r.bits == addr / PAGE_SIZE,
    {
        let p = PhysicalPageNumber::floor(addr);
        Self { bits: p.bits }
    }

    /// Address of the first byte of this page.
    pub fn as_addr(&self) -> (r: usize)
        ensures
            r == page_addr(self.bits),
    {
        page_number_to_addr(self.bits)
    }
}

impl From<usize> for VirtualPageNumber {
    fn from(v: usize) -> (r: Self) {
        Self { bits: v }
    }
}

impl vstd::std_specs::convert::FromSpecImpl<usize> for VirtualPageNumber {
    open spec fn obeys_from_spec() -> bool {
        true
    }

    open spec fn from_spec(v: usize) -> Self {
        VirtualPageNumber { bits: v }
    }
}

} // verus!
