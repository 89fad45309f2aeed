//! Physical and virtual addresses and page numbers.

use vstd::prelude::*;
use vstd::std_specs::convert::FromSpecImpl;

verus! {

/// First byte of RAM on the reference machine.
pub const MEMORY_START: u64 = 0x80000000;

/// One past the last byte of RAM on the reference machine.
pub const MEMORY_END: u64 = 0x88000000;

/// Bytes in a page.
pub const PAGE_SIZE: usize = 0x1000;

/// [`PAGE_SIZE`] as a machine word.
pub const PAGE_SIZE_U64: u64 = 0x1000;

/// Base-two logarithm of [`PAGE_SIZE`].
pub const PAGE_SIZE_LOG2: usize = 12;

/// Number of virtual pages that a three-level table with nine index bits per
/// level can tell apart.
pub const VPN_LIMIT: u64 = 0x800_0000;

/// Number of physical pages that a page-table entry can name.
pub const PPN_LIMIT: u64 = 0x1000_0000_0000;

/// A physical byte address.
#[derive(Copy, Clone, Debug, PartialEq, Eq, PartialOrd, Ord)]
pub struct PhysAddr(pub u64);

/// A virtual byte address.
#[derive(Copy, Clone, Debug, PartialEq, Eq, PartialOrd, Ord)]
pub struct VirtAddr(pub u64);

/// A physical page number: a physical address divided by the page size.
#[derive(Copy, Clone, Debug, PartialEq, Eq, PartialOrd, Ord)]
pub struct PhysPageNum(pub u64);

/// A virtual page number: a virtual address divided by the page size.
#[derive(Copy, Clone, Debug, PartialEq, Eq, PartialOrd, Ord)]
pub struct VirtPageNum(pub u64);

impl From<u64> for PhysAddr {
    /// The physical address with the number `value`.
    fn from(value: u64) -> (r: PhysAddr) {
        PhysAddr(value)
    }
}

impl FromSpecImpl<u64> for PhysAddr {
    open spec fn obeys_from_spec() -> bool {
        true
    }

    open spec fn from_spec(value: u64) -> PhysAddr {
        PhysAddr(value)
    }
}

impl From<PhysAddr> for u64 {
    /// The number of the physical address.
    fn from(value: PhysAddr) -> (r: u64) {
        value.0
    }
}

impl FromSpecImpl<PhysAddr> for u64 {
    open spec fn obeys_from_spec() -> bool {
        true
    }

    open spec fn from_spec(value: PhysAddr) -> u64 {
        value.0
    }
}

impl From<u64> for VirtAddr {
    /// The virtual address with the number `value`.
    fn from(value: u64) -> (r: VirtAddr) {
        VirtAddr(value)
    }
}

impl FromSpecImpl<u64> for VirtAddr {
    open spec fn obeys_from_spec() -> bool {
        true
    }

    open spec fn from_spec(value: u64) -> VirtAddr {
        VirtAddr(value)
    }
}

impl From<VirtAddr> for u64 {
    /// The number of the virtual address.
    fn from(value: VirtAddr) -> (r: u64) {
        value.0
    }
}

impl FromSpecImpl<VirtAddr> for u64 {
    open spec fn obeys_from_spec() -> bool {
        true
    }

    open spec fn from_spec(value: VirtAddr) -> u64 {
        value.0
    }
}

impl From<u64> for PhysPageNum {
    /// The physical page number with the number `value`.
    fn from(value: u64) -> (r: PhysPageNum) {
        PhysPageNum(value)
    }
}

impl FromSpecImpl<u64> for PhysPageNum {
    open spec fn obeys_from_spec() -> bool {
        true
    }

    open spec fn from_spec(value: u64) -> PhysPageNum {
        PhysPageNum(value)
    }
}

impl From<PhysPageNum> for u64 {
    /// The number of the physical page number.
    fn from(value: PhysPageNum) -> (r: u64) {
        value.0
    }
}

impl FromSpecImpl<PhysPageNum> for u64 {
    open spec fn obeys_from_spec() -> bool {
        true
    }

    open spec fn from_spec(value: PhysPageNum) -> u64 {
        value.0
    }
}

impl From<u64> for VirtPageNum {
    /// The virtual page number with the number `value`.
    fn from(value: u64) -> (r: VirtPageNum) {
        VirtPageNum(value)
    }
}

impl FromSpecImpl<u64> for VirtPageNum {
    open spec fn obeys_from_spec() -> bool {
        true
    }

    open spec fn from_spec(value: u64) -> VirtPageNum {
        VirtPageNum(value)
    }
}

impl From<VirtPageNum> for u64 {
    /// The number of the virtual page number.
    fn from(value: VirtPageNum) -> (r: u64) {
        value.0
    }
}

impl FromSpecImpl<VirtPageNum> for u64 {
    open spec fn obeys_from_spec() -> bool {
        true
    }

    open spec fn from_spec(value: VirtPageNum) -> u64 {
        value.0
    }
}

/// Number of pages needed to hold `len` bytes.
pub open spec fn spec_page_count(len: int) -> int {
    (len + PAGE_SIZE - 1) / (PAGE_SIZE as int)
}

/// Number of pages needed to hold `len` bytes.
pub fn page_count(len: usize) -> (n: usize)
    ensures
        n == spec_page_count(len as int),
        n * PAGE_SIZE >= len,
        n * PAGE_SIZE < len + PAGE_SIZE,
{
    let whole: usize = len / PAGE_SIZE;
    if len % PAGE_SIZE == 0 {
        whole
    } else {
        whole + 1
    }
}

/// Marks an address type and names the page-number type that goes with it.
pub trait AddrBase {
    type PageNum;
}

impl AddrBase for PhysAddr {
    type PageNum = PhysPageNum;
}

impl AddrBase for VirtAddr {
    type PageNum = VirtPageNum;
}

/// Page arithmetic on a byte address.
pub trait Addr {
    type PageNum;

    /// The address as a number.
    spec fn value(&self) -> u64;

    /// The page number as a number.
    spec fn page_value(pn: Self::PageNum) -> u64;

    /// The page that holds the address.
    fn floor_page_num(&self) -> (pn: Self::PageNum)
        ensures
            Self::page_value(pn) == self.value() / PAGE_SIZE_U64,
    ;

    /// The first page that starts at or after the address.
    fn ceil_page_num(&self) -> (pn: Self::PageNum)
        ensures
            Self::page_value(pn) == (self.value() + PAGE_SIZE - 1) / (PAGE_SIZE as int),
    ;

    /// Offset of the address within its page.
    fn page_offset(&self) -> (off: u64)
        ensures
            off == self.value() % PAGE_SIZE_U64,
    ;

    /// Whether the address is the first byte of a page.
    fn aligned(&self) -> (b: bool)
        ensures
            b == (self.value() % PAGE_SIZE_U64 == 0),
    ;
}

impl Addr for PhysAddr {
    type PageNum = PhysPageNum;

    open spec fn value(&self) -> u64 {
        self.0
    }

    open spec fn page_value(pn: PhysPageNum) -> u64 {
        pn.0
    }

    fn floor_page_num(&self) -> (pn: PhysPageNum) {
        PhysPageNum(self.0 / PAGE_SIZE_U64)
    }

    fn ceil_page_num(&self) -> (pn: PhysPageNum) {
        if self.0 % PAGE_SIZE_U64 == 0 {
            PhysPageNum(self.0 / PAGE_SIZE_U64)
        } else {
            PhysPageNum(self.0 / PAGE_SIZE_U64 + 1)
        }
    }

    fn page_offset(&self) -> (off: u64) {
        self.0 % PAGE_SIZE_U64
    }

    fn aligned(&self) -> (b: bool) {
        self.page_offset() == 0
    }
}

impl Addr for VirtAddr {
    type PageNum = VirtPageNum;

    open spec fn value(&self) -> u64 {
        self.0
    }

    open spec fn page_value(pn: VirtPageNum) -> u64 {
        pn.0
    }

    fn floor_page_num(&self) -> (pn: VirtPageNum) {
        VirtPageNum(self.0 / PAGE_SIZE_U64)
    }

    fn ceil_page_num(&self) -> (pn: VirtPageNum) {
        if self.0 % PAGE_SIZE_U64 == 0 {
            VirtPageNum(self.0 / PAGE_SIZE_U64)
        } else {
            VirtPageNum(self.0 / PAGE_SIZE_U64 + 1)
        }
    }

    fn page_offset(&self) -> (off: u64) {
        self.0 % PAGE_SIZE_U64
    }

    fn aligned(&self) -> (b: bool) {
        self.page_offset() == 0
    }
}

/// Marks a page-number type and names the address type that goes with it.
pub trait PageNumBase {
    type Addr;
}

impl PageNumBase for PhysPageNum {
    type Addr = PhysAddr;
}

impl PageNumBase for VirtPageNum {
    type Addr = VirtAddr;
}

/// The address at which a page starts.
pub trait PageNum {
    type Addr;

    /// The page number as a number.
    spec fn value(&self) -> u64;

    /// The address as a number.
    spec fn addr_value(a: Self::Addr) -> u64;

    /// The address of the first byte of the page. The page must lie within
    /// the address range of the machine.
    fn addr(&self) -> (a: Self::Addr)
        requires
            self.value() * PAGE_SIZE <= u64::MAX,
        ensures
            Self::addr_value(a) == self.value() * PAGE_SIZE,
    ;
}

impl PageNum for PhysPageNum {
    type Addr = PhysAddr;

    open spec fn value(&self) -> u64 {
        self.0
    }

    open spec fn addr_value(a: PhysAddr) -> u64 {
        a.0
    }

    fn addr(&self) -> (a: PhysAddr) {
        PhysAddr(self.0 * PAGE_SIZE_U64)
    }
}

impl PageNum for VirtPageNum {
    type Addr = VirtAddr;

    open spec fn value(&self) -> u64 {
        self.0
    }

    open spec fn addr_value(a: VirtAddr) -> u64 {
        a.0
    }

    fn addr(&self) -> (a: VirtAddr) {
        VirtAddr(self.0 * PAGE_SIZE_U64)
    }
}

/// The three nine-bit table indexes of a virtual page number, root level
/// first.
pub open spec fn spec_indexes(vpn: u64) -> (int, int, int) {
    ((vpn as int / 0x40000) % 512, (vpn as int / 512) % 512, vpn as int % 512)
}

impl VirtPageNum {
    /// The indexes into the three levels of a page table, root level first.
    pub fn indexes(&self) -> (idx: [usize; 3])
        ensures
            idx[0] == spec_indexes(self.0).0,
            idx[1] == spec_indexes(self.0).1,
            idx[2] == spec_indexes(self.0).2,
            idx[0] < 512,
            idx[1] < 512,
            idx[2] < 512,
    {
        let v: u64 = self.0;
        assert(v >> 18 == v / 0x40000) by (bit_vector);
        assert(v >> 9 == v / 512) by (bit_vector);
        let i0: u64 = (v >> 18) % 512;
        let i1: u64 = (v >> 9) % 512;
        let i2: u64 = v % 512;
        [i0 as usize, i1 as usize, i2 as usize]
    }
}

} // verus!
