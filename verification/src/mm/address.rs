//! Typed addresses and page numbers of the SV39 scheme.

use crate::config::{PAGE_SIZE, PA_LIMIT, PPN_LIMIT, PTE_COUNT, VA_LIMIT, VPN_LIMIT};
use vstd::prelude::*;
use vstd::std_specs::convert::FromSpecImpl;

verus! {

/// A physical address.
#[derive(Clone, Copy, Debug, PartialEq, Eq, Structural)]
pub struct PhysAddr(pub u64);

/// A virtual address.
#[derive(Clone, Copy, Debug, PartialEq, Eq, Structural)]
pub struct VirtAddr(pub u64);

/// A physical page number.
#[derive(Clone, Copy, Debug, PartialEq, Eq, Structural)]
pub struct PhysPageNum(pub u64);

/// A virtual page number.
#[derive(Clone, Copy, Debug, PartialEq, Eq, Structural)]
pub struct VirtPageNum(pub u64);

/// Index into the root node for a page number.
pub open spec fn vpn_index2(vpn: u64) -> usize {
    ((vpn / 262144) % 512) as usize
}

/// Index into the middle node for a page number.
pub open spec fn vpn_index1(vpn: u64) -> usize {
    ((vpn / 512) % 512) as usize
}

/// Index into the last node for a page number.
pub open spec fn vpn_index0(vpn: u64) -> usize {
    (vpn % 512) as usize
}

/// Pages needed to cover the addresses below `addr`.
pub open spec fn spec_page_ceil(addr: u64) -> u64 {
    ((addr + PAGE_SIZE - 1) / (PAGE_SIZE as int)) as u64
}

impl VirtAddr {
    /// The address lies in the 39-bit space.
    pub open spec fn wf(&self) -> bool {
        self.0 < VA_LIMIT
    }

    /// The page that holds this address.
    pub fn floor(&self) -> (vpn: VirtPageNum)
        ensures
            vpn.0 == self.0 / PAGE_SIZE,
            self.wf() ==> vpn.wf(),
    {
        VirtPageNum(self.0 / PAGE_SIZE)
    }

    /// The first page that starts at or after this address.
    pub fn ceil(&self) -> (vpn: VirtPageNum)
        ensures
            vpn.0 == spec_page_ceil(self.0),
            self.0 <= VA_LIMIT ==> vpn.0 <= VPN_LIMIT,
    {
        if self.0 == 0 {
            VirtPageNum(0)
        } else {
            VirtPageNum((self.0 - 1) / PAGE_SIZE + 1)
        }
    }

    /// Offset of this address inside its page.
    pub fn page_offset(&self) -> (off: u64)
        ensures
            off == self.0 % PAGE_SIZE,
            off < PAGE_SIZE,
    {
        self.0 % PAGE_SIZE
    }

    /// Whether this address is the first of its page.
    pub fn aligned(&self) -> (b: bool)
        ensures
            b == (self.0 % PAGE_SIZE == 0),
    {
        self.page_offset() == 0
    }
}

impl PhysAddr {
    /// The address lies in the 56-bit space.
    pub open spec fn wf(&self) -> bool {
        self.0 < PA_LIMIT
    }

    /// The frame that holds this address.
    pub fn floor(&self) -> (ppn: PhysPageNum)
        ensures
            ppn.0 == self.0 / PAGE_SIZE,
            self.wf() ==> ppn.wf(),
    {
        PhysPageNum(self.0 / PAGE_SIZE)
    }

    /// The first frame that starts at or after this address.
    pub fn ceil(&self) -> (ppn: PhysPageNum)
        ensures
            ppn.0 == spec_page_ceil(self.0),
            self.wf() ==> ppn.0 <= PPN_LIMIT,
    {
        if self.0 == 0 {
            PhysPageNum(0)
        } else {
            PhysPageNum((self.0 - 1) / PAGE_SIZE + 1)
        }
    }

    /// Offset of this address inside its frame.
    pub fn page_offset(&self) -> (off: u64)
        ensures
            off == self.0 % PAGE_SIZE,
            off < PAGE_SIZE,
    {
        self.0 % PAGE_SIZE
    }

    /// Whether this address is the first of its frame.
    pub fn aligned(&self) -> (b: bool)
        ensures
            b == (self.0 % PAGE_SIZE == 0),
    {
        self.page_offset() == 0
    }
}

impl VirtPageNum {
    /// The number names a page of the 39-bit space.
    pub open spec fn wf(&self) -> bool {
        self.0 < VPN_LIMIT
    }

    /// The three node indices of the table walk, root first.
    pub fn indexes(&self) -> (idx: [usize; 3])
        ensures
            idx[0] == vpn_index2(self.0),
            idx[1] == vpn_index1(self.0),
            idx[2] == vpn_index0(self.0),
            idx[0] < PTE_COUNT,
            idx[1] < PTE_COUNT,
            idx[2] < PTE_COUNT,
    {
        [((self.0 / 262144) % 512) as usize, ((self.0 / 512) % 512) as usize, (self.0 % 512) as usize]
    }

    /// The page after this one.
    pub fn step(&self) -> (next: VirtPageNum)
        requires
            self.0 < u64::MAX,
        ensures
            next.0 == self.0 + 1,
    {
        VirtPageNum(self.0 + 1)
    }

    /// The first address of the page.
    pub fn start_addr(&self) -> (va: VirtAddr)
        requires
            self.wf(),
        ensures
            va.0 == self.0 * PAGE_SIZE,
            va.wf(),
    {
        VirtAddr(self.0 * PAGE_SIZE)
    }
}

impl PhysPageNum {
    /// The number names a frame of the 56-bit space.
    pub open spec fn wf(&self) -> bool {
        self.0 < PPN_LIMIT
    }

    /// The first address of the frame.
    pub fn start_addr(&self) -> (pa: PhysAddr)
        requires
            self.wf(),
        ensures
            pa.0 == self.0 * PAGE_SIZE,
            pa.wf(),
    {
        PhysAddr(self.0 * PAGE_SIZE)
    }
}

impl From<u64> for VirtAddr {
    /// Keeps the low 39 bits.
    fn from(v: u64) -> (va: VirtAddr) {
        VirtAddr(v % VA_LIMIT)
    }
}

impl FromSpecImpl<u64> for VirtAddr {
    open spec fn obeys_from_spec() -> bool {
        true
    }

    open spec fn from_spec(v: u64) -> VirtAddr {
        VirtAddr((v % VA_LIMIT) as u64)
    }
}

impl From<u64> for PhysAddr {
    /// Keeps the low 56 bits.
    fn from(v: u64) -> (pa: PhysAddr) {
        PhysAddr(v % PA_LIMIT)
    }
}

impl FromSpecImpl<u64> for PhysAddr {
    open spec fn obeys_from_spec() -> bool {
        true
    }

    open spec fn from_spec(v: u64) -> PhysAddr {
        PhysAddr((v % PA_LIMIT) as u64)
    }
}

impl From<u64> for VirtPageNum {
    /// Keeps the low 27 bits.
    fn from(v: u64) -> (vpn: VirtPageNum) {
        VirtPageNum(v % VPN_LIMIT)
    }
}

impl FromSpecImpl<u64> for VirtPageNum {
    open spec fn obeys_from_spec() -> bool {
        true
    }

    open spec fn from_spec(v: u64) -> VirtPageNum {
        VirtPageNum((v % VPN_LIMIT) as u64)
    }
}

impl From<u64> for PhysPageNum {
    /// Keeps the low 44 bits.
    fn from(v: u64) -> (ppn: PhysPageNum) {
        PhysPageNum(v % PPN_LIMIT)
    }
}

impl FromSpecImpl<u64> for PhysPageNum {
    open spec fn obeys_from_spec() -> bool {
        true
    }

    open spec fn from_spec(v: u64) -> PhysPageNum {
        PhysPageNum((v % PPN_LIMIT) as u64)
    }
}

/// Two page numbers of the 27-bit space with the same three indices are
/// the same page number.
pub proof fn lemma_indexes_determine_vpn(a: u64, b: u64)
    requires
        a < VPN_LIMIT,
        b < VPN_LIMIT,
        vpn_index2(a) == vpn_index2(b),
        vpn_index1(a) == vpn_index1(b),
        vpn_index0(a) == vpn_index0(b),
    ensures
        a == b,
{
}

} // verus!
