//! The SV39 three-level page table.
//!
//! A table lives in physical frames. What it maps is defined by the walk
//! that the hardware makes from the root frame (`spec_walk`); every
//! operation is specified by its effect on that walk.

use crate::config::{PPN_LIMIT, PTE_COUNT, VPN_LIMIT};
use crate::mm::address::{
    lemma_indexes_determine_vpn, vpn_index0, vpn_index1, vpn_index2, PhysPageNum, VirtPageNum,
};
use crate::mm::frame_allocator::{zero_frame, FrameTracker, PhysMemory};
use vstd::prelude::*;

verus! {

/// Entry flag: the entry is in use.
pub const PTE_V: u8 = 1;

/// Entry flag: the page may be read.
pub const PTE_R: u8 = 2;

/// Entry flag: the page may be written.
pub const PTE_W: u8 = 4;

/// Entry flag: the page may be executed.
pub const PTE_X: u8 = 8;

/// Entry flag: the page is open to user mode.
pub const PTE_U: u8 = 16;

/// Entry flag: the mapping is global.
pub const PTE_G: u8 = 32;

/// Entry flag: the page was accessed.
pub const PTE_A: u8 = 64;

/// Entry flag: the page was written.
pub const PTE_D: u8 = 128;

/// The eight flag bits of an entry: Valid, Read, Write, Execute, User,
/// Global, Accessed, Dirty, from bit 0 up.
#[derive(Clone, Copy, Debug, PartialEq, Eq, Structural)]
pub struct PTEFlags {
    pub bits: u8,
}

impl PTEFlags {
    /// Valid is set.
    pub open spec fn spec_valid(self) -> bool {
        self.bits % 2 == 1
    }

    /// Read is set.
    pub open spec fn spec_readable(self) -> bool {
        (self.bits / 2) % 2 == 1
    }

    /// Write is set.
    pub open spec fn spec_writable(self) -> bool {
        (self.bits / 4) % 2 == 1
    }

    /// Execute is set.
    pub open spec fn spec_executable(self) -> bool {
        (self.bits / 8) % 2 == 1
    }

    /// User is set.
    pub open spec fn spec_user(self) -> bool {
        (self.bits / 16) % 2 == 1
    }

    /// At least one of Read, Write, Execute is set: the flags of an entry
    /// that maps a page, not of one that points to a further node.
    pub open spec fn spec_is_leaf(self) -> bool {
        (self.bits / 2) % 8 != 0
    }

    /// These flags with Valid set.
    pub open spec fn spec_with_valid(self) -> PTEFlags {
        if self.bits % 2 == 1 {
            self
        } else {
            PTEFlags { bits: (self.bits + 1) as u8 }
        }
    }

    /// Whether Valid is set.
    #[verifier::when_used_as_spec(spec_valid)]
    pub fn valid(self) -> (b: bool)
        ensures
            b == self.spec_valid(),
    {
        self.bits % 2 == 1
    }

    /// Whether Read is set.
    #[verifier::when_used_as_spec(spec_readable)]
    pub fn readable(self) -> (b: bool)
        ensures
            b == self.spec_readable(),
    {
        (self.bits / 2) % 2 == 1
    }

    /// Whether Write is set.
    #[verifier::when_used_as_spec(spec_writable)]
    pub fn writable(self) -> (b: bool)
        ensures
            b == self.spec_writable(),
    {
        (self.bits / 4) % 2 == 1
    }

    /// Whether Execute is set.
    #[verifier::when_used_as_spec(spec_executable)]
    pub fn executable(self) -> (b: bool)
        ensures
            b == self.spec_executable(),
    {
        (self.bits / 8) % 2 == 1
    }

    /// Whether User is set.
    #[verifier::when_used_as_spec(spec_user)]
    pub fn user(self) -> (b: bool)
        ensures
            b == self.spec_user(),
    {
        (self.bits / 16) % 2 == 1
    }

    /// Whether at least one of Read, Write, Execute is set.
    #[verifier::when_used_as_spec(spec_is_leaf)]
    pub fn is_leaf(self) -> (b: bool)
        ensures
            b == self.spec_is_leaf(),
    {
        (self.bits / 2) % 8 != 0
    }

    /// These flags with Valid set.
    #[verifier::when_used_as_spec(spec_with_valid)]
    pub fn with_valid(self) -> (f: PTEFlags)
        ensures
            f == self.spec_with_valid(),
            f.spec_valid(),
            f.spec_is_leaf() == self.spec_is_leaf(),
    {
        if self.bits % 2 == 1 {
            self
        } else {
            PTEFlags { bits: self.bits + 1 }
        }
    }
}

/// One 64-bit entry of a table node: the flags in bits 0 to 7, the
/// physical page number in bits 10 to 53.
#[derive(Clone, Copy, Debug, PartialEq, Eq, Structural)]
pub struct PageTableEntry {
    pub bits: u64,
}

impl PageTableEntry {
    /// The entry with the given page number and flags.
    pub open spec fn spec_new(ppn: u64, flags: PTEFlags) -> PageTableEntry {
        PageTableEntry { bits: ((ppn % PPN_LIMIT) * 1024 + flags.bits) as u64 }
    }

    /// The physical page number that the entry holds.
    pub open spec fn spec_ppn(self) -> u64 {
        ((self.bits / 1024) % PPN_LIMIT) as u64
    }

    /// The flags that the entry holds.
    pub open spec fn spec_flags(self) -> PTEFlags {
        PTEFlags { bits: (self.bits % 256) as u8 }
    }

    /// Valid is set.
    pub open spec fn spec_is_valid(self) -> bool {
        self.bits % 2 == 1
    }

    /// An entry of a node above the last level: Valid and no other flag.
    pub open spec fn spec_is_dir(self) -> bool {
        self.bits % 256 == 1
    }

    /// Packs a page number (its low 44 bits) and flags into an entry.
    pub fn new(ppn: PhysPageNum, flags: PTEFlags) -> (e: PageTableEntry)
        ensures
            e == PageTableEntry::spec_new(ppn.0, flags),
            e.spec_flags() == flags,
            e.spec_ppn() == ppn.0 % PPN_LIMIT,
    {
        PageTableEntry { bits: (ppn.0 % PPN_LIMIT) * 1024 + (flags.bits as u64) }
    }

    /// The entry that maps nothing.
    pub fn empty() -> (e: PageTableEntry)
        ensures
            e.bits == 0,
            !e.spec_is_valid(),
    {
        PageTableEntry { bits: 0 }
    }

    /// The physical page number that the entry holds.
    pub fn ppn(&self) -> (p: PhysPageNum)
        ensures
            p.0 == self.spec_ppn(),
            p.wf(),
    {
        PhysPageNum((self.bits / 1024) % PPN_LIMIT)
    }

    /// The flags that the entry holds.
    pub fn flags(&self) -> (f: PTEFlags)
        ensures
            f == self.spec_flags(),
    {
        PTEFlags { bits: (self.bits % 256) as u8 }
    }

    /// Whether Valid is set.
    pub fn is_valid(&self) -> (b: bool)
        ensures
            b == self.spec_is_valid(),
            b == self.spec_flags().spec_valid(),
    {
        self.bits % 2 == 1
    }

    /// Whether Read is set.
    pub fn readable(&self) -> (b: bool)
        ensures
            b == self.spec_flags().spec_readable(),
    {
        self.flags().readable()
    }

    /// Whether Write is set.
    pub fn writable(&self) -> (b: bool)
        ensures
            b == self.spec_flags().spec_writable(),
    {
        self.flags().writable()
    }

    /// Whether Execute is set.
    pub fn executable(&self) -> (b: bool)
        ensures
            b == self.spec_flags().spec_executable(),
    {
        self.flags().executable()
    }
}

/// An entry gives back the page number and the flags that it was made of,
/// and adding Valid to flags changes no other flag.
pub proof fn lemma_entry_round_trip(ppn: u64, flags: PTEFlags)
    requires
        ppn < PPN_LIMIT,
    ensures
        PageTableEntry::spec_new(ppn, flags).spec_ppn() == ppn,
        PageTableEntry::spec_new(ppn, flags).spec_flags() == flags,
        PageTableEntry::spec_new(ppn, flags).spec_is_valid() == flags.spec_valid(),
        PageTableEntry::spec_new(ppn, flags).spec_is_dir() == (flags.bits == 1),
        flags.spec_with_valid().spec_valid(),
        flags.spec_with_valid().spec_is_leaf() == flags.spec_is_leaf(),
        flags.spec_with_valid().spec_readable() == flags.spec_readable(),
        flags.spec_with_valid().spec_writable() == flags.spec_writable(),
        flags.spec_with_valid().spec_executable() == flags.spec_executable(),
        flags.spec_with_valid().spec_user() == flags.spec_user(),
        flags.spec_with_valid().bits / 2 == flags.bits / 2,
{
    let f = flags.bits;
    let bits = PageTableEntry::spec_new(ppn, flags).bits;
    assert(ppn % 0x1000_0000_0000 == ppn);
    assert(bits == ppn * 1024 + f);
    assert(((ppn * 1024 + f) / 1024) % 0x1000_0000_0000 == ppn && ((ppn * 1024 + f) % 256) as u8
        == f && ((ppn * 1024 + f) % 2 == 1) == (f % 2 == 1) && ((ppn * 1024 + f) % 256 == 1) == (
    f == 1)) by (bit_vector)
        requires
            ppn < 0x1000_0000_0000,
    ;
    let g = flags.spec_with_valid().bits;
    assert(g % 2 == 1 && g / 2 == f / 2 && g / 4 == f / 4 && g / 8 == f / 8 && g / 16 == f / 16
        && ((g / 2) % 8 != 0) == ((f / 2) % 8 != 0)) by (bit_vector)
        requires
            g == if f % 2 == 1 {
                f
            } else {
                (f + 1) as u8
            },
    ;
}
/// A page that was just mapped translates to the frame and the flags that
/// it was mapped with, and Valid; once it is unmapped it translates to
/// nothing. Here `mappings` is what a table maps before, and the two
/// steps are what `map` and `unmap` do to it.
pub proof fn lemma_map_then_translate(
    mappings: Map<u64, PageTableEntry>,
    vpn: u64,
    ppn: u64,
    flags: PTEFlags,
)
    requires
        vpn < VPN_LIMIT,
        ppn < PPN_LIMIT,
    ensures
        ({
            let mapped = mappings.insert(
                vpn,
                PageTableEntry::spec_new(ppn, flags.spec_with_valid()),
            );
            &&& mapped.contains_key(vpn)
            &&& mapped[vpn].spec_ppn() == ppn
            &&& mapped[vpn].spec_flags() == flags.spec_with_valid()
            &&& mapped[vpn].spec_flags().bits / 2 == flags.bits / 2
            &&& !mapped.remove(vpn).contains_key(vpn)
        }),
{
    lemma_entry_round_trip(ppn, flags.spec_with_valid());
    lemma_entry_round_trip(ppn, flags);
}
/// The entry at a position of a node.
pub open spec fn pte_at(mem: &PhysMemory, ppn: u64, idx: usize) -> PageTableEntry {
    PageTableEntry { bits: mem.frame(ppn)[idx as int] }
}
/// The walk that the hardware makes for a virtual page number, from the
/// node in frame `root`: two entries that lead to further nodes, then the
/// entry of the page. The result is that entry, if all three are valid and
/// the walk stays inside the memory.
pub open spec fn spec_walk(mem: &PhysMemory, root: u64, vpn: u64) -> Option<PageTableEntry> {
    if !mem.contains(root) {
        None
    } else {
        let e2 = pte_at(mem, root, vpn_index2(vpn));
        if !e2.spec_is_valid() || !mem.contains(e2.spec_ppn()) {
            None
        } else {
            let e1 = pte_at(mem, e2.spec_ppn(), vpn_index1(vpn));
            if !e1.spec_is_valid() || !mem.contains(e1.spec_ppn()) {
                None
            } else {
                let e0 = pte_at(mem, e1.spec_ppn(), vpn_index0(vpn));
                if e0.spec_is_valid() {
                    Some(e0)
                } else {
                    None
                }
            }
        }
    }
}
/// What a whole table maps: each page number of the 27-bit space whose
/// walk succeeds, with its entry.
pub open spec fn spec_mappings(mem: &PhysMemory, root: u64) -> Map<u64, PageTableEntry> {
    Map::new(
        |vpn: u64| vpn < VPN_LIMIT && spec_walk(mem, root, vpn) is Some,
        |vpn: u64| spec_walk(mem, root, vpn)->0,
    )
}
/// How many nodes the walk for a page number lacks: 2 when the root's
/// entry is not valid, 1 when the middle node's entry is not valid, else 0.
pub open spec fn spec_missing_nodes(mem: &PhysMemory, root: u64, vpn: u64) -> nat {
    let e2 = pte_at(mem, root, vpn_index2(vpn));
    if !e2.spec_is_valid() {
        2
    } else if !pte_at(mem, e2.spec_ppn(), vpn_index1(vpn)).spec_is_valid() {
        1
    } else {
        0
    }
}
/// How many nodes the walk for a page number lacks once another page has
/// been mapped, given how many it lacked before.
pub open spec fn spec_missing_after_map(before: nat, vpn: u64, mapped: u64) -> nat {
    if vpn_index2(vpn) != vpn_index2(mapped) {
        before
    } else if vpn_index1(vpn) == vpn_index1(mapped) {
        0
    } else if before >= 1 {
        1
    } else {
        0
    }
}
/// How many nodes page `v` still lacks when the pages `start..v` are
/// mapped one after the other before it: none where the page before it
/// shares its last-level node, at most one where that page shares its
/// middle node, else as many as the table lacks now.
pub open spec fn spec_new_nodes(mem: &PhysMemory, root: u64, start: u64, v: u64) -> nat {
    let m = spec_missing_nodes(mem, root, v);
    if v > start && (v - 1) / 512 == v / 512 {
        0
    } else if v > start && (v - 1) / 262144 == v / 262144 {
        if m >= 1 {
            1
        } else {
            0
        }
    } else {
        m
    }
}
/// How many frames it takes to map the pages `start..end`, one after the
/// other: for each page `per_page` frames and the nodes that its walk
/// then lacks.
pub open spec fn spec_frames_needed(
    mem: &PhysMemory,
    root: u64,
    start: u64,
    end: u64,
    per_page: nat,
) -> nat
    decreases end - start,
{
    if start >= end {
        0
    } else {
        spec_frames_needed(mem, root, start, (end - 1) as u64, per_page) + per_page
            + spec_new_nodes(mem, root, start, (end - 1) as u64)
    }
}
/// How many nodes page `u` lacks while the pages `start..cur` of one
/// request are mapped and `u` is not yet, given how many it lacked before
/// the request.
pub open spec fn spec_missing_during(before: nat, start: u64, cur: u64, u: u64) -> nat {
    if cur > start && (cur - 1) / 512 == u / 512 {
        0
    } else if cur > start && (cur - 1) / 262144 == u / 262144 {
        if before >= 1 {
            1
        } else {
            0
        }
    } else {
        before
    }
}
/// Mapping page `cur` moves the count for a later page `u` from what it
/// is during `start..cur` to what it is during `start..cur + 1`.
pub proof fn lemma_missing_step(before: nat, start: u64, cur: u64, u: u64)
    requires
        start <= cur < u < VPN_LIMIT,
    ensures
        spec_missing_after_map(spec_missing_during(before, start, cur, u), u, cur)
            == spec_missing_during(before, start, (cur + 1) as u64, u),
{
}
/// Mapping a longer run of pages takes no fewer frames.
pub proof fn lemma_frames_needed_monotone(
    mem: &PhysMemory,
    root: u64,
    start: u64,
    a: u64,
    b: u64,
    per_page: nat,
)
    requires
        start <= a <= b,
    ensures
        spec_frames_needed(mem, root, start, a, per_page) <= spec_frames_needed(
            mem,
            root,
            start,
            b,
            per_page,
        ),
    decreases b - a,
{
    if a < b {
        lemma_frames_needed_monotone(mem, root, start, a, (b - 1) as u64, per_page);
    }
}
/// The frames that become nodes of the table when the pages
/// `start..end` are mapped one after the other, in the order in which
/// they are taken: for each page, after the `per_page` frames of the page
/// itself, the nodes that its walk then lacks.
pub open spec fn spec_nodes_taken(
    mem: &PhysMemory,
    root: u64,
    start: u64,
    end: u64,
    per_page: nat,
) -> Seq<u64>
    decreases end - start,
{
    if start >= end {
        Seq::empty()
    } else {
        spec_nodes_taken(mem, root, start, (end - 1) as u64, per_page) + mem.state().taken(
            spec_frames_needed(mem, root, start, (end - 1) as u64, per_page) + per_page,
            spec_new_nodes(mem, root, start, (end - 1) as u64),
        )
    }
}
/// Whether one of the handles from position `from` on holds the frame.
pub open spec fn frames_hold(frames: Seq<FrameTracker>, from: int, ppn: u64) -> bool {
    exists|j: int| from <= j < frames.len() && frames[j].ppn().0 == ppn
}
/// Why a page could not be mapped.
#[derive(Clone, Copy, Debug, PartialEq, Eq, Structural)]
pub enum MapError {
    /// The flags carry none of Read, Write, Execute.
    InvalidPermission,
    /// The page is mapped already.
    AlreadyMapped,
    /// The nodes that the walk lacks need more frames than are free.
    OutOfFrames,
}
/// Why a page could not be unmapped.
#[derive(Clone, Copy, Debug, PartialEq, Eq, Structural)]
pub enum UnmapError {
    /// The page is not mapped.
    NotMapped,
}
/// Where a node stands in its table: the root (`level` 2), the node under
/// the root's entry `i2` (`level` 1), or the node under entry `i1` of that
/// one (`level` 0).
pub struct NodeLabel {
    pub level: nat,
    pub i2: usize,
    pub i1: usize,
}
/// A page table: the root frame and the frames of all its further nodes,
/// which it owns. A table made by `from_token` owns nothing and serves
/// for lookups only.
pub struct PageTable {
    root_ppn: PhysPageNum,
    frames: Vec<FrameTracker>,
    labels: Ghost<Map<u64, NodeLabel>>,
}
impl PageTable {
    /// The root frame.
    pub closed spec fn root(&self) -> u64 {
        self.root_ppn.0
    }
    /// The frames that hold this table's nodes.
    pub closed spec fn owned(&self) -> Set<u64> {
        self.labels@.dom()
    }
    /// The frames that hold this table's nodes, in the order in which the
    /// table took them: the root first.
    pub closed spec fn node_frames(&self) -> Seq<u64> {
        self.frames@.map_values(|f: FrameTracker| f.ppn().0)
    }
    /// What the table maps.
    #[verifier::inline]
    pub open spec fn mappings(&self, mem: &PhysMemory) -> Map<u64, PageTableEntry> {
        spec_mappings(mem, self.root())
    }
    /// The walk for one page number.
    #[verifier::inline]
    pub open spec fn walk(&self, mem: &PhysMemory, vpn: u64) -> Option<PageTableEntry> {
        spec_walk(mem, self.root(), vpn)
    }
    /// How many nodes the walk for a page number lacks.
    #[verifier::inline]
    pub open spec fn missing_nodes(&self, mem: &PhysMemory, vpn: u64) -> nat {
        spec_missing_nodes(mem, self.root(), vpn)
    }
    /// What a request to map a page gets: refused for flags without Read,
    /// Write and Execute, else for a page that is mapped, else for a walk
    /// that lacks more nodes than frames are free, and else granted.
    pub open spec fn map_outcome(&self, mem: &PhysMemory, vpn: u64, flags: PTEFlags) -> Result<
        (),
        MapError,
    > {
        if !flags.spec_is_leaf() {
            Err(MapError::InvalidPermission)
        } else if self.walk(mem, vpn) is Some {
            Err(MapError::AlreadyMapped)
        } else if mem.state().free_count() < self.missing_nodes(mem, vpn) {
            Err(MapError::OutOfFrames)
        } else {
            Ok(())
        }
    }
    /// What a request to unmap a page gets: granted for a page that is
    /// mapped, refused for one that is not.
    pub open spec fn unmap_outcome(&self, mem: &PhysMemory, vpn: u64) -> Result<(), UnmapError> {
        if self.walk(mem, vpn) is Some {
            Ok(())
        } else {
            Err(UnmapError::NotMapped)
        }
    }
    /// A page that is mapped cannot be mapped again before it is unmapped:
    /// whatever the table and the memory are after a page was mapped, a
    /// second request for the page is refused; and once the page is
    /// unmapped, it cannot be unmapped again.
    pub proof fn lemma_no_double_mapping(
        &self,
        mem: &PhysMemory,
        vpn: u64,
        ppn: u64,
        flags: PTEFlags,
        again: PTEFlags,
    )
        requires
            self.walk(mem, vpn) == Some(PageTableEntry::spec_new(ppn, flags.spec_with_valid())),
        ensures
            self.map_outcome(mem, vpn, again) is Err,
            self.unmap_outcome(mem, vpn) is Ok,
    {
    }

    /// The label that a node's entry gives to the node under it.
    spec fn child_label(&self, p: u64, idx: usize) -> NodeLabel {
        let l = self.labels@[p];
        if l.level == 2 {
            NodeLabel { level: 1, i2: idx, i1: 0 }
        } else {
            NodeLabel { level: 0, i2: l.i2, i1: idx }
        }
    }

    /// One entry of a node is as the node's level asks: above the last
    /// level a valid entry carries no flag but Valid and leads to the node
    /// that is labelled with its place; at the last level a valid entry
    /// carries one of Read, Write, Execute.
    spec fn entry_ok(&self, mem: &PhysMemory, p: u64, idx: usize) -> bool {
        let e = pte_at(mem, p, idx);
        e.spec_is_valid() ==> if self.labels@[p].level == 0 {
            e.spec_flags().spec_is_leaf()
        } else {
            &&& e.spec_is_dir()
            &&& self.labels@.contains_key(e.spec_ppn())
            &&& self.labels@[e.spec_ppn()] == self.child_label(p, idx)
        }
    }

    /// A node stands where its label says: the walk along the label's
    /// indices arrives at it.
    spec fn placed(&self, mem: &PhysMemory, p: u64) -> bool {
        let l = self.labels@[p];
        let e2 = pte_at(mem, self.root_ppn.0, l.i2);
        if l.level == 2 {
            p == self.root_ppn.0 && l.i2 == 0 && l.i1 == 0
        } else if l.level == 1 {
            &&& l.i2 < PTE_COUNT
            &&& l.i1 == 0
            &&& e2.spec_is_valid()
            &&& e2.spec_ppn() == p
        } else {
            &&& l.level == 0
            &&& l.i2 < PTE_COUNT
            &&& l.i1 < PTE_COUNT
            &&& e2.spec_is_valid()
            &&& pte_at(mem, e2.spec_ppn(), l.i1).spec_is_valid()
            &&& pte_at(mem, e2.spec_ppn(), l.i1).spec_ppn() == p
        }
    }

    /// The table is a tree of nodes in frames that it owns: every owned
    /// frame is handed out by the allocator, no frame is owned twice, the
    /// entries above the last level carry only Valid and lead to owned
    /// nodes, each node is reached by exactly one path from the root, and
    /// every valid entry of the last level carries Read, Write or Execute.
    pub closed spec fn wf(&self, mem: &PhysMemory) -> bool {
        &&& mem.wf()
        &&& self.frames@.len() > 0
        &&& self.frames@[0].ppn() == self.root_ppn
        &&& self.labels@.contains_key(self.root_ppn.0)
        &&& self.labels@[self.root_ppn.0].level == 2
        &&& forall|i: int|
            0 <= i < self.frames@.len() ==> self.labels@.contains_key(
                (#[trigger] self.frames@[i]).ppn().0,
            )
        &&& forall|i: int, j: int|
            0 <= i < j < self.frames@.len() ==> (#[trigger] self.frames@[i]).ppn() != (
            #[trigger] self.frames@[j]).ppn()
        &&& forall|p: u64| #[trigger]
            self.labels@.contains_key(p) ==> {
                &&& mem.is_allocated(p)
                &&& self.placed(mem, p)
                &&& exists|i: int| 0 <= i < self.frames@.len() && self.frames@[i].ppn().0 == p
            }
        &&& forall|p: u64, idx: usize|
            self.labels@.contains_key(p) && idx < PTE_COUNT ==> #[trigger] self.entry_ok(
                mem,
                p,
                idx,
            )
    }

    /// A consistent table lives in a consistent memory, owns its root, and
    /// owns only frames that are handed out.
    pub proof fn lemma_wf(&self, mem: &PhysMemory)
        requires
            self.wf(mem),
        ensures
            mem.wf(),
            self.owned().contains(self.root()),
            forall|p: u64| #[trigger] self.owned().contains(p) ==> mem.is_allocated(p),
    {
    }

    /// In a consistent table the entries that a walk passes are as the
    /// hardware expects them: an entry that leads to a further node is
    /// valid with none of Read, Write, Execute, and the entry of a mapped
    /// page is valid with at least one of them.
    pub proof fn lemma_entry_kinds(&self, mem: &PhysMemory, vpn: u64)
        requires
            self.wf(mem),
        ensures
            ({
                let e2 = pte_at(mem, self.root(), vpn_index2(vpn));
                let e1 = pte_at(mem, e2.spec_ppn(), vpn_index1(vpn));
                &&& e2.spec_is_valid() ==> e2.spec_is_dir() && !e2.spec_flags().spec_is_leaf()
                &&& e2.spec_is_valid() && e1.spec_is_valid() ==> e1.spec_is_dir()
                    && !e1.spec_flags().spec_is_leaf()
            }),
            self.walk(mem, vpn) matches Some(e) ==> e.spec_is_valid()
                && e.spec_flags().spec_is_leaf(),
    {
        let root = self.root_ppn.0;
        self.lemma_walk_nodes(mem, vpn);
        assert(self.entry_ok(mem, root, vpn_index2(vpn)));
        let e2 = pte_at(mem, root, vpn_index2(vpn));
        if e2.spec_is_valid() {
            assert(self.entry_ok(mem, e2.spec_ppn(), vpn_index1(vpn)));
            let e1 = pte_at(mem, e2.spec_ppn(), vpn_index1(vpn));
            if e1.spec_is_valid() {
                assert(self.entry_ok(mem, e1.spec_ppn(), vpn_index0(vpn)));
            }
        }
    }

    /// A table depends on the frames that it owns and on nothing else: in a
    /// memory of the same range where these frames are still handed out
    /// and hold what they held, the table is still consistent and every
    /// walk gives what it gave.
    #[verifier::rlimit(50)]
    pub proof fn lemma_unchanged(&self, mem1: &PhysMemory, mem2: &PhysMemory)
        requires
            self.wf(mem1),
            mem2.wf(),
            mem2.state().start == mem1.state().start,
            mem2.state().end == mem1.state().end,
            forall|p: u64| #[trigger]
                self.owned().contains(p) ==> mem2.is_allocated(p) && mem2.frame(p) == mem1.frame(
                    p,
                ),
        ensures
            self.wf(mem2),
            forall|vpn: u64| #[trigger] self.walk(mem2, vpn) == self.walk(mem1, vpn),
            forall|vpn: u64| #[trigger]
                self.missing_nodes(mem2, vpn) == self.missing_nodes(mem1, vpn),
            self.mappings(mem2) == self.mappings(mem1),
    {
        let root = self.root_ppn.0;
        mem1.lemma_wf();
        mem2.lemma_wf();
        assert(self.owned().contains(root));
        assert forall|p: u64| #[trigger] self.labels@.contains_key(p) implies self.placed(
            mem2,
            p,
        ) by {
            assert(self.owned().contains(p));
            assert(self.placed(mem1, p));
            let l = self.labels@[p];
            if l.level != 2 {
                assert(self.entry_ok(mem1, root, l.i2));
                assert(self.owned().contains(pte_at(mem1, root, l.i2).spec_ppn()));
            }
        }
        assert forall|p: u64, idx: usize|
            self.labels@.contains_key(p) && idx < PTE_COUNT implies #[trigger] self.entry_ok(
            mem2,
            p,
            idx,
        ) by {
            assert(self.owned().contains(p));
            assert(self.entry_ok(mem1, p, idx));
        }
        assert forall|p: u64| #[trigger] self.labels@.contains_key(p) implies mem2.is_allocated(
            p,
        ) by {
            assert(self.owned().contains(p));
        }
        assert forall|vpn: u64| #[trigger] self.walk(mem2, vpn) == self.walk(mem1, vpn) by {
            self.lemma_walk_nodes(mem1, vpn);
            let e2 = pte_at(mem1, root, vpn_index2(vpn));
            if e2.spec_is_valid() {
                assert(self.owned().contains(e2.spec_ppn()));
                let e1 = pte_at(mem1, e2.spec_ppn(), vpn_index1(vpn));
                if e1.spec_is_valid() {
                    assert(self.owned().contains(e1.spec_ppn()));
                }
            }
        }
        assert forall|vpn: u64| #[trigger]
            self.missing_nodes(mem2, vpn) == self.missing_nodes(mem1, vpn) by {
            self.lemma_walk_nodes(mem1, vpn);
            let e2 = pte_at(mem1, root, vpn_index2(vpn));
            if e2.spec_is_valid() {
                assert(self.owned().contains(e2.spec_ppn()));
            }
        }
        assert(self.mappings(mem2) =~= self.mappings(mem1));
    }

    /// The nodes that a walk passes are owned, are part of the memory, and
    /// are labelled with the indices that led to them.
    #[verifier::rlimit(50)]
    proof fn lemma_walk_nodes(&self, mem: &PhysMemory, vpn: u64)
        requires
            self.wf(mem),
        ensures
            mem.contains(self.root_ppn.0),
            self.labels@.contains_key(self.root_ppn.0),
            ({
                let e2 = pte_at(mem, self.root_ppn.0, vpn_index2(vpn));
                e2.spec_is_valid() ==> {
                    &&& self.labels@.contains_key(e2.spec_ppn())
                    &&& mem.contains(e2.spec_ppn())
                    &&& e2.spec_ppn() != self.root_ppn.0
                    &&& self.labels@[e2.spec_ppn()] == (NodeLabel {
                        level: 1,
                        i2: vpn_index2(vpn),
                        i1: 0,
                    })
                    &&& ({
                        let e1 = pte_at(mem, e2.spec_ppn(), vpn_index1(vpn));
                        e1.spec_is_valid() ==> {
                            &&& self.labels@.contains_key(e1.spec_ppn())
                            &&& mem.contains(e1.spec_ppn())
                            &&& e1.spec_ppn() != self.root_ppn.0
                            &&& e1.spec_ppn() != e2.spec_ppn()
                            &&& self.labels@[e1.spec_ppn()] == (NodeLabel {
                                level: 0,
                                i2: vpn_index2(vpn),
                                i1: vpn_index1(vpn),
                            })
                        }
                    })
                }
            }),
    {
        let root = self.root_ppn.0;
        mem.lemma_wf();
        assert(mem.is_allocated(root));
        assert(self.placed(mem, root));
        assert(self.entry_ok(mem, root, vpn_index2(vpn)));
        let e2 = pte_at(mem, root, vpn_index2(vpn));
        if e2.spec_is_valid() {
            assert(mem.is_allocated(e2.spec_ppn()));
            assert(self.entry_ok(mem, e2.spec_ppn(), vpn_index1(vpn)));
            let e1 = pte_at(mem, e2.spec_ppn(), vpn_index1(vpn));
            if e1.spec_is_valid() {
                assert(mem.is_allocated(e1.spec_ppn()));
            }
        }
    }

    /// Linking a fresh, zeroed node under an entry that was not valid keeps
    /// the table consistent and changes no walk.
    #[verifier::rlimit(50)]
    proof fn lemma_link_child(
        pt0: &PageTable,
        pt1: &PageTable,
        mem_a: &PhysMemory,
        mem_b: &PhysMemory,
        parent: u64,
        idx: usize,
        tracker: FrameTracker,
    )
        requires
            pt0.wf(mem_a),
            pt0.labels@.contains_key(parent),
            pt0.labels@[parent].level > 0,
            idx < PTE_COUNT,
            !pte_at(mem_a, parent, idx).spec_is_valid(),
            !pt0.labels@.contains_key(tracker.ppn().0),
            mem_a.is_allocated(tracker.ppn().0),
            mem_a.frame(tracker.ppn().0) == zero_frame(),
            mem_b.wf(),
            mem_b.state() == mem_a.state(),
            mem_b.frame(parent) == mem_a.frame(parent).update(
                idx as int,
                PageTableEntry::spec_new(tracker.ppn().0, PTEFlags { bits: PTE_V }).bits,
            ),
            forall|q: u64|
                mem_a.contains(q) && q != parent ==> #[trigger] mem_b.frame(q) == mem_a.frame(q),
            pt1.root_ppn == pt0.root_ppn,
            pt1.frames@ == pt0.frames@.push(tracker),
            pt1.labels@ == pt0.labels@.insert(tracker.ppn().0, pt0.child_label(parent, idx)),
        ensures
            pt1.wf(mem_b),
            forall|vpn: u64| #[trigger] pt1.walk(mem_b, vpn) == pt0.walk(mem_a, vpn),
    {
        let root = pt0.root_ppn.0;
        let child = tracker.ppn().0;
        let entry = PageTableEntry::spec_new(child, PTEFlags { bits: PTE_V });
        mem_a.lemma_wf();
        mem_b.lemma_wf();
        assert(mem_a.contains(child));
        assert(child < PPN_LIMIT);
        lemma_entry_round_trip(child, PTEFlags { bits: PTE_V });
        assert(entry.spec_is_valid());
        assert(entry.spec_is_dir());
        assert(entry.spec_ppn() == child);
        assert(pte_at(mem_b, parent, idx) == entry);
        assert(pt0.placed(mem_a, parent));
        assert(mem_a.is_allocated(parent));
        assert(child != parent);
        assert(child != root);
        assert forall|i: usize| i < PTE_COUNT implies !(#[trigger] pte_at(
            mem_b,
            child,
            i,
        )).spec_is_valid() by {
            assert(mem_b.frame(child) == zero_frame());
        }
        // entries other than the written one keep their value
        assert forall|q: u64, i: usize|
            pt0.labels@.contains_key(q) && i < PTE_COUNT && !(q == parent && i == idx) implies 
            #[trigger] pte_at(mem_b, q, i) == pte_at(mem_a, q, i) by {
            assert(mem_a.is_allocated(q));
        }
        assert forall|p: u64| #[trigger] pt1.labels@.contains_key(p) implies {
            &&& mem_b.is_allocated(p)
            &&& pt1.placed(mem_b, p)
            &&& exists|i: int| 0 <= i < pt1.frames@.len() && pt1.frames@[i].ppn().0 == p
        } by {
            if p == child {
                let n = pt0.frames@.len() as int;
                assert(pt1.frames@[n].ppn().0 == child);
                let lp = pt0.labels@[parent];
                if lp.level == 2 {
                    assert(parent == root);
                } else {
                    assert(lp.level == 1);
                    assert(parent != root);
                    assert(pte_at(mem_b, root, lp.i2) == pte_at(mem_a, root, lp.i2));
                }
            } else {
                assert(pt0.labels@.contains_key(p));
                assert(pt0.placed(mem_a, p));
                let i = choose|i: int| 0 <= i < pt0.frames@.len() && pt0.frames@[i].ppn().0 == p;
                assert(pt1.frames@[i].ppn().0 == p);
                let l = pt0.labels@[p];
                if l.level != 2 {
                    assert(pt0.entry_ok(mem_a, root, l.i2));
                    assert(pte_at(mem_b, root, l.i2) == pte_at(mem_a, root, l.i2));
                    let p1 = pte_at(mem_a, root, l.i2).spec_ppn();
                    if l.level == 0 {
                        assert(pte_at(mem_b, p1, l.i1) == pte_at(mem_a, p1, l.i1));
                    }
                }
            }
        }
        assert forall|p: u64, i: usize|
            pt1.labels@.contains_key(p) && i < PTE_COUNT implies #[trigger] pt1.entry_ok(
            mem_b,
            p,
            i,
        ) by {
            if p == child {
                assert(!pte_at(mem_b, child, i).spec_is_valid());
            } else if p == parent && i == idx {
            } else {
                assert(pt0.entry_ok(mem_a, p, i));
                assert(pte_at(mem_b, p, i) == pte_at(mem_a, p, i));
            }
        }
        assert forall|i: int, j: int| 0 <= i < j < pt1.frames@.len() implies (
        #[trigger] pt1.frames@[i]).ppn() != (#[trigger] pt1.frames@[j]).ppn() by {
            if j == pt0.frames@.len() {
                assert(pt0.labels@.contains_key(pt0.frames@[i].ppn().0));
            } else {
                assert(pt0.frames@[i].ppn() != pt0.frames@[j].ppn());
            }
        }
        assert forall|i: int| 0 <= i < pt1.frames@.len() implies pt1.labels@.contains_key(
            (#[trigger] pt1.frames@[i]).ppn().0,
        ) by {
            if i < pt0.frames@.len() {
                assert(pt0.labels@.contains_key(pt0.frames@[i].ppn().0));
            }
        }
        assert(pt1.frames@[0] == pt0.frames@[0]);
        assert(pt1.wf(mem_b));
        assert forall|vpn: u64| #[trigger] pt1.walk(mem_b, vpn) == pt0.walk(mem_a, vpn) by {
            pt0.lemma_walk_nodes(mem_a, vpn);
            let i2 = vpn_index2(vpn);
            let i1 = vpn_index1(vpn);
            let i0 = vpn_index0(vpn);
            if parent == root && idx == i2 {
                assert(!pte_at(mem_b, child, i1).spec_is_valid());
            } else {
                assert(pte_at(mem_b, root, i2) == pte_at(mem_a, root, i2));
                let e2 = pte_at(mem_a, root, i2);
                if e2.spec_is_valid() {
                    let p1 = e2.spec_ppn();
                    if parent == p1 && idx == i1 {
                        assert(!pte_at(mem_b, child, i0).spec_is_valid());
                    } else {
                        assert(pte_at(mem_b, p1, i1) == pte_at(mem_a, p1, i1));
                        let e1 = pte_at(mem_a, p1, i1);
                        if e1.spec_is_valid() {
                            let p0 = e1.spec_ppn();
                            assert(p0 != parent);
                            assert(pte_at(mem_b, p0, i0) == pte_at(mem_a, p0, i0));
                        }
                    }
                }
            }
        }
    }

    /// Writing the entry of one page in its last-level node keeps the table
    /// consistent, sets the walk of that page and changes no other walk.
    #[verifier::rlimit(50)]
    proof fn lemma_write_leaf(
        &self,
        mem_a: &PhysMemory,
        mem_b: &PhysMemory,
        node: u64,
        vpn: u64,
        e: PageTableEntry,
    )
        requires
            self.wf(mem_a),
            vpn < VPN_LIMIT,
            self.labels@.contains_key(node),
            self.labels@[node] == (NodeLabel {
                level: 0,
                i2: vpn_index2(vpn),
                i1: vpn_index1(vpn),
            }),
            e.spec_is_valid() ==> e.spec_flags().spec_is_leaf(),
            mem_b.wf(),
            mem_b.state() == mem_a.state(),
            mem_b.frame(node) == mem_a.frame(node).update(vpn_index0(vpn) as int, e.bits),
            forall|q: u64|
                mem_a.contains(q) && q != node ==> #[trigger] mem_b.frame(q) == mem_a.frame(q),
        ensures
            self.wf(mem_b),
            self.walk(mem_b, vpn) == if e.spec_is_valid() {
                Some(e)
            } else {
                None::<PageTableEntry>
            },
            forall|v: u64|
                v < VPN_LIMIT && v != vpn ==> #[trigger] self.walk(mem_b, v) == self.walk(
                    mem_a,
                    v,
                ),
            forall|v: u64| #[trigger]
                self.missing_nodes(mem_b, v) == self.missing_nodes(mem_a, v),
    {
        let root = self.root_ppn.0;
        let idx = vpn_index0(vpn);
        mem_a.lemma_wf();
        mem_b.lemma_wf();
        assert(self.placed(mem_a, node));
        assert(mem_a.is_allocated(node));
        assert(pte_at(mem_b, node, idx) == e);
        assert forall|q: u64, i: usize|
            self.labels@.contains_key(q) && i < PTE_COUNT && !(q == node && i == idx) implies 
            #[trigger] pte_at(mem_b, q, i) == pte_at(mem_a, q, i) by {
            assert(mem_a.is_allocated(q));
        }
        assert forall|p: u64| #[trigger] self.labels@.contains_key(p) implies {
            &&& mem_b.is_allocated(p)
            &&& self.placed(mem_b, p)
        } by {
            assert(self.placed(mem_a, p));
            let l = self.labels@[p];
            if l.level != 2 {
                assert(self.entry_ok(mem_a, root, l.i2));
                assert(root != node);
                assert(pte_at(mem_b, root, l.i2) == pte_at(mem_a, root, l.i2));
                let p1 = pte_at(mem_a, root, l.i2).spec_ppn();
                if l.level == 0 {
                    assert(p1 != node);
                    assert(pte_at(mem_b, p1, l.i1) == pte_at(mem_a, p1, l.i1));
                }
            }
        }
        assert forall|p: u64, i: usize|
            self.labels@.contains_key(p) && i < PTE_COUNT implies #[trigger] self.entry_ok(
            mem_b,
            p,
            i,
        ) by {
            if p == node && i == idx {
            } else {
                assert(self.entry_ok(mem_a, p, i));
                assert(pte_at(mem_b, p, i) == pte_at(mem_a, p, i));
            }
        }
        assert(self.wf(mem_b));
        assert forall|v: u64| #[trigger] self.walk(mem_b, v) == (if vpn_index2(v) == vpn_index2(
            vpn,
        ) && vpn_index1(v) == vpn_index1(vpn) && vpn_index0(v) == vpn_index0(vpn) {
            if e.spec_is_valid() {
                Some(e)
            } else {
                None::<PageTableEntry>
            }
        } else {
            self.walk(mem_a, v)
        }) by {
            self.lemma_walk_nodes(mem_a, v);
            let i2 = vpn_index2(v);
            let i1 = vpn_index1(v);
            let i0 = vpn_index0(v);
            assert(pte_at(mem_b, root, i2) == pte_at(mem_a, root, i2));
            let e2 = pte_at(mem_a, root, i2);
            if e2.spec_is_valid() {
                let p1 = e2.spec_ppn();
                assert(pte_at(mem_b, p1, i1) == pte_at(mem_a, p1, i1));
                let e1 = pte_at(mem_a, p1, i1);
                if e1.spec_is_valid() {
                    let p0 = e1.spec_ppn();
                    if p0 == node && i0 == idx {
                    } else {
                        assert(pte_at(mem_b, p0, i0) == pte_at(mem_a, p0, i0));
                    }
                }
            }
        }
        assert forall|v: u64| #[trigger]
            self.missing_nodes(mem_b, v) == self.missing_nodes(mem_a, v) by {
            self.lemma_walk_nodes(mem_a, v);
            assert(pte_at(mem_b, root, vpn_index2(v)) == pte_at(mem_a, root, vpn_index2(v)));
            let e2 = pte_at(mem_a, root, vpn_index2(v));
            if e2.spec_is_valid() {
                assert(pte_at(mem_b, e2.spec_ppn(), vpn_index1(v)) == pte_at(
                    mem_a,
                    e2.spec_ppn(),
                    vpn_index1(v),
                ));
            }
        }
        assert forall|v: u64| v < VPN_LIMIT && v != vpn implies #[trigger] self.walk(mem_b, v)
            == self.walk(mem_a, v) by {
            if vpn_index2(v) == vpn_index2(vpn) && vpn_index1(v) == vpn_index1(vpn) && vpn_index0(
                v,
            ) == vpn_index0(vpn) {
                lemma_indexes_determine_vpn(v, vpn);
            }
        }
    }

    /// A table with a fresh, empty root node, or nothing when no frame is
    /// free. The root is the frame that the allocator hands out next.
    pub fn new(mem: &mut PhysMemory) -> (r: Option<PageTable>)
        requires
            old(mem).wf(),
        ensures
            final(mem).wf(),
            match r {
                Some(pt) => {
                    &&& old(mem).state().next_frame() == Some(pt.root())
                    &&& final(mem).state() == old(mem).state().after_alloc()
                    &&& pt.wf(final(mem))
                    &&& pt.owned() == set![pt.root()]
                    &&& pt.node_frames() == seq![pt.root()]
                    &&& final(mem).frame(pt.root()) == zero_frame()
                                        &&& pt.mappings(final(mem))
                                            == Map::<u64, PageTableEntry>::empty()
                    &&& forall|u: u64| #[trigger] pt.walk(final(mem), u) is None
                    &&& forall|q: u64| #[trigger]
                        final(mem).is_allocated(q) <==> (old(mem).is_allocated(q) || q
                            == pt.root())
                    &&& forall|q: u64|
                        old(mem).contains(q) && q != pt.root() ==> #[trigger] final(mem).frame(q)
                            == old(mem).frame(q)
                },
                None => old(mem).state().next_frame() is None && *final(mem) == *old(mem),
            },
    {
        proof {
            mem.lemma_wf();
            mem.state().lemma_alloc();
        }
        if !mem.has_free_frames(1) {
            return None;
        }
        match mem.frame_alloc() {
            None => None,
            Some(frame) => {
                let root = frame.ppn();
                let mut frames: Vec<FrameTracker> = Vec::new();
                frames.push(frame);
                let pt = PageTable {
                    root_ppn: root,
                    frames,
                    labels: Ghost(
                        Map::<u64, NodeLabel>::empty().insert(
                            root.0,
                            NodeLabel { level: 2, i2: 0, i1: 0 },
                        ),
                    ),
                };
                proof {
                    mem.lemma_wf();
                    assert forall|i: usize| i < PTE_COUNT implies !(#[trigger] pte_at(
                        mem,
                        root.0,
                        i,
                    )).spec_is_valid() by {
                        assert(mem.frame(root.0) == zero_frame());
                    }
                    assert forall|p: u64, idx: usize|
                        pt.labels@.contains_key(p)
                            && idx < PTE_COUNT implies #[trigger] pt.entry_ok(
                        mem,
                        p,
                        idx,
                    ) by {
                        assert(!pte_at(mem, root.0, idx).spec_is_valid());
                    }
                    assert forall|p: u64| #[trigger] pt.labels@.contains_key(p) implies {
                        &&& mem.is_allocated(p)
                        &&& pt.placed(mem, p)
                        &&& exists|i: int| 0 <= i < pt.frames@.len() && pt.frames@[i].ppn().0 == p
                    } by {
                        assert(pt.frames@[0].ppn().0 == p);
                    }
                    assert(pt.wf(mem));
                    assert(pt.owned() =~= set![pt.root()]);
                    assert(pt.node_frames() =~= seq![pt.root()]);
                    assert forall|vpn: u64| pt.walk(mem, vpn) is None by {
                        assert(!pte_at(mem, root.0, vpn_index2(vpn)).spec_is_valid());
                    }
                    assert(pt.mappings(mem) =~= Map::<u64, PageTableEntry>::empty());
                }
                Some(pt)
            },
        }
    }

    /// The node under an entry of a node above the last level. Where the
    /// entry is not valid, a fresh node is linked under it first.
    #[verifier::rlimit(50)]
    fn ensure_child(&mut self, mem: &mut PhysMemory, parent: PhysPageNum, idx: usize) -> (child:
        PhysPageNum)
        requires
            old(self).wf(old(mem)),
            old(self).labels@.contains_key(parent.0),
            old(self).labels@[parent.0].level > 0,
            idx < PTE_COUNT,
            !pte_at(old(mem), parent.0, idx).spec_is_valid() ==> old(mem).state().free_count() > 0,
        ensures
            final(self).wf(final(mem)),
            final(mem).wf(),
            final(self).root_ppn == old(self).root_ppn,
            final(mem).state().start == old(mem).state().start,
            final(mem).state().end == old(mem).state().end,
            pte_at(final(mem), parent.0, idx).spec_is_valid(),
            pte_at(final(mem), parent.0, idx).spec_ppn() == child.0,
            final(self).labels@.contains_key(child.0),
            final(self).labels@[child.0] == old(self).child_label(parent.0, idx),
            forall|vpn: u64| #[trigger]
                final(self).walk(final(mem), vpn) == old(self).walk(old(mem), vpn),
            forall|p: u64| #[trigger]
                old(self).labels@.contains_key(p)
                    ==> final(self).labels@.contains_key(p)
                        && final(self).labels@[p] == old(self).labels@[p],
            forall|p: u64|
                #[trigger] final(self).labels@.contains_key(p) && !old(self).labels@.contains_key(p)
                    ==> !old(mem).is_allocated(p),
            forall|q: u64| #[trigger]
                final(mem).is_allocated(q)
                    <==> (old(mem).is_allocated(q) || final(self).labels@.contains_key(q)),
            forall|q: u64|
                old(mem).contains(q) && !final(self).labels@.contains_key(q)
                    ==> #[trigger] final(mem).frame(q) == old(mem).frame(q),
            forall|q: u64|
                old(self).labels@.contains_key(q) && q != parent.0 ==> #[trigger] final(mem).frame(
                    q,
                ) == old(mem).frame(q),
            forall|i: usize|
                i < PTE_COUNT && i != idx ==> #[trigger] pte_at(final(mem), parent.0, i) == pte_at(
                    old(mem),
                    parent.0,
                    i,
                ),
            pte_at(old(mem), parent.0, idx).spec_is_valid()
                ==> *final(mem) == *old(mem) && *final(self) == *old(self),
            !pte_at(old(mem), parent.0, idx).spec_is_valid() ==> {
                &&& final(mem).state().free_count() == old(mem).state().free_count() - 1
                &&& final(mem).state() == old(mem).state().after_alloc()
                &&& old(mem).state().next_frame() == Some(child.0)
                &&& final(self).node_frames() == old(self).node_frames().push(child.0)
                &&& final(mem).frame(child.0) == zero_frame()
                &&& !old(self).labels@.contains_key(child.0)
            },
    {
        proof {
            mem.lemma_wf();
            mem.state().lemma_alloc();
            assert(mem.is_allocated(parent.0));
            assert(self.entry_ok(mem, parent.0, idx));
        }
        let e = PageTableEntry { bits: mem.read(parent, idx) };
        if e.is_valid() {
            return e.ppn();
        }
        let ghost mem0 = *mem;
        let ghost pt0 = *self;
        match mem.frame_alloc() {
            None => {
                proof {
                    assert(false);
                }
                parent
            },
            Some(frame) => {
                let child = frame.ppn();
                proof {
                    mem.lemma_wf();
                    assert forall|p: u64| #[trigger] pt0.owned().contains(p) implies mem.is_allocated(
                        p,
                    ) && mem.frame(p) == mem0.frame(p) by {
                        assert(pt0.labels@.contains_key(p));
                        assert(mem0.is_allocated(p));
                    }
                    pt0.lemma_unchanged(&mem0, mem);
                }
                let ghost mem_a = *mem;
                let entry = PageTableEntry::new(child, PTEFlags { bits: PTE_V });
                mem.write(parent, idx, entry.bits);
                let ghost tracker = frame;
                self.frames.push(frame);
                self.labels = Ghost(pt0.labels@.insert(child.0, pt0.child_label(parent.0, idx)));
                proof {
                    assert(pte_at(&mem_a, parent.0, idx) == pte_at(&mem0, parent.0, idx));
                    PageTable::lemma_link_child(
                        &pt0,
                        self,
                        &mem_a,
                        mem,
                        parent.0,
                        idx,
                        tracker,
                    );
                    assert(child.0 < PPN_LIMIT);
                    assert(mem.frame(child.0) == mem_a.frame(child.0));
                    assert(self.node_frames() =~= pt0.node_frames().push(child.0));
                }
                child
            },
        }
    }

    /// Maps a page to a frame with the given flags and Valid. The walk
    /// gets the nodes that it lacks, each in a fresh frame. A page that is
    /// mapped already, flags without Read, Write and Execute, or a walk that
    /// lacks more nodes than frames are free are refused, and then nothing
    /// changes.
    #[verifier::rlimit(50)]
    pub fn map(
        &mut self,
        mem: &mut PhysMemory,
        vpn: VirtPageNum,
        ppn: PhysPageNum,
        flags: PTEFlags,
    ) -> (r: Result<(), MapError>)
        requires
            old(self).wf(old(mem)),
            vpn.wf(),
            ppn.wf(),
        ensures
            final(self).wf(final(mem)),
            final(mem).wf(),
            final(self).root() == old(self).root(),
            final(mem).state().start == old(mem).state().start,
            final(mem).state().end == old(mem).state().end,
            r is Err ==> *final(self) == *old(self) && *final(mem) == *old(mem),
            r == old(self).map_outcome(old(mem), vpn.0, flags),
            match r {
                Ok(()) => {
                    &&& flags.spec_is_leaf()
                    &&& old(self).walk(old(mem), vpn.0) is None
                    &&& old(mem).state().free_count() >= old(self).missing_nodes(old(mem), vpn.0)
                    &&& final(self).mappings(final(mem)) == old(self).mappings(old(mem)).insert(
                        vpn.0,
                        PageTableEntry::spec_new(ppn.0, flags.spec_with_valid()),
                    )
                    &&& final(mem).state().free_count() == old(mem).state().free_count()
                        - old(self).missing_nodes(old(mem), vpn.0)
                    &&& final(mem).state() == old(mem).state().after_allocs(
                        old(self).missing_nodes(old(mem), vpn.0),
                    )
                    &&& final(self).node_frames() == old(self).node_frames()
                        + old(mem).state().taken(0, old(self).missing_nodes(old(mem), vpn.0))
                    &&& final(self).walk(final(mem), vpn.0) == Some(
                        PageTableEntry::spec_new(ppn.0, flags.spec_with_valid()),
                    )
                    &&& forall|v: u64|
                        v < VPN_LIMIT && v != vpn.0 ==> #[trigger] final(self).walk(final(mem), v)
                            == old(self).walk(old(mem), v)
                    &&& forall|v: u64| #[trigger]
                        final(self).missing_nodes(final(mem), v) == spec_missing_after_map(
                            old(self).missing_nodes(old(mem), v),
                            v,
                            vpn.0,
                        )
                },
                Err(MapError::InvalidPermission) => !flags.spec_is_leaf(),
                Err(MapError::AlreadyMapped) => {
                    &&& flags.spec_is_leaf()
                    &&& old(self).walk(old(mem), vpn.0) is Some
                },
                Err(MapError::OutOfFrames) => {
                    &&& flags.spec_is_leaf()
                    &&& old(self).walk(old(mem), vpn.0) is None
                    &&& old(mem).state().free_count() < old(self).missing_nodes(old(mem), vpn.0)
                },
            },
            forall|q: u64| #[trigger]
                old(self).owned().contains(q) ==> final(self).owned().contains(q),
            forall|q: u64|
                #[trigger] final(self).owned().contains(q) && !old(self).owned().contains(q)
                    ==> !old(mem).is_allocated(q),
            forall|q: u64| #[trigger]
                final(mem).is_allocated(q)
                    <==> (old(mem).is_allocated(q) || final(self).owned().contains(q)),
            forall|q: u64|
                old(mem).contains(q) && !final(self).owned().contains(q)
                    ==> #[trigger] final(mem).frame(q) == old(mem).frame(q),
    {
        proof {
            mem.lemma_wf();
            self.lemma_walk_nodes(mem, vpn.0);
        }
        if !flags.is_leaf() {
            return Err(MapError::InvalidPermission);
        }
        let idx = vpn.indexes();
        let root = self.root_ppn;
        let e2 = PageTableEntry { bits: mem.read(root, idx[0]) };
        let missing: usize = if !e2.is_valid() {
            2
        } else {
            let e1 = PageTableEntry { bits: mem.read(e2.ppn(), idx[1]) };
            if !e1.is_valid() {
                1
            } else {
                let e0 = PageTableEntry { bits: mem.read(e1.ppn(), idx[2]) };
                if e0.is_valid() {
                    return Err(MapError::AlreadyMapped);
                }
                0
            }
        };
        if !mem.has_free_frames(missing) {
            return Err(MapError::OutOfFrames);
        }
        let ghost mem0 = *mem;
        let ghost pt0 = *self;
        let l1 = self.ensure_child(mem, root, idx[0]);
        let ghost mem1 = *mem;
        let ghost pt1 = *self;
        proof {
            pt1.lemma_walk_nodes(&mem1, vpn.0);
            if !e2.spec_is_valid() {
                assert(!pte_at(&mem1, l1.0, idx[1]).spec_is_valid()) by {
                    assert(mem1.frame(l1.0) == zero_frame());
                }
            }
        }
        let l0 = self.ensure_child(mem, l1, idx[1]);
        let ghost mem2 = *mem;
        let ghost pt2 = *self;
        let leaf = PageTableEntry::new(ppn, flags.with_valid());
        proof {
            pt2.lemma_walk_nodes(&mem2, vpn.0);
            mem2.lemma_wf();
            assert(mem2.is_allocated(l0.0));
            lemma_entry_round_trip(ppn.0, flags.spec_with_valid());
            lemma_entry_round_trip(ppn.0, flags);
            assert(leaf.spec_flags().spec_is_leaf());
        }
        mem.write(l0, idx[2], leaf.bits);
        proof {
            pt2.lemma_write_leaf(&mem2, mem, l0.0, vpn.0, leaf);
            assert(leaf.spec_is_valid());
            assert forall|v: u64| v < VPN_LIMIT implies #[trigger] spec_walk(mem, root.0, v)
                == (if v
                == vpn.0 {
                Some(leaf)
            } else {
                spec_walk(&mem0, root.0, v)
            }) by {
                assert(pt2.walk(&mem2, v) == pt1.walk(&mem1, v));
                assert(pt1.walk(&mem1, v) == pt0.walk(&mem0, v));
                if v != vpn.0 {
                    assert(pt2.walk(mem, v) == pt2.walk(&mem2, v));
                }
            }
            assert(self.mappings(mem) =~= pt0.mappings(&mem0).insert(vpn.0, leaf));
            assert(mem.state() == mem2.state());
            let st = mem0.state();
            assert(st.after_allocs(0) == st);
            assert(st.after_allocs(1) == st.after_alloc());
            assert(st.after_allocs(2) == st.after_alloc().after_alloc());
            assert(self.node_frames() =~= pt0.node_frames() + st.taken(
                0,
                pt0.missing_nodes(&mem0, vpn.0),
            ));
            assert forall|v: u64| #[trigger]
                spec_missing_nodes(mem, root.0, v) == spec_missing_after_map(
                    spec_missing_nodes(&mem0, root.0, v),
                    v,
                    vpn.0,
                ) by {
                pt0.lemma_walk_nodes(&mem0, v);
                pt1.lemma_walk_nodes(&mem1, v);
                pt2.lemma_walk_nodes(&mem2, v);
                let i2 = vpn_index2(v);
                let i1 = vpn_index1(v);
                assert(mem.frame(root.0) == mem2.frame(root.0));
                assert(mem.frame(l1.0) == mem2.frame(l1.0));
                if i2 != idx[0] {
                    assert(pte_at(&mem1, root.0, i2) == pte_at(&mem0, root.0, i2));
                    assert(mem2.frame(root.0) == mem1.frame(root.0));
                    let e = pte_at(&mem0, root.0, i2);
                    if e.spec_is_valid() {
                        let n1 = e.spec_ppn();
                        assert(n1 != l1.0);
                        assert(n1 != l0.0);
                        assert(mem1.frame(n1) == mem0.frame(n1));
                        assert(mem2.frame(n1) == mem1.frame(n1));
                        assert(mem.frame(n1) == mem2.frame(n1));
                    }
                } else {
                    assert(mem2.frame(root.0) == mem1.frame(root.0));
                    if i1 != idx[1] {
                        assert(pte_at(&mem2, l1.0, i1) == pte_at(&mem1, l1.0, i1));
                        if e2.spec_is_valid() {
                        } else {
                            assert(mem1.frame(l1.0) == zero_frame());
                            assert(!pte_at(&mem1, l1.0, i1).spec_is_valid());
                        }
                    }
                }
            }
            assert forall|q: u64| #[trigger]
                mem.is_allocated(q) <==> (mem0.is_allocated(q) || self.owned().contains(q)) by {
                assert(mem2.is_allocated(q) <==> (mem1.is_allocated(q) || pt2.labels@.contains_key(
                    q,
                )));
                assert(mem1.is_allocated(q) <==> (mem0.is_allocated(q) || pt1.labels@.contains_key(
                    q,
                )));
                if pt1.labels@.contains_key(q) {
                    assert(pt2.labels@.contains_key(q));
                }
                if pt2.labels@.contains_key(q) {
                    assert(mem2.is_allocated(q));
                }
            }
            assert forall|q: u64|
                mem0.contains(q) && !self.owned().contains(q) implies #[trigger] mem.frame(q)
                == mem0.frame(q) by {
                assert(!pt2.labels@.contains_key(q));
                assert(!pt1.labels@.contains_key(q));
                assert(mem2.frame(q) == mem1.frame(q));
                assert(mem1.frame(q) == mem0.frame(q));
            }
        }
        Ok(())
    }

    /// Clears the entry of a mapped page. The nodes of the walk stay. A
    /// page that is not mapped is refused, and then nothing changes.
    #[verifier::rlimit(50)]
    pub fn unmap(&mut self, mem: &mut PhysMemory, vpn: VirtPageNum) -> (r: Result<(), UnmapError>)
        requires
            old(self).wf(old(mem)),
            vpn.wf(),
        ensures
            final(self).wf(final(mem)),
            final(mem).wf(),
            *final(self) == *old(self),
            final(mem).state() == old(mem).state(),
            r == old(self).unmap_outcome(old(mem), vpn.0),
            match r {
                Ok(()) => {
                    &&& old(self).walk(old(mem), vpn.0) is Some
                    &&& final(self).mappings(final(mem)) == old(self).mappings(old(mem)).remove(
                        vpn.0,
                    )
                    &&& final(self).walk(final(mem), vpn.0) is None
                    &&& forall|v: u64|
                        v < VPN_LIMIT && v != vpn.0 ==> #[trigger] final(self).walk(final(mem), v)
                            == old(self).walk(old(mem), v)
                    &&& forall|v: u64| #[trigger]
                        final(self).missing_nodes(final(mem), v) == old(self).missing_nodes(
                            old(mem),
                            v,
                        )
                },
                Err(UnmapError::NotMapped) => {
                    &&& old(self).walk(old(mem), vpn.0) is None
                    &&& *final(mem) == *old(mem)
                },
            },
            forall|q: u64|
                old(mem).contains(q) && !old(self).owned().contains(q)
                    ==> #[trigger] final(mem).frame(q) == old(mem).frame(q),
    {
        proof {
            mem.lemma_wf();
            self.lemma_walk_nodes(mem, vpn.0);
        }
        let idx = vpn.indexes();
        let root = self.root_ppn;
        let e2 = PageTableEntry { bits: mem.read(root, idx[0]) };
        if !e2.is_valid() {
            return Err(UnmapError::NotMapped);
        }
        let e1 = PageTableEntry { bits: mem.read(e2.ppn(), idx[1]) };
        if !e1.is_valid() {
            return Err(UnmapError::NotMapped);
        }
        let l0 = e1.ppn();
        let e0 = PageTableEntry { bits: mem.read(l0, idx[2]) };
        if !e0.is_valid() {
            return Err(UnmapError::NotMapped);
        }
        let ghost mem0 = *mem;
        let cleared = PageTableEntry::empty();
        mem.write(l0, idx[2], cleared.bits);
        proof {
            self.lemma_write_leaf(&mem0, mem, l0.0, vpn.0, cleared);
            assert(self.mappings(mem) =~= self.mappings(&mem0).remove(vpn.0));
        }
        Ok(())
    }

    /// Gives every frame of the table back to the allocator.
    #[verifier::rlimit(50)]
    pub fn release(self, mem: &mut PhysMemory)
        requires
            self.wf(old(mem)),
        ensures
            final(mem).wf(),
            final(mem).state().start == old(mem).state().start,
            final(mem).state().end == old(mem).state().end,
            forall|q: u64| #[trigger]
                final(mem).is_allocated(q) <==> (old(mem).is_allocated(q) && !self.owned().contains(
                    q,
                )),
            forall|q: u64| #[trigger] final(mem).frame(q) == old(mem).frame(q),
            final(mem).state() == old(mem).state().after_deallocs(self.node_frames().reverse()),
    {
        let ghost mem0 = *mem;
        let ghost pt = self;
        let mut frames = self.frames;
        let ghost all = frames@;
        proof {
            assert(frames@ =~= all.subrange(0, frames@.len() as int));
            assert(pt.node_frames().reverse().subrange(0, 0) =~= Seq::<u64>::empty());
            mem0.state().lemma_after_deallocs(Seq::<u64>::empty(), Seq::<u64>::empty(), 0);
        }
        while frames.len() > 0
            invariant
                mem.wf(),
                pt.wf(&mem0),
                all == pt.frames@,
                frames@.len() <= all.len(),
                frames@ == all.subrange(0, frames@.len() as int),
                mem.state().start == mem0.state().start,
                mem.state().end == mem0.state().end,
                forall|q: u64| #[trigger]
                    mem.is_allocated(q) <==> (mem0.is_allocated(q) && !frames_hold(
                        all,
                        frames@.len() as int,
                        q,
                    )),
                forall|q: u64| #[trigger] mem.frame(q) == mem0.frame(q),
                mem.state() == mem0.state().after_deallocs(
                    pt.node_frames().reverse().subrange(0, all.len() - frames@.len()),
                ),
            decreases frames.len(),
        {
            let ghost n = frames@.len() as int;
            let ghost st = mem.state();
            let f = frames.pop().unwrap();
            proof {
                assert(f == all[n - 1]);
                assert(pt.labels@.contains_key(all[n - 1].ppn().0));
                assert(mem0.is_allocated(f.ppn().0));
                if frames_hold(all, n, f.ppn().0) {
                    let j = choose|j: int| n <= j < all.len() && all[j].ppn().0 == f.ppn().0;
                    assert(all[n - 1].ppn() != all[j].ppn());
                }
                assert(frames@ =~= all.subrange(0, n - 1));
            }
            mem.frame_dealloc(f);
            proof {
                assert forall|q: u64| #[trigger]
                    mem.is_allocated(q) <==> (mem0.is_allocated(q) && !frames_hold(
                        all,
                        n - 1,
                        q,
                    )) by {
                    if frames_hold(all, n - 1, q) {
                        let j = choose|j: int| n - 1 <= j < all.len() && all[j].ppn().0 == q;
                        if j >= n {
                            assert(frames_hold(all, n, q));
                        }
                    }
                    if frames_hold(all, n, q) {
                        let j = choose|j: int| n <= j < all.len() && all[j].ppn().0 == q;
                        assert(frames_hold(all, n - 1, q));
                    }
                    if q == all[n - 1].ppn().0 {
                        assert(frames_hold(all, n - 1, q));
                    }
                }
                let rev = pt.node_frames().reverse();
                let done = all.len() - n;
                assert(rev[done] == all[n - 1].ppn().0);
                assert(rev.subrange(0, done + 1) =~= rev.subrange(0, done) + seq![f.ppn().0]);
                mem0.state().lemma_after_deallocs(rev.subrange(0, done), seq![f.ppn().0], f.ppn().0);
                st.lemma_after_deallocs(Seq::<u64>::empty(), Seq::<u64>::empty(), f.ppn().0);
            }
        }
        proof {
            let rev = pt.node_frames().reverse();
            assert(rev.subrange(0, all.len() as int) =~= rev);
            assert forall|q: u64| #[trigger]
                mem.is_allocated(q) <==> (mem0.is_allocated(q) && !pt.owned().contains(q)) by {
                if frames_hold(all, 0, q) {
                    let j = choose|j: int| 0 <= j < all.len() && all[j].ppn().0 == q;
                    assert(pt.labels@.contains_key(all[j].ppn().0));
                }
                if pt.labels@.contains_key(q) {
                    let i = choose|i: int| 0 <= i < pt.frames@.len() && pt.frames@[i].ppn().0 == q;
                    assert(frames_hold(all, 0, q));
                }
            }
        }
    }

    /// How many nodes the walk for a page number lacks.
    pub fn missing_nodes_at(&self, mem: &PhysMemory, vpn: VirtPageNum) -> (n: usize)
        requires
            self.wf(mem),
        ensures
            n == self.missing_nodes(mem, vpn.0),
            n <= 2,
    {
        proof {
            self.lemma_walk_nodes(mem, vpn.0);
        }
        let idx = vpn.indexes();
        let e2 = PageTableEntry { bits: mem.read(self.root_ppn, idx[0]) };
        if !e2.is_valid() {
            2
        } else {
            let e1 = PageTableEntry { bits: mem.read(e2.ppn(), idx[1]) };
            if !e1.is_valid() {
                1
            } else {
                0
            }
        }
    }

    /// How many frames it takes to map the pages `start..end`, with
    /// `per_page` frames for each page besides the nodes of the table.
    pub fn frames_needed(
        &self,
        mem: &PhysMemory,
        start: VirtPageNum,
        end: VirtPageNum,
        per_page: usize,
    ) -> (n: usize)
        requires
            self.wf(mem),
            end.0 <= VPN_LIMIT,
            per_page <= 1,
        ensures
            n == spec_frames_needed(mem, self.root(), start.0, end.0, per_page as nat),
    {
        let mut n: usize = 0;
        let mut v: u64 = start.0;
        while v < end.0
            invariant
                self.wf(mem),
                end.0 <= VPN_LIMIT,
                per_page <= 1,
                start.0 <= v,
                start.0 < end.0 ==> v <= end.0,
                start.0 >= end.0 ==> v == start.0,
                n <= 3 * (v - start.0),
                n == spec_frames_needed(mem, self.root(), start.0, v, per_page as nat),
            decreases end.0 - v,
        {
            let m: usize = self.missing_nodes_at(mem, VirtPageNum(v));
            let extra: usize = if v > start.0 && (v - 1) / 512 == v / 512 {
                0
            } else if v > start.0 && (v - 1) / 262144 == v / 262144 {
                if m >= 1 {
                    1
                } else {
                    0
                }
            } else {
                m
            };
            n = n + per_page + extra;
            v = v + 1;
        }
        n
    }

    /// The root frame's number: it names the address space from outside.
    pub fn token(&self) -> (t: u64)
        ensures
            t == self.root(),
    {
        self.root_ppn.0
    }

    /// A view of the table whose root frame is `token` (its low 44 bits),
    /// for lookups. It owns no frame.
    pub fn from_token(token: u64) -> (pt: PageTable)
        ensures
            pt.root() == token % PPN_LIMIT,
            pt.owned() == Set::<u64>::empty(),
    {
        PageTable {
            root_ppn: PhysPageNum(token % PPN_LIMIT),
            frames: Vec::new(),
            labels: Ghost(Map::empty()),
        }
    }

    /// The entry that maps a page, or nothing when the page is not mapped.
    pub fn find_pte(&self, mem: &PhysMemory, vpn: VirtPageNum) -> (r: Option<PageTableEntry>)
        requires
            mem.wf(),
        ensures
            r == self.walk(mem, vpn.0),
    {
        let idx = vpn.indexes();
        if !mem.has_frame(self.root_ppn) {
            return None;
        }
        let e2 = PageTableEntry { bits: mem.read(self.root_ppn, idx[0]) };
        if !e2.is_valid() || !mem.has_frame(e2.ppn()) {
            return None;
        }
        let e1 = PageTableEntry { bits: mem.read(e2.ppn(), idx[1]) };
        if !e1.is_valid() || !mem.has_frame(e1.ppn()) {
            return None;
        }
        let e0 = PageTableEntry { bits: mem.read(e1.ppn(), idx[2]) };
        if e0.is_valid() {
            Some(e0)
        } else {
            None
        }
    }

    /// The entry that maps a page, or nothing when the page is not mapped.
    pub fn translate(&self, mem: &PhysMemory, vpn: VirtPageNum) -> (r: Option<PageTableEntry>)
        requires
            mem.wf(),
        ensures
            r == self.walk(mem, vpn.0),
    {
        self.find_pte(mem, vpn)
    }

    /// Whether any page of `start..end` is mapped.
    pub fn interval_valid(&self, mem: &PhysMemory, start: VirtPageNum, end: VirtPageNum) -> (b:
        bool)
        requires
            mem.wf(),
        ensures
            b == exists|vpn: u64| start.0 <= vpn < end.0 && #[trigger] self.walk(mem, vpn) is Some,
    {
        let mut v: u64 = start.0;
        while v < end.0
            invariant
                mem.wf(),
                start.0 <= v,
                forall|vpn: u64| start.0 <= vpn < v ==> #[trigger] self.walk(mem, vpn) is None,
            decreases end.0 - v,
        {
            if self.find_pte(mem, VirtPageNum(v)).is_some() {
                return true;
            }
            v = v + 1;
        }
        false
    }

    /// Whether any page of `start..end` is not mapped.
    pub fn interval_invalid(&self, mem: &PhysMemory, start: VirtPageNum, end: VirtPageNum) -> (b:
        bool)
        requires
            mem.wf(),
        ensures
            b == exists|vpn: u64| start.0 <= vpn < end.0 && #[trigger] self.walk(mem, vpn) is None,
    {
        let mut v: u64 = start.0;
        while v < end.0
            invariant
                mem.wf(),
                start.0 <= v,
                forall|vpn: u64| start.0 <= vpn < v ==> #[trigger] self.walk(mem, vpn) is Some,
            decreases end.0 - v,
        {
            if self.find_pte(mem, VirtPageNum(v)).is_none() {
                return true;
            }
            v = v + 1;
        }
        false
    }

    /// Calls `f` on every page number of `start..end`, lowest first.
    pub fn interval_op<F: Fn(VirtPageNum)>(start: VirtPageNum, end: VirtPageNum, f: F)
        requires
            forall|vpn: u64| start.0 <= vpn < end.0 ==> call_requires(f, (VirtPageNum(vpn),)),
        ensures
            forall|vpn: u64| start.0 <= vpn < end.0 ==> call_ensures(f, (VirtPageNum(vpn),), ()),
    {
        let mut v: u64 = start.0;
        while v < end.0
            invariant
                start.0 <= v,
                forall|vpn: u64| start.0 <= vpn < end.0 ==> call_requires(f, (VirtPageNum(vpn),)),
                forall|vpn: u64| start.0 <= vpn < v ==> call_ensures(f, (VirtPageNum(vpn),), ()),
            decreases end.0 - v,
        {
            f(VirtPageNum(v));
            v = v + 1;
        }
    }
}

} // verus!
