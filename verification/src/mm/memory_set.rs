//! Address spaces: areas of virtual pages and the sets that hold them.

use crate::config::{PPN_LIMIT, VA_LIMIT, VPN_LIMIT};
use crate::mm::address::{PhysPageNum, VirtAddr, VirtPageNum};
use crate::mm::frame_allocator::{zero_frame, FrameTracker, PhysMemory};
use crate::mm::page_table::{
    frames_hold, lemma_frames_needed_monotone, lemma_missing_step, spec_frames_needed,
    spec_nodes_taken,
    spec_missing_after_map, spec_missing_during, spec_new_nodes, MapError, PTEFlags, PageTable,
    PageTableEntry,
};
use vstd::prelude::*;

verus! {

/// Permission bit: the pages may be read.
pub const PERM_R: u8 = 2;

/// Permission bit: the pages may be written.
pub const PERM_W: u8 = 4;

/// Permission bit: the pages may be executed.
pub const PERM_X: u8 = 8;

/// Permission bit: the pages are open to user mode.
pub const PERM_U: u8 = 16;

/// What may be done with the pages of an area: a set of Read, Write,
/// Execute and User, each at the bit that a table entry has for it.
#[derive(Clone, Copy, Debug, PartialEq, Eq, Structural)]
pub struct MapPermission {
    pub bits: u8,
}

impl MapPermission {
    /// Only the four permission bits are set.
    pub open spec fn wf(self) -> bool {
        self.bits % 2 == 0 && self.bits < 32
    }

    /// The entry flags with the same bits.
    pub open spec fn spec_flags(self) -> PTEFlags {
        PTEFlags { bits: self.bits }
    }

    /// At least one of Read, Write, Execute is granted.
    pub open spec fn grants_access(self) -> bool {
        self.spec_flags().spec_is_leaf()
    }

    /// The permission with exactly these bits, where they are permission
    /// bits all.
    pub fn from_bits(bits: u8) -> (r: Option<MapPermission>)
        ensures
            r == if bits % 2 == 0 && bits < 32 {
                Some(MapPermission { bits })
            } else {
                None::<MapPermission>
            },
    {
        if bits % 2 == 0 && bits < 32 {
            Some(MapPermission { bits })
        } else {
            None
        }
    }

    /// The entry flags with the same bits.
    #[verifier::when_used_as_spec(spec_flags)]
    pub fn flags(self) -> (f: PTEFlags)
        ensures
            f == self.spec_flags(),
    {
        PTEFlags { bits: self.bits }
    }
}

/// How the pages of an area get their frames.
#[derive(Clone, Copy, Debug, PartialEq, Eq, Structural)]
pub enum MapType {
    /// Each page is mapped to the frame with its own number.
    Identical,
    /// Each page is mapped to a frame of its own that the area owns.
    Framed,
}

/// A run of virtual pages with one permission and one way of mapping.
pub struct MapArea {
    start: VirtPageNum,
    end: VirtPageNum,
    data_frames: Vec<FrameTracker>,
    map_type: MapType,
    map_perm: MapPermission,
}

impl MapArea {
    /// The first page.
    pub closed spec fn start(&self) -> u64 {
        self.start.0
    }

    /// The page after the last.
    pub closed spec fn end(&self) -> u64 {
        self.end.0
    }

    /// How the pages get their frames.
    pub closed spec fn kind(&self) -> MapType {
        self.map_type
    }

    /// What may be done with the pages.
    pub closed spec fn perm(&self) -> MapPermission {
        self.map_perm
    }

    /// The frames that the area owns: that of the first page first.
    pub closed spec fn frames(&self) -> Seq<u64> {
        self.data_frames@.map_values(|f: FrameTracker| f.ppn().0)
    }

    /// The page belongs to the area.
    pub open spec fn contains(&self, vpn: u64) -> bool {
        self.start() <= vpn < self.end()
    }

    /// The range lies in the 27-bit space and the permission is one.
    pub open spec fn wf(&self) -> bool {
        &&& self.start() <= self.end() <= VPN_LIMIT
        &&& self.perm().wf()
    }

    /// The frame of a page of the area.
    pub open spec fn frame_of(&self, vpn: u64) -> u64 {
        if self.kind() is Framed {
            self.frames()[vpn - self.start()]
        } else {
            vpn
        }
    }

    /// The table entry of a page of the area.
    pub open spec fn entry_of(&self, vpn: u64) -> PageTableEntry {
        PageTableEntry::spec_new(self.frame_of(vpn), self.perm().spec_flags().spec_with_valid())
    }

    /// How many frames a page of the area takes besides table nodes.
    pub open spec fn per_page(&self) -> nat {
        if self.kind() is Framed {
            1
        } else {
            0
        }
    }

    /// How many frames it takes to map the area in a table.
    pub open spec fn frames_needed(&self, pt: &PageTable, mem: &PhysMemory) -> nat {
        spec_frames_needed(mem, pt.root(), self.start(), self.end(), self.per_page())
    }

    /// The area is mapped in the table: every page of it has its entry, a
    /// frame-backed area owns one frame for each page, and these frames are
    /// handed out, distinct and none of the table's own.
    pub open spec fn mapped_in(&self, pt: &PageTable, mem: &PhysMemory) -> bool {
        &&& self.wf()
        &&& self.perm().grants_access()
        &&& self.frames().len() == (if self.kind() is Framed {
            self.end() - self.start()
        } else {
            0
        })
        &&& forall|u: u64| self.contains(u) ==> #[trigger] pt.walk(mem, u) == Some(self.entry_of(u))
        &&& forall|j: int|
            0 <= j < self.frames().len() ==> mem.is_allocated(#[trigger] self.frames()[j])
                && !pt.owned().contains(self.frames()[j])
        &&& self.frames().no_duplicates()
    }

    /// An area over the pages that the addresses `start_va..end_va` touch,
    /// not mapped yet.
    pub fn new(start_va: VirtAddr, end_va: VirtAddr, map_type: MapType, map_perm: MapPermission) -> (a:
        MapArea)
        requires
            start_va.0 <= end_va.0 <= VA_LIMIT,
            map_perm.wf(),
        ensures
            a.wf(),
            a.start() == start_va.0 / 4096,
            a.end() == (end_va.0 + 4095) / 4096,
            a.kind() == map_type,
            a.perm() == map_perm,
            a.frames().len() == 0,
    {
        MapArea {
            start: start_va.floor(),
            end: end_va.ceil(),
            data_frames: Vec::new(),
            map_type,
            map_perm,
        }
    }

    /// The first page.
    pub fn get_start(&self) -> (v: VirtPageNum)
        ensures
            v.0 == self.start(),
    {
        self.start
    }

    /// The page after the last.
    pub fn get_end(&self) -> (v: VirtPageNum)
        ensures
            v.0 == self.end(),
    {
        self.end
    }

    /// How the pages get their frames.
    pub fn map_type(&self) -> (t: MapType)
        ensures
            t == self.kind(),
    {
        self.map_type
    }

    /// What may be done with the pages.
    pub fn map_perm(&self) -> (p: MapPermission)
        ensures
            p == self.perm(),
    {
        self.map_perm
    }

    /// Maps one page of the area, the next that has no frame yet.
    #[verifier::rlimit(50)]
    fn map_one(&mut self, pt: &mut PageTable, mem: &mut PhysMemory, vpn: VirtPageNum)
        requires
            old(pt).wf(old(mem)),
            old(self).wf(),
            old(self).perm().grants_access(),
            vpn.wf(),
            old(pt).walk(old(mem), vpn.0) is None,
            old(mem).state().free_count() >= old(self).per_page() + old(pt).missing_nodes(
                old(mem),
                vpn.0,
            ),
        ensures
            final(pt).wf(final(mem)),
            final(mem).wf(),
            final(pt).root() == old(pt).root(),
            final(mem).state().start == old(mem).state().start,
            final(mem).state().end == old(mem).state().end,
            final(self).start == old(self).start,
            final(self).end == old(self).end,
            final(self).map_type == old(self).map_type,
            final(self).map_perm == old(self).map_perm,
            old(self).kind() is Identical ==> final(self).data_frames@ == old(self).data_frames@,
            old(self).kind() is Framed ==> {
                &&& final(self).data_frames@.len() == old(self).data_frames@.len() + 1
                &&& final(self).data_frames@.drop_last() == old(self).data_frames@
                &&& !old(mem).is_allocated(final(self).data_frames@.last().ppn().0)
                &&& !final(pt).owned().contains(final(self).data_frames@.last().ppn().0)
                &&& final(mem).frame(final(self).data_frames@.last().ppn().0) == zero_frame()
            },
            final(pt).walk(final(mem), vpn.0) == Some(
                PageTableEntry::spec_new(
                    if old(self).kind() is Framed {
                        final(self).data_frames@.last().ppn().0
                    } else {
                        vpn.0
                    },
                    old(self).perm().spec_flags().spec_with_valid(),
                ),
            ),
            forall|u: u64|
                u < VPN_LIMIT && u != vpn.0
                    ==> #[trigger] final(pt).walk(final(mem), u) == old(pt).walk(old(mem), u),
            forall|u: u64| #[trigger]
                final(pt).missing_nodes(final(mem), u) == spec_missing_after_map(
                    old(pt).missing_nodes(old(mem), u),
                    u,
                    vpn.0,
                ),
            final(mem).state().free_count() == old(mem).state().free_count()
                - old(self).per_page() - old(pt).missing_nodes(old(mem), vpn.0),
            final(mem).state() == old(mem).state().after_allocs(
                old(self).per_page() + old(pt).missing_nodes(old(mem), vpn.0),
            ),
            old(self).kind() is Framed ==> old(mem).state().next_frame() == Some(
                final(self).data_frames@.last().ppn().0,
            ),
            final(pt).node_frames() == old(pt).node_frames() + old(mem).state().taken(
                old(self).per_page(),
                old(pt).missing_nodes(old(mem), vpn.0),
            ),
            forall|q: u64| #[trigger] old(pt).owned().contains(q) ==> final(pt).owned().contains(q),
            forall|q: u64|
                #[trigger] final(pt).owned().contains(q) && !old(pt).owned().contains(q)
                    ==> !old(mem).is_allocated(q),
            forall|q: u64| #[trigger]
                final(mem).is_allocated(q)
                    <==> (old(mem).is_allocated(q) || final(pt).owned().contains(q)
                        || (old(self).kind() is Framed
                            && q == final(self).data_frames@.last().ppn().0)),
            forall|q: u64|
                old(mem).contains(q) && !final(pt).owned().contains(q) && !(old(self).kind()
                    is Framed && q == final(self).data_frames@.last().ppn().0)
                        ==> #[trigger] final(mem).frame(q) == old(mem).frame(q),
    {
        let flags = self.map_perm.flags();
        let ghost mem0 = *mem;
        let ghost pt0 = *pt;
        proof {
            pt.lemma_wf(mem);
            mem.lemma_wf();
            mem.state().lemma_alloc();
        }
        match self.map_type {
            MapType::Identical => {
                match pt.map(mem, vpn, PhysPageNum(vpn.0), flags) {
                    Ok(()) => {},
                    Err(_) => {
                        proof {
                            assert(false);
                        }
                    },
                }
            },
            MapType::Framed => {
                match mem.frame_alloc() {
                    None => {
                        proof {
                            assert(false);
                        }
                    },
                    Some(frame) => {
                        let ppn = frame.ppn();
                        let ghost mem1 = *mem;
                        proof {
                            mem.lemma_wf();
                            pt0.lemma_wf(&mem0);
                            assert forall|p: u64| #[trigger]
                                pt0.owned().contains(p) implies mem.is_allocated(p) && mem.frame(p)
                                == mem0.frame(p) by {
                                assert(mem0.is_allocated(p));
                            }
                            pt0.lemma_unchanged(&mem0, mem);
                            assert(ppn.0 < PPN_LIMIT);
                            assert(pt.missing_nodes(mem, vpn.0) == pt0.missing_nodes(&mem0, vpn.0));
                        }
                        self.data_frames.push(frame);
                        match pt.map(mem, vpn, ppn, flags) {
                            Ok(()) => {},
                            Err(_) => {
                                proof {
                                    assert(false);
                                }
                            },
                        }
                        proof {
                            assert(self.data_frames@.drop_last() =~= old(self).data_frames@);
                            assert(mem1.is_allocated(ppn.0));
                            assert(!pt0.owned().contains(ppn.0));
                            assert forall|u: u64|
                                u < VPN_LIMIT && u != vpn.0 implies #[trigger] pt.walk(mem, u)
                                == pt0.walk(&mem0, u) by {
                                assert(pt0.walk(&mem1, u) == pt0.walk(&mem0, u));
                            }
                            assert forall|u: u64| #[trigger]
                                pt.missing_nodes(mem, u) == spec_missing_after_map(
                                    pt0.missing_nodes(&mem0, u),
                                    u,
                                    vpn.0,
                                ) by {
                                assert(pt0.missing_nodes(&mem1, u) == pt0.missing_nodes(&mem0, u));
                            }
                            assert forall|q: u64|
                                mem0.contains(q) && !pt.owned().contains(q) && q
                                    != ppn.0 implies #[trigger] mem.frame(q) == mem0.frame(q) by {
                                assert(mem1.frame(q) == mem0.frame(q));
                            }
                            let m = pt0.missing_nodes(&mem0, vpn.0);
                            mem0.state().lemma_taken_shift(1, 0, m);
                            mem0.state().lemma_after_allocs_add(1, m);
                        }
                    },
                }
            },
        }
    }

    /// Maps every page of the area in the table; a frame-backed area takes
    /// a fresh, zeroed frame for each page. The request is checked as a
    /// whole before the first frame is taken: where it is refused, nothing
    /// has changed.
    pub fn map(&mut self, pt: &mut PageTable, mem: &mut PhysMemory) -> (r: Result<(), MapError>)
        requires
            old(pt).wf(old(mem)),
            old(self).wf(),
            old(self).frames().len() == 0,
        ensures
            final(pt).wf(final(mem)),
            final(mem).wf(),
            final(pt).root() == old(pt).root(),
            final(mem).state().start == old(mem).state().start,
            final(mem).state().end == old(mem).state().end,
            final(self).start() == old(self).start(),
            final(self).end() == old(self).end(),
            final(self).kind() == old(self).kind(),
            final(self).perm() == old(self).perm(),
            r is Err ==> *final(self) == *old(self) && *final(pt) == *old(pt) && *final(mem)
                == *old(mem),
            match r {
                Ok(()) => {
                    &&& old(self).perm().grants_access()
                    &&& forall|u: u64|
                        old(self).contains(u) ==> #[trigger] old(pt).walk(old(mem), u) is None
                    &&& old(mem).state().free_count() >= old(self).frames_needed(old(pt), old(mem))
                    &&& final(mem).state().free_count() == old(mem).state().free_count()
                        - old(self).frames_needed(old(pt), old(mem))
                    &&& final(self).mapped_in(final(pt), final(mem))
                    &&& forall|u: u64|
                        u < VPN_LIMIT && !old(self).contains(u) ==> #[trigger] final(pt).walk(
                            final(mem),
                            u,
                        ) == old(pt).walk(old(mem), u)
                    &&& forall|j: int|
                        0 <= j < final(self).frames().len() ==> !old(mem).is_allocated(
                            #[trigger] final(self).frames()[j],
                        ) && final(mem).frame(final(self).frames()[j]) == zero_frame()
                    &&& final(mem).state() == old(mem).state().after_allocs(
                        old(self).frames_needed(old(pt), old(mem)),
                    )
                    &&& final(pt).node_frames() == old(pt).node_frames() + spec_nodes_taken(
                        old(mem),
                        old(pt).root(),
                        old(self).start(),
                        old(self).end(),
                        old(self).per_page(),
                    )
                    &&& forall|j: int|
                        0 <= j < final(self).frames().len() ==> old(mem).state().nth_frame(
                            spec_frames_needed(
                                old(mem),
                                old(pt).root(),
                                old(self).start(),
                                (old(self).start() + j) as u64,
                                old(self).per_page(),
                            ),
                        ) == Some(#[trigger] final(self).frames()[j])
                },
                Err(MapError::InvalidPermission) => !old(self).perm().grants_access(),
                Err(MapError::AlreadyMapped) => {
                    &&& old(self).perm().grants_access()
                    &&& exists|u: u64|
                        old(self).contains(u) && #[trigger] old(pt).walk(old(mem), u) is Some
                },
                Err(MapError::OutOfFrames) => {
                    &&& old(self).perm().grants_access()
                    &&& forall|u: u64|
                        old(self).contains(u) ==> #[trigger] old(pt).walk(old(mem), u) is None
                    &&& old(mem).state().free_count() < old(self).frames_needed(old(pt), old(mem))
                },
            },
            forall|q: u64| #[trigger] old(pt).owned().contains(q) ==> final(pt).owned().contains(q),
            forall|q: u64|
                #[trigger] final(pt).owned().contains(q) && !old(pt).owned().contains(q)
                    ==> !old(mem).is_allocated(q),
            forall|q: u64| #[trigger]
                final(mem).is_allocated(q)
                    <==> (old(mem).is_allocated(q) || final(pt).owned().contains(q)
                        || final(self).frames().contains(q)),
            forall|q: u64|
                old(mem).contains(q) && !final(pt).owned().contains(q)
                    && !final(self).frames().contains(q)
                        ==> #[trigger] final(mem).frame(q) == old(mem).frame(q),
    {
        let flags = self.map_perm.flags();
        proof {
            pt.lemma_wf(mem);
            assert(self.frames() =~= Seq::<u64>::empty());
        }
        if !flags.is_leaf() {
            return Err(MapError::InvalidPermission);
        }
        let end = self.end;
        self.end = self.start;
        proof {
            assert(self.frames() =~= Seq::<u64>::empty());
        }
        let r = self.append_to(pt, mem, end);
        match r {
            Ok(()) => {},
            Err(_) => {
                self.end = end;
            },
        }
        r
    }

    /// Extends the area to end before the page `new_end`: each page that
    /// joins it is mapped, with a fresh, zeroed frame where the area is
    /// frame-backed. The request is checked as a whole before the first
    /// frame is taken: where it is refused, nothing has changed.
    #[verifier::rlimit(50)]
    pub fn append_to(&mut self, pt: &mut PageTable, mem: &mut PhysMemory, new_end: VirtPageNum) -> (r:
        Result<(), MapError>)
        requires
            old(pt).wf(old(mem)),
            old(self).mapped_in(old(pt), old(mem)),
            old(self).end() <= new_end.0 <= VPN_LIMIT,
        ensures
            final(pt).wf(final(mem)),
            final(mem).wf(),
            final(pt).root() == old(pt).root(),
            final(mem).state().start == old(mem).state().start,
            final(mem).state().end == old(mem).state().end,
            final(self).start() == old(self).start(),
            final(self).kind() == old(self).kind(),
            final(self).perm() == old(self).perm(),
            r is Err ==> *final(self) == *old(self) && *final(pt) == *old(pt) && *final(mem)
                == *old(mem),
            match r {
                Ok(()) => {
                    &&& final(self).end() == new_end.0
                    &&& forall|u: u64|
                        old(self).end() <= u < new_end.0 ==> #[trigger] old(pt).walk(old(mem), u)
                            is None
                    &&& old(mem).state().free_count() >= spec_frames_needed(
                        old(mem),
                        old(pt).root(),
                        old(self).end(),
                        new_end.0,
                        old(self).per_page(),
                    )
                    &&& final(mem).state().free_count() == old(mem).state().free_count()
                        - spec_frames_needed(
                        old(mem),
                        old(pt).root(),
                        old(self).end(),
                        new_end.0,
                        old(self).per_page(),
                    )
                    &&& final(self).mapped_in(final(pt), final(mem))
                    &&& forall|u: u64|
                        u < VPN_LIMIT && !(old(self).end() <= u < new_end.0)
                            ==> #[trigger] final(pt).walk(final(mem), u)
                                == old(pt).walk(old(mem), u)
                    &&& final(self).frames().len() >= old(self).frames().len()
                    &&& forall|j: int|
                        0 <= j < old(self).frames().len() ==> #[trigger] final(self).frames()[j]
                            == old(self).frames()[j]
                    &&& forall|j: int|
                        old(self).frames().len() <= j < final(self).frames().len()
                            ==> !old(mem).is_allocated(#[trigger] final(self).frames()[j])
                                && final(mem).frame(
                            final(self).frames()[j],
                        ) == zero_frame()
                    &&& final(mem).state() == old(mem).state().after_allocs(
                        spec_frames_needed(
                            old(mem),
                            old(pt).root(),
                            old(self).end(),
                            new_end.0,
                            old(self).per_page(),
                        ),
                    )
                    &&& final(pt).node_frames() == old(pt).node_frames() + spec_nodes_taken(
                        old(mem),
                        old(pt).root(),
                        old(self).end(),
                        new_end.0,
                        old(self).per_page(),
                    )
                    &&& forall|j: int|
                        old(self).frames().len() <= j < final(self).frames().len()
                            ==> old(mem).state().nth_frame(
                            spec_frames_needed(
                                old(mem),
                                old(pt).root(),
                                old(self).end(),
                                (old(self).end() + (j - old(self).frames().len())) as u64,
                                old(self).per_page(),
                            ),
                        ) == Some(#[trigger] final(self).frames()[j])
                },
                Err(MapError::InvalidPermission) => false,
                Err(MapError::AlreadyMapped) => exists|u: u64|
                    old(self).end() <= u < new_end.0 && #[trigger] old(pt).walk(old(mem), u)
                        is Some,
                Err(MapError::OutOfFrames) => {
                    &&& forall|u: u64|
                        old(self).end() <= u < new_end.0 ==> #[trigger] old(pt).walk(old(mem), u)
                            is None
                    &&& old(mem).state().free_count() < spec_frames_needed(
                        old(mem),
                        old(pt).root(),
                        old(self).end(),
                        new_end.0,
                        old(self).per_page(),
                    )
                },
            },
            forall|q: u64| #[trigger] old(pt).owned().contains(q) ==> final(pt).owned().contains(q),
            forall|q: u64|
                #[trigger] final(pt).owned().contains(q) && !old(pt).owned().contains(q)
                    ==> !old(mem).is_allocated(q),
            forall|q: u64| #[trigger]
                final(mem).is_allocated(q)
                    <==> (old(mem).is_allocated(q) || final(pt).owned().contains(q)
                        || final(self).frames().contains(q)),
            forall|q: u64|
                old(mem).contains(q) && !final(pt).owned().contains(q) && (old(mem).is_allocated(q)
                    || !final(self).frames().contains(q)) ==> #[trigger] final(mem).frame(q)
                    == old(mem).frame(q),
    {
        proof {
            pt.lemma_wf(mem);
            self.lemma_frames_hold();
            assert forall|q: u64| self.frames().contains(q) implies mem.is_allocated(q) by {
                let j = choose|j: int| 0 <= j < self.frames().len() && self.frames()[j] == q;
                assert(mem.is_allocated(self.frames()[j]));
            }
        }
        if pt.interval_valid(mem, self.end, new_end) {
            return Err(MapError::AlreadyMapped);
        }
        let per_page: usize = match self.map_type {
            MapType::Framed => 1,
            MapType::Identical => 0,
        };
        let needed: usize = pt.frames_needed(mem, self.end, new_end, per_page);
        if !mem.has_free_frames(needed) {
            return Err(MapError::OutOfFrames);
        }
        let ghost mem0 = *mem;
        let ghost pt0 = *pt;
        let ghost area0 = *self;
        let ghost e1 = new_end.0;
        let mut v: u64 = self.end.0;
        proof {
            area0.lemma_progress_start(&pt0, &mem0, e1);
        }
        while v < new_end.0
            invariant
                self.progress(pt, mem, &area0, &pt0, &mem0, e1, v),
                e1 == new_end.0,
                area0.end.0 <= v <= e1,
            decreases e1 - v,
        {
            let ghost mem1 = *mem;
            let ghost pt1 = *pt;
            let ghost area1 = *self;
            proof {
                area1.lemma_progress_pre(&pt1, &mem1, &area0, &pt0, &mem0, e1, v);
            }
            self.map_one(pt, mem, VirtPageNum(v));
            proof {
                assert(MapArea::one_mapped(&area1, &pt1, &mem1, self, pt, mem, v)) by {
                    reveal(MapArea::one_mapped);
                }
                MapArea::lemma_progress_step(
                    &area1,
                    &pt1,
                    &mem1,
                    self,
                    pt,
                    mem,
                    &area0,
                    &pt0,
                    &mem0,
                    e1,
                    v,
                );
            }
            v = v + 1;
        }
        let ghost before = *self;
        self.end = new_end;
        proof {
            MapArea::lemma_progress_final(&before, self, pt, mem, &area0, &pt0, &mem0, e1);
            pt.lemma_wf(mem);
        }
        Ok(())
    }

    /// Unmaps every page of the area and gives its frames back to the
    /// allocator. The nodes of the table stay.
    pub fn unmap(&mut self, pt: &mut PageTable, mem: &mut PhysMemory)
        requires
            old(pt).wf(old(mem)),
            old(self).mapped_in(old(pt), old(mem)),
        ensures
            final(pt).wf(final(mem)),
            final(mem).wf(),
            *final(pt) == *old(pt),
            final(mem).state().start == old(mem).state().start,
            final(mem).state().end == old(mem).state().end,
            final(self).start() == old(self).start(),
            final(self).end() == old(self).end(),
            final(self).kind() == old(self).kind(),
            final(self).perm() == old(self).perm(),
            final(self).frames().len() == 0,
            forall|u: u64|
                u < VPN_LIMIT ==> #[trigger] final(pt).walk(final(mem), u)
                    == if old(self).contains(u) {
                    None
                } else {
                    old(pt).walk(old(mem), u)
                },
            forall|u: u64| #[trigger]
                final(pt).missing_nodes(final(mem), u) == old(pt).missing_nodes(old(mem), u),
            forall|q: u64| #[trigger]
                final(mem).is_allocated(q)
                    <==> (old(mem).is_allocated(q) && !old(self).frames().contains(q)),
            forall|q: u64|
                old(mem).contains(q) && !old(pt).owned().contains(q)
                    ==> #[trigger] final(mem).frame(q) == old(mem).frame(q),
            final(mem).state() == old(mem).state().after_deallocs(old(self).frames().reverse()),
    {
        let end = self.end;
        let start = self.start;
        proof {
            assert(self.frames().subrange(0, self.frames().len() as int) =~= self.frames());
        }
        self.shrink_to(pt, mem, start);
        self.end = end;
        proof {
            assert(self.frames() =~= Seq::<u64>::empty());
            assert forall|q: u64| #[trigger]
                mem.is_allocated(q) <==> (old(mem).is_allocated(q) && !old(self).frames().contains(
                    q,
                )) by {
                assert(old(self).frames().subrange(0, old(self).frames().len() as int) =~= old(self).frames());
            }
        }
    }

    /// Cuts the area to end before the page `new_end`: the pages that
    /// leave it are unmapped and their frames go back to the allocator.
    /// The nodes of the table stay.
    #[verifier::rlimit(50)]
    pub fn shrink_to(&mut self, pt: &mut PageTable, mem: &mut PhysMemory, new_end: VirtPageNum)
        requires
            old(pt).wf(old(mem)),
            old(self).mapped_in(old(pt), old(mem)),
            old(self).start() <= new_end.0 <= old(self).end(),
        ensures
            final(pt).wf(final(mem)),
            final(mem).wf(),
            *final(pt) == *old(pt),
            final(mem).state().start == old(mem).state().start,
            final(mem).state().end == old(mem).state().end,
            final(self).start() == old(self).start(),
            final(self).end() == new_end.0,
            final(self).kind() == old(self).kind(),
            final(self).perm() == old(self).perm(),
            final(self).mapped_in(final(pt), final(mem)),
            final(self).frames() == old(self).frames().subrange(
                0,
                final(self).frames().len() as int,
            ),
            forall|u: u64|
                u < VPN_LIMIT ==> #[trigger] final(pt).walk(final(mem), u) == if new_end.0 <= u
                    < old(self).end() {
                    None
                } else {
                    old(pt).walk(old(mem), u)
                },
            forall|u: u64| #[trigger]
                final(pt).missing_nodes(final(mem), u) == old(pt).missing_nodes(old(mem), u),
            forall|q: u64| #[trigger]
                final(mem).is_allocated(q)
                    <==> (old(mem).is_allocated(q) && !old(self).frames().subrange(
                    final(self).frames().len() as int,
                    old(self).frames().len() as int,
                ).contains(q)),
            final(mem).state() == old(mem).state().after_deallocs(
                old(self).frames().subrange(
                    final(self).frames().len() as int,
                    old(self).frames().len() as int,
                ).reverse(),
            ),
            forall|q: u64|
                old(mem).contains(q) && !old(pt).owned().contains(q)
                    ==> #[trigger] final(mem).frame(q) == old(mem).frame(q),
    {
        let ghost mem0 = *mem;
        let ghost pt0 = *pt;
        let ghost a0 = *self;
        let ghost s = self.start.0;
        let ghost e = self.end.0;
        let ghost ne = new_end.0;
        let mut v: u64 = new_end.0;
        while v < self.end.0
            invariant
                pt.wf(mem),
                *pt == pt0,
                *self == a0,
                a0.mapped_in(&pt0, &mem0),
                mem.state() == mem0.state(),
                s == a0.start.0,
                e == a0.end.0,
                s <= ne <= v <= e <= VPN_LIMIT,
                forall|u: u64|
                    u < VPN_LIMIT ==> #[trigger] pt.walk(mem, u) == if ne <= u < v {
                        None
                    } else {
                        pt0.walk(&mem0, u)
                    },
                forall|u: u64| #[trigger]
                    pt.missing_nodes(mem, u) == pt0.missing_nodes(&mem0, u),
                forall|q: u64|
                    mem0.contains(q) && !pt0.owned().contains(q) ==> #[trigger] mem.frame(q)
                        == mem0.frame(q),
            decreases e - v,
        {
            proof {
                assert(pt.walk(mem, v) == pt0.walk(&mem0, v));
                assert(a0.contains(v));
            }
            match pt.unmap(mem, VirtPageNum(v)) {
                Ok(()) => {},
                Err(_) => {
                    proof {
                        assert(false);
                    }
                },
            }
            v = v + 1;
        }
        let ghost mem_a = *mem;
        let ghost all = self.data_frames@;
        let keep: usize = match self.map_type {
            MapType::Framed => (new_end.0 - self.start.0) as usize,
            MapType::Identical => 0,
        };
        proof {
            a0.lemma_frames_hold();
            assert(self.data_frames@ =~= all.subrange(0, all.len() as int));
            assert forall|j: int| 0 <= j < all.len() implies mem_a.is_allocated(
                (#[trigger] all[j]).ppn().0,
            ) && !pt0.owned().contains(all[j].ppn().0) by {
                assert(a0.frames()[j] == all[j].ppn().0);
            }
            assert forall|i: int, j: int| 0 <= i < j < all.len() implies (#[trigger] all[i]).ppn()
                != (#[trigger] all[j]).ppn() by {
                assert(a0.frames()[i] == all[i].ppn().0);
                assert(a0.frames()[j] == all[j].ppn().0);
            }
            assert(a0.frames().subrange(all.len() as int, all.len() as int).reverse()
                =~= Seq::<u64>::empty());
            mem_a.state().lemma_after_deallocs(Seq::<u64>::empty(), Seq::<u64>::empty(), 0);
        }
        while self.data_frames.len() > keep
            invariant
                pt.wf(mem),
                *pt == pt0,
                self.start == a0.start,
                self.end == a0.end,
                self.map_type == a0.map_type,
                self.map_perm == a0.map_perm,
                all == a0.data_frames@,
                keep <= all.len(),
                keep <= self.data_frames@.len() <= all.len(),
                self.data_frames@ == all.subrange(0, self.data_frames@.len() as int),
                mem.state().start == mem_a.state().start,
                mem.state().end == mem_a.state().end,
                forall|j: int|
                    0 <= j < all.len() ==> mem_a.is_allocated((#[trigger] all[j]).ppn().0)
                        && !pt0.owned().contains(all[j].ppn().0),
                forall|i: int, j: int|
                    0 <= i < j < all.len() ==> (#[trigger] all[i]).ppn() != (
                    #[trigger] all[j]).ppn(),
                forall|q: u64| #[trigger]
                    mem.is_allocated(q) <==> (mem_a.is_allocated(q) && !frames_hold(
                        all,
                        self.data_frames@.len() as int,
                        q,
                    )),
                forall|q: u64| #[trigger] mem.frame(q) == mem_a.frame(q),
                forall|u: u64| #[trigger] pt.walk(mem, u) == pt0.walk(&mem_a, u),
                forall|u: u64| #[trigger]
                    pt.missing_nodes(mem, u) == pt0.missing_nodes(&mem_a, u),
                mem.state() == mem_a.state().after_deallocs(
                    a0.frames().subrange(
                        self.data_frames@.len() as int,
                        all.len() as int,
                    ).reverse(),
                ),
            decreases self.data_frames.len(),
        {
            let ghost n = self.data_frames@.len() as int;
            let ghost mem1 = *mem;
            let f = self.data_frames.pop().unwrap();
            proof {
                assert(f == all[n - 1]);
                assert(mem_a.is_allocated(all[n - 1].ppn().0));
                if frames_hold(all, n, f.ppn().0) {
                    let j = choose|j: int| n <= j < all.len() && all[j].ppn().0 == f.ppn().0;
                    assert(all[n - 1].ppn() != all[j].ppn());
                }
                assert(self.data_frames@ =~= all.subrange(0, n - 1));
                pt.lemma_wf(mem);
            }
            mem.frame_dealloc(f);
            proof {
                assert forall|p: u64| #[trigger] pt.owned().contains(p) implies mem.is_allocated(p)
                    && mem.frame(p) == mem1.frame(p) by {
                    assert(mem1.is_allocated(p));
                }
                pt.lemma_unchanged(&mem1, mem);
                assert forall|q: u64| #[trigger]
                    mem.is_allocated(q) <==> (mem_a.is_allocated(q) && !frames_hold(
                        all,
                        n - 1,
                        q,
                    )) by {
                    if frames_hold(all, n - 1, q) {
                        let j = choose|j: int| n - 1 <= j < all.len() && all[j].ppn().0 == q;
                        if j >= n {
                            assert(frames_hold(all, n, q));
                        }
                    }
                    if frames_hold(all, n, q) {
                        let j = choose|j: int| n <= j < all.len() && all[j].ppn().0 == q;
                        assert(frames_hold(all, n - 1, q));
                    }
                    if q == all[n - 1].ppn().0 {
                        assert(frames_hold(all, n - 1, q));
                    }
                }
                assert forall|u: u64| #[trigger] pt.walk(mem, u) == pt0.walk(&mem_a, u) by {
                    assert(pt.walk(&mem1, u) == pt0.walk(&mem_a, u));
                }
                assert forall|u: u64| #[trigger]
                    pt.missing_nodes(mem, u) == pt0.missing_nodes(&mem_a, u) by {
                    assert(pt.missing_nodes(&mem1, u) == pt0.missing_nodes(&mem_a, u));
                }
                let total = all.len() as int;
                let was = a0.frames().subrange(n, total).reverse();
                let now = a0.frames().subrange(n - 1, total).reverse();
                assert(a0.frames()[n - 1] == f.ppn().0);
                assert(now =~= was + seq![f.ppn().0]);
                mem_a.state().lemma_after_deallocs(was, seq![f.ppn().0], f.ppn().0);
                mem1.state().lemma_after_deallocs(was, was, f.ppn().0);
            }
        }
        self.end = new_end;
        proof {
            pt.lemma_wf(mem);
            let k = self.data_frames@.len() as int;
            assert(k == keep);
            assert(self.frames() =~= a0.frames().subrange(0, k));
            let gone = a0.frames().subrange(k, a0.frames().len() as int);
            assert forall|q: u64| gone.contains(q) <==> frames_hold(all, k, q) by {
                if gone.contains(q) {
                    let j = choose|j: int| 0 <= j < gone.len() && gone[j] == q;
                    assert(all[k + j].ppn().0 == q);
                }
                if frames_hold(all, k, q) {
                    let j = choose|j: int| k <= j < all.len() && all[j].ppn().0 == q;
                    assert(gone[j - k] == q);
                }
            }
            assert forall|u: u64| self.contains(u) implies #[trigger] pt.walk(mem, u) == Some(
                self.entry_of(u),
            ) by {
                assert(a0.contains(u));
                assert(pt0.walk(&mem0, u) == Some(a0.entry_of(u)));
                assert(pt.walk(mem, u) == pt0.walk(&mem_a, u));
                if self.map_type is Framed {
                    assert(self.frames()[u - s] == a0.frames()[u - s]);
                }
            }
            assert forall|j: int| 0 <= j < self.frames().len() implies mem.is_allocated(
                #[trigger] self.frames()[j],
            ) && !pt.owned().contains(self.frames()[j]) by {
                assert(self.frames()[j] == all[j].ppn().0);
                if frames_hold(all, k, all[j].ppn().0) {
                    let i = choose|i: int| k <= i < all.len() && all[i].ppn().0 == all[j].ppn().0;
                    assert(all[j].ppn() != all[i].ppn());
                }
            }
            assert forall|i: int, j: int|
                0 <= i < self.frames().len() && 0 <= j < self.frames().len() && i
                    != j implies self.frames()[i] != self.frames()[j] by {
                assert(a0.frames()[i] == self.frames()[i]);
                assert(a0.frames()[j] == self.frames()[j]);
            }
            assert forall|u: u64| u < VPN_LIMIT implies #[trigger] pt.walk(mem, u) == if ne <= u
                < e {
                None
            } else {
                pt0.walk(&mem0, u)
            } by {
                assert(pt.walk(mem, u) == pt0.walk(&mem_a, u));
            }
            assert forall|u: u64| #[trigger]
                pt.missing_nodes(mem, u) == pt0.missing_nodes(&mem0, u) by {
                assert(pt.missing_nodes(mem, u) == pt0.missing_nodes(&mem_a, u));
            }
        }
    }

    /// What mapping one page of an area does to the area, the table and
    /// the memory.
    #[verifier::opaque]
    spec fn one_mapped(
        a1: &MapArea,
        pt1: &PageTable,
        mem1: &PhysMemory,
        a2: &MapArea,
        pt2: &PageTable,
        mem2: &PhysMemory,
        vpn: u64,
    ) -> bool {
        &&& pt2.wf(mem2)
        &&& pt2.root() == pt1.root()
        &&& mem2.state().start == mem1.state().start
        &&& mem2.state().end == mem1.state().end
        &&& a2.start == a1.start
        &&& a2.end == a1.end
        &&& a2.map_type == a1.map_type
        &&& a2.map_perm == a1.map_perm
        &&& a1.kind() is Identical ==> a2.data_frames@ == a1.data_frames@
        &&& a1.kind() is Framed ==> {
            &&& a2.data_frames@.len() == a1.data_frames@.len() + 1
            &&& a2.data_frames@.drop_last() == a1.data_frames@
            &&& !mem1.is_allocated(a2.data_frames@.last().ppn().0)
            &&& !pt2.owned().contains(a2.data_frames@.last().ppn().0)
            &&& mem2.frame(a2.data_frames@.last().ppn().0) == zero_frame()
        }
        &&& pt2.walk(mem2, vpn) == Some(
            PageTableEntry::spec_new(
                if a1.kind() is Framed {
                    a2.data_frames@.last().ppn().0
                } else {
                    vpn
                },
                a1.perm().spec_flags().spec_with_valid(),
            ),
        )
        &&& forall|u: u64|
            u < VPN_LIMIT && u != vpn ==> #[trigger] pt2.walk(mem2, u) == pt1.walk(mem1, u)
        &&& forall|u: u64| #[trigger]
            pt2.missing_nodes(mem2, u) == spec_missing_after_map(
                pt1.missing_nodes(mem1, u),
                u,
                vpn,
            )
        &&& mem2.state().free_count() == mem1.state().free_count() - a1.per_page()
            - pt1.missing_nodes(mem1, vpn)
        &&& mem2.state() == mem1.state().after_allocs(
            a1.per_page() + pt1.missing_nodes(mem1, vpn),
        )
        &&& a1.kind() is Framed ==> mem1.state().next_frame() == Some(
            a2.data_frames@.last().ppn().0,
        )
        &&& pt2.node_frames() == pt1.node_frames() + mem1.state().taken(
            a1.per_page(),
            pt1.missing_nodes(mem1, vpn),
        )
        &&& forall|q: u64| #[trigger] pt1.owned().contains(q) ==> pt2.owned().contains(q)
        &&& forall|q: u64|
            #[trigger] pt2.owned().contains(q) && !pt1.owned().contains(q) ==> !mem1.is_allocated(
                q,
            )
        &&& forall|q: u64| #[trigger]
            mem2.is_allocated(q) <==> (mem1.is_allocated(q) || pt2.owned().contains(q) || (
            a1.kind() is Framed && q == a2.data_frames@.last().ppn().0))
        &&& forall|q: u64|
            mem1.contains(q) && !pt2.owned().contains(q) && !(a1.kind() is Framed && q
                == a2.data_frames@.last().ppn().0) ==> #[trigger] mem2.frame(q) == mem1.frame(q)
    }

    /// What holds while an area that was mapped on `start..end` as `a0` in
    /// the state `pt0`, `mem0` grows to end at `e1` and the pages `end..v`
    /// are mapped already.
    #[verifier::opaque]
    spec fn progress(
        &self,
        pt: &PageTable,
        mem: &PhysMemory,
        a0: &MapArea,
        pt0: &PageTable,
        mem0: &PhysMemory,
        e1: u64,
        v: u64,
    ) -> bool {
        let s = a0.start.0;
        let e0 = a0.end.0;
        let root = pt0.root();
        let pp = a0.per_page();
        let n0 = a0.data_frames@.len() as int;
        &&& pt.wf(mem)
        &&& pt0.wf(mem0)
        &&& pt.root() == root
        &&& mem.state().start == mem0.state().start
        &&& mem.state().end == mem0.state().end
        &&& s <= e0 <= v <= e1 <= VPN_LIMIT
        &&& self.start == a0.start
        &&& self.end == a0.end
        &&& self.map_type == a0.map_type
        &&& self.map_perm == a0.map_perm
        &&& a0.mapped_in(pt0, mem0)
        &&& self.data_frames@.len() == (if self.map_type is Framed {
            v - s
        } else {
            0
        })
        &&& forall|j: int| 0 <= j < n0 ==> #[trigger] self.data_frames@[j] == a0.data_frames@[j]
        &&& forall|u: u64| s <= u < v ==> #[trigger] pt.walk(mem, u) == Some(self.entry_of(u))
        &&& forall|u: u64|
            u < VPN_LIMIT && !(e0 <= u < v) ==> #[trigger] pt.walk(mem, u) == pt0.walk(mem0, u)
        &&& forall|u: u64| e0 <= u < e1 ==> #[trigger] pt0.walk(mem0, u) is None
        &&& forall|u: u64|
            v <= u < e1 ==> #[trigger] pt.missing_nodes(mem, u) == spec_missing_during(
                pt0.missing_nodes(mem0, u),
                e0,
                v,
                u,
            )
        &&& mem.state().free_count() + spec_frames_needed(mem0, root, e0, v, pp)
            == mem0.state().free_count()
        &&& spec_frames_needed(mem0, root, e0, e1, pp) <= mem0.state().free_count()
        &&& mem.state() == mem0.state().after_allocs(spec_frames_needed(mem0, root, e0, v, pp))
        &&& pt.node_frames() == pt0.node_frames() + spec_nodes_taken(mem0, root, e0, v, pp)
        &&& forall|j: int|
            n0 <= j < self.data_frames@.len() ==> mem0.state().nth_frame(
                spec_frames_needed(mem0, root, e0, (e0 + (j - n0)) as u64, pp),
            ) == Some((#[trigger] self.data_frames@[j]).ppn().0)
        &&& forall|j: int|
            0 <= j < self.data_frames@.len() ==> {
                &&& mem.is_allocated((#[trigger] self.data_frames@[j]).ppn().0)
                &&& !pt.owned().contains(self.data_frames@[j].ppn().0)
                &&& j >= n0 ==> !mem0.is_allocated(self.data_frames@[j].ppn().0) && mem.frame(
                    self.data_frames@[j].ppn().0,
                ) == zero_frame()
            }
        &&& forall|i: int, j: int|
            0 <= i < j < self.data_frames@.len() ==> (#[trigger] self.data_frames@[i]).ppn() != (
            #[trigger] self.data_frames@[j]).ppn()
        &&& forall|q: u64| #[trigger] pt0.owned().contains(q) ==> pt.owned().contains(q)
        &&& forall|q: u64|
            #[trigger] pt.owned().contains(q) && !pt0.owned().contains(q) ==> !mem0.is_allocated(q)
        &&& forall|q: u64| #[trigger]
            mem.is_allocated(q) <==> (mem0.is_allocated(q) || pt.owned().contains(q)
                || frames_hold(self.data_frames@, n0, q))
        &&& forall|q: u64|
            mem0.contains(q) && !pt.owned().contains(q) && !frames_hold(self.data_frames@, n0, q)
                ==> #[trigger] mem.frame(q) == mem0.frame(q)
    }

    /// Before the first page joins the area, the conditions of progress hold.
    proof fn lemma_progress_start(&self, pt: &PageTable, mem: &PhysMemory, e1: u64)
        requires
            pt.wf(mem),
            self.mapped_in(pt, mem),
            self.end.0 <= e1 <= VPN_LIMIT,
            forall|u: u64| self.end.0 <= u < e1 ==> #[trigger] pt.walk(mem, u) is None,
            spec_frames_needed(mem, pt.root(), self.end.0, e1, self.per_page())
                <= mem.state().free_count(),
        ensures
            self.progress(pt, mem, self, pt, mem, e1, self.end.0),
    {
        reveal(MapArea::progress);
        pt.lemma_wf(mem);
        let n0 = self.data_frames@.len() as int;
        assert forall|q: u64| !frames_hold(self.data_frames@, n0, q) by {}
        assert(pt.node_frames() + Seq::<u64>::empty() =~= pt.node_frames());
        assert forall|j: int| 0 <= j < self.data_frames@.len() implies mem.is_allocated(
            (#[trigger] self.data_frames@[j]).ppn().0,
        ) && !pt.owned().contains(self.data_frames@[j].ppn().0) by {
            assert(self.frames()[j] == self.data_frames@[j].ppn().0);
        }
        assert forall|i: int, j: int| 0 <= i < j < self.data_frames@.len() implies (
        #[trigger] self.data_frames@[i]).ppn() != (#[trigger] self.data_frames@[j]).ppn() by {
            assert(self.frames()[i] == self.data_frames@[i].ppn().0);
            assert(self.frames()[j] == self.data_frames@[j].ppn().0);
        }
    }

    /// While pages are left to map, the next one can be mapped.
    proof fn lemma_progress_pre(
        &self,
        pt: &PageTable,
        mem: &PhysMemory,
        a0: &MapArea,
        pt0: &PageTable,
        mem0: &PhysMemory,
        e1: u64,
        v: u64,
    )
        requires
            self.progress(pt, mem, a0, pt0, mem0, e1, v),
            v < e1,
        ensures
            pt.wf(mem),
            self.wf(),
            self.perm().grants_access(),
            v < VPN_LIMIT,
            pt.walk(mem, v) is None,
            mem.state().free_count() >= self.per_page() + pt.missing_nodes(mem, v),
    {
        reveal(MapArea::progress);
        let e0 = a0.end.0;
        let root = pt0.root();
        let pp = a0.per_page();
        lemma_frames_needed_monotone(mem0, root, e0, (v + 1) as u64, e1, pp);
        assert(spec_frames_needed(mem0, root, e0, (v + 1) as u64, pp) == spec_frames_needed(
            mem0,
            root,
            e0,
            v,
            pp,
        ) + pp + spec_new_nodes(mem0, root, e0, v));
        assert(pt.missing_nodes(mem, v) == spec_missing_during(
            pt0.missing_nodes(mem0, v),
            e0,
            v,
            v,
        ));
        assert(pt.walk(mem, v) == pt0.walk(mem0, v));
        assert(pt0.walk(mem0, v) is None);
    }

    /// Mapping the next page keeps the conditions of progress.
    #[verifier::rlimit(60)]
    proof fn lemma_progress_step(
        a1: &MapArea,
        pt1: &PageTable,
        mem1: &PhysMemory,
        a2: &MapArea,
        pt2: &PageTable,
        mem2: &PhysMemory,
        a0: &MapArea,
        pt0: &PageTable,
        mem0: &PhysMemory,
        e1: u64,
        v: u64,
    )
        requires
            a1.progress(pt1, mem1, a0, pt0, mem0, e1, v),
            v < e1,
            MapArea::one_mapped(a1, pt1, mem1, a2, pt2, mem2, v),
        ensures
            a2.progress(pt2, mem2, a0, pt0, mem0, e1, (v + 1) as u64),
    {
        reveal(MapArea::progress);
        reveal(MapArea::one_mapped);
        let s = a0.start.0;
        let e0 = a0.end.0;
        let root = pt0.root();
        let pp = a0.per_page();
        let n0 = a0.data_frames@.len() as int;
        let n = a1.data_frames@.len() as int;
        let framed = a1.map_type is Framed;
        let newp = a2.data_frames@.last().ppn().0;
        pt1.lemma_wf(mem1);
        pt2.lemma_wf(mem2);
        mem1.lemma_wf();
        assert(spec_frames_needed(mem0, root, e0, (v + 1) as u64, pp) == spec_frames_needed(
            mem0,
            root,
            e0,
            v,
            pp,
        ) + pp + spec_new_nodes(mem0, root, e0, v));
        assert(pt1.missing_nodes(mem1, v) == spec_missing_during(
            pt0.missing_nodes(mem0, v),
            e0,
            v,
            v,
        ));
        if framed {
            assert forall|j: int| 0 <= j < n implies #[trigger] a2.data_frames@[j]
                == a1.data_frames@[j] by {
                assert(a2.data_frames@.drop_last()[j] == a2.data_frames@[j]);
            }
            assert(a2.data_frames@[n] == a2.data_frames@.last());
        }
        assert forall|j: int| 0 <= j < n0 implies #[trigger] a2.data_frames@[j]
            == a0.data_frames@[j] by {
            assert(a1.data_frames@[j] == a0.data_frames@[j]);
        }
        let st = mem0.state();
        let done = spec_frames_needed(mem0, root, e0, v, pp);
        let fresh = spec_new_nodes(mem0, root, e0, v);
        st.lemma_after_allocs_add(done, pp + fresh);
        st.lemma_taken_shift(done, pp, fresh);
        st.lemma_taken_shift(done, 0, 0);
        assert(pt2.node_frames() =~= pt0.node_frames() + spec_nodes_taken(
            mem0,
            root,
            e0,
            (v + 1) as u64,
            pp,
        )) by {
            assert(spec_nodes_taken(mem0, root, e0, (v + 1) as u64, pp) == spec_nodes_taken(
                mem0,
                root,
                e0,
                v,
                pp,
            ) + st.taken(done + pp, fresh));
        }
        assert forall|j: int| n0 <= j < a2.data_frames@.len() implies st.nth_frame(
            spec_frames_needed(mem0, root, e0, (e0 + (j - n0)) as u64, pp),
        ) == Some((#[trigger] a2.data_frames@[j]).ppn().0) by {
            if j < n {
                assert(a2.data_frames@[j] == a1.data_frames@[j]);
            } else {
                assert(e0 + (j - n0) == v);
            }
        }
        assert forall|q: u64|
            frames_hold(a2.data_frames@, n0, q) <==> (frames_hold(a1.data_frames@, n0, q) || (
            framed && q == newp)) by {
            if frames_hold(a2.data_frames@, n0, q) {
                let j = choose|j: int|
                    n0 <= j < a2.data_frames@.len() && a2.data_frames@[j].ppn().0 == q;
                if j < n {
                    assert(a1.data_frames@[j].ppn().0 == q);
                }
            }
            if frames_hold(a1.data_frames@, n0, q) {
                let j = choose|j: int|
                    n0 <= j < a1.data_frames@.len() && a1.data_frames@[j].ppn().0 == q;
                assert(a2.data_frames@[j].ppn().0 == q);
            }
            if framed && q == newp {
                assert(a2.data_frames@[n].ppn().0 == q);
            }
        }
        assert forall|u: u64| s <= u < v + 1 implies #[trigger] pt2.walk(mem2, u) == Some(
            a2.entry_of(u),
        ) by {
            if u < v {
                assert(pt1.walk(mem1, u) == Some(a1.entry_of(u)));
                if framed {
                    assert(a2.frames()[u - s] == a1.frames()[u - s]);
                }
            } else {
                if framed {
                    assert(a2.frames()[u - s] == newp);
                }
            }
        }
        assert forall|u: u64| u < VPN_LIMIT && !(e0 <= u < v + 1) implies #[trigger] pt2.walk(
            mem2,
            u,
        ) == pt0.walk(mem0, u) by {
            assert(pt1.walk(mem1, u) == pt0.walk(mem0, u));
        }
        assert forall|u: u64| v + 1 <= u < e1 implies #[trigger] pt2.missing_nodes(mem2, u)
            == spec_missing_during(pt0.missing_nodes(mem0, u), e0, (v + 1) as u64, u) by {
            assert(pt1.missing_nodes(mem1, u) == spec_missing_during(
                pt0.missing_nodes(mem0, u),
                e0,
                v,
                u,
            ));
            lemma_missing_step(pt0.missing_nodes(mem0, u), e0, v, u);
        }
        assert forall|j: int| 0 <= j < a2.data_frames@.len() implies {
            &&& mem2.is_allocated((#[trigger] a2.data_frames@[j]).ppn().0)
            &&& !pt2.owned().contains(a2.data_frames@[j].ppn().0)
            &&& j >= n0 ==> !mem0.is_allocated(a2.data_frames@[j].ppn().0) && mem2.frame(
                a2.data_frames@[j].ppn().0,
            ) == zero_frame()
        } by {
            if j < n {
                let q = a1.data_frames@[j].ppn().0;
                assert(mem1.is_allocated(q));
                if pt2.owned().contains(q) {
                    assert(!pt1.owned().contains(q));
                }
                assert(mem1.contains(q));
                assert(mem2.frame(q) == mem1.frame(q));
            } else {
                if mem0.is_allocated(newp) {
                    assert(mem1.is_allocated(newp));
                }
            }
        }
        assert forall|i: int, j: int| 0 <= i < j < a2.data_frames@.len() implies (
        #[trigger] a2.data_frames@[i]).ppn() != (#[trigger] a2.data_frames@[j]).ppn() by {
            if j == n {
                assert(mem1.is_allocated(a1.data_frames@[i].ppn().0));
            } else {
                assert(a1.data_frames@[i].ppn() != a1.data_frames@[j].ppn());
            }
        }
        assert forall|q: u64|
            #[trigger] pt2.owned().contains(q)
                && !pt0.owned().contains(q) implies !mem0.is_allocated(
            q,
        ) by {
            if !pt1.owned().contains(q) {
                assert(!mem1.is_allocated(q));
            }
        }
        assert forall|q: u64| #[trigger]
            mem2.is_allocated(q) <==> (mem0.is_allocated(q) || pt2.owned().contains(q)
                || frames_hold(a2.data_frames@, n0, q)) by {
            if pt1.owned().contains(q) {
                assert(pt2.owned().contains(q));
            }
        }
        assert forall|q: u64|
            mem0.contains(q) && !pt2.owned().contains(q) && !frames_hold(
                a2.data_frames@,
                n0,
                q,
            ) implies #[trigger] mem2.frame(q) == mem0.frame(q) by {
            assert(!pt1.owned().contains(q));
            assert(!frames_hold(a1.data_frames@, n0, q));
            assert(mem1.frame(q) == mem0.frame(q));
            assert(mem2.frame(q) == mem1.frame(q));
        }
    }

    /// When every page is mapped, the area with its new end is mapped in the
    /// table, and the frames were taken as the request's count says.
    #[verifier::rlimit(50)]
    proof fn lemma_progress_final(
        before: &MapArea,
        after: &MapArea,
        pt: &PageTable,
        mem: &PhysMemory,
        a0: &MapArea,
        pt0: &PageTable,
        mem0: &PhysMemory,
        e1: u64,
    )
        requires
            before.progress(pt, mem, a0, pt0, mem0, e1, e1),
            after.start == before.start,
            after.end.0 == e1,
            after.data_frames == before.data_frames,
            after.map_type == before.map_type,
            after.map_perm == before.map_perm,
        ensures
            pt.wf(mem),
            pt.root() == pt0.root(),
            mem.state().start == mem0.state().start,
            mem.state().end == mem0.state().end,
            after.start() == a0.start(),
            after.kind() == a0.kind(),
            after.perm() == a0.perm(),
            forall|u: u64| a0.end() <= u < e1 ==> #[trigger] pt0.walk(mem0, u) is None,
            mem0.state().free_count() >= spec_frames_needed(
                mem0,
                pt0.root(),
                a0.end(),
                e1,
                a0.per_page(),
            ),
            mem.state().free_count() == mem0.state().free_count() - spec_frames_needed(
                mem0,
                pt0.root(),
                a0.end(),
                e1,
                a0.per_page(),
            ),
            after.mapped_in(pt, mem),
            forall|u: u64|
                u < VPN_LIMIT && !(a0.end() <= u < e1) ==> #[trigger] pt.walk(mem, u) == pt0.walk(
                    mem0,
                    u,
                ),
            after.frames().len() >= a0.frames().len(),
            forall|j: int|
                0 <= j < a0.frames().len() ==> #[trigger] after.frames()[j] == a0.frames()[j],
            forall|j: int|
                a0.frames().len() <= j < after.frames().len() ==> !mem0.is_allocated(
                    #[trigger] after.frames()[j],
                ) && mem.frame(after.frames()[j]) == zero_frame(),
            mem.state() == mem0.state().after_allocs(
                spec_frames_needed(mem0, pt0.root(), a0.end(), e1, a0.per_page()),
            ),
            pt.node_frames() == pt0.node_frames() + spec_nodes_taken(
                mem0,
                pt0.root(),
                a0.end(),
                e1,
                a0.per_page(),
            ),
            forall|j: int|
                a0.frames().len() <= j < after.frames().len() ==> mem0.state().nth_frame(
                    spec_frames_needed(
                        mem0,
                        pt0.root(),
                        a0.end(),
                        (a0.end() + (j - a0.frames().len())) as u64,
                        a0.per_page(),
                    ),
                ) == Some(#[trigger] after.frames()[j]),
            forall|q: u64| #[trigger] pt0.owned().contains(q) ==> pt.owned().contains(q),
            forall|q: u64|
                #[trigger] pt.owned().contains(q) && !pt0.owned().contains(q)
                    ==> !mem0.is_allocated(
                    q,
                ),
            forall|q: u64| #[trigger]
                mem.is_allocated(q) <==> (mem0.is_allocated(q) || pt.owned().contains(q)
                    || after.frames().contains(q)),
            forall|q: u64|
                mem0.contains(q) && !pt.owned().contains(q) && (mem0.is_allocated(q)
                    || !after.frames().contains(q)) ==> #[trigger] mem.frame(q) == mem0.frame(q),
    {
        reveal(MapArea::progress);
        let n0 = a0.data_frames@.len() as int;
        after.lemma_frames_hold();
        a0.lemma_frames_hold();
        assert(after.frames() == before.frames());
        assert forall|u: u64| after.contains(u) implies #[trigger] pt.walk(mem, u) == Some(
            after.entry_of(u),
        ) by {
            assert(pt.walk(mem, u) == Some(before.entry_of(u)));
        }
        assert forall|j: int| 0 <= j < after.frames().len() implies mem.is_allocated(
            #[trigger] after.frames()[j],
        ) && !pt.owned().contains(after.frames()[j]) && (j >= n0 ==> !mem0.is_allocated(
            after.frames()[j],
        ) && mem.frame(after.frames()[j]) == zero_frame()) by {
            assert(before.data_frames@[j].ppn().0 == after.frames()[j]);
        }
        assert forall|j: int| 0 <= j < a0.frames().len() implies #[trigger] after.frames()[j]
            == a0.frames()[j] by {
            assert(before.data_frames@[j] == a0.data_frames@[j]);
        }
        assert forall|j: int|
            a0.frames().len() <= j < after.frames().len() implies mem0.state().nth_frame(
            spec_frames_needed(
                mem0,
                pt0.root(),
                a0.end(),
                (a0.end() + (j - a0.frames().len())) as u64,
                a0.per_page(),
            ),
        ) == Some(#[trigger] after.frames()[j]) by {
            assert(before.data_frames@[j].ppn().0 == after.frames()[j]);
        }
        assert forall|i: int, j: int|
            0 <= i < after.frames().len() && 0 <= j < after.frames().len() && i
                != j implies after.frames()[i] != after.frames()[j] by {
            if i < j {
                assert(before.data_frames@[i].ppn() != before.data_frames@[j].ppn());
            } else {
                assert(before.data_frames@[j].ppn() != before.data_frames@[i].ppn());
            }
        }
        assert forall|q: u64| #[trigger]
            mem.is_allocated(q) <==> (mem0.is_allocated(q) || pt.owned().contains(q)
                || after.frames().contains(q)) by {
            if frames_hold(before.data_frames@, n0, q) {
                let j = choose|j: int|
                    n0 <= j < before.data_frames@.len() && before.data_frames@[j].ppn().0 == q;
                assert(frames_hold(after.data_frames@, 0, q));
            }
            if after.frames().contains(q) {
                let j = choose|j: int|
                    0 <= j < after.data_frames@.len() && after.data_frames@[j].ppn().0 == q;
                assert(mem.is_allocated(before.data_frames@[j].ppn().0));
            }
        }
        assert forall|q: u64|
            mem0.contains(q) && !pt.owned().contains(q) && (mem0.is_allocated(q)
                || !after.frames().contains(q)) implies #[trigger] mem.frame(q) == mem0.frame(
            q,
        ) by {
            if frames_hold(before.data_frames@, n0, q) {
                let j = choose|j: int|
                    n0 <= j < before.data_frames@.len() && before.data_frames@[j].ppn().0 == q;
                assert(!mem0.is_allocated(before.data_frames@[j].ppn().0));
                assert(after.frames()[j] == q);
            }
        }
    }

    /// The area's frames are those that its handles hold.
    proof fn lemma_frames_hold(&self)
        ensures
            forall|q: u64| #[trigger]
                self.frames().contains(q) <==> frames_hold(self.data_frames@, 0, q),
    {
        assert forall|q: u64| #[trigger]
            self.frames().contains(q) <==> frames_hold(self.data_frames@, 0, q) by {
            if self.frames().contains(q) {
                let j = choose|j: int| 0 <= j < self.frames().len() && self.frames()[j] == q;
                assert(self.data_frames@[j].ppn().0 == q);
            }
            if frames_hold(self.data_frames@, 0, q) {
                let j = choose|j: int|
                    0 <= j < self.data_frames@.len() && self.data_frames@[j].ppn().0 == q;
                assert(self.frames()[j] == q);
            }
        }
    }
}

/// Two areas share no page.
pub open spec fn areas_apart(a: &MapArea, b: &MapArea) -> bool {
    ||| a.start() >= a.end()
    ||| b.start() >= b.end()
    ||| a.end() <= b.start()
    ||| b.end() <= a.start()
}

/// Two areas share no frame.
pub open spec fn frames_apart(a: &MapArea, b: &MapArea) -> bool {
    forall|x: int, y: int|
        0 <= x < a.frames().len() && 0 <= y < b.frames().len() ==> #[trigger] a.frames()[x]
            != #[trigger] b.frames()[y]
}

/// Position of the first area from `from` on that starts at page `start`,
/// or the number of areas where there is none.
pub open spec fn find_start(areas: Seq<MapArea>, start: u64, from: int) -> int
    decreases areas.len() - from,
{
    if from < 0 || from >= areas.len() {
        areas.len() as int
    } else if areas[from].start() == start {
        from
    } else {
        find_start(areas, start, from + 1)
    }
}

/// How frames pass between an address space and the allocator in one
/// request: the address space takes only frames that were free; the
/// frames that are handed out afterwards are those that were, less the
/// ones that the address space gave back, and the ones that it took; and
/// a frame that the address space owns neither before nor after holds
/// what it held.
pub open spec fn frames_passed(
    ms0: &MemorySet,
    mem0: &PhysMemory,
    ms1: &MemorySet,
    mem1: &PhysMemory,
) -> bool {
    &&& mem1.state().start == mem0.state().start
    &&& mem1.state().end == mem0.state().end
    &&& forall|q: u64| #[trigger] ms1.owns(q) && !ms0.owns(q) ==> !mem0.is_allocated(q)
    &&& forall|q: u64| #[trigger]
        mem1.is_allocated(q) <==> ((mem0.is_allocated(q) && !ms0.owns(q)) || ms1.owns(q))
    &&& forall|q: u64|
        mem0.contains(q) && !ms0.owns(q) && !ms1.owns(q) ==> #[trigger] mem1.frame(q)
            == mem0.frame(q)
}

/// An area of the address space can grow to end at the address `new_end`:
/// an area starts at the page of `start`, the new end lies in the 39-bit
/// space and not before the area's end, no page that joins the area is
/// mapped, and the frames that it takes to map them are free.
pub open spec fn can_append_to(ms: &MemorySet, mem: &PhysMemory, start: u64, new_end: u64) -> bool {
    let i = find_start(ms.areas(), start / 4096, 0);
    let ne = ((new_end + 4095) / 4096) as u64;
    &&& i < ms.areas().len()
    &&& new_end <= VA_LIMIT
    &&& ms.areas()[i].end() <= ne
    &&& forall|u: u64| ms.areas()[i].end() <= u < ne ==> #[trigger] ms.walk(mem, u) is None
    &&& mem.state().free_count() >= spec_frames_needed(
        mem,
        ms.table().root(),
        ms.areas()[i].end(),
        ne,
        ms.areas()[i].per_page(),
    )
}

/// An area of the address space can be cut to end at the address
/// `new_end`: an area starts at the page of `start`, and the new end lies
/// in the 39-bit space and in the area or at one of its ends.
pub open spec fn can_shrink_to(ms: &MemorySet, start: u64, new_end: u64) -> bool {
    let i = find_start(ms.areas(), start / 4096, 0);
    let ne = ((new_end + 4095) / 4096) as u64;
    &&& i < ms.areas().len()
    &&& new_end <= VA_LIMIT
    &&& ms.areas()[i].start() <= ne <= ms.areas()[i].end()
}

/// What changing the end of the first area that starts at the page of
/// `start` to the address `new_end` does: the other areas are as they
/// were; the area starts where it did, with its kind and permission, and
/// ends before the page after `new_end`; it keeps the frames of the pages
/// that stay; a page that joined it is mapped to a zeroed frame, a page
/// that left it is not mapped, and every other page is mapped as before.
pub open spec fn area_resized(
    ms0: &MemorySet,
    mem0: &PhysMemory,
    ms1: &MemorySet,
    mem1: &PhysMemory,
    start: u64,
    new_end: u64,
) -> bool {
    let i = find_start(ms0.areas(), start / 4096, 0);
    let ne = ((new_end + 4095) / 4096) as u64;
    let a0 = ms0.areas()[i];
    let a1 = ms1.areas()[i];
    &&& ms1.areas().len() == ms0.areas().len()
    &&& forall|k: int|
        0 <= k < ms0.areas().len() && k != i ==> #[trigger] ms1.areas()[k] == ms0.areas()[k]
    &&& a1.start() == a0.start()
    &&& a1.end() == ne
    &&& a1.kind() == a0.kind()
    &&& a1.perm() == a0.perm()
    &&& forall|j: int|
        0 <= j < a0.frames().len() && j < a1.frames().len() ==> #[trigger] a1.frames()[j]
            == a0.frames()[j]
    &&& forall|j: int|
        a0.frames().len() <= j < a1.frames().len() ==> mem1.frame(#[trigger] a1.frames()[j])
            == zero_frame()
    &&& forall|u: u64|
        u < VPN_LIMIT ==> #[trigger] ms1.walk(mem1, u) == if a1.contains(u) {
            Some(a1.entry_of(u))
        } else if a0.contains(u) {
            None
        } else {
            ms0.walk(mem0, u)
        }
    &&& mem1.state() == if a1.end() >= a0.end() {
        mem0.state().after_allocs(
            spec_frames_needed(mem0, ms0.table().root(), a0.end(), a1.end(), a0.per_page()),
        )
    } else {
        mem0.state().after_deallocs(
            a0.frames().subrange(a1.frames().len() as int, a0.frames().len() as int).reverse(),
        )
    }
    &&& ms1.table().node_frames() == ms0.table().node_frames() + spec_nodes_taken(
        mem0,
        ms0.table().root(),
        a0.end(),
        a1.end(),
        a0.per_page(),
    )
    &&& forall|j: int|
        a0.frames().len() <= j < a1.frames().len() ==> mem0.state().nth_frame(
            spec_frames_needed(
                mem0,
                ms0.table().root(),
                a0.end(),
                (a0.end() + (j - a0.frames().len())) as u64,
                a0.per_page(),
            ),
        ) == Some(#[trigger] a1.frames()[j])
}

/// The frames that go back to the allocator when the areas of an address
/// space are unmapped, the last area first, in the order in which they go
/// back: of each area the frame of the last page first.
pub open spec fn areas_release_order(areas: Seq<MapArea>) -> Seq<u64>
    decreases areas.len(),
{
    if areas.len() == 0 {
        Seq::empty()
    } else {
        areas.last().frames().reverse() + areas_release_order(areas.drop_last())
    }
}

/// One address space: a page table and the areas that are mapped in it,
/// in the order in which they were inserted.
pub struct MemorySet {
    page_table: PageTable,
    areas: Vec<MapArea>,
}

impl MemorySet {
    /// The page table.
    pub closed spec fn table(&self) -> PageTable {
        self.page_table
    }

    /// The areas, oldest first.
    pub closed spec fn areas(&self) -> Seq<MapArea> {
        self.areas@
    }

    /// The walk for one page number.
    #[verifier::inline]
    pub open spec fn walk(&self, mem: &PhysMemory, vpn: u64) -> Option<PageTableEntry> {
        self.table().walk(mem, vpn)
    }

    /// What the address space maps.
    #[verifier::inline]
    pub open spec fn mappings(&self, mem: &PhysMemory) -> Map<u64, PageTableEntry> {
        self.table().mappings(mem)
    }

    /// The frames that go back to the allocator when the address space is
    /// released, in the order in which they go back: those of the areas,
    /// the last area first, then the nodes of the table, the root last.
    pub open spec fn release_order(&self) -> Seq<u64> {
        areas_release_order(self.areas()) + self.table().node_frames().reverse()
    }

    /// Some area contains the page.
    pub open spec fn covers(&self, vpn: u64) -> bool {
        exists|i: int| 0 <= i < self.areas().len() && (#[trigger] self.areas()[i]).contains(vpn)
    }

    /// Some area owns the frame.
    pub open spec fn holds_frame(&self, ppn: u64) -> bool {
        exists|i: int|
            0 <= i < self.areas().len() && (#[trigger] self.areas()[i]).frames().contains(ppn)
    }

    /// The frame belongs to the address space: to its table or to an area.
    pub open spec fn owns(&self, ppn: u64) -> bool {
        self.table().owned().contains(ppn) || self.holds_frame(ppn)
    }

    /// The table is consistent, every area is mapped in it, no two areas
    /// share a page or a frame, and every mapped page belongs to an area.
    pub open spec fn wf(&self, mem: &PhysMemory) -> bool {
        &&& self.table().wf(mem)
        &&& forall|i: int|
            0 <= i < self.areas().len() ==> (#[trigger] self.areas()[i]).mapped_in(
                &self.table(),
                mem,
            )
        &&& forall|i: int, j: int|
            0 <= i < j < self.areas().len() ==> areas_apart(
                #[trigger] &self.areas()[i],
                #[trigger] &self.areas()[j],
            ) && frames_apart(&self.areas()[i], &self.areas()[j])
        &&& forall|u: u64|
            u < VPN_LIMIT && (#[trigger] self.walk(mem, u)) is Some ==> self.covers(u)
    }

    /// An address space depends on the frames that it owns and on nothing
    /// else: in a memory of the same range where these frames are still
    /// handed out and the table's nodes hold what they held, it is still
    /// consistent and maps what it mapped.
    #[verifier::rlimit(50)]
    pub proof fn lemma_unchanged(&self, mem1: &PhysMemory, mem2: &PhysMemory)
        requires
            self.wf(mem1),
            mem2.wf(),
            mem2.state().start == mem1.state().start,
            mem2.state().end == mem1.state().end,
            forall|q: u64| #[trigger] self.owns(q) ==> mem2.is_allocated(q),
            forall|q: u64| #[trigger]
                self.table().owned().contains(q) ==> mem2.frame(q) == mem1.frame(q),
        ensures
            self.wf(mem2),
            forall|u: u64| #[trigger] self.walk(mem2, u) == self.walk(mem1, u),
            self.mappings(mem2) == self.mappings(mem1),
    {
        let pt = self.table();
        assert forall|p: u64| #[trigger] pt.owned().contains(p) implies mem2.is_allocated(p)
            && mem2.frame(p) == mem1.frame(p) by {
            assert(self.owns(p));
        }
        pt.lemma_unchanged(mem1, mem2);
        assert forall|i: int| 0 <= i < self.areas().len() implies (
        #[trigger] self.areas()[i]).mapped_in(&pt, mem2) by {
            let a = self.areas()[i];
            assert(a.mapped_in(&pt, mem1));
            assert forall|j: int| 0 <= j < a.frames().len() implies mem2.is_allocated(
                #[trigger] a.frames()[j],
            ) by {
                assert(a.frames().contains(a.frames()[j]));
                assert(self.holds_frame(a.frames()[j]));
                assert(self.owns(a.frames()[j]));
            }
            assert forall|u: u64| a.contains(u) implies #[trigger] pt.walk(mem2, u) == Some(
                a.entry_of(u),
            ) by {
                assert(pt.walk(mem1, u) == Some(a.entry_of(u)));
            }
        }
        assert forall|u: u64|
            u < VPN_LIMIT && (#[trigger] self.walk(mem2, u)) is Some implies self.covers(u) by {
            assert(self.walk(mem1, u) is Some);
        }
    }

    /// What happens to frames that an address space does not own leaves it
    /// as it was: where every frame outside `touched` that was handed out
    /// still is and holds what it held, and the address space owns no
    /// frame of `touched`, it is still consistent and maps what it mapped.
    #[verifier::rlimit(50)]
    pub proof fn lemma_untouched(&self, mem1: &PhysMemory, mem2: &PhysMemory, touched: Set<u64>)
        requires
            self.wf(mem1),
            mem2.wf(),
            mem2.state().start == mem1.state().start,
            mem2.state().end == mem1.state().end,
            forall|q: u64| #[trigger] self.owns(q) ==> !touched.contains(q),
            forall|q: u64|
                !touched.contains(q) && mem1.is_allocated(q) ==> #[trigger] mem2.is_allocated(q),
            forall|q: u64|
                !touched.contains(q) && mem1.contains(q) ==> #[trigger] mem2.frame(q) == mem1.frame(
                    q,
                ),
        ensures
            self.wf(mem2),
            forall|u: u64| #[trigger] self.walk(mem2, u) == self.walk(mem1, u),
            self.mappings(mem2) == self.mappings(mem1),
    {
        self.lemma_owned_allocated(mem1);
        mem1.lemma_wf();
        assert forall|q: u64| #[trigger] self.owns(q) implies mem2.is_allocated(q) by {
            assert(mem1.is_allocated(q));
        }
        assert forall|q: u64| #[trigger] self.table().owned().contains(q) implies mem2.frame(q)
            == mem1.frame(q) by {
            assert(self.owns(q));
            assert(mem1.is_allocated(q));
        }
        self.lemma_unchanged(mem1, mem2);
    }

    /// An address space with an empty table and no area, or nothing when no
    /// frame is free for the table's root.
    pub fn new_bare(mem: &mut PhysMemory) -> (r: Option<MemorySet>)
        requires
            old(mem).wf(),
        ensures
            final(mem).wf(),
            match r {
                Some(ms) => {
                    &&& old(mem).state().next_frame() == Some(ms.table().root())
                    &&& final(mem).state() == old(mem).state().after_alloc()
                    &&& ms.wf(final(mem))
                    &&& ms.areas().len() == 0
                    &&& ms.table().owned() == set![ms.table().root()]
                    &&& ms.table().node_frames() == seq![ms.table().root()]
                    &&& final(mem).frame(ms.table().root()) == zero_frame()
                                        &&& ms.mappings(final(mem))
                                            == Map::<u64, PageTableEntry>::empty()
                    &&& forall|u: u64| #[trigger] ms.walk(final(mem), u) is None
                    &&& forall|q: u64| #[trigger]
                        final(mem).is_allocated(q) <==> (old(mem).is_allocated(q) || q
                            == ms.table().root())
                    &&& forall|q: u64|
                        old(mem).contains(q) && q != ms.table().root()
                            ==> #[trigger] final(mem).frame(q) == old(mem).frame(q)
                },
                None => old(mem).state().next_frame() is None && *final(mem) == *old(mem),
            },
    {
        match PageTable::new(mem) {
            None => None,
            Some(page_table) => {
                let ms = MemorySet { page_table, areas: Vec::new() };
                proof {
                    assert forall|u: u64|
                        u < VPN_LIMIT && (#[trigger] ms.walk(mem, u)) is Some implies ms.covers(
                        u,
                    ) by {
                        assert(ms.mappings(mem).contains_key(u));
                    }
                }
                Some(ms)
            },
        }
    }

    /// The root frame of the table: it names the address space.
    pub fn token(&self) -> (t: u64)
        ensures
            t == self.table().root(),
    {
        self.page_table.token()
    }

    /// The value that makes this address space the active one when it is
    /// written to the address-translation register: mode SV39 in the top
    /// four bits and the root frame's number below.
    pub fn activate(&self) -> (satp: u64)
        ensures
            satp == 0x8000_0000_0000_0000 + self.table().root() % PPN_LIMIT,
    {
        0x8000_0000_0000_0000u64 + self.page_table.token() % PPN_LIMIT
    }

    /// The entry that maps a page, or nothing when the page is not mapped.
    pub fn translate(&self, mem: &PhysMemory, vpn: VirtPageNum) -> (r: Option<PageTableEntry>)
        requires
            mem.wf(),
        ensures
            r == self.walk(mem, vpn.0),
    {
        self.page_table.translate(mem, vpn)
    }

    /// Whether any page of `start..end` is mapped.
    pub fn interval_valid(&self, mem: &PhysMemory, start: VirtPageNum, end: VirtPageNum) -> (b:
        bool)
        requires
            mem.wf(),
        ensures
            b == exists|vpn: u64| start.0 <= vpn < end.0 && #[trigger] self.walk(mem, vpn) is Some,
    {
        self.page_table.interval_valid(mem, start, end)
    }

    /// Whether any page of `start..end` is not mapped.
    pub fn interval_invalid(&self, mem: &PhysMemory, start: VirtPageNum, end: VirtPageNum) -> (b:
        bool)
        requires
            mem.wf(),
        ensures
            b == exists|vpn: u64| start.0 <= vpn < end.0 && #[trigger] self.walk(mem, vpn) is None,
    {
        self.page_table.interval_invalid(mem, start, end)
    }

    /// Maps an area and adds it to the set. A request that the table
    /// refuses changes nothing.
    #[verifier::rlimit(50)]
    pub fn push(&mut self, mem: &mut PhysMemory, area: MapArea) -> (r: Result<(), MapError>)
        requires
            old(self).wf(old(mem)),
            area.wf(),
            area.frames().len() == 0,
        ensures
            final(self).wf(final(mem)),
            final(mem).wf(),
            final(self).table().root() == old(self).table().root(),
            final(mem).state().start == old(mem).state().start,
            final(mem).state().end == old(mem).state().end,
            r is Err ==> *final(self) == *old(self) && *final(mem) == *old(mem),
            match r {
                Ok(()) => {
                    &&& area.perm().grants_access()
                    &&& forall|u: u64|
                        area.contains(u) ==> #[trigger] old(self).walk(old(mem), u) is None
                    &&& old(mem).state().free_count() >= area.frames_needed(
                        &old(self).table(),
                        old(mem),
                    )
                    &&& final(mem).state().free_count() == old(mem).state().free_count()
                        - area.frames_needed(&old(self).table(), old(mem))
                    &&& final(self).areas().len() == old(self).areas().len() + 1
                    &&& final(self).areas().drop_last() == old(self).areas()
                    &&& final(self).areas().last().start() == area.start()
                    &&& final(self).areas().last().end() == area.end()
                    &&& final(self).areas().last().kind() == area.kind()
                    &&& final(self).areas().last().perm() == area.perm()
                    &&& forall|u: u64|
                        u < VPN_LIMIT ==> #[trigger] final(self).walk(final(mem), u)
                            == if area.contains(
                            u,
                        ) {
                            Some(final(self).areas().last().entry_of(u))
                        } else {
                            old(self).walk(old(mem), u)
                        }
                    &&& forall|j: int|
                        0 <= j < final(self).areas().last().frames().len() ==> final(mem).frame(
                            #[trigger] final(self).areas().last().frames()[j],
                        ) == zero_frame()
                    &&& final(mem).state() == old(mem).state().after_allocs(
                        area.frames_needed(&old(self).table(), old(mem)),
                    )
                    &&& final(self).table().node_frames() == old(self).table().node_frames()
                        + spec_nodes_taken(
                        old(mem),
                        old(self).table().root(),
                        area.start(),
                        area.end(),
                        area.per_page(),
                    )
                    &&& forall|j: int|
                        0 <= j < final(self).areas().last().frames().len()
                            ==> old(mem).state().nth_frame(
                            spec_frames_needed(
                                old(mem),
                                old(self).table().root(),
                                area.start(),
                                (area.start() + j) as u64,
                                area.per_page(),
                            ),
                        ) == Some(#[trigger] final(self).areas().last().frames()[j])
                },
                Err(MapError::InvalidPermission) => !area.perm().grants_access(),
                Err(MapError::AlreadyMapped) => {
                    &&& area.perm().grants_access()
                    &&& exists|u: u64|
                        area.contains(u) && #[trigger] old(self).walk(old(mem), u) is Some
                },
                Err(MapError::OutOfFrames) => {
                    &&& area.perm().grants_access()
                    &&& forall|u: u64|
                        area.contains(u) ==> #[trigger] old(self).walk(old(mem), u) is None
                    &&& old(mem).state().free_count() < area.frames_needed(
                        &old(self).table(),
                        old(mem),
                    )
                },
            },
            forall|q: u64| #[trigger] old(self).owns(q) ==> final(self).owns(q),
            forall|q: u64|
                #[trigger] final(self).owns(q) && !old(self).owns(q) ==> !old(mem).is_allocated(q),
            forall|q: u64| #[trigger]
                final(mem).is_allocated(q) <==> (old(mem).is_allocated(q) || final(self).owns(q)),
            forall|q: u64|
                old(mem).contains(q) && !final(self).owns(q) ==> #[trigger] final(mem).frame(q)
                    == old(mem).frame(q),
    {
        let ghost ms0 = *self;
        let ghost mem0 = *mem;
        proof {
            ms0.lemma_owned_allocated(&mem0);
        }
        let mut area = area;
        match area.map(&mut self.page_table, mem) {
            Err(e) => Err(e),
            Ok(()) => {
                self.areas.push(area);
                proof {
                    assert(self.areas().drop_last() =~= ms0.areas());
                    MemorySet::lemma_push(&ms0, &mem0, self, mem);
                }
                Ok(())
            },
        }
    }

    /// Adds a frame-backed area over the pages that the addresses
    /// `start_va..end_va` touch, each page with a fresh, zeroed frame. A
    /// request that the table refuses changes nothing.
    pub fn insert_framed_area(
        &mut self,
        mem: &mut PhysMemory,
        start_va: VirtAddr,
        end_va: VirtAddr,
        permission: MapPermission,
    ) -> (r: Result<(), MapError>)
        requires
            old(self).wf(old(mem)),
            start_va.0 <= end_va.0 <= VA_LIMIT,
            permission.wf(),
        ensures
            final(self).wf(final(mem)),
            final(mem).wf(),
            final(self).table().root() == old(self).table().root(),
            final(mem).state().start == old(mem).state().start,
            final(mem).state().end == old(mem).state().end,
            r is Err ==> *final(self) == *old(self) && *final(mem) == *old(mem),
            ({
                let s = (start_va.0 / 4096) as u64;
                let e = ((end_va.0 + 4095) / 4096) as u64;
                let needed = spec_frames_needed(old(mem), old(self).table().root(), s, e, 1);
                match r {
                    Ok(()) => {
                        &&& permission.grants_access()
                        &&& forall|u: u64|
                            s <= u < e ==> #[trigger] old(self).walk(old(mem), u) is None
                        &&& old(mem).state().free_count() >= needed
                        &&& final(mem).state().free_count() == old(mem).state().free_count()
                            - needed
                        &&& final(self).areas().len() == old(self).areas().len() + 1
                        &&& final(self).areas().drop_last() == old(self).areas()
                        &&& final(self).areas().last().start() == s
                        &&& final(self).areas().last().end() == e
                        &&& final(self).areas().last().kind() == MapType::Framed
                        &&& final(self).areas().last().perm() == permission
                        &&& forall|u: u64|
                            u < VPN_LIMIT ==> #[trigger] final(self).walk(final(mem), u) == if s
                                <= u < e {
                                Some(final(self).areas().last().entry_of(u))
                            } else {
                                old(self).walk(old(mem), u)
                            }
                        &&& forall|j: int|
                            0 <= j < final(self).areas().last().frames().len()
                                ==> final(mem).frame(#[trigger] final(self).areas().last().frames()[j])
                                == zero_frame()
                        &&& final(mem).state() == old(mem).state().after_allocs(needed)
                        &&& final(self).table().node_frames() == old(self).table().node_frames()
                            + spec_nodes_taken(old(mem), old(self).table().root(), s, e, 1)
                        &&& forall|j: int|
                            0 <= j < final(self).areas().last().frames().len()
                                ==> old(mem).state().nth_frame(
                                spec_frames_needed(
                                    old(mem),
                                    old(self).table().root(),
                                    s,
                                    (s + j) as u64,
                                    1,
                                ),
                            ) == Some(#[trigger] final(self).areas().last().frames()[j])
                    },
                    Err(MapError::InvalidPermission) => !permission.grants_access(),
                    Err(MapError::AlreadyMapped) => {
                        &&& permission.grants_access()
                        &&& exists|u: u64|
                            s <= u < e && #[trigger] old(self).walk(old(mem), u) is Some
                    },
                    Err(MapError::OutOfFrames) => {
                        &&& permission.grants_access()
                        &&& forall|u: u64|
                            s <= u < e ==> #[trigger] old(self).walk(old(mem), u) is None
                        &&& old(mem).state().free_count() < needed
                    },
                }
            }),
            forall|q: u64| #[trigger] old(self).owns(q) ==> final(self).owns(q),
            forall|q: u64|
                #[trigger] final(self).owns(q) && !old(self).owns(q) ==> !old(mem).is_allocated(q),
            forall|q: u64| #[trigger]
                final(mem).is_allocated(q) <==> (old(mem).is_allocated(q) || final(self).owns(q)),
            forall|q: u64|
                old(mem).contains(q) && !final(self).owns(q) ==> #[trigger] final(mem).frame(q)
                    == old(mem).frame(q),
    {
        let area = MapArea::new(start_va, end_va, MapType::Framed, permission);
        self.push(mem, area)
    }

    /// Position of the first area that starts at the page, or the number
    /// of areas where there is none.
    pub fn find_area(&self, start_vpn: VirtPageNum) -> (i: usize)
        ensures
            i == find_start(self.areas(), start_vpn.0, 0),
            i <= self.areas().len(),
            i < self.areas().len() ==> self.areas()[i as int].start() == start_vpn.0,
    {
        let mut i: usize = 0;
        while i < self.areas.len()
            invariant
                i <= self.areas@.len(),
                find_start(self.areas(), start_vpn.0, 0) == find_start(
                    self.areas(),
                    start_vpn.0,
                    i as int,
                ),
            decreases self.areas@.len() - i,
        {
            if self.areas[i].get_start().0 == start_vpn.0 {
                return i;
            }
            i = i + 1;
        }
        i
    }

    /// Unmaps the first area that starts at the page and removes it from
    /// the set; its frames go back to the allocator. The result says
    /// whether there was such an area; where there was none, nothing
    /// changes.
    pub fn remove_area_with_start_vpn(&mut self, mem: &mut PhysMemory, start_vpn: VirtPageNum) -> (r:
        bool)
        requires
            old(self).wf(old(mem)),
        ensures
            final(self).wf(final(mem)),
            final(mem).wf(),
            final(self).table() == old(self).table(),
            final(mem).state().start == old(mem).state().start,
            final(mem).state().end == old(mem).state().end,
            ({
                let i = find_start(old(self).areas(), start_vpn.0, 0);
                if i < old(self).areas().len() {
                    &&& r
                    &&& final(self).areas() == old(self).areas().remove(i)
                    &&& forall|u: u64|
                        u < VPN_LIMIT ==> #[trigger] final(self).walk(final(mem), u)
                            == if old(self).areas()[i].contains(u) {
                            None
                        } else {
                            old(self).walk(old(mem), u)
                        }
                    &&& forall|q: u64| #[trigger]
                        final(mem).is_allocated(q)
                            <==> (old(mem).is_allocated(q)
                                && !old(self).areas()[i].frames().contains(q))
                    &&& forall|q: u64| #[trigger]
                        final(self).owns(q) <==> (old(self).owns(q)
                            && !old(self).areas()[i].frames().contains(q))
                    &&& final(mem).state() == old(mem).state().after_deallocs(
                        old(self).areas()[i].frames().reverse(),
                    )
                } else {
                    &&& !r
                    &&& *final(self) == *old(self)
                    &&& *final(mem) == *old(mem)
                }
            }),
            forall|q: u64|
                old(mem).contains(q) && !old(self).table().owned().contains(q)
                    ==> #[trigger] final(mem).frame(q) == old(mem).frame(q),
    {
        proof {
            self.lemma_owned_allocated(mem);
        }
        let i = self.find_area(start_vpn);
        if i >= self.areas.len() {
            return false;
        }
        self.remove_area_at(mem, i);
        true
    }

    /// Unmaps the area at a position and removes it from the set; its
    /// frames go back to the allocator.
    pub fn remove_area_at(&mut self, mem: &mut PhysMemory, i: usize)
        requires
            old(self).wf(old(mem)),
            i < old(self).areas().len(),
        ensures
            final(self).wf(final(mem)),
            final(mem).wf(),
            final(self).table() == old(self).table(),
            final(mem).state().start == old(mem).state().start,
            final(mem).state().end == old(mem).state().end,
            final(self).areas() == old(self).areas().remove(i as int),
            forall|u: u64|
                u < VPN_LIMIT ==> #[trigger] final(self).walk(final(mem), u)
                    == if old(self).areas()[i as int].contains(u) {
                    None
                } else {
                    old(self).walk(old(mem), u)
                },
            forall|q: u64| #[trigger]
                final(mem).is_allocated(q)
                    <==> (old(mem).is_allocated(q)
                        && !old(self).areas()[i as int].frames().contains(q)),
            forall|q: u64| #[trigger]
                final(self).owns(q) <==> (old(self).owns(q)
                    && !old(self).areas()[i as int].frames().contains(q)),
            forall|q: u64|
                old(mem).contains(q) && !old(self).table().owned().contains(q)
                    ==> #[trigger] final(mem).frame(q) == old(mem).frame(q),
            final(mem).state() == old(mem).state().after_deallocs(
                old(self).areas()[i as int].frames().reverse(),
            ),
    {
        let ghost ms0 = *self;
        let ghost mem0 = *mem;
        let mut area = self.areas.remove(i);
        proof {
            assert(area == ms0.areas()[i as int]);
            assert(area.mapped_in(&ms0.table(), &mem0));
        }
        area.unmap(&mut self.page_table, mem);
        proof {
            MemorySet::lemma_remove(&ms0, &mem0, self, mem, i as int);
        }
    }

    /// Extends the first area that starts at the page of `start` to end at
    /// the address `new_end`, rounded up to a whole page. The result says
    /// whether this was done; where it was not, nothing changes.
    #[verifier::rlimit(50)]
    pub fn append_to(&mut self, mem: &mut PhysMemory, start: VirtAddr, new_end: VirtAddr) -> (r:
        bool)
        requires
            old(self).wf(old(mem)),
        ensures
            final(self).wf(final(mem)),
            final(mem).wf(),
            final(self).table().root() == old(self).table().root(),
            r == can_append_to(old(self), old(mem), start.0, new_end.0),
            !r ==> *final(self) == *old(self) && *final(mem) == *old(mem),
            r ==> area_resized(old(self), old(mem), final(self), final(mem), start.0, new_end.0),
            r ==> final(mem).state().free_count() == old(mem).state().free_count()
                - spec_frames_needed(
                old(mem),
                old(self).table().root(),
                old(self).areas()[find_start(old(self).areas(), start.0 / 4096, 0)].end(),
                ((new_end.0 + 4095) / 4096) as u64,
                old(self).areas()[find_start(old(self).areas(), start.0 / 4096, 0)].per_page(),
            ),
            frames_passed(old(self), old(mem), final(self), final(mem)),
    {
        proof {
            self.lemma_owned_allocated(mem);
        }
        let i = self.find_area(start.floor());
        if i >= self.areas.len() || new_end.0 > VA_LIMIT {
            return false;
        }
        let ne = new_end.ceil();
        let a_end = self.areas[i].get_end();
        if ne.0 < a_end.0 {
            return false;
        }
        if self.page_table.interval_valid(mem, a_end, ne) {
            return false;
        }
        let per_page: usize = match self.areas[i].map_type() {
            MapType::Framed => 1,
            MapType::Identical => 0,
        };
        let needed: usize = self.page_table.frames_needed(mem, a_end, ne, per_page);
        if !mem.has_free_frames(needed) {
            return false;
        }
        let ghost ms0 = *self;
        let ghost mem0 = *mem;
        let mut area = self.areas.remove(i);
        proof {
            assert(area == ms0.areas()[i as int]);
            assert(area.mapped_in(&ms0.table(), &mem0));
        }
        match area.append_to(&mut self.page_table, mem, ne) {
            Ok(()) => {},
            Err(_) => {
                proof {
                    assert(false);
                }
            },
        }
        self.areas.insert(i, area);
        proof {
            let a0 = ms0.areas()[i as int];
            assert(self.areas().len() == ms0.areas().len());
            assert(self.areas()[i as int] == area);
            assert forall|k: int| 0 <= k < ms0.areas().len() && k != i implies 
                #[trigger] self.areas()[k] == ms0.areas()[k] by {}
            assert forall|q: u64| area.frames().contains(q) && !a0.frames().contains(
                q,
            ) implies !mem0.is_allocated(q) by {
                let j = choose|j: int| 0 <= j < area.frames().len() && area.frames()[j] == q;
                if j < a0.frames().len() {
                    assert(a0.frames()[j] == q);
                }
            }
            assert forall|q: u64| a0.frames().contains(q) implies area.frames().contains(q) by {
                let j = choose|j: int| 0 <= j < a0.frames().len() && a0.frames()[j] == q;
                assert(area.frames()[j] == q);
            }
            MemorySet::lemma_area_changed(&ms0, &mem0, self, mem, i as int);
            assert forall|u: u64| u < VPN_LIMIT implies #[trigger] self.walk(mem, u)
                == if area.contains(u) {
                Some(area.entry_of(u))
            } else if a0.contains(u) {
                None
            } else {
                ms0.walk(&mem0, u)
            } by {}
        }
        true
    }

    /// Cuts the first area that starts at the page of `start` to end at
    /// the address `new_end`, rounded up to a whole page: the pages that
    /// leave it are unmapped and their frames go back to the allocator.
    /// The result says whether this was done; where it was not, nothing
    /// changes.
    #[verifier::rlimit(50)]
    pub fn shrink_to(&mut self, mem: &mut PhysMemory, start: VirtAddr, new_end: VirtAddr) -> (r:
        bool)
        requires
            old(self).wf(old(mem)),
        ensures
            final(self).wf(final(mem)),
            final(mem).wf(),
            final(self).table() == old(self).table(),
            r == can_shrink_to(old(self), start.0, new_end.0),
            !r ==> *final(self) == *old(self) && *final(mem) == *old(mem),
            r ==> area_resized(old(self), old(mem), final(self), final(mem), start.0, new_end.0),
            frames_passed(old(self), old(mem), final(self), final(mem)),
    {
        proof {
            self.lemma_owned_allocated(mem);
        }
        let i = self.find_area(start.floor());
        if i >= self.areas.len() || new_end.0 > VA_LIMIT {
            return false;
        }
        let ne = new_end.ceil();
        let a_start = self.areas[i].get_start();
        let a_end = self.areas[i].get_end();
        if ne.0 < a_start.0 || ne.0 > a_end.0 {
            return false;
        }
        let ghost ms0 = *self;
        let ghost mem0 = *mem;
        let mut area = self.areas.remove(i);
        proof {
            assert(area == ms0.areas()[i as int]);
            assert(area.mapped_in(&ms0.table(), &mem0));
        }
        area.shrink_to(&mut self.page_table, mem, ne);
        self.areas.insert(i, area);
        proof {
            let a0 = ms0.areas()[i as int];
            let k1 = area.frames().len() as int;
            assert(self.areas().len() == ms0.areas().len());
            assert(self.areas()[i as int] == area);
            assert forall|k: int| 0 <= k < ms0.areas().len() && k != i implies 
                #[trigger] self.areas()[k] == ms0.areas()[k] by {}
            assert forall|j: int| 0 <= j < k1 implies #[trigger] area.frames()[j]
                == a0.frames()[j] by {}
            assert forall|q: u64| area.frames().contains(q) implies a0.frames().contains(q) by {
                let j = choose|j: int| 0 <= j < area.frames().len() && area.frames()[j] == q;
                assert(a0.frames()[j] == q);
            }
            let gone = a0.frames().subrange(k1, a0.frames().len() as int);
            assert forall|q: u64| gone.contains(q) <==> (a0.frames().contains(q)
                && !area.frames().contains(q)) by {
                if gone.contains(q) {
                    let j = choose|j: int| 0 <= j < gone.len() && gone[j] == q;
                    assert(a0.frames()[k1 + j] == q);
                    if area.frames().contains(q) {
                        let l = choose|l: int| 0 <= l < area.frames().len()
                            && area.frames()[l] == q;
                        assert(a0.frames()[l] == q);
                    }
                }
                if a0.frames().contains(q) && !area.frames().contains(q) {
                    let j = choose|j: int| 0 <= j < a0.frames().len() && a0.frames()[j] == q;
                    if j < k1 {
                        assert(area.frames()[j] == q);
                    } else {
                        assert(gone[j - k1] == q);
                    }
                }
            }
            ms0.table().lemma_wf(&mem0);
            assert forall|q: u64|
                mem0.contains(q) && !self.table().owned().contains(q) && (mem0.is_allocated(q)
                    || !area.frames().contains(q)) implies #[trigger] mem.frame(q) == mem0.frame(
                q,
            ) by {}
            assert(self.table().node_frames() + Seq::<u64>::empty()
                =~= self.table().node_frames());
            if area.end() >= a0.end() {
                assert(gone =~= Seq::<u64>::empty());
                assert(gone.reverse() =~= Seq::<u64>::empty());
                mem0.state().lemma_after_deallocs(Seq::<u64>::empty(), Seq::<u64>::empty(), 0);
                mem0.state().lemma_taken_shift(0, 0, 0);
            }
            MemorySet::lemma_area_changed(&ms0, &mem0, self, mem, i as int);
            assert forall|u: u64| u < VPN_LIMIT implies #[trigger] self.walk(mem, u)
                == if area.contains(u) {
                Some(area.entry_of(u))
            } else if a0.contains(u) {
                None
            } else {
                ms0.walk(&mem0, u)
            } by {}
        }
        true
    }

    /// Changing the end of one area, its pages and frames with it, keeps
    /// the set consistent.
    #[verifier::rlimit(50)]
    proof fn lemma_area_changed(
        ms0: &MemorySet,
        mem0: &PhysMemory,
        ms1: &MemorySet,
        mem1: &PhysMemory,
        i: int,
    )
        requires
            ms0.wf(mem0),
            0 <= i < ms0.areas().len(),
            ms1.areas().len() == ms0.areas().len(),
            forall|k: int|
                0 <= k < ms0.areas().len() && k != i ==> #[trigger] ms1.areas()[k]
                    == ms0.areas()[k],
            ms1.table().wf(mem1),
            ms1.table().root() == ms0.table().root(),
            ms1.areas()[i].mapped_in(&ms1.table(), mem1),
            ms1.areas()[i].start() == ms0.areas()[i].start(),
            mem1.state().start == mem0.state().start,
            mem1.state().end == mem0.state().end,
            forall|u: u64|
                u < VPN_LIMIT && !ms0.areas()[i].contains(u) && !ms1.areas()[i].contains(u)
                    ==> #[trigger] ms1.table().walk(mem1, u) == ms0.table().walk(mem0, u),
            forall|u: u64|
                u < VPN_LIMIT && ms0.areas()[i].contains(u) && !ms1.areas()[i].contains(u)
                    ==> #[trigger] ms1.table().walk(mem1, u) is None,
            forall|u: u64|
                ms1.areas()[i].contains(u) && !ms0.areas()[i].contains(u)
                    ==> #[trigger] ms0.table().walk(mem0, u) is None,
            forall|q: u64|
                ms1.areas()[i].frames().contains(q) && !ms0.areas()[i].frames().contains(q)
                    ==> !#[trigger] mem0.is_allocated(q),
            forall|q: u64| #[trigger]
                ms0.table().owned().contains(q) ==> ms1.table().owned().contains(q),
            forall|q: u64|
                #[trigger] ms1.table().owned().contains(q) && !ms0.table().owned().contains(q)
                    ==> !mem0.is_allocated(q),
            forall|q: u64| #[trigger]
                mem1.is_allocated(q) <==> ((mem0.is_allocated(q) && !(
                ms0.areas()[i].frames().contains(q) && !ms1.areas()[i].frames().contains(q)))
                    || ms1.table().owned().contains(q) || ms1.areas()[i].frames().contains(q)),
            forall|q: u64|
                mem0.contains(q) && !ms1.table().owned().contains(q) && (mem0.is_allocated(q)
                    || !ms1.areas()[i].frames().contains(q)) ==> #[trigger] mem1.frame(q)
                    == mem0.frame(q),
        ensures
            ms1.wf(mem1),
            frames_passed(ms0, mem0, ms1, mem1),
    {
        let pt0 = ms0.table();
        let pt1 = ms1.table();
        let a0 = ms0.areas()[i];
        let a1 = ms1.areas()[i];
        let n = ms0.areas().len() as int;
        ms0.lemma_owned_allocated(mem0);
        mem0.lemma_wf();
        assert(a0.mapped_in(&pt0, mem0));
        // every other area shares no page and no frame with the changed one
        assert forall|k: int| 0 <= k < n && k != i implies {
            &&& forall|u: u64|
                (#[trigger] ms0.areas()[k]).contains(u) ==> !a0.contains(u) && !a1.contains(u)
            &&& frames_apart(&ms0.areas()[k], &a0)
            &&& frames_apart(&ms0.areas()[k], &a1)
        } by {
            let b = ms0.areas()[k];
            assert(b.mapped_in(&pt0, mem0));
            if k < i {
                assert(areas_apart(&ms0.areas()[k], &ms0.areas()[i]));
                assert(frames_apart(&ms0.areas()[k], &ms0.areas()[i]));
            } else {
                assert(areas_apart(&ms0.areas()[i], &ms0.areas()[k]));
                assert(frames_apart(&ms0.areas()[i], &ms0.areas()[k]));
            }
            assert forall|u: u64| b.contains(u) implies !a0.contains(u) && !a1.contains(u) by {
                assert(pt0.walk(mem0, u) == Some(b.entry_of(u)));
            }
            assert forall|x: int, y: int|
                0 <= x < b.frames().len() && 0 <= y < a1.frames().len() implies 
                #[trigger] b.frames()[x] != #[trigger] a1.frames()[y] by {
                let q = a1.frames()[y];
                assert(mem0.is_allocated(b.frames()[x]));
                if b.frames()[x] == q {
                    assert(a1.frames().contains(q));
                    if a0.frames().contains(q) {
                        let z = choose|z: int| 0 <= z < a0.frames().len() && a0.frames()[z] == q;
                        assert(b.frames()[x] != a0.frames()[z]);
                    }
                }
            }
        }
        assert forall|k: int| 0 <= k < n implies (#[trigger] ms1.areas()[k]).mapped_in(
            &pt1,
            mem1,
        ) by {
            if k != i {
                let b = ms0.areas()[k];
                assert(ms1.areas()[k] == b);
                assert(b.mapped_in(&pt0, mem0));
                assert forall|u: u64| b.contains(u) implies #[trigger] pt1.walk(mem1, u) == Some(
                    b.entry_of(u),
                ) by {
                    assert(pt0.walk(mem0, u) == Some(b.entry_of(u)));
                    assert(!a0.contains(u) && !a1.contains(u));
                }
                assert forall|j: int| 0 <= j < b.frames().len() implies mem1.is_allocated(
                    #[trigger] b.frames()[j],
                ) && !pt1.owned().contains(b.frames()[j]) by {
                    let q = b.frames()[j];
                    assert(mem0.is_allocated(q));
                    if a0.frames().contains(q) {
                        let z = choose|z: int| 0 <= z < a0.frames().len() && a0.frames()[z] == q;
                        assert(b.frames()[j] != a0.frames()[z]);
                    }
                }
            }
        }
        assert forall|k: int, l: int| 0 <= k < l < n implies areas_apart(
            #[trigger] &ms1.areas()[k],
            #[trigger] &ms1.areas()[l],
        ) && frames_apart(&ms1.areas()[k], &ms1.areas()[l]) by {
            if k != i && l != i {
                assert(areas_apart(&ms0.areas()[k], &ms0.areas()[l]));
            } else {
                let o = if k == i {
                    l
                } else {
                    k
                };
                let b = ms0.areas()[o];
                assert(ms1.areas()[o] == b);
                assert(forall|u: u64| b.contains(u) ==> !a1.contains(u));
                if b.start() < b.end() && a1.start() < a1.end() {
                    if !(b.end() <= a1.start() || a1.end() <= b.start()) {
                        let u = if b.start() >= a1.start() {
                            b.start()
                        } else {
                            a1.start()
                        };
                        assert(b.contains(u) && a1.contains(u));
                    }
                }
                assert(frames_apart(&b, &a1));
                if k == i {
                    assert forall|x: int, y: int|
                        0 <= x < a1.frames().len() && 0 <= y < b.frames().len() implies 
                        #[trigger] a1.frames()[x] != #[trigger] b.frames()[y] by {
                        assert(b.frames()[y] != a1.frames()[x]);
                    }
                }
            }
        }
        assert forall|u: u64|
            u < VPN_LIMIT && (#[trigger] ms1.walk(mem1, u)) is Some implies ms1.covers(u) by {
            if a1.contains(u) {
                assert(ms1.areas()[i].contains(u));
            } else {
                assert(!a0.contains(u));
                assert(ms0.walk(mem0, u) is Some);
                assert(ms0.covers(u));
                let k = choose|k: int|
                    0 <= k < ms0.areas().len() && (#[trigger] ms0.areas()[k]).contains(u);
                assert(ms1.areas()[k] == ms0.areas()[k]);
                assert(ms1.areas()[k].contains(u));
            }
        }
        assert forall|q: u64| ms1.holds_frame(q) <==> ((ms0.holds_frame(q) && !(
        a0.frames().contains(q) && !a1.frames().contains(q))) || a1.frames().contains(q)) by {
            if ms1.holds_frame(q) {
                let k = choose|k: int|
                    0 <= k < ms1.areas().len() && (#[trigger] ms1.areas()[k]).frames().contains(q);
                if k != i {
                    assert(ms0.areas()[k].frames().contains(q));
                    assert(frames_apart(&ms0.areas()[k], &a0));
                    if a0.frames().contains(q) {
                        let x = choose|x: int|
                            0 <= x < ms0.areas()[k].frames().len() && ms0.areas()[k].frames()[x]
                                == q;
                        let z = choose|z: int| 0 <= z < a0.frames().len() && a0.frames()[z] == q;
                        assert(ms0.areas()[k].frames()[x] != a0.frames()[z]);
                    }
                }
            }
            if ms0.holds_frame(q) && !(a0.frames().contains(q) && !a1.frames().contains(q)) {
                let k = choose|k: int|
                    0 <= k < ms0.areas().len() && (#[trigger] ms0.areas()[k]).frames().contains(q);
                if k != i {
                    assert(ms1.areas()[k].frames().contains(q));
                } else {
                    assert(ms1.areas()[i].frames().contains(q));
                }
            }
            if a1.frames().contains(q) {
                assert(ms1.areas()[i].frames().contains(q));
            }
            if a0.frames().contains(q) {
                assert(ms0.areas()[i].frames().contains(q));
            }
        }
        ms1.lemma_owned_allocated(mem1);
        assert forall|q: u64| #[trigger] ms1.owns(q) && !ms0.owns(q) implies !mem0.is_allocated(
            q,
        ) by {}
        assert forall|q: u64| #[trigger]
            mem1.is_allocated(q) <==> ((mem0.is_allocated(q) && !ms0.owns(q)) || ms1.owns(q)) by {
            if a0.frames().contains(q) {
                assert(ms0.holds_frame(q));
            }
            if ms0.owns(q) {
                assert(mem0.is_allocated(q));
            }
            if pt0.owned().contains(q) && a0.frames().contains(q) {
                let z = choose|z: int| 0 <= z < a0.frames().len() && a0.frames()[z] == q;
                assert(!pt0.owned().contains(a0.frames()[z]));
            }
        }
        assert forall|q: u64|
            mem0.contains(q) && !ms0.owns(q) && !ms1.owns(q) implies #[trigger] mem1.frame(q)
            == mem0.frame(q) by {
            if a1.frames().contains(q) {
                assert(ms1.holds_frame(q));
            }
        }
    }

    /// How the pages of the area at a position get their frames.
    pub fn area_kind(&self, i: usize) -> (t: MapType)
        requires
            i < self.areas().len(),
        ensures
            t == self.areas()[i as int].kind(),
    {
        self.areas[i].map_type()
    }

    /// How many areas the set holds.
    pub fn area_count(&self) -> (n: usize)
        ensures
            n == self.areas().len(),
    {
        self.areas.len()
    }

    /// The first page of the area at a position and the page after its
    /// last.
    pub fn area_range(&self, i: usize) -> (r: (VirtPageNum, VirtPageNum))
        requires
            i < self.areas().len(),
        ensures
            r.0.0 == self.areas()[i as int].start(),
            r.1.0 == self.areas()[i as int].end(),
    {
        (self.areas[i].get_start(), self.areas[i].get_end())
    }

    /// Unmaps every area and gives every frame of the address space, the
    /// table's nodes too, back to the allocator.
    #[verifier::rlimit(50)]
    pub fn release(self, mem: &mut PhysMemory)
        requires
            self.wf(old(mem)),
        ensures
            final(mem).wf(),
            final(mem).state().start == old(mem).state().start,
            final(mem).state().end == old(mem).state().end,
            forall|q: u64| #[trigger]
                final(mem).is_allocated(q) <==> (old(mem).is_allocated(q) && !self.owns(q)),
            forall|q: u64|
                old(mem).contains(q) && !self.table().owned().contains(q)
                    ==> #[trigger] final(mem).frame(q) == old(mem).frame(q),
            final(mem).state() == old(mem).state().after_deallocs(self.release_order()),
    {
        let ghost ms0 = self;
        let ghost mem0 = *mem;
        let mut ms = self;
        let ghost mut done: Seq<u64> = Seq::empty();
        proof {
            mem0.state().lemma_after_deallocs(Seq::<u64>::empty(), Seq::<u64>::empty(), 0);
            assert(done + areas_release_order(ms.areas()) =~= areas_release_order(ms0.areas()));
        }
        while ms.areas.len() > 0
            invariant
                ms.wf(mem),
                ms0.wf(&mem0),
                ms.table() == ms0.table(),
                ms.areas().len() <= ms0.areas().len(),
                ms.areas() == ms0.areas().subrange(0, ms.areas().len() as int),
                mem.state().start == mem0.state().start,
                mem.state().end == mem0.state().end,
                forall|q: u64| #[trigger]
                    mem.is_allocated(q) <==> (mem0.is_allocated(q) && !(ms0.holds_frame(q)
                        && !ms.holds_frame(q))),
                forall|q: u64|
                    mem0.contains(q) && !ms0.table().owned().contains(q) ==> #[trigger] mem.frame(q)
                        == mem0.frame(q),
                mem.state() == mem0.state().after_deallocs(done),
                done + areas_release_order(ms.areas()) == areas_release_order(ms0.areas()),
            decreases ms.areas.len(),
        {
            let ghost ms1 = ms;
            let ghost mem1 = *mem;
            let ghost n = ms.areas().len() as int;
            let mut area = ms.areas.pop().unwrap();
            proof {
                assert(area == ms1.areas()[n - 1]);
                assert(area.mapped_in(&ms1.table(), &mem1));
                assert(ms.areas() =~= ms1.areas().remove(n - 1));
                assert(ms.areas() =~= ms0.areas().subrange(0, n - 1));
            }
            area.unmap(&mut ms.page_table, mem);
            proof {
                MemorySet::lemma_remove(&ms1, &mem1, &ms, mem, n - 1);
                assert forall|q: u64| #[trigger]
                    mem.is_allocated(q) <==> (mem0.is_allocated(q) && !(ms0.holds_frame(q)
                        && !ms.holds_frame(q))) by {
                    let gone = ms1.areas()[n - 1].frames().contains(q);
                    assert(ms.owns(q) <==> (ms1.owns(q) && !gone));
                    ms1.lemma_owned_allocated(&mem1);
                    ms0.lemma_owned_allocated(&mem0);
                    ms1.table().lemma_wf(&mem1);
                    if gone {
                        assert(ms0.areas()[n - 1] == ms1.areas()[n - 1]);
                        assert(ms0.holds_frame(q));
                        assert(ms1.holds_frame(q));
                        assert(ms1.owns(q));
                        assert(!ms.owns(q));
                    }
                    if ms1.holds_frame(q) && !gone {
                        assert(ms1.owns(q));
                        assert(ms.owns(q));
                        if ms.table().owned().contains(q) {
                            let k = choose|k: int|
                                0 <= k < ms1.areas().len() && (
                                #[trigger] ms1.areas()[k]).frames().contains(q);
                            let a = ms1.areas()[k];
                            assert(a.mapped_in(&ms1.table(), &mem1));
                            let j = choose|j: int| 0 <= j < a.frames().len() && a.frames()[j] == q;
                            assert(!ms1.table().owned().contains(a.frames()[j]));
                        }
                    }
                    if ms.holds_frame(q) {
                        let k = choose|k: int|
                            0 <= k < ms.areas().len()
                                && (#[trigger] ms.areas()[k]).frames().contains(
                                q,
                            );
                        assert(ms1.areas()[k] == ms.areas()[k]);
                        assert(ms1.holds_frame(q));
                    }
                }
                assert forall|q: u64|
                    mem0.contains(q) && !ms0.table().owned().contains(q) implies #[trigger] mem.frame(
                    q,
                ) == mem0.frame(q) by {
                    assert(mem1.frame(q) == mem0.frame(q));
                }
                let gone = ms1.areas()[n - 1].frames().reverse();
                assert(ms1.areas().last() == ms1.areas()[n - 1]);
                assert(ms1.areas().drop_last() =~= ms.areas());
                assert(areas_release_order(ms1.areas()) == gone + areas_release_order(
                    ms.areas(),
                ));
                mem0.state().lemma_after_deallocs(done, gone, 0);
                assert((done + gone) + areas_release_order(ms.areas()) =~= done + (gone
                    + areas_release_order(ms.areas())));
                done = done + gone;
            }
        }
        let ghost mem2 = *mem;
        let MemorySet { page_table, areas } = ms;
        proof {
            page_table.lemma_wf(&mem2);
            assert forall|q: u64| !ms.holds_frame(q) by {
                if ms.holds_frame(q) {
                    let k = choose|k: int|
                        0 <= k < ms.areas().len()
                            && (#[trigger] ms.areas()[k]).frames().contains(q);
                }
            }
            ms0.lemma_owned_allocated(&mem0);
        }
        page_table.release(mem);
        proof {
            assert(areas_release_order(ms.areas()) =~= Seq::<u64>::empty());
            assert(done =~= areas_release_order(ms0.areas()));
            mem0.state().lemma_after_deallocs(done, page_table.node_frames().reverse(), 0);
            assert forall|q: u64| #[trigger]
                mem.is_allocated(q) <==> (mem0.is_allocated(q) && !ms0.owns(q)) by {
                if ms0.holds_frame(q) && ms0.table().owned().contains(q) {
                    let k = choose|k: int|
                        0 <= k < ms0.areas().len() && (#[trigger] ms0.areas()[k]).frames().contains(
                            q,
                        );
                    let a = ms0.areas()[k];
                    assert(a.mapped_in(&ms0.table(), &mem0));
                    let j = choose|j: int| 0 <= j < a.frames().len() && a.frames()[j] == q;
                    assert(!ms0.table().owned().contains(a.frames()[j]));
                }
                if ms0.owns(q) {
                    assert(mem0.is_allocated(q));
                }
            }
            assert forall|q: u64|
                mem0.contains(q) && !ms0.table().owned().contains(q) implies #[trigger] mem.frame(q)
                == mem0.frame(q) by {
                assert(mem2.frame(q) == mem0.frame(q));
            }
        }
    }

    /// Taking out an area that was just unmapped keeps the set consistent.
    #[verifier::rlimit(50)]
    proof fn lemma_remove(
        ms0: &MemorySet,
        mem0: &PhysMemory,
        ms1: &MemorySet,
        mem1: &PhysMemory,
        i: int,
    )
        requires
            ms0.wf(mem0),
            0 <= i < ms0.areas().len(),
            ms1.table() == ms0.table(),
            ms1.areas() == ms0.areas().remove(i),
            ms1.table().wf(mem1),
            mem1.state().start == mem0.state().start,
            mem1.state().end == mem0.state().end,
            forall|u: u64|
                u < VPN_LIMIT ==> #[trigger] ms1.table().walk(mem1, u)
                    == if ms0.areas()[i].contains(
                    u,
                ) {
                    None
                } else {
                    ms0.table().walk(mem0, u)
                },
            forall|q: u64| #[trigger]
                mem1.is_allocated(q)
                    <==> (mem0.is_allocated(q) && !ms0.areas()[i].frames().contains(
                    q,
                )),
        ensures
            ms1.wf(mem1),
            forall|q: u64| #[trigger]
                ms1.owns(q) <==> (ms0.owns(q) && !ms0.areas()[i].frames().contains(q)),
    {
        let pt = ms0.table();
        let gone = ms0.areas()[i];
        let n1 = ms1.areas().len() as int;
        assert(gone.mapped_in(&pt, mem0));
        assert forall|k: int| 0 <= k < n1 implies #[trigger] ms1.areas()[k] == ms0.areas()[if k
            < i {
            k
        } else {
            k + 1
        }] by {}
        assert forall|k: int| 0 <= k < ms0.areas().len() && k != i implies areas_apart(
            &ms0.areas()[k],
            &gone,
        ) && frames_apart(&ms0.areas()[k], &gone) by {
            if k < i {
                assert(areas_apart(&ms0.areas()[k], &ms0.areas()[i]));
            } else {
                assert(areas_apart(&ms0.areas()[i], &ms0.areas()[k]));
                assert(frames_apart(&ms0.areas()[i], &ms0.areas()[k]));
            }
        }
        assert forall|k: int| 0 <= k < n1 implies (#[trigger] ms1.areas()[k]).mapped_in(
            &ms1.table(),
            mem1,
        ) by {
            let k0 = if k < i {
                k
            } else {
                k + 1
            };
            let a = ms0.areas()[k0];
            assert(ms1.areas()[k] == a);
            assert(a.mapped_in(&pt, mem0));
            assert(areas_apart(&a, &gone) && frames_apart(&a, &gone));
            assert forall|u: u64| a.contains(u) implies #[trigger] pt.walk(mem1, u) == Some(
                a.entry_of(u),
            ) by {
                assert(pt.walk(mem0, u) == Some(a.entry_of(u)));
            }
            assert forall|j: int| 0 <= j < a.frames().len() implies mem1.is_allocated(
                #[trigger] a.frames()[j],
            ) && !pt.owned().contains(a.frames()[j]) by {
                assert(mem0.is_allocated(a.frames()[j]));
                if gone.frames().contains(a.frames()[j]) {
                    let y = choose|y: int|
                        0 <= y < gone.frames().len() && gone.frames()[y] == a.frames()[j];
                    assert(a.frames()[j] != gone.frames()[y]);
                }
            }
        }
        assert forall|k: int, l: int| 0 <= k < l < n1 implies areas_apart(
            #[trigger] &ms1.areas()[k],
            #[trigger] &ms1.areas()[l],
        ) && frames_apart(&ms1.areas()[k], &ms1.areas()[l]) by {
            let k0 = if k < i {
                k
            } else {
                k + 1
            };
            let l0 = if l < i {
                l
            } else {
                l + 1
            };
            assert(areas_apart(&ms0.areas()[k0], &ms0.areas()[l0]));
        }
        assert forall|u: u64|
            u < VPN_LIMIT && (#[trigger] ms1.walk(mem1, u)) is Some implies ms1.covers(u) by {
            assert(!gone.contains(u));
            assert(ms0.walk(mem0, u) is Some);
            assert(ms0.covers(u));
            let k0 = choose|k0: int|
                0 <= k0 < ms0.areas().len() && (#[trigger] ms0.areas()[k0]).contains(u);
            let k = if k0 < i {
                k0
            } else {
                k0 - 1
            };
            assert(ms1.areas()[k] == ms0.areas()[k0]);
            assert(ms1.areas()[k].contains(u));
        }
        assert forall|q: u64| #[trigger]
            ms1.owns(q) <==> (ms0.owns(q) && !gone.frames().contains(q)) by {
            if ms1.holds_frame(q) {
                let k = choose|k: int|
                    0 <= k < ms1.areas().len() && (#[trigger] ms1.areas()[k]).frames().contains(q);
                let k0 = if k < i {
                    k
                } else {
                    k + 1
                };
                assert(ms1.areas()[k] == ms0.areas()[k0]);
                assert(ms0.areas()[k0].frames().contains(q));
                assert(frames_apart(&ms0.areas()[k0], &gone));
                if gone.frames().contains(q) {
                    let x = choose|x: int|
                        0 <= x < ms0.areas()[k0].frames().len() && ms0.areas()[k0].frames()[x]
                            == q;
                    let y = choose|y: int| 0 <= y < gone.frames().len() && gone.frames()[y] == q;
                    assert(ms0.areas()[k0].frames()[x] != gone.frames()[y]);
                }
            }
            if ms0.holds_frame(q) && !gone.frames().contains(q) {
                let k0 = choose|k0: int|
                    0 <= k0 < ms0.areas().len() && (#[trigger] ms0.areas()[k0]).frames().contains(
                        q,
                    );
                let k = if k0 < i {
                    k0
                } else {
                    k0 - 1
                };
                assert(ms1.areas()[k] == ms0.areas()[k0]);
                assert(ms1.areas()[k].frames().contains(q));
            }
            if pt.owned().contains(q) && gone.frames().contains(q) {
                let y = choose|y: int| 0 <= y < gone.frames().len() && gone.frames()[y] == q;
                assert(!pt.owned().contains(gone.frames()[y]));
            }
        }
    }

    /// Every frame that the address space owns is handed out.
    pub proof fn lemma_owned_allocated(&self, mem: &PhysMemory)
        requires
            self.wf(mem),
        ensures
            mem.wf(),
            forall|q: u64| #[trigger] self.owns(q) ==> mem.is_allocated(q),
    {
        self.table().lemma_wf(mem);
        assert forall|q: u64| #[trigger] self.owns(q) implies mem.is_allocated(q) by {
            if self.holds_frame(q) {
                let i = choose|i: int|
                    0 <= i < self.areas().len() && (#[trigger] self.areas()[i]).frames().contains(
                        q,
                    );
                let a = self.areas()[i];
                assert(a.mapped_in(&self.table(), mem));
                let j = choose|j: int| 0 <= j < a.frames().len() && a.frames()[j] == q;
                assert(mem.is_allocated(a.frames()[j]));
            }
        }
    }

    /// Adding an area that was just mapped keeps the set consistent.
    #[verifier::rlimit(50)]
    proof fn lemma_push(ms0: &MemorySet, mem0: &PhysMemory, ms1: &MemorySet, mem1: &PhysMemory)
        requires
            ms0.wf(mem0),
            ms1.areas().len() == ms0.areas().len() + 1,
            ms1.areas().drop_last() == ms0.areas(),
            ms1.table().wf(mem1),
            ms1.table().root() == ms0.table().root(),
            mem1.state().start == mem0.state().start,
            mem1.state().end == mem0.state().end,
            ms1.areas().last().mapped_in(&ms1.table(), mem1),
            forall|u: u64|
                ms1.areas().last().contains(u) ==> #[trigger] ms0.table().walk(mem0, u) is None,
            forall|u: u64|
                u < VPN_LIMIT && !ms1.areas().last().contains(u) ==> #[trigger] ms1.table().walk(
                    mem1,
                    u,
                ) == ms0.table().walk(mem0, u),
            forall|j: int|
                0 <= j < ms1.areas().last().frames().len() ==> !mem0.is_allocated(
                    #[trigger] ms1.areas().last().frames()[j],
                ),
            forall|q: u64| #[trigger]
                ms0.table().owned().contains(q) ==> ms1.table().owned().contains(q),
            forall|q: u64|
                #[trigger] ms1.table().owned().contains(q) && !ms0.table().owned().contains(q)
                    ==> !mem0.is_allocated(q),
            forall|q: u64| #[trigger]
                mem1.is_allocated(q) <==> (mem0.is_allocated(q) || ms1.table().owned().contains(
                    q,
                ) || ms1.areas().last().frames().contains(q)),
            forall|q: u64|
                mem0.contains(q) && !ms1.table().owned().contains(q)
                    && !ms1.areas().last().frames().contains(q) ==> #[trigger] mem1.frame(q)
                    == mem0.frame(q),
        ensures
            ms1.wf(mem1),
            forall|q: u64| #[trigger] ms0.owns(q) ==> ms1.owns(q),
            forall|q: u64| #[trigger] ms1.owns(q) && !ms0.owns(q) ==> !mem0.is_allocated(q),
            forall|q: u64| #[trigger] mem1.is_allocated(q)
                <==> (mem0.is_allocated(q) || ms1.owns(q)),
            forall|q: u64|
                mem0.contains(q) && !ms1.owns(q) ==> #[trigger] mem1.frame(q) == mem0.frame(q),
    {
        let n = ms0.areas().len() as int;
        let new = ms1.areas().last();
        let pt0 = ms0.table();
        let pt1 = ms1.table();
        ms0.lemma_owned_allocated(mem0);
        mem0.lemma_wf();
        assert(ms1.areas()[n] == new);
        assert forall|i: int| 0 <= i < n implies #[trigger] ms1.areas()[i] == ms0.areas()[i] by {
            assert(ms1.areas().drop_last()[i] == ms1.areas()[i]);
        }
        assert forall|i: int| 0 <= i < ms1.areas().len() implies (
        #[trigger] ms1.areas()[i]).mapped_in(&pt1, mem1) by {
            if i < n {
                let a = ms0.areas()[i];
                assert(ms1.areas()[i] == a);
                assert(a.mapped_in(&pt0, mem0));
                assert forall|u: u64| a.contains(u) implies #[trigger] pt1.walk(mem1, u) == Some(
                    a.entry_of(u),
                ) by {
                    assert(pt0.walk(mem0, u) == Some(a.entry_of(u)));
                }
                assert forall|j: int| 0 <= j < a.frames().len() implies mem1.is_allocated(
                    #[trigger] a.frames()[j],
                ) && !pt1.owned().contains(a.frames()[j]) by {
                    assert(mem0.is_allocated(a.frames()[j]));
                }
            }
        }
        assert forall|i: int, j: int| 0 <= i < j < ms1.areas().len() implies areas_apart(
            #[trigger] &ms1.areas()[i],
            #[trigger] &ms1.areas()[j],
        ) && frames_apart(&ms1.areas()[i], &ms1.areas()[j]) by {
            if j < n {
                assert(areas_apart(&ms0.areas()[i], &ms0.areas()[j]));
            } else {
                let a = ms0.areas()[i];
                assert(ms1.areas()[i] == a);
                assert(a.mapped_in(&pt0, mem0));
                if a.start() < a.end() && new.start() < new.end() {
                    if !(a.end() <= new.start() || new.end() <= a.start()) {
                        let u = if a.start() >= new.start() {
                            a.start()
                        } else {
                            new.start()
                        };
                        assert(a.contains(u) && new.contains(u));
                        assert(pt0.walk(mem0, u) == Some(a.entry_of(u)));
                        assert(pt0.walk(mem0, u) is None);
                    }
                }
                assert forall|x: int, y: int|
                    0 <= x < a.frames().len() && 0 <= y < new.frames().len() implies 
                    #[trigger] a.frames()[x] != #[trigger] new.frames()[y] by {
                    assert(mem0.is_allocated(a.frames()[x]));
                    assert(!mem0.is_allocated(new.frames()[y]));
                }
            }
        }
        assert forall|u: u64|
            u < VPN_LIMIT && (#[trigger] ms1.walk(mem1, u)) is Some implies ms1.covers(u) by {
            if new.contains(u) {
                assert(ms1.areas()[n].contains(u));
            } else {
                assert(ms0.walk(mem0, u) is Some);
                assert(ms0.covers(u));
                let i = choose|i: int|
                    0 <= i < ms0.areas().len() && (#[trigger] ms0.areas()[i]).contains(u);
                assert(ms1.areas()[i].contains(u));
            }
        }
        assert forall|q: u64| ms1.holds_frame(q) <==> (ms0.holds_frame(q) || new.frames().contains(
            q,
        )) by {
            if ms1.holds_frame(q) {
                let i = choose|i: int|
                    0 <= i < ms1.areas().len() && (#[trigger] ms1.areas()[i]).frames().contains(q);
                if i < n {
                    assert(ms0.areas()[i].frames().contains(q));
                }
            }
            if ms0.holds_frame(q) {
                let i = choose|i: int|
                    0 <= i < ms0.areas().len() && (#[trigger] ms0.areas()[i]).frames().contains(q);
                assert(ms1.areas()[i].frames().contains(q));
            }
            if new.frames().contains(q) {
                assert(ms1.areas()[n].frames().contains(q));
            }
        }
        assert forall|q: u64| #[trigger] ms1.owns(q) && !ms0.owns(q) implies !mem0.is_allocated(
            q,
        ) by {
            if new.frames().contains(q) {
                let j = choose|j: int| 0 <= j < new.frames().len() && new.frames()[j] == q;
                assert(!mem0.is_allocated(new.frames()[j]));
            }
        }
        assert forall|q: u64| #[trigger]
            mem1.is_allocated(q) <==> (mem0.is_allocated(q) || ms1.owns(q)) by {
            if ms0.holds_frame(q) {
                assert(ms0.owns(q));
            }
        }
    }
}

} // verus!
