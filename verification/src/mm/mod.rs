//! Virtual memory: address types, the frame allocator, page tables and
//! address spaces, and the requests that a task makes of its own space.

pub mod address;
pub mod frame_allocator;
pub mod memory_set;
pub mod page_table;

pub use crate::mm::address::{PhysAddr, PhysPageNum, VirtAddr, VirtPageNum};
pub use crate::mm::frame_allocator::{FrameTracker, PhysMemory};
pub use crate::mm::memory_set::{MapArea, MapPermission, MapType, MemorySet};
pub use crate::mm::page_table::{PTEFlags, PageTable, PageTableEntry};

use crate::config::{PPN_LIMIT, VA_LIMIT, VPN_LIMIT};
use crate::mm::frame_allocator::{zero_frame, AllocatorState};
use crate::mm::memory_set::frames_passed;
use crate::mm::page_table::{spec_frames_needed, spec_nodes_taken, spec_walk};
use vstd::prelude::*;

verus! {

/// The value that selects an address space when it is written to the
/// address-translation register: mode SV39 in the top four bits, the root
/// frame's number below.
pub open spec fn spec_satp(root: u64) -> u64 {
    (0x8000_0000_0000_0000 + root % PPN_LIMIT) as u64
}

/// Sets up the memory of the frames `l..r`: every frame zero, the
/// allocator over all of them, and the kernel's own address space with an
/// empty table, whose root is the first frame. The third part of the
/// result is the value that activates this address space. The result is
/// nothing where the range has no frame.
pub fn init(l: PhysPageNum, r: PhysPageNum) -> (k: Option<(PhysMemory, MemorySet, u64)>)
    requires
        l.0 <= r.0 <= PPN_LIMIT,
        (r.0 - l.0) * 512 <= usize::MAX,
    ensures
        match k {
            Some((mem, kernel_space, satp)) => {
                &&& l.0 < r.0
                &&& kernel_space.wf(&mem)
                &&& mem.state() == AllocatorState::fresh(l.0, r.0).after_alloc()
                &&& kernel_space.table().root() == l.0
                &&& kernel_space.areas().len() == 0
                &&& kernel_space.mappings(&mem) == Map::<u64, PageTableEntry>::empty()
                &&& forall|q: u64| #[trigger] mem.is_allocated(q) <==> q == l.0
                &&& forall|q: u64| #[trigger] kernel_space.owns(q) <==> q == l.0
                &&& forall|q: u64| mem.contains(q) ==> #[trigger] mem.frame(q) == zero_frame()
                &&& satp == spec_satp(l.0)
            },
            None => l.0 == r.0,
        },
{
    let mut mem = PhysMemory::new(l, r);
    proof {
        mem.lemma_wf();
    }
    match MemorySet::new_bare(&mut mem) {
        None => None,
        Some(kernel_space) => {
            let satp = kernel_space.activate();
            proof {
                assert forall|q: u64| #[trigger] kernel_space.owns(q) <==> q == l.0 by {
                    if kernel_space.holds_frame(q) {
                        let i = choose|i: int|
                            0 <= i < kernel_space.areas().len() && (
                            #[trigger] kernel_space.areas()[i]).frames().contains(q);
                    }
                }
            }
            Some((mem, kernel_space, satp))
        },
    }
}

/// The address is mapped nowhere in the address space that was asked.
#[derive(Clone, Copy, Debug, PartialEq, Eq, Structural)]
pub struct NotMapped;

/// The physical address behind a virtual address of an address space, as
/// the walk from the root frame `token` gives it.
pub open spec fn spec_translate(mem: &PhysMemory, token: u64, ptr: usize) -> Option<PhysAddr> {
    let va = ((ptr as int) % (VA_LIMIT as int)) as u64;
    match spec_walk(mem, (token % PPN_LIMIT) as u64, va / 4096) {
        Some(e) => Some(PhysAddr((e.spec_ppn() * 4096 + va % 4096) as u64)),
        None => None,
    }
}

/// Resolves an address of the address space named by `token` to the
/// physical address that holds it: the frame of the page, and the same
/// offset inside it. Of the address the low 39 bits count, of the token
/// the low 44.
pub fn translate(mem: &PhysMemory, token: u64, ptr: usize) -> (r: Result<PhysAddr, NotMapped>)
    requires
        mem.wf(),
    ensures
        match spec_translate(mem, token, ptr) {
            Some(pa) => r == Ok::<PhysAddr, NotMapped>(pa),
            None => r == Err::<PhysAddr, NotMapped>(NotMapped),
        },
{
    let from_token = PageTable::from_token(token);
    let from = VirtAddr::from(ptr as u64);
    match from_token.find_pte(mem, from.floor()) {
        Some(entry) => Ok(PhysAddr(entry.ppn().0 * 4096 + from.page_offset())),
        None => Err(NotMapped),
    }
}

/// The first page that a request from the address `start` touches.
pub open spec fn first_page(start: usize) -> u64 {
    (start / 4096) as u64
}

/// The page after the last that a request over `len` bytes from `start`
/// touches.
pub open spec fn end_page(start: usize, len: usize) -> u64 {
    ((start + len + 4095) / 4096) as u64
}

/// The arguments of a request to map memory are acceptable: the start is
/// the first address of a page, the range ends inside the 39-bit space,
/// and the permission word holds one or more of Read (bit 0), Write
/// (bit 1), Execute (bit 2) and nothing else.
pub open spec fn valid_mmap_args(start: usize, len: usize, port: usize) -> bool {
    &&& start % 4096 == 0
    &&& 1 <= port <= 7
    &&& start + len <= VA_LIMIT
}

/// The permission of an area that a task asked for with the permission
/// word `port`: the three bits of the word, and User.
pub open spec fn mmap_permission(port: usize) -> MapPermission {
    MapPermission { bits: (port * 2 + 16) as u8 }
}

/// A request to map memory can be granted: its arguments are acceptable,
/// no page of it is mapped, and the frames that it takes are free.
pub open spec fn can_alloc(
    memory_set: &MemorySet,
    mem: &PhysMemory,
    start: usize,
    len: usize,
    port: usize,
) -> bool {
    &&& valid_mmap_args(start, len, port)
    &&& forall|u: u64|
        first_page(start) <= u < end_page(start, len) ==> #[trigger] memory_set.walk(mem, u)
            is None
    &&& mem.state().free_count() >= spec_frames_needed(
        mem,
        memory_set.table().root(),
        first_page(start),
        end_page(start, len),
        1,
    )
}

/// What a granted request to map memory does: the address space has one
/// more area, the last, over the pages of the request, frame-backed and
/// with the permission asked; each of its pages is mapped to a zeroed
/// frame of its own, every other page is mapped as before, and the
/// allocator has as many frames less as the request took.
pub open spec fn alloc_granted(
    ms0: &MemorySet,
    mem0: &PhysMemory,
    ms1: &MemorySet,
    mem1: &PhysMemory,
    start: usize,
    len: usize,
    port: usize,
) -> bool {
    let s = first_page(start);
    let e = end_page(start, len);
    let area = ms1.areas().last();
    &&& ms1.areas().len() == ms0.areas().len() + 1
    &&& ms1.areas().drop_last() == ms0.areas()
    &&& area.start() == s
    &&& area.end() == e
    &&& area.kind() == MapType::Framed
    &&& area.perm() == mmap_permission(port)
    &&& forall|u: u64|
        u < VPN_LIMIT ==> #[trigger] ms1.walk(mem1, u) == if s <= u < e {
            Some(area.entry_of(u))
        } else {
            ms0.walk(mem0, u)
        }
    &&& forall|j: int|
        0 <= j < area.frames().len() ==> mem1.frame(#[trigger] area.frames()[j]) == zero_frame()
    &&& mem1.state().free_count() == mem0.state().free_count() - spec_frames_needed(
        mem0,
        ms0.table().root(),
        s,
        e,
        1,
    )
    &&& mem1.state() == mem0.state().after_allocs(
        spec_frames_needed(mem0, ms0.table().root(), s, e, 1),
    )
    &&& ms1.table().node_frames() == ms0.table().node_frames() + spec_nodes_taken(
        mem0,
        ms0.table().root(),
        s,
        e,
        1,
    )
    &&& forall|j: int|
        0 <= j < area.frames().len() ==> mem0.state().nth_frame(
            spec_frames_needed(mem0, ms0.table().root(), s, (s + j) as u64, 1),
        ) == Some(#[trigger] area.frames()[j])
}

/// Maps `len` bytes from the address `start`, rounded up to whole pages,
/// as a new frame-backed area of the address space, open to user mode
/// with the permissions of `port`. A request of no length adds an area
/// without pages. The result is 0 where the request is granted and -1
/// where it is not; a request that is not granted changes nothing.
pub fn alloc_virtual_memory(
    memory_set: &mut MemorySet,
    mem: &mut PhysMemory,
    start: usize,
    len: usize,
    port: usize,
) -> (r: isize)
    requires
        old(memory_set).wf(old(mem)),
    ensures
        final(memory_set).wf(final(mem)),
        final(mem).wf(),
        final(memory_set).table().root() == old(memory_set).table().root(),
        final(mem).state().start == old(mem).state().start,
        final(mem).state().end == old(mem).state().end,
        r == 0 || r == -1,
        r == 0 <==> can_alloc(old(memory_set), old(mem), start, len, port),
        r == -1 ==> *final(memory_set) == *old(memory_set) && *final(mem) == *old(mem),
        r == 0 ==> alloc_granted(
            old(memory_set),
            old(mem),
            final(memory_set),
            final(mem),
            start,
            len,
            port,
        ),
        frames_passed(old(memory_set), old(mem), final(memory_set), final(mem)),
        forall|q: u64| #[trigger] old(memory_set).owns(q) ==> final(memory_set).owns(q),
{
    proof {
        memory_set.lemma_owned_allocated(mem);
    }
    if start % 4096 != 0 || port == 0 || port > 7 {
        return -1;
    }
    if start as u64 > VA_LIMIT || len as u64 > VA_LIMIT || start as u64 + len as u64 > VA_LIMIT {
        return -1;
    }
    let bits: u8 = (port * 2 + 16) as u8;
    let permission = MapPermission { bits };
    assert(permission.grants_access());
    let from = VirtAddr(start as u64);
    let to = VirtAddr(start as u64 + len as u64);
    match memory_set.insert_framed_area(mem, from, to, permission) {
        Ok(()) => 0,
        Err(_) => -1,
    }
}

/// The area has pages, and all of them lie in `from..to`.
pub open spec fn area_inside(a: &MapArea, from: u64, to: u64) -> bool {
    a.start() < a.end() && from <= a.start() && a.end() <= to
}

/// The area has pages in `from..to` and pages outside.
pub open spec fn area_straddles(a: &MapArea, from: u64, to: u64) -> bool {
    a.start() < a.end() && a.start() < to && from < a.end() && !(from <= a.start() && a.end()
        <= to)
}

/// The test that an area passes when a request to unmap `from..to` leaves
/// it in place.
pub open spec fn stays(from: u64, to: u64) -> spec_fn(MapArea) -> bool {
    |a: MapArea| !area_inside(&a, from, to)
}

/// A request to unmap memory can be granted: the start is the first
/// address of a page, the range ends inside the 39-bit space and touches
/// at least one page, every page of it is mapped, and it cuts through no
/// area: it covers whole areas only.
pub open spec fn can_free(memory_set: &MemorySet, mem: &PhysMemory, start: usize, len: usize) -> bool {
    let from = first_page(start);
    let to = end_page(start, len);
    &&& start % 4096 == 0
    &&& start + len <= VA_LIMIT
    &&& from < to
    &&& forall|u: u64| from <= u < to ==> #[trigger] memory_set.walk(mem, u) is Some
    &&& forall|k: int|
        0 <= k < memory_set.areas().len() ==> !area_straddles(
            #[trigger] &memory_set.areas()[k],
            from,
            to,
        )
}

/// One of the first `i` areas lies in `from..to` and contains the page.
pub open spec fn freed_before(areas: Seq<MapArea>, i: int, from: u64, to: u64, u: u64) -> bool {
    exists|k: int| 0 <= k < i && area_inside(#[trigger] &areas[k], from, to) && areas[k].contains(u)
}

/// Filtering one more area keeps it or leaves it out.
proof fn lemma_filter_step(areas: Seq<MapArea>, i: int, from: u64, to: u64)
    requires
        0 <= i < areas.len(),
    ensures
        areas.subrange(0, i + 1).filter(stays(from, to)) == if area_inside(&areas[i], from, to) {
            areas.subrange(0, i).filter(stays(from, to))
        } else {
            areas.subrange(0, i).filter(stays(from, to)).push(areas[i])
        },
{
    reveal(Seq::filter);
    let s = areas.subrange(0, i + 1);
    assert(s.drop_last() =~= areas.subrange(0, i));
    assert(s.last() == areas[i]);
}

/// What a granted request to unmap memory does: the areas inside the
/// range have left the address space, the others are there in their
/// order; no page of the range is mapped and every other page is mapped
/// as before.
pub open spec fn free_granted(
    ms0: &MemorySet,
    mem0: &PhysMemory,
    ms1: &MemorySet,
    mem1: &PhysMemory,
    start: usize,
    len: usize,
) -> bool {
    let from = first_page(start);
    let to = end_page(start, len);
    &&& ms1.areas() == ms0.areas().filter(stays(from, to))
    &&& forall|u: u64|
        u < VPN_LIMIT ==> #[trigger] ms1.walk(mem1, u) == if from <= u < to {
            None
        } else {
            ms0.walk(mem0, u)
        }
    &&& ms1.table() == ms0.table()
    &&& mem1.state() == mem0.state().after_deallocs(freed_order(ms0.areas(), from, to))
}

/// The frames that go back to the allocator when the areas inside
/// `from..to` are unmapped, the first area first, in the order in which
/// they go back: of each area the frame of the last page first.
pub open spec fn freed_order(areas: Seq<MapArea>, from: u64, to: u64) -> Seq<u64>
    decreases areas.len(),
{
    if areas.len() == 0 {
        Seq::empty()
    } else {
        freed_order(areas.drop_last(), from, to) + if area_inside(&areas.last(), from, to) {
            areas.last().frames().reverse()
        } else {
            Seq::empty()
        }
    }
}

/// Unmaps the `len` bytes from the address `start`, rounded up to whole
/// pages, where they are made of whole mapped areas: these areas leave
/// the address space and their frames go back to the allocator. The
/// result is 0 where the request is granted and -1 where it is not; a
/// request that is not granted changes nothing.
#[verifier::loop_isolation(false)]
#[verifier::rlimit(50)]
pub fn free_virtual_memory(
    memory_set: &mut MemorySet,
    mem: &mut PhysMemory,
    start: usize,
    len: usize,
) -> (r: isize)
    requires
        old(memory_set).wf(old(mem)),
    ensures
        final(memory_set).wf(final(mem)),
        final(mem).wf(),
        final(memory_set).table() == old(memory_set).table(),
        final(mem).state().start == old(mem).state().start,
        final(mem).state().end == old(mem).state().end,
        r == 0 || r == -1,
        r == 0 <==> can_free(old(memory_set), old(mem), start, len),
        r == -1 ==> *final(memory_set) == *old(memory_set) && *final(mem) == *old(mem),
        r == 0 ==> free_granted(
            old(memory_set),
            old(mem),
            final(memory_set),
            final(mem),
            start,
            len,
        ),
        frames_passed(old(memory_set), old(mem), final(memory_set), final(mem)),
        forall|q: u64| #[trigger] final(memory_set).owns(q) ==> old(memory_set).owns(q),
        forall|q: u64|
            old(mem).contains(q) && !old(memory_set).table().owned().contains(q)
                ==> #[trigger] final(mem).frame(q) == old(mem).frame(q),
{
    proof {
        memory_set.lemma_owned_allocated(mem);
    }
    if start % 4096 != 0 {
        return -1;
    }
    if start as u64 > VA_LIMIT || len as u64 > VA_LIMIT || start as u64 + len as u64 > VA_LIMIT {
        return -1;
    }
    let from = VirtAddr(start as u64).floor();
    let to = VirtAddr(start as u64 + len as u64).ceil();
    if from.0 >= to.0 {
        return -1;
    }
    if memory_set.interval_invalid(mem, from, to) {
        return -1;
    }
    let n: usize = memory_set.area_count();
    let mut k: usize = 0;
    while k < n
        invariant
            k <= n,
            n == memory_set.areas().len(),
            forall|j: int|
                0 <= j < k ==> !area_straddles(#[trigger] &memory_set.areas()[j], from.0, to.0),
        decreases n - k,
    {
        let (a_start, a_end) = memory_set.area_range(k);
        if a_start.0 < a_end.0 && a_start.0 < to.0 && from.0 < a_end.0 && !(from.0 <= a_start.0
            && a_end.0 <= to.0) {
            return -1;
        }
        k = k + 1;
    }
    let ghost ms0 = *memory_set;
    let ghost mem0 = *mem;
    let ghost all = ms0.areas();
    let ghost mut i: int = 0;
    let mut j: usize = 0;
    proof {
        reveal(Seq::filter);
        assert(all.subrange(0, 0).filter(stays(from.0, to.0)) =~= Seq::<MapArea>::empty());
        mem0.state().lemma_after_deallocs(Seq::<u64>::empty(), Seq::<u64>::empty(), 0);
        assert(memory_set.areas() =~= all.subrange(0, 0).filter(stays(from.0, to.0))
            + all.subrange(0, all.len() as int));
    }
    while j < memory_set.area_count()
        invariant
            memory_set.wf(mem),
            ms0.wf(&mem0),
            all == ms0.areas(),
            memory_set.table() == ms0.table(),
            mem.state().start == mem0.state().start,
            mem.state().end == mem0.state().end,
            0 <= i <= all.len(),
            j == all.subrange(0, i).filter(stays(from.0, to.0)).len(),
            memory_set.areas() == all.subrange(0, i).filter(stays(from.0, to.0)) + all.subrange(
                i,
                all.len() as int,
            ),
            forall|u: u64|
                u < VPN_LIMIT ==> #[trigger] memory_set.walk(mem, u) == if freed_before(
                    all,
                    i,
                    from.0,
                    to.0,
                    u,
                ) {
                    None
                } else {
                    ms0.walk(&mem0, u)
                },
            forall|q: u64| #[trigger] memory_set.owns(q) ==> ms0.owns(q),
            forall|q: u64| #[trigger]
                mem.is_allocated(q) <==> (mem0.is_allocated(q) && !(ms0.owns(q)
                    && !memory_set.owns(q))),
            forall|q: u64|
                mem0.contains(q) && !ms0.table().owned().contains(q) ==> #[trigger] mem.frame(q)
                    == mem0.frame(q),
            mem.state() == mem0.state().after_deallocs(
                freed_order(all.subrange(0, i), from.0, to.0),
            ),
        decreases all.len() - i,
    {
        let ghost ms1 = *memory_set;
        let ghost mem1 = *mem;
        proof {
            let part = all.subrange(0, i + 1);
            assert(part.drop_last() =~= all.subrange(0, i));
            assert(part.last() == all[i]);
        }
        let ghost kept = all.subrange(0, i).filter(stays(from.0, to.0));
        proof {
            assert(i < all.len());
            assert(ms1.areas()[j as int] == all[i]);
            lemma_filter_step(all, i, from.0, to.0);
            ms1.lemma_owned_allocated(&mem1);
        }
        let (a_start, a_end) = memory_set.area_range(j);
        if a_start.0 < a_end.0 && from.0 <= a_start.0 && a_end.0 <= to.0 {
            memory_set.remove_area_at(mem, j);
            proof {
                assert(area_inside(&all[i], from.0, to.0));
                mem0.state().lemma_after_deallocs(
                    freed_order(all.subrange(0, i), from.0, to.0),
                    all[i].frames().reverse(),
                    0,
                );
                assert(memory_set.areas() =~= kept + all.subrange(i + 1, all.len() as int));
                assert forall|u: u64| u < VPN_LIMIT implies #[trigger] memory_set.walk(mem, u)
                    == if freed_before(all, i + 1, from.0, to.0, u) {
                    None
                } else {
                    ms0.walk(&mem0, u)
                } by {
                    if all[i].contains(u) {
                        assert(freed_before(all, i + 1, from.0, to.0, u));
                    } else {
                        if freed_before(all, i + 1, from.0, to.0, u) {
                            let k = choose|k: int|
                                0 <= k < i + 1 && area_inside(#[trigger] &all[k], from.0, to.0)
                                    && all[k].contains(u);
                            assert(freed_before(all, i, from.0, to.0, u));
                        }
                        if freed_before(all, i, from.0, to.0, u) {
                            let k = choose|k: int|
                                0 <= k < i && area_inside(#[trigger] &all[k], from.0, to.0)
                                    && all[k].contains(u);
                            assert(freed_before(all, i + 1, from.0, to.0, u));
                        }
                    }
                }
                assert forall|q: u64| #[trigger]
                    mem.is_allocated(q) <==> (mem0.is_allocated(q) && !(ms0.owns(q)
                        && !memory_set.owns(q))) by {
                    if all[i].frames().contains(q) {
                        assert(ms1.areas()[j as int].frames().contains(q));
                        assert(ms1.holds_frame(q));
                        assert(ms1.owns(q));
                    }
                }
            }
        } else {
            proof {
                assert(!area_inside(&all[i], from.0, to.0));
                assert(freed_order(all.subrange(0, i), from.0, to.0) + Seq::<u64>::empty()
                    =~= freed_order(all.subrange(0, i), from.0, to.0));
                assert(memory_set.areas() =~= kept.push(all[i]) + all.subrange(
                    i + 1,
                    all.len() as int,
                ));
                assert forall|u: u64|
                    freed_before(all, i + 1, from.0, to.0, u) <==> freed_before(
                        all,
                        i,
                        from.0,
                        to.0,
                        u,
                    ) by {
                    if freed_before(all, i + 1, from.0, to.0, u) {
                        let k = choose|k: int|
                            0 <= k < i + 1 && area_inside(#[trigger] &all[k], from.0, to.0)
                                && all[k].contains(u);
                        assert(freed_before(all, i, from.0, to.0, u));
                    }
                    if freed_before(all, i, from.0, to.0, u) {
                        let k = choose|k: int|
                            0 <= k < i && area_inside(#[trigger] &all[k], from.0, to.0)
                                && all[k].contains(u);
                        assert(freed_before(all, i + 1, from.0, to.0, u));
                    }
                }
            }
            j = j + 1;
        }
        proof {
            i = i + 1;
        }
    }
    proof {
        all.subrange(0, i).lemma_filter_len(stays(from.0, to.0));
        assert(i == all.len());
        assert(all.subrange(0, i) =~= all);
        assert(memory_set.areas() =~= all.filter(stays(from.0, to.0)));
        assert forall|u: u64| u < VPN_LIMIT implies #[trigger] memory_set.walk(mem, u) == if from.0
            <= u < to.0 {
            None
        } else {
            ms0.walk(&mem0, u)
        } by {
            if from.0 <= u < to.0 {
                assert(ms0.walk(&mem0, u) is Some);
                assert(ms0.covers(u));
                let k = choose|k: int| 0 <= k < all.len() && (#[trigger] all[k]).contains(u);
                assert(!area_straddles(&all[k], from.0, to.0));
                assert(area_inside(&all[k], from.0, to.0));
                                assert(freed_before(all, i, from.0, to.0, u));
            } else {
                if freed_before(all, i, from.0, to.0, u) {
                    let k = choose|k: int|
                        0 <= k < i && area_inside(#[trigger] &all[k], from.0, to.0)
                            && all[k].contains(u);
                }
            }
        }
        memory_set.lemma_owned_allocated(mem);
        ms0.table().lemma_wf(&mem0);
        assert forall|q: u64|
            mem0.contains(q) && !ms0.owns(q) && !memory_set.owns(q) implies #[trigger] mem.frame(q)
            == mem0.frame(q) by {
            assert(!ms0.table().owned().contains(q));
        }
    }
    0
}

/// Memory that was just mapped can be unmapped again by the same start
/// and length: the request to unmap it can be granted.
#[verifier::rlimit(50)]
pub proof fn lemma_alloc_then_free(
    ms0: &MemorySet,
    mem0: &PhysMemory,
    ms1: &MemorySet,
    mem1: &PhysMemory,
    start: usize,
    len: usize,
    port: usize,
)
    requires
        ms0.wf(mem0),
        len > 0,
        can_alloc(ms0, mem0, start, len, port),
        alloc_granted(ms0, mem0, ms1, mem1, start, len, port),
    ensures
        can_free(ms1, mem1, start, len),
{
    let from = first_page(start);
    let to = end_page(start, len);
    let n = ms0.areas().len() as int;
    assert(from < to);
    assert(to <= VPN_LIMIT);
    assert forall|u: u64| from <= u < to implies #[trigger] ms1.walk(mem1, u) is Some by {}
    assert forall|k: int| 0 <= k < ms1.areas().len() implies !area_straddles(
        #[trigger] &ms1.areas()[k],
        from,
        to,
    ) by {
        if k < n {
            let a = ms0.areas()[k];
            assert(ms1.areas().drop_last()[k] == ms1.areas()[k]);
            assert(a.mapped_in(&ms0.table(), mem0));
            if a.start() < a.end() && a.start() < to && from < a.end() {
                let u = if a.start() >= from {
                    a.start()
                } else {
                    from
                };
                assert(a.contains(u));
                assert(ms0.walk(mem0, u) == Some(a.entry_of(u)));
                assert(ms0.walk(mem0, u) is None);
            }
        } else {
            assert(ms1.areas()[k] == ms1.areas().last());
        }
    }
}

/// Unmapping memory that was just mapped restores what the address space
/// mapped before, and the memory cannot be unmapped a second time.
#[verifier::rlimit(50)]
pub proof fn lemma_free_undoes_alloc(
    ms0: &MemorySet,
    mem0: &PhysMemory,
    ms1: &MemorySet,
    mem1: &PhysMemory,
    ms2: &MemorySet,
    mem2: &PhysMemory,
    start: usize,
    len: usize,
    port: usize,
)
    requires
        len > 0,
        can_alloc(ms0, mem0, start, len, port),
        alloc_granted(ms0, mem0, ms1, mem1, start, len, port),
        free_granted(ms1, mem1, ms2, mem2, start, len),
    ensures
        forall|u: u64| u < VPN_LIMIT ==> #[trigger] ms2.walk(mem2, u) == ms0.walk(mem0, u),
        ms2.mappings(mem2) == ms0.mappings(mem0),
        !can_free(ms2, mem2, start, len),
{
    let from = first_page(start);
    let to = end_page(start, len);
    assert(from < to <= VPN_LIMIT);
    assert forall|u: u64| u < VPN_LIMIT implies #[trigger] ms2.walk(mem2, u) == ms0.walk(
        mem0,
        u,
    ) by {
        assert(ms1.walk(mem1, u) == if from <= u < to {
            Some(ms1.areas().last().entry_of(u))
        } else {
            ms0.walk(mem0, u)
        });
    }
    assert(ms2.mappings(mem2) =~= ms0.mappings(mem0));
    assert(ms2.walk(mem2, from) is None);
}

} // verus!
