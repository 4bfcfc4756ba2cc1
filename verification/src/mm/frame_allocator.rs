//! Physical frames: which of them are handed out, and what they hold.

use crate::config::{PPN_LIMIT, PTE_COUNT};
use crate::mm::address::PhysPageNum;
use vstd::prelude::*;

verus! {

/// The allocator's bookkeeping as a mathematical value: the frames
/// `start..end` are managed, those below `current` were handed out at
/// least once, and `recycled` is the stack of frames that came back.
pub struct AllocatorState {
    pub start: u64,
    pub current: u64,
    pub end: u64,
    pub recycled: Seq<u64>,
}

impl AllocatorState {
    /// The bookkeeping is consistent.
    pub open spec fn wf(self) -> bool {
        &&& self.start <= self.current <= self.end <= PPN_LIMIT
        &&& self.recycled.no_duplicates()
        &&& forall|i: int|
            0 <= i < self.recycled.len() ==> self.start <= #[trigger] self.recycled[i]
                < self.current
    }

    /// A state in which no frame was ever handed out.
    pub open spec fn fresh(start: u64, end: u64) -> AllocatorState {
        AllocatorState { start, current: start, end, recycled: Seq::empty() }
    }

    /// The frame is handed out and has not come back.
    pub open spec fn is_allocated(self, ppn: u64) -> bool {
        self.start <= ppn < self.current && !self.recycled.contains(ppn)
    }

    /// The frame that the next allocation hands out: the one released last,
    /// or else the lowest that was never handed out; none when all are out.
    pub open spec fn next_frame(self) -> Option<u64> {
        if self.recycled.len() > 0 {
            Some(self.recycled.last())
        } else if self.current < self.end {
            Some(self.current)
        } else {
            None
        }
    }

    /// How many frames can still be handed out.
    pub open spec fn free_count(self) -> nat {
        ((self.end - self.current) + self.recycled.len()) as nat
    }

    /// The state after one allocation.
    pub open spec fn after_alloc(self) -> AllocatorState {
        if self.recycled.len() > 0 {
            AllocatorState { recycled: self.recycled.drop_last(), ..self }
        } else if self.current < self.end {
            AllocatorState { current: (self.current + 1) as u64, ..self }
        } else {
            self
        }
    }

    /// The state after `n` allocations.
    pub open spec fn after_allocs(self, n: nat) -> AllocatorState
        decreases n,
    {
        if n == 0 {
            self
        } else {
            self.after_allocs((n - 1) as nat).after_alloc()
        }
    }

    /// The frame that the allocation after `k` others hands out.
    pub open spec fn nth_frame(self, k: nat) -> Option<u64> {
        self.after_allocs(k).next_frame()
    }

    /// The frames that `n` allocations hand out after `skip` others, in
    /// their order.
    pub open spec fn taken(self, skip: nat, n: nat) -> Seq<u64> {
        Seq::new(n, |k: int| self.nth_frame((skip + k) as nat)->0)
    }

    /// The state after the frames of a sequence came back, the first of
    /// them first.
    pub open spec fn after_deallocs(self, frames: Seq<u64>) -> AllocatorState {
        AllocatorState { recycled: self.recycled + frames, ..self }
    }

    /// The state after the frame `ppn` came back.
    pub open spec fn after_dealloc(self, ppn: u64) -> AllocatorState {
        AllocatorState { recycled: self.recycled.push(ppn), ..self }
    }

    /// An allocation hands out a frame that was not out, and changes the
    /// status of no other frame.
    #[verifier::rlimit(50)]
    pub proof fn lemma_alloc(self)
        requires
            self.wf(),
        ensures
            self.after_alloc().wf(),
            self.after_alloc().start == self.start,
            self.after_alloc().end == self.end,
            self.next_frame() matches Some(p) ==> {
                &&& !self.is_allocated(p)
                &&& self.start <= p < self.end
                &&& forall|q: u64|
                    self.after_alloc().is_allocated(q) <==> (self.is_allocated(q) || q == p)
            },
            self.next_frame() is None ==> self.after_alloc() == self,
            self.next_frame() is Some <==> self.free_count() > 0,
            self.next_frame() is Some ==> self.after_alloc().free_count() == self.free_count() - 1,
    {
        let next = self.after_alloc();
        if self.recycled.len() > 0 {
            let p = self.recycled.last();
            let n = self.recycled.len() - 1;
            assert(self.recycled[n] == p);
            assert forall|q: u64| next.is_allocated(q) <==> (self.is_allocated(q) || q == p) by {
                if self.recycled.contains(q) && q != p {
                    let i = choose|i: int| 0 <= i < self.recycled.len() && self.recycled[i] == q;
                    assert(next.recycled[i] == q);
                }
                if next.recycled.contains(q) {
                    let i = choose|i: int| 0 <= i < next.recycled.len() && next.recycled[i] == q;
                    assert(self.recycled[i] == q);
                }
            }
        } else if self.current < self.end {
            assert forall|q: u64|
                next.is_allocated(q) <==> (self.is_allocated(q) || q == self.current) by {
                if self.recycled.contains(q) {
                    let i = choose|i: int| 0 <= i < self.recycled.len() && self.recycled[i] == q;
                }
            }
        }
    }

    /// As many allocations as frames are free hand out as many frames, each
    /// of them one that was not out, and change the status of no other
    /// frame.
    #[verifier::rlimit(50)]
    pub proof fn lemma_after_allocs(self, n: nat)
        requires
            self.wf(),
            n <= self.free_count(),
        ensures
            self.after_allocs(n).wf(),
            self.after_allocs(n).start == self.start,
            self.after_allocs(n).end == self.end,
            self.after_allocs(n).free_count() == self.free_count() - n,
            forall|k: nat|
                k < n ==> (#[trigger] self.nth_frame(k)) is Some && !self.is_allocated(
                    self.nth_frame(k)->0,
                ),
            forall|q: u64|
                self.after_allocs(n).is_allocated(q) <==> (self.is_allocated(q) || exists|k: nat|
                    k < n && #[trigger] self.nth_frame(k) == Some(q)),
        decreases n,
    {
        if n > 0 {
            let m = (n - 1) as nat;
            self.lemma_after_allocs(m);
            let before = self.after_allocs(m);
            before.lemma_alloc();
            let p = before.next_frame()->0;
            assert(self.nth_frame(m) == Some(p));
            assert forall|q: u64|
                self.after_allocs(n).is_allocated(q) <==> (self.is_allocated(q) || exists|k: nat|
                    k < n && #[trigger] self.nth_frame(k) == Some(q)) by {
                if before.is_allocated(q) && !self.is_allocated(q) {
                    let k = choose|k: nat| k < m && #[trigger] self.nth_frame(k) == Some(q);
                    assert(k < n);
                }
                if exists|k: nat| k < n && #[trigger] self.nth_frame(k) == Some(q) {
                    let k = choose|k: nat| k < n && #[trigger] self.nth_frame(k) == Some(q);
                    if k < m {
                        assert(before.is_allocated(q));
                    }
                }
            }
            assert(!self.is_allocated(p)) by {
                if self.is_allocated(p) {
                    assert(before.is_allocated(p));
                }
            }
        }
    }

    /// Allocations one after the other add up.
    pub proof fn lemma_after_allocs_add(self, a: nat, b: nat)
        ensures
            self.after_allocs(a).after_allocs(b) == self.after_allocs(a + b),
        decreases b,
    {
        if b > 0 {
            self.lemma_after_allocs_add(a, (b - 1) as nat);
        }
    }

    /// The frames that are handed out after `a` allocations are those that
    /// are handed out from the start after `a` more.
    pub proof fn lemma_taken_shift(self, a: nat, skip: nat, n: nat)
        ensures
            self.after_allocs(a).taken(skip, n) == self.taken(a + skip, n),
            self.after_allocs(a).nth_frame(skip) == self.nth_frame(a + skip),
            self.after_allocs(1) == self.after_alloc(),
            self.after_allocs(0) == self,
    {
        assert forall|k: nat| #[trigger]
            self.after_allocs(a).nth_frame(k) == self.nth_frame(a + k) by {
            self.lemma_after_allocs_add(a, k);
        }
        assert(self.after_allocs(a).taken(skip, n) =~= self.taken(a + skip, n)) by {
            assert forall|k: int| 0 <= k < n implies self.after_allocs(a).taken(skip, n)[k]
                == self.taken(a + skip, n)[k] by {
                assert(self.after_allocs(a).nth_frame((skip + k) as nat) == self.nth_frame(
                    a + ((skip + k) as nat),
                ));
            }
        }
        assert(self.after_allocs(1) == self.after_allocs(0).after_alloc());
    }

    /// Releases one after the other add up, and one release is a release of
    /// a sequence of one frame.
    pub proof fn lemma_after_deallocs(self, a: Seq<u64>, b: Seq<u64>, ppn: u64)
        ensures
            self.after_deallocs(a).after_deallocs(b) == self.after_deallocs(a + b),
            self.after_dealloc(ppn) == self.after_deallocs(seq![ppn]),
            self.after_deallocs(Seq::<u64>::empty()) == self,
    {
        assert((self.recycled + a) + b =~= self.recycled + (a + b));
        assert(self.recycled.push(ppn) =~= self.recycled + seq![ppn]);
        assert(self.recycled + Seq::<u64>::empty() =~= self.recycled);
    }

    /// A release takes back exactly the released frame.
    #[verifier::rlimit(50)]
    pub proof fn lemma_dealloc(self, ppn: u64)
        requires
            self.wf(),
            self.is_allocated(ppn),
        ensures
            self.after_dealloc(ppn).wf(),
            self.after_dealloc(ppn).next_frame() == Some(ppn),
            forall|q: u64|
                self.after_dealloc(ppn).is_allocated(q) <==> (self.is_allocated(q) && q != ppn),
    {
        let next = self.after_dealloc(ppn);
        let n = self.recycled.len() as int;
        assert(next.recycled[n] == ppn);
        assert forall|i: int, j: int|
            0 <= i < next.recycled.len() && 0 <= j < next.recycled.len() && i != j implies 
            next.recycled[i] != next.recycled[j] by {
            if i < n && j < n {
            } else if i < n {
                assert(self.recycled[i] == next.recycled[i]);
            } else {
                assert(self.recycled[j] == next.recycled[j]);
            }
        }
        assert forall|q: u64| next.is_allocated(q) <==> (self.is_allocated(q) && q != ppn) by {
            if self.recycled.contains(q) {
                let i = choose|i: int| 0 <= i < self.recycled.len() && self.recycled[i] == q;
                assert(next.recycled[i] == q);
            }
            if next.recycled.contains(q) && q != ppn {
                let i = choose|i: int| 0 <= i < next.recycled.len() && next.recycled[i] == q;
                assert(self.recycled[i] == q);
            }
        }
    }
}

/// One request to the allocator: hand out a frame, or take back the frame
/// of the handle at a position among those that are out.
pub enum FrameOp {
    Alloc,
    Release(nat),
}

/// The allocator's state together with the frames of the handles that are
/// out, oldest first.
pub struct FrameHistory {
    pub state: AllocatorState,
    pub live: Seq<u64>,
}

impl FrameHistory {
    /// The result of one request. A release names a handle by its position;
    /// one that names no handle changes nothing.
    pub open spec fn step(self, op: FrameOp) -> FrameHistory {
        match op {
            FrameOp::Alloc => match self.state.next_frame() {
                Some(p) => FrameHistory {
                    state: self.state.after_alloc(),
                    live: self.live.push(p),
                },
                None => self,
            },
            FrameOp::Release(i) => if i < self.live.len() {
                FrameHistory {
                    state: self.state.after_dealloc(self.live[i as int]),
                    live: self.live.remove(i as int),
                }
            } else {
                self
            },
        }
    }

    /// The result of a sequence of requests.
    pub open spec fn run(self, ops: Seq<FrameOp>) -> FrameHistory
        decreases ops.len(),
    {
        if ops.len() == 0 {
            self
        } else {
            self.run(ops.drop_last()).step(ops.last())
        }
    }

    /// The handles that are out hold frames that the allocator counts as
    /// out, and no two hold the same frame.
    pub open spec fn consistent(self) -> bool {
        &&& self.state.wf()
        &&& self.live.no_duplicates()
        &&& forall|i: int| 0 <= i < self.live.len()
            ==> self.state.is_allocated(#[trigger] self.live[i])
    }

    /// An allocator that has handed out no frame, with no handle out, is
    /// consistent.
    pub proof fn lemma_fresh_consistent(start: u64, end: u64)
        requires
            start <= end <= PPN_LIMIT,
        ensures
            (FrameHistory {
                state: AllocatorState::fresh(start, end),
                live: Seq::<u64>::empty(),
            }).consistent(),
    {
    }

    /// One request keeps the handles and the allocator consistent.
    proof fn lemma_step_consistent(self, op: FrameOp)
        requires
            self.consistent(),
        ensures
            self.step(op).consistent(),
    {
        let next = self.step(op);
        match op {
            FrameOp::Alloc => {
                self.state.lemma_alloc();
                if let Some(p) = self.state.next_frame() {
                    assert forall|i: int| 0 <= i < next.live.len() implies next.state.is_allocated(
                        #[trigger] next.live[i],
                    ) by {
                        if i < self.live.len() {
                            assert(self.state.is_allocated(self.live[i]));
                        }
                    }
                    assert forall|i: int, j: int|
                        0 <= i < next.live.len() && 0 <= j < next.live.len() && i != j implies 
                        next.live[i] != next.live[j] by {
                        if i < self.live.len() {
                            assert(self.state.is_allocated(self.live[i]));
                        }
                        if j < self.live.len() {
                            assert(self.state.is_allocated(self.live[j]));
                        }
                    }
                }
            },
            FrameOp::Release(k) => {
                if k < self.live.len() {
                    let p = self.live[k as int];
                    self.state.lemma_dealloc(p);
                    assert forall|i: int| 0 <= i < next.live.len() implies next.state.is_allocated(
                        #[trigger] next.live[i],
                    ) by {
                        let j = if i < k { i } else { i + 1 };
                        assert(next.live[i] == self.live[j]);
                        assert(self.state.is_allocated(self.live[j]));
                    }
                    assert forall|i: int, j: int|
                        0 <= i < next.live.len() && 0 <= j < next.live.len() && i != j implies 
                        next.live[i] != next.live[j] by {
                        let i0 = if i < k { i } else { i + 1 };
                        let j0 = if j < k { j } else { j + 1 };
                        assert(next.live[i] == self.live[i0]);
                        assert(next.live[j] == self.live[j0]);
                    }
                }
            },
        }
    }

    /// Whatever frames are allocated and released, in whatever order, no two
    /// handles that are out at the same time hold the same frame.
    pub proof fn lemma_live_frames_distinct(self, ops: Seq<FrameOp>)
        requires
            self.consistent(),
        ensures
            self.run(ops).consistent(),
            self.run(ops).live.no_duplicates(),
        decreases ops.len(),
    {
        if ops.len() > 0 {
            self.lemma_live_frames_distinct(ops.drop_last());
            self.run(ops.drop_last()).lemma_step_consistent(ops.last());
        }
    }
}

/// Hands out frame numbers from a range, reusing the one released last
/// before it touches a frame that was never handed out.
pub struct StackFrameAllocator {
    start: u64,
    current: u64,
    end: u64,
    recycled: Vec<u64>,
}

impl View for StackFrameAllocator {
    type V = AllocatorState;

    closed spec fn view(&self) -> AllocatorState {
        AllocatorState {
            start: self.start,
            current: self.current,
            end: self.end,
            recycled: self.recycled@,
        }
    }
}

impl StackFrameAllocator {
    /// An allocator over the frames `l..r`, none of them handed out.
    pub fn new(l: PhysPageNum, r: PhysPageNum) -> (a: StackFrameAllocator)
        requires
            l.0 <= r.0 <= PPN_LIMIT,
        ensures
            a@ == AllocatorState::fresh(l.0, r.0),
            a@.wf(),
    {
        StackFrameAllocator { start: l.0, current: l.0, end: r.0, recycled: Vec::new() }
    }

    /// Hands out a frame number, or nothing when every frame is out.
    pub fn alloc_ppn(&mut self) -> (r: Option<PhysPageNum>)
        requires
            old(self)@.wf(),
        ensures
            final(self)@ == old(self)@.after_alloc(),
            final(self)@.wf(),
            match r {
                Some(p) => old(self)@.next_frame() == Some(p.0),
                None => old(self)@.next_frame() is None,
            },
    {
        proof {
            self@.lemma_alloc();
        }
        if self.recycled.len() > 0 {
            let ppn = self.recycled.pop().unwrap();
            Some(PhysPageNum(ppn))
        } else if self.current < self.end {
            self.current = self.current + 1;
            Some(PhysPageNum(self.current - 1))
        } else {
            None
        }
    }

    /// Takes back a frame number that is out.
    pub fn dealloc_ppn(&mut self, ppn: PhysPageNum)
        requires
            old(self)@.wf(),
            old(self)@.is_allocated(ppn.0),
        ensures
            final(self)@ == old(self)@.after_dealloc(ppn.0),
            final(self)@.wf(),
    {
        proof {
            self@.lemma_dealloc(ppn.0);
        }
        self.recycled.push(ppn.0);
    }

    /// Whether at least `n` frames can still be handed out.
    pub fn has_free(&self, n: usize) -> (b: bool)
        requires
            self@.wf(),
        ensures
            b == (self@.free_count() >= n),
    {
        let r: usize = self.recycled.len();
        if r >= n {
            true
        } else {
            self.end - self.current >= (n - r) as u64
        }
    }

    /// Whether the frame is out, decided at run time.
    pub fn is_allocated(&self, ppn: PhysPageNum) -> (b: bool)
        ensures
            b == self@.is_allocated(ppn.0),
    {
        if ppn.0 < self.start || ppn.0 >= self.current {
            return false;
        }
        let mut i: usize = 0;
        while i < self.recycled.len()
            invariant
                i <= self.recycled.len(),
                forall|j: int| 0 <= j < i ==> self.recycled@[j] != ppn.0,
            decreases self.recycled.len() - i,
        {
            if self.recycled[i] == ppn.0 {
                return false;
            }
            i = i + 1;
        }
        true
    }
}

/// Ownership of one physical frame. It is made by an allocation only and
/// cannot be copied; giving it back to the allocator consumes it.
#[derive(Debug)]
pub struct FrameTracker {
    ppn: PhysPageNum,
}

impl FrameTracker {
    /// The frame that this handle owns.
    pub closed spec fn spec_ppn(&self) -> PhysPageNum {
        self.ppn
    }

    /// The frame that this handle owns.
    #[verifier::when_used_as_spec(spec_ppn)]
    pub fn ppn(&self) -> (p: PhysPageNum)
        ensures
            p == self.spec_ppn(),
    {
        self.ppn
    }
}

/// The contents of a frame that was just handed out.
pub open spec fn zero_frame() -> Seq<u64> {
    Seq::new(PTE_COUNT as nat, |i: int| 0u64)
}

/// The machine's physical memory: the frames `start..end`, each of 512
/// words of 64 bits, with the allocator that hands them out.
pub struct PhysMemory {
    allocator: StackFrameAllocator,
    words: Vec<u64>,
}

impl PhysMemory {
    /// The allocator's bookkeeping.
    pub closed spec fn state(&self) -> AllocatorState {
        self.allocator@
    }

    /// The 512 words of a frame.
    pub closed spec fn frame(&self, ppn: u64) -> Seq<u64> {
        self.words@.subrange(
            (ppn - self.allocator@.start) * 512,
            (ppn - self.allocator@.start) * 512 + 512,
        )
    }

    /// The frame is part of this memory.
    pub open spec fn contains(&self, ppn: u64) -> bool {
        self.state().start <= ppn < self.state().end
    }

    /// The frame is handed out.
    pub open spec fn is_allocated(&self, ppn: u64) -> bool {
        self.state().is_allocated(ppn)
    }

    /// The memory is consistent with its allocator.
    pub closed spec fn wf(&self) -> bool {
        &&& self.allocator@.wf()
        &&& self.words@.len() == (self.allocator@.end - self.allocator@.start) * 512
    }

    /// In a consistent memory the bookkeeping is consistent, every frame has
    /// 512 words, and a frame that is out is part of the memory.
    pub proof fn lemma_wf(&self)
        requires
            self.wf(),
        ensures
            self.state().wf(),
            forall|p: u64| self.contains(p) ==> (#[trigger] self.frame(p)).len() == PTE_COUNT,
            forall|p: u64| #[trigger] self.is_allocated(p) ==> self.contains(p),
    {
    }

    /// A memory of the frames `l..r`, all of them zero and none handed out.
    pub fn new(l: PhysPageNum, r: PhysPageNum) -> (mem: PhysMemory)
        requires
            l.0 <= r.0 <= PPN_LIMIT,
            (r.0 - l.0) * PTE_COUNT <= usize::MAX,
        ensures
            mem.wf(),
            mem.state() == AllocatorState::fresh(l.0, r.0),
            forall|p: u64| mem.contains(p) ==> #[trigger] mem.frame(p) == zero_frame(),
    {
        let n: usize = ((r.0 - l.0) as usize) * PTE_COUNT;
        let words: Vec<u64> = vec![0u64; n];
        let mem = PhysMemory { allocator: StackFrameAllocator::new(l, r), words };
        assert forall|p: u64| mem.contains(p) implies #[trigger] mem.frame(p) == zero_frame() by {
            assert(mem.frame(p) =~= zero_frame());
        }
        mem
    }

    /// The first frame and the frame after the last.
    pub fn range(&self) -> (r: (PhysPageNum, PhysPageNum))
        ensures
            r.0.0 == self.state().start,
            r.1.0 == self.state().end,
    {
        (PhysPageNum(self.allocator.start), PhysPageNum(self.allocator.end))
    }

    /// Whether the frame is part of this memory, decided at run time.
    pub fn has_frame(&self, ppn: PhysPageNum) -> (b: bool)
        ensures
            b == self.contains(ppn.0),
    {
        self.allocator.start <= ppn.0 && ppn.0 < self.allocator.end
    }

    /// Position of a word in the flat store.
    fn word_index(&self, ppn: PhysPageNum, idx: usize) -> (k: usize)
        requires
            self.wf(),
            self.contains(ppn.0),
            idx < PTE_COUNT,
        ensures
            k == (ppn.0 - self.state().start) * 512 + idx,
            (ppn.0 - self.state().start) * 512 + 512 <= self.words@.len(),
            self.words@.len() <= usize::MAX,
    {
        let n: usize = self.words.len();
        let d: u64 = ppn.0 - self.allocator.start;
        assert(d * 512 + 512 <= n);
        (d as usize) * 512 + idx
    }

    /// Reads one word of a frame.
    pub fn read(&self, ppn: PhysPageNum, idx: usize) -> (w: u64)
        requires
            self.wf(),
            self.contains(ppn.0),
            idx < PTE_COUNT,
        ensures
            w == self.frame(ppn.0)[idx as int],
    {
        let k: usize = self.word_index(ppn, idx);
        self.words[k]
    }

    /// Writes one word of a frame. No other word changes, nor the
    /// allocator's bookkeeping.
    pub fn write(&mut self, ppn: PhysPageNum, idx: usize, w: u64)
        requires
            old(self).wf(),
            old(self).contains(ppn.0),
            idx < PTE_COUNT,
        ensures
            final(self).wf(),
            final(self).state() == old(self).state(),
            final(self).frame(ppn.0) == old(self).frame(ppn.0).update(idx as int, w),
            forall|q: u64|
                old(self).contains(q) && q != ppn.0
                    ==> #[trigger] final(self).frame(q) == old(self).frame(q),
    {
        let k: usize = self.word_index(ppn, idx);
        self.words.set(k, w);
        assert(self.frame(ppn.0) =~= old(self).frame(ppn.0).update(idx as int, w));
        assert forall|q: u64| old(self).contains(q) && q != ppn.0 implies #[trigger] self.frame(q)
            == old(self).frame(q) by {
            assert(self.frame(q) =~= old(self).frame(q));
        }
    }

    /// Hands out a frame filled with zeros, or nothing when every frame is
    /// out. The frame is the one released last, or else the lowest that was
    /// never handed out. No other frame changes.
    #[verifier::rlimit(50)]
    pub fn frame_alloc(&mut self) -> (r: Option<FrameTracker>)
        requires
            old(self).wf(),
        ensures
            final(self).wf(),
            final(self).state() == old(self).state().after_alloc(),
            match r {
                Some(f) => {
                    &&& old(self).state().next_frame() == Some(f.ppn().0)
                    &&& !old(self).is_allocated(f.ppn().0)
                    &&& final(self).is_allocated(f.ppn().0)
                    &&& final(self).contains(f.ppn().0)
                    &&& final(self).frame(f.ppn().0) == zero_frame()
                    &&& forall|q: u64|
                        old(self).contains(q) && q != f.ppn().0 ==> #[trigger] final(self).frame(q)
                            == old(self).frame(q)
                    &&& forall|q: u64|
                        #[trigger] final(self).is_allocated(q) <==> (old(self).is_allocated(q) || q
                            == f.ppn().0)
                },
                None => {
                    &&& old(self).state().next_frame() is None
                    &&& forall|q: u64|
                        old(self).contains(q)
                            ==> #[trigger] final(self).frame(q) == old(self).frame(q)
                },
            },
    {
        proof {
            self.allocator@.lemma_alloc();
        }
        match self.allocator.alloc_ppn() {
            None => None,
            Some(ppn) => {
                let base: usize = self.word_index(ppn, 0);
                let ghost before = self.words@;
                let ghost st = self.allocator@;
                let mut j: usize = 0;
                while j < PTE_COUNT
                    invariant
                        j <= PTE_COUNT,
                        PTE_COUNT == 512,
                        before.len() <= usize::MAX,
                        self.allocator@ == st,
                        base == (ppn.0 - st.start) * 512,
                        base + PTE_COUNT <= self.words@.len(),
                        self.words@.len() == before.len(),
                        forall|k: int| 0 <= k < base ==> self.words@[k] == before[k],
                        forall|k: int|
                            base + PTE_COUNT <= k < before.len() ==> self.words@[k] == before[k],
                        forall|k: int| base <= k < base + j ==> self.words@[k] == 0u64,
                    decreases PTE_COUNT - j,
                {
                    self.words.set(base + j, 0u64);
                    j = j + 1;
                }
                assert(self.frame(ppn.0) =~= zero_frame());
                assert forall|q: u64| old(self).contains(q)
                    && q != ppn.0 implies #[trigger] self.frame(
                    q,
                ) == old(self).frame(q) by {
                    assert(self.frame(q) =~= old(self).frame(q));
                }
                Some(FrameTracker { ppn })
            },
        }
    }

    /// Takes back a frame. Its handle is consumed, so it cannot be given
    /// back twice. No frame's contents change.
    pub fn frame_dealloc(&mut self, frame: FrameTracker)
        requires
            old(self).wf(),
            old(self).is_allocated(frame.ppn().0),
        ensures
            final(self).wf(),
            final(self).state() == old(self).state().after_dealloc(frame.ppn().0),
            forall|q: u64|
                #[trigger] final(self).is_allocated(q) <==> (old(self).is_allocated(q) && q
                    != frame.ppn().0),
            forall|q: u64| #[trigger] final(self).frame(q) == old(self).frame(q),
    {
        proof {
            self.allocator@.lemma_dealloc(frame.ppn.0);
        }
        self.allocator.dealloc_ppn(frame.ppn);
    }

    /// Whether at least `n` frames can still be handed out.
    pub fn has_free_frames(&self, n: usize) -> (b: bool)
        requires
            self.wf(),
        ensures
            b == (self.state().free_count() >= n),
    {
        self.allocator.has_free(n)
    }

    /// Whether the frame is handed out, decided at run time.
    pub fn frame_is_allocated(&self, ppn: PhysPageNum) -> (b: bool)
        ensures
            b == self.is_allocated(ppn.0),
    {
        self.allocator.is_allocated(ppn)
    }
}

} // verus!
