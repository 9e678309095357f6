//! The physical frame allocator and the owning handle of one frame.
//!
//! Frames are handed out from a contiguous range of page numbers; page
//! numbers given back are kept on a stack and reused first.

use vstd::prelude::*;
use crate::config::{MEMORY_END, PPN_LIMIT};
use crate::mm::address::{PhysAddr, PhysPageNum};

verus! {

/// Stack allocator over the page numbers `[start, end)`.
pub struct StackFrameAllocator {
    start: u64,
    current: u64,
    end: u64,
    recycled: Vec<u64>,
}

impl StackFrameAllocator {
    /// First page number of the managed range.
    pub closed spec fn start(&self) -> int {
        self.start as int
    }

    /// First page number that was never handed out.
    pub closed spec fn current(&self) -> int {
        self.current as int
    }

    /// One past the last page number of the managed range.
    pub closed spec fn end(&self) -> int {
        self.end as int
    }

    /// Page numbers that were given back, oldest first.
    pub closed spec fn recycled(&self) -> Seq<u64> {
        self.recycled@
    }

    pub open spec fn wf(&self) -> bool {
        &&& self.start() <= self.current() <= self.end() <= PPN_LIMIT
        &&& self.recycled().no_duplicates()
        &&& forall|i: int|
            0 <= i < self.recycled().len() ==> self.start() <= #[trigger] self.recycled()[i]
                < self.current()
    }

    /// Whether frame `ppn` is handed out at present.
    pub open spec fn is_allocated(&self, ppn: u64) -> bool {
        self.start() <= ppn < self.current() && !self.recycled().contains(ppn)
    }

    /// The frames handed out at present.
    pub open spec fn allocated(&self) -> Set<u64> {
        Set::new(|p: u64| self.is_allocated(p))
    }

    /// How many more frames can be handed out.
    pub open spec fn free_count(&self) -> nat {
        ((self.end() - self.current()) + self.recycled().len()) as nat
    }

    /// The frame that the next `allocate` hands out, if any is left.
    pub open spec fn next(&self) -> Option<u64> {
        if self.recycled().len() > 0 {
            Some(self.recycled().last())
        } else if self.current() < self.end() {
            Some(self.current() as u64)
        } else {
            None
        }
    }

    /// The frame that comes as number `k`, counted from 0, of a run of
    /// allocations: the recycled frames, newest first, then the fresh ones.
    pub open spec fn nth_next(&self, k: int) -> u64 {
        let n = self.recycled().len() as int;
        if k < n {
            self.recycled()[n - 1 - k]
        } else {
            (self.current() + k - n) as u64
        }
    }

    /// How many of `count` frames taken in a row were never handed out before.
    pub open spec fn fresh_among(&self, count: int) -> int {
        let n = self.recycled().len() as int;
        if count <= n {
            0
        } else {
            count - n
        }
    }

    /// An allocator that manages no frame.
    pub fn new() -> (r: Self)
        ensures
            r.wf(),
            r.start() == 0 && r.current() == 0 && r.end() == 0,
            r.recycled().len() == 0,
            r.allocated() == Set::<u64>::empty(),
    {
        let r = StackFrameAllocator { start: 0, current: 0, end: 0, recycled: Vec::new() };
        assert(r.allocated() =~= Set::<u64>::empty());
        r
    }

    /// Makes the allocator manage `[l, r)`, with no frame handed out.
    pub fn init(&mut self, l: PhysPageNum, r: PhysPageNum)
        requires
            old(self).recycled().len() == 0,
            l.0 <= r.0 <= PPN_LIMIT,
        ensures
            final(self).wf(),
            final(self).start() == l.0,
            final(self).current() == l.0,
            final(self).end() == r.0,
            final(self).recycled().len() == 0,
            final(self).allocated() == Set::<u64>::empty(),
            final(self).free_count() == r.0 - l.0,
    {
        self.start = l.0;
        self.current = l.0;
        self.end = r.0;
        assert(self.allocated() =~= Set::<u64>::empty());
    }

    /// Hands out the most recently recycled frame, or else the next fresh
    /// one; `None` when neither is left.
    pub fn allocate(&mut self) -> (r: Option<PhysPageNum>)
        requires
            old(self).wf(),
        ensures
            final(self).wf(),
            final(self).start() == old(self).start(),
            final(self).end() == old(self).end(),
            match r {
                Some(p) => {
                    &&& old(self).next() == Some(p.0)
                    &&& p.wf()
                    &&& !old(self).is_allocated(p.0)
                    &&& final(self).allocated() == old(self).allocated().insert(p.0)
                    &&& final(self).free_count() == old(self).free_count() - 1
                    &&& if old(self).recycled().len() > 0 {
                        &&& final(self).recycled() == old(self).recycled().drop_last()
                        &&& final(self).current() == old(self).current()
                    } else {
                        &&& final(self).recycled() == old(self).recycled()
                        &&& final(self).current() == old(self).current() + 1
                    }
                },
                None => {
                    &&& old(self).free_count() == 0
                    &&& final(self).allocated() == old(self).allocated()
                    &&& final(self).free_count() == 0
                    &&& final(self).recycled() == old(self).recycled()
                    &&& final(self).current() == old(self).current()
                },
            },
    {
        let ghost before = *self;
        if self.recycled.len() > 0 {
            let ppn = self.recycled.pop().unwrap();
            proof {
                let n = before.recycled().len() as int;
                assert(before.recycled()[n - 1] == ppn);
                assert(self.recycled() == before.recycled().take(n - 1));
                assert(self.recycled() =~= before.recycled().drop_last());
                assert(!self.recycled().contains(ppn)) by {
                    if self.recycled().contains(ppn) {
                        let j = choose|j: int| 0 <= j < n - 1 && self.recycled()[j] == ppn;
                        assert(before.recycled()[j] == ppn);
                    }
                }
                assert forall|p: u64| self.is_allocated(p) == (before.is_allocated(p) || p
                    == ppn) by {
                    if p != ppn {
                        if before.recycled().contains(p) {
                            let j = choose|j: int| 0 <= j < n && before.recycled()[j] == p;
                            assert(self.recycled()[j] == p);
                        }
                        if self.recycled().contains(p) {
                            let j = choose|j: int| 0 <= j < n - 1 && self.recycled()[j] == p;
                            assert(before.recycled()[j] == p);
                        }
                    }
                }
                assert(self.allocated() =~= before.allocated().insert(ppn));
                assert(self.recycled().no_duplicates());
            }
            Some(PhysPageNum(ppn))
        } else if self.current == self.end {
            assert(self.allocated() =~= before.allocated());
            None
        } else {
            self.current += 1;
            proof {
                let ppn = before.current() as u64;
                assert(self.allocated() =~= before.allocated().insert(ppn));
            }
            Some(PhysPageNum(self.current - 1))
        }
    }

    /// Takes back frame `ppn`, which must be handed out at present. It is
    /// not handed out afterwards, so it cannot be given back a second time
    /// before it is allocated again.
    pub fn dealloc(&mut self, ppn: PhysPageNum)
        requires
            old(self).wf(),
            old(self).is_allocated(ppn.0),
        ensures
            final(self).wf(),
            final(self).start() == old(self).start(),
            final(self).current() == old(self).current(),
            final(self).end() == old(self).end(),
            final(self).recycled() == old(self).recycled().push(ppn.0),
            final(self).allocated() == old(self).allocated().remove(ppn.0),
            !final(self).is_allocated(ppn.0),
            final(self).free_count() == old(self).free_count() + 1,
    {
        let ghost before = *self;
        self.recycled.push(ppn.0);
        proof {
            let n = before.recycled().len() as int;
            assert forall|p: u64| self.is_allocated(p) == (before.is_allocated(p) && p
                != ppn.0) by {
                if self.recycled().contains(p) && p != ppn.0 {
                    let j = choose|j: int| 0 <= j < n + 1 && self.recycled()[j] == p;
                    assert(before.recycled()[j] == p);
                }
                if before.recycled().contains(p) {
                    let j = choose|j: int| 0 <= j < n && before.recycled()[j] == p;
                    assert(self.recycled()[j] == p);
                }
                assert(self.recycled()[n] == ppn.0);
            }
            assert(self.allocated() =~= before.allocated().remove(ppn.0));
        }
    }

    /// Whether `ppn` is handed out at present.
    pub fn holds(&self, ppn: PhysPageNum) -> (r: bool)
        ensures
            r == self.is_allocated(ppn.0),
    {
        if ppn.0 < self.start || ppn.0 >= self.current {
            return false;
        }
        let mut i: usize = 0;
        while i < self.recycled.len()
            invariant
                i <= self.recycled.len(),
                forall|j: int| 0 <= j < i ==> self.recycled@[j] != ppn.0,
            decreases self.recycled.len() - i,
        {
            if self.recycled[i] == ppn.0 {
                return false;
            }
            i += 1;
        }
        true
    }

    /// Number of frames that can still be handed out.
    pub fn available(&self) -> (r: usize)
        requires
            self.wf(),
            self.free_count() <= usize::MAX,
        ensures
            r == self.free_count(),
    {
        (self.end - self.current) as usize + self.recycled.len()
    }
}

/// Makes `allocator` manage every whole page between the end of the kernel
/// image, at address `ekernel`, and the end of physical memory.
pub fn init_frame_allocator(allocator: &mut StackFrameAllocator, ekernel: u64)
    requires
        old(allocator).recycled().len() == 0,
        ekernel <= MEMORY_END,
    ensures
        final(allocator).wf(),
        final(allocator).start() == (ekernel + 4095) / 4096,
        final(allocator).current() == final(allocator).start(),
        final(allocator).end() == MEMORY_END / 4096,
        final(allocator).recycled().len() == 0,
        final(allocator).allocated() == Set::<u64>::empty(),
{
    allocator.init(PhysAddr::from(ekernel).ceil(), PhysAddr::from(MEMORY_END).floor());
}

/// Owning handle of one physical frame, with the bytes the frame holds.
pub struct FrameTracker {
    pub ppn: PhysPageNum,
    pub bytes: Vec<u8>,
}

/// Names a frame without owning it; used to look an owned frame up by its
/// page number.
pub struct FrameTrackerMarker {
    pub ppn: PhysPageNum,
}

impl FrameTrackerMarker {
    pub fn new(ppn: PhysPageNum) -> (r: Self)
        ensures
            r.ppn == ppn,
    {
        FrameTrackerMarker { ppn }
    }
}

/// A page of 4096 zero bytes.
pub open spec fn zero_page() -> Seq<u8> {
    Seq::new(4096, |i: int| 0u8)
}

impl FrameTracker {
    /// Whether the frame is a whole page.
    pub open spec fn wf(&self) -> bool {
        self.ppn.wf() && self.bytes@.len() == 4096
    }

    /// Takes ownership of frame `ppn` and fills it with zeroes.
    pub fn new(ppn: PhysPageNum) -> (r: Self)
        ensures
            r.ppn == ppn,
            r.bytes@ == zero_page(),
    {
        let mut bytes: Vec<u8> = Vec::new();
        let mut i: usize = 0;
        while i < 4096
            invariant
                i <= 4096,
                bytes@.len() == i,
                forall|j: int| 0 <= j < i ==> bytes@[j] == 0u8,
            decreases 4096 - i,
        {
            bytes.push(0u8);
            i += 1;
        }
        assert(bytes@ =~= zero_page());
        FrameTracker { ppn, bytes }
    }
}

/// Allocates one frame and zero-fills it; `None` when no frame is left.
pub fn frame_alloc(allocator: &mut StackFrameAllocator) -> (r: Option<FrameTracker>)
    requires
        old(allocator).wf(),
    ensures
        final(allocator).wf(),
        final(allocator).start() == old(allocator).start(),
        final(allocator).end() == old(allocator).end(),
        match r {
            Some(frame) => {
                &&& old(allocator).next() == Some(frame.ppn.0)
                &&& frame.wf()
                &&& frame.bytes@ == zero_page()
                &&& !old(allocator).is_allocated(frame.ppn.0)
                &&& final(allocator).allocated() == old(allocator).allocated().insert(frame.ppn.0)
                &&& final(allocator).free_count() == old(allocator).free_count() - 1
                &&& if old(allocator).recycled().len() > 0 {
                    &&& final(allocator).recycled() == old(allocator).recycled().drop_last()
                    &&& final(allocator).current() == old(allocator).current()
                } else {
                    &&& final(allocator).recycled() == old(allocator).recycled()
                    &&& final(allocator).current() == old(allocator).current() + 1
                }
            },
            None => {
                &&& old(allocator).free_count() == 0
                &&& final(allocator).allocated() == old(allocator).allocated()
                &&& final(allocator).free_count() == 0
                &&& final(allocator).recycled() == old(allocator).recycled()
                &&& final(allocator).current() == old(allocator).current()
            },
        },
{
    match allocator.allocate() {
        Some(ppn) => Some(FrameTracker::new(ppn)),
        None => None,
    }
}

/// Gives frame `ppn` back to the allocator.
pub fn frame_dealloc(allocator: &mut StackFrameAllocator, ppn: PhysPageNum)
    requires
        old(allocator).wf(),
        old(allocator).is_allocated(ppn.0),
    ensures
        final(allocator).wf(),
        final(allocator).start() == old(allocator).start(),
        final(allocator).current() == old(allocator).current(),
        final(allocator).end() == old(allocator).end(),
        final(allocator).recycled() == old(allocator).recycled().push(ppn.0),
        final(allocator).allocated() == old(allocator).allocated().remove(ppn.0),
        !final(allocator).is_allocated(ppn.0),
        final(allocator).free_count() == old(allocator).free_count() + 1,
{
    allocator.dealloc(ppn);
}

/// Takes five frames and gives them back in the order in which they were
/// taken.
fn take_five_and_return(allocator: &mut StackFrameAllocator)
    requires
        old(allocator).wf(),
        old(allocator).free_count() >= 5,
    ensures
        final(allocator).wf(),
        final(allocator).start() == old(allocator).start(),
        final(allocator).end() == old(allocator).end(),
        final(allocator).current() == old(allocator).current() + old(allocator).fresh_among(5),
        final(allocator).recycled() == old(allocator).recycled().take(
            old(allocator).recycled().len() - (5 - old(allocator).fresh_among(5)),
        ) + Seq::new(5, |k: int| old(allocator).nth_next(k)),
        final(allocator).allocated() == old(allocator).allocated(),
        final(allocator).free_count() == old(allocator).free_count(),
{
    let ghost a0 = *allocator;
    let ghost base = allocator.allocated();
    let ghost free = allocator.free_count();
    let ghost n = a0.recycled().len() as int;
    let ghost fresh = a0.fresh_among(5);
    let mut v: Vec<FrameTracker> = Vec::new();
    let mut i: usize = 0;
    proof {
        assert(allocator.recycled() =~= a0.recycled().take(n));
    }
    while i < 5
        invariant
            i <= 5,
            v@.len() == i,
            a0.wf(),
            n == a0.recycled().len(),
            base == a0.allocated(),
            free == a0.free_count(),
            free >= 5,
            allocator.wf(),
            allocator.start() == a0.start(),
            allocator.end() == a0.end(),
            allocator.free_count() == free - i,
            allocator.recycled() == a0.recycled().take(
                if i <= n {
                    n - i
                } else {
                    0
                },
            ),
            allocator.current() == a0.current() + (if i <= n {
                0
            } else {
                i - n
            }),
            forall|j: int| 0 <= j < i ==> (#[trigger] v@[j]).ppn.0 == a0.nth_next(j),
            forall|j: int| 0 <= j < i ==> allocator.is_allocated(#[trigger] v@[j].ppn.0),
            forall|j: int| 0 <= j < i ==> !base.contains(#[trigger] v@[j].ppn.0),
            forall|j: int, k: int| 0 <= j < k < i ==> v@[j].ppn.0 != v@[k].ppn.0,
            forall|p: u64|
                allocator.is_allocated(p) <==> (base.contains(p) || exists|j: int|
                    0 <= j < i && #[trigger] v@[j].ppn.0 == p),
        decreases 5 - i,
    {
        let ghost prev = *allocator;
        let ghost pv = v@;
        let frame = frame_alloc(allocator).unwrap();
        let ghost fp = frame.ppn.0;
        v.push(frame);
        proof {
            if i < n {
                assert(prev.recycled().len() == n - i);
                assert(prev.recycled().last() == a0.recycled()[n - i - 1]);
                assert(allocator.recycled() =~= a0.recycled().take(n - i - 1));
            } else {
                assert(prev.recycled().len() == 0);
            }
            assert(fp == a0.nth_next(i as int));
            assert forall|j: int| 0 <= j < i + 1 implies (#[trigger] v@[j]).ppn.0 == a0.nth_next(
                j,
            ) by {
                if j < i {
                    assert(v@[j] == pv[j]);
                }
            }
            assert(allocator.allocated().contains(fp));
            assert forall|j: int| 0 <= j < i + 1 implies allocator.is_allocated(
                #[trigger] v@[j].ppn.0,
            ) by {
                assert(allocator.allocated().contains(v@[j].ppn.0)) by {
                    if j < i {
                        assert(v@[j] == pv[j]);
                        assert(prev.allocated().contains(pv[j].ppn.0));
                    }
                }
            }
            assert forall|j: int| 0 <= j < i + 1 implies !base.contains(#[trigger] v@[j].ppn.0) by {
                if j < i {
                    assert(v@[j] == pv[j]);
                } else {
                    if base.contains(fp) {
                        assert(prev.is_allocated(fp));
                    }
                }
            }
            assert forall|j: int, k: int| 0 <= j < k < i + 1 implies v@[j].ppn.0
                != v@[k].ppn.0 by {
                assert(v@[j] == pv[j]);
                if k == i {
                    assert(prev.is_allocated(pv[j].ppn.0));
                } else {
                    assert(v@[k] == pv[k]);
                }
            }
            assert forall|p: u64|
                allocator.is_allocated(p) <==> (base.contains(p) || exists|j: int|
                    0 <= j < i + 1 && #[trigger] v@[j].ppn.0 == p) by {
                assert(allocator.allocated().contains(p) == (prev.allocated().contains(p) || p
                    == fp));
                if exists|j: int| 0 <= j < i + 1 && #[trigger] v@[j].ppn.0 == p {
                    let j = choose|j: int| 0 <= j < i + 1 && #[trigger] v@[j].ppn.0 == p;
                    if j < i {
                        assert(pv[j].ppn.0 == p);
                    }
                }
                if prev.is_allocated(p) && !base.contains(p) {
                    let j = choose|j: int| 0 <= j < i && #[trigger] pv[j].ppn.0 == p;
                    assert(v@[j].ppn.0 == p);
                }
                if p == fp {
                    assert(v@[i as int].ppn.0 == p);
                }
            }
        }
        i += 1;
    }
    let ghost kept = a0.recycled().take(n - (5 - fresh));
    let mut j: usize = 0;
    proof {
        assert(allocator.recycled() =~= kept + Seq::new(0, |k: int| a0.nth_next(k)));
    }
    while j < 5
        invariant
            j <= 5,
            v@.len() == 5,
            n == a0.recycled().len(),
            fresh == a0.fresh_among(5),
            kept == a0.recycled().take(n - (5 - fresh)),
            base == a0.allocated(),
            free == a0.free_count(),
            allocator.wf(),
            allocator.start() == a0.start(),
            allocator.end() == a0.end(),
            allocator.free_count() == free - 5 + j,
            allocator.current() == a0.current() + fresh,
            allocator.recycled() == kept + Seq::new(j as nat, |k: int| a0.nth_next(k)),
            forall|k: int| 0 <= k < 5 ==> (#[trigger] v@[k]).ppn.0 == a0.nth_next(k),
            forall|k: int| 0 <= k < 5 ==> !base.contains(#[trigger] v@[k].ppn.0),
            forall|k1: int, k2: int| 0 <= k1 < k2 < 5 ==> v@[k1].ppn.0 != v@[k2].ppn.0,
            forall|p: u64|
                allocator.is_allocated(p) <==> (base.contains(p) || exists|k: int|
                    j <= k < 5 && #[trigger] v@[k].ppn.0 == p),
        decreases 5 - j,
    {
        let ghost prev = *allocator;
        let ppn = v[j].ppn;
        proof {
            assert(v@[j as int].ppn.0 == ppn.0);
        }
        frame_dealloc(allocator, ppn);
        proof {
            assert(allocator.recycled() =~= kept + Seq::new((j + 1) as nat, |k: int| a0.nth_next(k)));
            assert forall|p: u64|
                allocator.is_allocated(p) <==> (base.contains(p) || exists|k: int|
                    j + 1 <= k < 5 && #[trigger] v@[k].ppn.0 == p) by {
                assert(allocator.allocated().contains(p) == (prev.allocated().contains(p) && p
                    != ppn.0));
                if prev.is_allocated(p) && !base.contains(p) && p != ppn.0 {
                    let k = choose|k: int| j <= k < 5 && #[trigger] v@[k].ppn.0 == p;
                    assert(k != j);
                }
                if exists|k: int| j + 1 <= k < 5 && #[trigger] v@[k].ppn.0 == p {
                    let k = choose|k: int| j + 1 <= k < 5 && #[trigger] v@[k].ppn.0 == p;
                    assert(v@[j as int].ppn.0 != v@[k].ppn.0);
                }
                if base.contains(p) {
                    assert(!base.contains(v@[j as int].ppn.0));
                }
            }
        }
        j += 1;
    }
    proof {
        assert(allocator.allocated() =~= base);
    }
}

/// Allocates five frames, gives them back, allocates five again and gives
/// those back. The same frames are handed out afterwards as before. The
/// frames that the test was the first to take lie at the bottom of the
/// recycled stack, the highest lowest, below the frames that were there
/// before, so that allocation goes on in the order in which it would have
/// gone on without the test.
pub fn frame_allocator_test(allocator: &mut StackFrameAllocator)
    requires
        old(allocator).wf(),
        old(allocator).free_count() >= 5,
    ensures
        final(allocator).wf(),
        final(allocator).allocated() == old(allocator).allocated(),
        final(allocator).free_count() == old(allocator).free_count(),
        final(allocator).start() == old(allocator).start(),
        final(allocator).end() == old(allocator).end(),
        final(allocator).current() == old(allocator).current() + old(allocator).fresh_among(5),
        final(allocator).recycled() == Seq::new(
            old(allocator).fresh_among(5) as nat,
            |i: int| (old(allocator).current() + old(allocator).fresh_among(5) - 1 - i) as u64,
        ) + old(allocator).recycled(),
        forall|k: int| 0 <= k ==> final(allocator).nth_next(k) == old(allocator).nth_next(k),
{
    let ghost a0 = *allocator;
    take_five_and_return(allocator);
    let ghost a1 = *allocator;
    take_five_and_return(allocator);
    proof {
        let n = a0.recycled().len() as int;
        let c = a0.current();
        let fresh = a0.fresh_among(5);
        let m = n - (5 - fresh);
        let n1 = a1.recycled().len() as int;
        assert(n1 == m + 5);
        assert(a1.fresh_among(5) == 0);
        let target = Seq::new(fresh as nat, |i: int| (c + fresh - 1 - i) as u64) + a0.recycled();
        assert(allocator.recycled().len() == target.len());
        assert forall|x: int| 0 <= x < target.len() implies allocator.recycled()[x] == target[x] by {
            if x < m {
                assert(allocator.recycled()[x] == a1.recycled()[x]);
                assert(a1.recycled()[x] == a0.recycled()[x]);
            } else {
                let k = x - m;
                assert(allocator.recycled()[x] == a1.nth_next(k));
                assert(a1.nth_next(k) == a1.recycled()[n1 - 1 - k]);
                assert(a1.recycled()[n1 - 1 - k] == a0.nth_next(4 - k));
            }
        }
        assert(allocator.recycled() =~= target);
        assert forall|k: int| 0 <= k implies allocator.nth_next(k) == a0.nth_next(k) by {
            if k < n {
                assert(target[n + fresh - 1 - k] == a0.recycled()[n - 1 - k]);
            } else if k < n + fresh {
                assert(target[n + fresh - 1 - k] == (c + fresh - 1 - (n + fresh - 1 - k)) as u64);
            }
        }
    }
}

} // verus!
