//! A second, frame-by-frame allocator over a range of physical memory.
use vstd::prelude::*;
use crate::addr::PhysicalPageNumber;

verus! {

/// Most frames managed (10 MiB).
pub const MAX_MANAGE_PAGE_NUM: usize = 2560;

/// A physical address.
#[derive(Copy, Clone, Debug)]
pub struct PhysicalAddr {
    pub bits: usize,
}

impl PhysicalAddr {
    /// Whether the address starts a page.
    pub fn is_page_start(&self) -> (r: bool)
        ensures
            r == (self.bits % 4096 == 0),
    {
        self.bits % 4096 == 0
    }

    /// The page that holds the address.
    pub fn to_ppn(&self) -> (r: PhysicalPageNumber)
        ensures
            r.bits == self.bits / 4096,
    {
        PhysicalPageNumber::floor(self.bits)
    }
}

/// A frame handed out by `PhysicalMMManager`.
pub struct PhysicalFrameGuard {
    pub guard_page_number: PhysicalPageNumber,
}

/// Manages the frames `[start, end)`: `bitmap[i]` tells whether frame
/// `start + i` is in use.
pub struct PhysicalMMManager {
    start: PhysicalPageNumber,
    end: PhysicalPageNumber,
    bitmap: [bool; 2560],
}

impl PhysicalMMManager {
    /// First managed frame.
    pub closed spec fn start(&self) -> usize {
        self.start.bits
    }

    /// End of the managed frames.
    pub closed spec fn end(&self) -> usize {
        self.end.bits
    }

    /// Use of each managed frame.
    pub closed spec fn occupied(&self) -> Seq<bool> {
        self.bitmap@
    }

    /// The manager's invariant.
    pub open spec fn wf(&self) -> bool {
        &&& self.occupied().len() == MAX_MANAGE_PAGE_NUM
        &&& self.start() <= self.end()
        &&& self.end() - self.start() <= MAX_MANAGE_PAGE_NUM
    }

    /// A manager of no frames, all free.
    pub fn new() -> (r: Self)
        ensures
            r.wf(),
            r.start() == 0,
            r.end() == 0,
            forall|i: int| 0 <= i < MAX_MANAGE_PAGE_NUM ==> !#[trigger] r.occupied()[i],
    {
        PhysicalMMManager {
            start: PhysicalPageNumber::from(0),
            end: PhysicalPageNumber::from(0),
            bitmap: [false; 2560],
        }
    }

    /// Manages the frames from `start` up to `end`, both page aligned and at
    /// most `MAX_MANAGE_PAGE_NUM` frames apart.
    pub fn init(&mut self, start: PhysicalAddr, end: PhysicalAddr)
        requires
            old(self).wf(),
            start.bits % 4096 == 0,
            end.bits % 4096 == 0,
            start.bits <= end.bits,
            end.bits / 4096 - start.bits / 4096 <= MAX_MANAGE_PAGE_NUM,
        ensures
            final(self).wf(),
            final(self).start() == start.bits / 4096,
            final(self).end() == end.bits / 4096,
            final(self).occupied() == old(self).occupied(),
    {
        self.start = start.to_ppn();
        self.end = end.to_ppn();
    }

    fn is_occupied(&self, cur: PhysicalPageNumber) -> (r: bool)
        requires
            self.wf(),
            self.start() <= cur.bits < self.start() + MAX_MANAGE_PAGE_NUM,
        ensures
            r == self.occupied()[cur.bits - self.start()],
    {
        self.bitmap[cur.bits - self.start.bits]
    }

    fn set_occupied(&mut self, cur: PhysicalPageNumber, b: bool)
        requires
            old(self).wf(),
            old(self).start() <= cur.bits < old(self).start() + MAX_MANAGE_PAGE_NUM,
        ensures
            final(self).wf(),
            final(self).start() == old(self).start(),
            final(self).end() == old(self).end(),
            final(self).occupied() == old(self).occupied().update(cur.bits - old(self).start(), b),
    {
        self.bitmap[cur.bits - self.start.bits] = b;
    }

    /// Hands out the first frame of the managed range, when the range is not
    /// empty; that frame must be free.
    pub fn alloc_frame(&mut self) -> (r: Option<PhysicalFrameGuard>)
        requires
            old(self).wf(),
            old(self).start() < old(self).end() ==> !old(self).occupied()[0],
        ensures
            final(self).wf(),
            final(self).start() == old(self).start(),
            final(self).end() == old(self).end(),
            old(self).start() < old(self).end() ==> r is Some && r->Some_0.guard_page_number.bits
                == old(self).start() && final(self).occupied() == old(self).occupied().update(0, true),
            old(self).start() >= old(self).end() ==> r is None && final(self).occupied() == old(
                self,
            ).occupied(),
    {
        let cur = self.start;
        if cur.bits < self.end.bits {
            if !self.is_occupied(cur) {
                self.set_occupied(cur, true);
                return Some(PhysicalFrameGuard { guard_page_number: cur });
            }
        }
        None
    }

    /// Gives frame `cur`, which must be in use, back.
    pub fn free(&mut self, cur: PhysicalPageNumber)
        requires
            old(self).wf(),
            old(self).start() <= cur.bits < old(self).start() + MAX_MANAGE_PAGE_NUM,
            old(self).occupied()[cur.bits - old(self).start()],
        ensures
            final(self).wf(),
            final(self).start() == old(self).start(),
            final(self).end() == old(self).end(),
            final(self).occupied() == old(self).occupied().update(cur.bits - old(self).start(), false),
    {
        self.set_occupied(cur, false);
    }
}

} // verus!
