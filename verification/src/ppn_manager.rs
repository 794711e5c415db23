//! A bitmap allocator of physical page frames.
use vstd::prelude::*;
use crate::addr::PhysicalPageNumber;
use crate::task_manager::TASK_RUNNING_ADDR;

verus! {

/// Number of page frames the allocator manages.
pub const MAX_MANAGED_PAGE: usize = 256;

/// Page `p` is the lowest free page of `a`.
pub open spec fn lowest_free(a: PPNManagerImpl, p: usize) -> bool {
    &&& a.start() is Some
    &&& a.start().unwrap() <= p < a.start().unwrap() + MAX_MANAGED_PAGE
    &&& !a.occupied()[p - a.start().unwrap()]
    &&& forall|j: int| 0 <= j < p - a.start().unwrap() ==> #[trigger] a.occupied()[j]
}

/// Page `q` is the lowest free page of `a` once page `p` is taken too.
pub open spec fn next_lowest_free(a: PPNManagerImpl, p: usize, q: usize) -> bool {
    &&& a.start() is Some
    &&& a.start().unwrap() <= q < a.start().unwrap() + MAX_MANAGED_PAGE
    &&& q != p
    &&& !a.occupied()[q - a.start().unwrap()]
    &&& forall|j: int| 0 <= j < q - a.start().unwrap() && j != p - a.start().unwrap() ==> #[trigger] a.occupied()[j]
}

/// A page frame handed out by the allocator.
#[derive(Debug)]
pub struct PhysicalPageNumberGuard {
    pub ppn: PhysicalPageNumber,
}

impl PhysicalPageNumberGuard {
    /// Address of the first byte of the guarded frame.
    pub fn as_addr(&self) -> (r: usize)
        ensures
            r == crate::addr::page_addr(self.ppn.bits),
    {
        self.ppn.as_addr()
    }
}

/// Number of entries of `bitmap` below `n` that are free (`false`).
pub open spec fn count_free(bitmap: Seq<bool>, n: int) -> nat
    decreases n,
{
    if n <= 0 {
        0
    } else if !bitmap[n - 1] {
        count_free(bitmap, n - 1) + 1
    } else {
        count_free(bitmap, n - 1)
    }
}

/// Marking a free entry as occupied removes exactly one free entry.
pub proof fn lemma_count_free_occupy(bitmap: Seq<bool>, i: int, n: int)
    requires
        0 <= i < n <= bitmap.len(),
        !bitmap[i],
    ensures
        count_free(bitmap.update(i, true), n) + 1 == count_free(bitmap, n),
    decreases n,
{
    if n - 1 != i {
        lemma_count_free_occupy(bitmap, i, n - 1);
    } else {
        lemma_count_free_same_prefix(bitmap, bitmap.update(i, true), n - 1);
    }
}

/// Two bitmaps that agree below `n` have the same number of free entries there.
pub proof fn lemma_count_free_same_prefix(a: Seq<bool>, b: Seq<bool>, n: int)
    requires
        0 <= n <= a.len(),
        n <= b.len(),
        forall|j: int| 0 <= j < n ==> a[j] == b[j],
    ensures
        count_free(a, n) == count_free(b, n),
    decreases n,
{
    if n > 0 {
        lemma_count_free_same_prefix(a, b, n - 1);
    }
}

/// Freeing an occupied entry adds exactly one free entry.
pub proof fn lemma_count_free_release(bitmap: Seq<bool>, i: int, n: int)
    requires
        0 <= i < n <= bitmap.len(),
        bitmap[i],
    ensures
        count_free(bitmap.update(i, false), n) == count_free(bitmap, n) + 1,
    decreases n,
{
    if n - 1 != i {
        lemma_count_free_release(bitmap, i, n - 1);
    } else {
        lemma_count_free_same_prefix(bitmap, bitmap.update(i, false), n - 1);
    }
}

/// No entry below `n` is free exactly when the count of free entries is zero.
pub proof fn lemma_count_free_zero(bitmap: Seq<bool>, n: int)
    requires
        0 <= n <= bitmap.len(),
    ensures
        (count_free(bitmap, n) == 0) <==> (forall|j: int| 0 <= j < n ==> bitmap[j]),
    decreases n,
{
    if n > 0 {
        lemma_count_free_zero(bitmap, n - 1);
    }
}

/// With every entry below `n` free, `n` entries are free.
pub proof fn lemma_count_all_free(bitmap: Seq<bool>, n: int)
    requires
        0 <= n <= bitmap.len(),
        forall|j: int| 0 <= j < n ==> !#[trigger] bitmap[j],
    ensures
        count_free(bitmap, n) == n,
    decreases n,
{
    if n > 0 {
        lemma_count_all_free(bitmap, n - 1);
    }
}

/// A page-frame allocator.
pub trait PPNManager {
    /// The allocator's invariant.
    spec fn inv(&self) -> bool;

    /// Memory was handed to the allocator.
    spec fn has_memory(&self) -> bool;

    /// Number of free pages.
    spec fn free_pages(&self) -> nat;

    /// Page number `p` lies in the managed range.
    spec fn manages(&self, p: usize) -> bool;

    /// Hands the pages from `ceil(start_addr)` up to `floor(end_addr)` to
    /// the allocator, once.
    fn add_memory(&mut self, start_addr: usize, end_addr: usize)
        requires
            old(self).inv(),
            !old(self).has_memory(),
            start_addr > 0,
        ensures
            final(self).inv(),
            final(self).has_memory(),
    ;

    /// Takes a free page; fails with "failed to alloc", changing nothing,
    /// when none is free.
    fn alloc_page(&mut self) -> (r: Result<PhysicalPageNumberGuard, &'static str>)
        requires
            old(self).inv(),
        ensures
            final(self).inv(),
            r is Ok <==> old(self).free_pages() > 0,
            r is Ok ==> final(self).free_pages() + 1 == old(self).free_pages() && final(self).manages(
                r->Ok_0.ppn.bits,
            ),
            r matches Err(e) ==> e@ == "failed to alloc"@ && final(self).free_pages() == old(self).free_pages(),
    ;

    /// Gives page `ppn` back.
    fn free(&mut self, ppn: PhysicalPageNumber)
        requires
            old(self).inv(),
            old(self).manages(ppn.bits),
        ensures
            final(self).inv(),
    ;
}

/// The bitmap allocator: `bitmap[i]` tells whether page `start_ppn + i` is
/// occupied. Before memory is added every entry is occupied.
pub struct PPNManagerImpl {
    start_ppn: Option<PhysicalPageNumber>,
    bitmap: [bool; 256],
}

impl PPNManagerImpl {
    /// First managed page number, once memory was added.
    pub closed spec fn start(&self) -> Option<usize> {
        match self.start_ppn {
            Some(p) => Some(p.bits),
            None => None,
        }
    }

    /// Occupancy of each managed page.
    pub closed spec fn occupied(&self) -> Seq<bool> {
        self.bitmap@
    }

    /// Number of free pages.
    pub open spec fn free_count(&self) -> nat {
        count_free(self.occupied(), MAX_MANAGED_PAGE as int)
    }

    /// Whether page number `p` is managed here and occupied.
    pub open spec fn holds(&self, p: usize) -> bool {
        &&& self.start() is Some
        &&& self.start().unwrap() <= p < self.start().unwrap() + MAX_MANAGED_PAGE
        &&& self.occupied()[p - self.start().unwrap()]
    }

    /// `self` is `older` after more pages were taken: same range, and every
    /// page occupied in `older` is still occupied.
    pub open spec fn extends(&self, older: PPNManagerImpl) -> bool {
        &&& self.start() == older.start()
        &&& forall|p: usize| #[trigger] older.holds(p) ==> self.holds(p)
    }

    /// The allocator's invariant.
    pub open spec fn wf(&self) -> bool {
        &&& self.occupied().len() == MAX_MANAGED_PAGE
        &&& self.start() is None ==> forall|i: int|
            0 <= i < MAX_MANAGED_PAGE ==> #[trigger] self.occupied()[i]
        &&& self.start() is Some ==> self.start().unwrap() + MAX_MANAGED_PAGE < usize::MAX
    }

    /// An allocator that manages no memory yet: every page is occupied.
    pub fn new() -> (r: Self)
        ensures
            r.wf(),
            r.start() is None,
            r.free_count() == 0,
    {
        let r = PPNManagerImpl { start_ppn: None, bitmap: [true; 256] };
        proof {
            lemma_count_free_zero(r.occupied(), MAX_MANAGED_PAGE as int);
        }
        r
    }

    /// Number of free pages.
    pub fn free_page_count(&self) -> (r: usize)
        requires
            self.wf(),
        ensures
            r == self.free_count(),
    {
        let mut n: usize = 0;
        let mut i: usize = 0;
        while i < MAX_MANAGED_PAGE
            invariant
                0 <= i <= MAX_MANAGED_PAGE,
                self.wf(),
                n == count_free(self.occupied(), i as int),
                n <= i,
            decreases MAX_MANAGED_PAGE - i,
        {
            if !self.bitmap[i] {
                n = n + 1;
            }
            i = i + 1;
        }
        n
    }

}

impl PPNManager for PPNManagerImpl {
    open spec fn inv(&self) -> bool {
        self.wf()
    }

    open spec fn has_memory(&self) -> bool {
        self.start() is Some
    }

    open spec fn free_pages(&self) -> nat {
        self.free_count()
    }

    open spec fn manages(&self, p: usize) -> bool {
        &&& self.start() is Some
        &&& self.start().unwrap() <= p < self.start().unwrap() + MAX_MANAGED_PAGE
    }

    /// Hands the pages from `ceil(start_addr)` up to (not including)
    /// `floor(end_addr)` to the allocator; at most `MAX_MANAGED_PAGE` of them
    /// are managed, the rest of the bitmap stays occupied.
    fn add_memory(&mut self, start_addr: usize, end_addr: usize)
        ensures
            final(self).wf(),
            final(self).start() == Some(((start_addr - 1) as usize / 4096 + 1) as usize),
            forall|i: int|
                0 <= i < MAX_MANAGED_PAGE ==> (#[trigger] final(self).occupied()[i] <==> !(
                final(self).start().unwrap() + i < end_addr / 4096)),
    {
        let start = PhysicalPageNumber::ceil(start_addr);
        let end_ppn = PhysicalPageNumber::floor(end_addr);
        assert(start.bits + MAX_MANAGED_PAGE < usize::MAX) by (nonlinear_arith)
            requires
                start.bits == (start_addr - 1) as usize / 4096 + 1,
        ;
        self.start_ppn = Some(start);
        self.bitmap = [true; 256];
        let mut i: usize = 0;
        while i < MAX_MANAGED_PAGE
            invariant
                0 <= i <= MAX_MANAGED_PAGE,
                self.start_ppn == Some(start),
                start.bits + MAX_MANAGED_PAGE < usize::MAX,
                self.bitmap@.len() == MAX_MANAGED_PAGE,
                forall|j: int| 0 <= j < i ==> (#[trigger] self.bitmap@[j] <==> !(start.bits + j < end_ppn.bits)),
                forall|j: int| i <= j < MAX_MANAGED_PAGE ==> #[trigger] self.bitmap@[j],
            ensures
                i == MAX_MANAGED_PAGE || start.bits + i >= end_ppn.bits,
            decreases MAX_MANAGED_PAGE - i,
        {
            if start.bits + i >= end_ppn.bits {
                break;
            }
            self.bitmap[i] = false;
            i = i + 1;
        }
        assert forall|j: int| 0 <= j < MAX_MANAGED_PAGE implies (#[trigger] self.bitmap@[j] <==> !(
            start.bits + j < end_ppn.bits)) by {
            if j >= i && i < MAX_MANAGED_PAGE {
                assert(start.bits + i >= end_ppn.bits);
            }
        }
    }

    /// Takes the lowest free page and marks it occupied.
    fn alloc_page(&mut self) -> (r: Result<PhysicalPageNumberGuard, &'static str>)
        ensures
            final(self).wf(),
            final(self).start() == old(self).start(),
            r is Ok <==> old(self).free_count() > 0,
            r is Ok ==> {
                let i = r->Ok_0.ppn.bits - old(self).start().unwrap();
                &&& old(self).start() is Some
                &&& 0 <= i < MAX_MANAGED_PAGE
                &&& !old(self).occupied()[i]
                &&& forall|j: int| 0 <= j < i ==> #[trigger] old(self).occupied()[j]
                &&& final(self).occupied() == old(self).occupied().update(i, true)
                &&& final(self).free_count() + 1 == old(self).free_count()
                &&& lowest_free(*old(self), r->Ok_0.ppn.bits)
            },
            r is Err ==> {
                &&& r->Err_0@ == "failed to alloc"@
                &&& *final(self) == *old(self)
            },
    {
        let mut i: usize = 0;
        while i < MAX_MANAGED_PAGE
            invariant
                0 <= i <= MAX_MANAGED_PAGE,
                self.wf(),
                *self == *old(self),
                forall|j: int| 0 <= j < i ==> #[trigger] self.occupied()[j],
            decreases MAX_MANAGED_PAGE - i,
        {
            if !self.bitmap[i] {
                proof {
                    lemma_count_free_occupy(self.occupied(), i as int, MAX_MANAGED_PAGE as int);
                }
                self.bitmap[i] = true;
                let start = match self.start_ppn {
                    Some(p) => p.bits,
                    None => {
                        assert(false);
                        0
                    },
                };
                return Ok(PhysicalPageNumberGuard { ppn: PhysicalPageNumber::from(start + i) });
            }
            i = i + 1;
        }
        proof {
            lemma_count_free_zero(self.occupied(), MAX_MANAGED_PAGE as int);
        }
        Err("failed to alloc")
    }

    /// Marks page `ppn` free again.
    fn free(&mut self, ppn: PhysicalPageNumber)
        ensures
            final(self).wf(),
            final(self).start() == old(self).start(),
            final(self).occupied() == old(self).occupied().update(
                ppn.bits - old(self).start().unwrap(),
                false,
            ),
    {
        let start = match self.start_ppn {
            Some(p) => p.bits,
            None => 0,
        };
        self.bitmap[ppn.bits - start] = false;
    }
}

/// Hands the allocator the memory from the kernel's end (`kernel_end`) up to
/// the task area at `TASK_RUNNING_ADDR`.
pub fn init(allocator: &mut PPNManagerImpl, kernel_end: usize)
    requires
        old(allocator).wf(),
        old(allocator).start() is None,
        kernel_end > 0,
    ensures
        final(allocator).wf(),
        final(allocator).start() == Some(((kernel_end - 1) as usize / 4096 + 1) as usize),
        forall|i: int|
            0 <= i < MAX_MANAGED_PAGE ==> (#[trigger] final(allocator).occupied()[i] <==> !(
            final(allocator).start().unwrap() + i < TASK_RUNNING_ADDR / 4096)),
{
    allocator.add_memory(kernel_end, TASK_RUNNING_ADDR);
}

/// Freeing the frame that an allocation just handed out gives the allocator
/// back the bitmap it had before the allocation.
pub proof fn lemma_free_undoes_alloc(a: PPNManagerImpl, i: int)
    requires
        a.wf(),
        0 <= i < MAX_MANAGED_PAGE,
        !a.occupied()[i],
    ensures
        a.occupied().update(i, true).update(i, false) == a.occupied(),
{
    assert(a.occupied().update(i, true).update(i, false) =~= a.occupied());
}

} // verus!
