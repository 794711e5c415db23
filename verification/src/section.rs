//! Contiguous ranges of virtual pages and the page-table entries that map them.
use vstd::prelude::*;
use crate::ppn_manager::PPNManager;
use crate::addr::{PhysicalPageNumber, VirtualPageNumber, PAGE_SIZE};
use crate::page_table::PageTableEntry;
use crate::ppn_manager::{PPNManagerImpl, lowest_free};
use crate::raw_page::RawPage;

verus! {

/// Access rights of a section.
#[derive(Clone, Copy)]
pub struct Permission {
    pub read: bool,
    pub write: bool,
    pub execute: bool,
    pub user: bool,
}

/// Kernel code: execute only.
pub fn text_permission() -> (r: Permission)
    ensures
        r == (Permission { read: false, write: false, execute: true, user: false }),
{
    Permission { read: false, write: false, execute: true, user: false }
}

/// Read-only data.
pub fn rodata_permission() -> (r: Permission)
    ensures
        r == (Permission { read: true, write: false, execute: false, user: false }),
{
    Permission { read: true, write: false, execute: false, user: false }
}

/// Writable data.
pub fn data_permission() -> (r: Permission)
    ensures
        r == (Permission { read: true, write: true, execute: false, user: false }),
{
    Permission { read: true, write: true, execute: false, user: false }
}

/// Zero-initialised data.
pub fn bss_permission() -> (r: Permission)
    ensures
        r == (Permission { read: true, write: true, execute: false, user: false }),
{
    Permission { read: true, write: true, execute: false, user: false }
}

impl Permission {
    /// The same rights, for user mode.
    pub fn for_user(&self) -> (r: Self)
        ensures
            r == (Permission { user: true, ..*self }),
    {
        let mut clone = *self;
        clone.user = true;
        clone
    }

    /// The same rights, for supervisor mode.
    pub fn for_kernel(&self) -> (r: Self)
        ensures
            r == (Permission { user: false, ..*self }),
    {
        let mut clone = *self;
        clone.user = false;
        clone
    }
}

/// Where the pages of a section are mapped.
#[derive(Copy, Clone)]
pub enum MapTarget<'a> {
    /// Each virtual page to the physical page with the same number.
    Identity,
    /// To freshly allocated frames, filled from the bytes given, if any.
    Random(Option<&'a [u8]>),
}

/// The virtual pages `[start_vpn, end_vpn)` with their rights and target.
#[derive(Copy, Clone)]
pub struct VirtualSection<'a> {
    pub start_vpn: VirtualPageNumber,
    pub end_vpn: VirtualPageNumber,
    pub permission: Permission,
    pub map_target: MapTarget<'a>,
}

/// The entry that maps a page of a section with rights `p` to frame `ppn`.
pub open spec fn section_entry(ppn: usize, p: Permission) -> PageTableEntry {
    PageTableEntry {
        ppn: PhysicalPageNumber { bits: ppn },
        valid: true,
        read: p.read,
        write: p.write,
        execute: p.execute,
        user: p.user,
    }
}

impl<'a> VirtualSection<'a> {
    /// The pages that cover the bytes `[start_addr, end_addr)`.
    pub fn new(start_addr: usize, end_addr: usize, map_target: MapTarget<'a>, permission: Permission) -> (r:
        Self)
        requires
            end_addr > 0,
        ensures
            r.start_vpn.bits == start_addr / PAGE_SIZE,
            r.end_vpn.bits == (end_addr - 1) as usize / PAGE_SIZE + 1,
            r.map_target == map_target,
            r.permission == permission,
    {
        Self {
            start_vpn: VirtualPageNumber::floor(start_addr),
            end_vpn: VirtualPageNumber::ceil(end_addr),
            map_target,
            permission,
        }
    }

    /// A walk over the section's pages, from the first.
    pub fn iter(&self) -> (r: VirtualSectionIter<'_>)
        ensures
            *r.section() == *self,
            r.cur() == self.start_vpn.bits,
    {
        VirtualSectionIter { section: self, cur: self.start_vpn }
    }
}

/// A walk over the pages of a section.
pub struct VirtualSectionIter<'a> {
    section: &'a VirtualSection<'a>,
    cur: VirtualPageNumber,
}

/// The bytes of `data` that belong in page `k` of a section (page size
/// chunks, the last one possibly shorter).
pub open spec fn page_chunk(data: Seq<u8>, k: int) -> Seq<u8> {
    let start = k * 4096;
    let end = if (k + 1) * 4096 > data.len() {
        data.len() as int
    } else {
        (k + 1) * 4096
    };
    if start < data.len() {
        data.subrange(start, end)
    } else {
        Seq::empty()
    }
}

impl<'a> VirtualSectionIter<'a> {
    /// The section walked.
    pub closed spec fn section(&self) -> &'a VirtualSection<'a> {
        self.section
    }

    /// The next page to hand out.
    pub closed spec fn cur(&self) -> usize {
        self.cur.bits
    }

    /// Hands out the next page, its entry and, for a `Random` section, the
    /// freshly allocated frame with its part of the data.
    pub fn next(&mut self, allocator: &mut PPNManagerImpl) -> (r: Option<
        (VirtualPageNumber, PageTableEntry, Option<RawPage>),
    >)
        requires
            old(allocator).wf(),
            old(self).cur() < old(self).section().end_vpn.bits ==> match old(self).section().map_target {
                MapTarget::Identity => true,
                MapTarget::Random(d) => {
                    &&& old(allocator).free_count() > 0
                    &&& old(self).cur() >= old(self).section().start_vpn.bits
                    &&& d is Some ==> (old(self).cur() - old(self).section().start_vpn.bits + 1) * 4096
                        <= usize::MAX
                },
            },
        ensures
            final(self).section() == old(self).section(),
            final(allocator).wf(),
            final(allocator).extends(*old(allocator)),
            old(self).cur() >= old(self).section().end_vpn.bits ==> r is None && final(self).cur()
                == old(self).cur() && *final(allocator) == *old(allocator),
            old(self).cur() < old(self).section().end_vpn.bits ==> {
                let s = old(self).section();
                let cur = old(self).cur();
                &&& final(self).cur() == cur + 1
                &&& r is Some
                &&& r->Some_0.0.bits == cur
                &&& match s.map_target {
                    MapTarget::Identity => {
                        &&& r->Some_0.1 == section_entry(cur, s.permission)
                        &&& r->Some_0.2 is None
                        &&& *final(allocator) == *old(allocator)
                    },
                    MapTarget::Random(d) => {
                        let page = r->Some_0.2->Some_0;
                        &&& r->Some_0.2 is Some
                        &&& r->Some_0.1 == section_entry(page.ppn.ppn.bits, s.permission)
                        &&& page.ppn.ppn.bits >= old(allocator).start().unwrap()
                        &&& final(allocator).holds(page.ppn.ppn.bits)
                        &&& !old(allocator).occupied()[page.ppn.ppn.bits - old(allocator).start().unwrap()]
                        &&& final(allocator).occupied() == old(allocator).occupied().update(
                            page.ppn.ppn.bits - old(allocator).start().unwrap(),
                            true,
                        )
                        &&& final(allocator).free_count() + 1 == old(allocator).free_count()
                        &&& lowest_free(*old(allocator), page.ppn.ppn.bits)
                        &&& page.raw@.len() == 4096
                        &&& match d {
                            Some(data) => {
                                let chunk = page_chunk(data@, cur - s.start_vpn.bits);
                                &&& page.raw@.subrange(0, chunk.len() as int) == chunk
                                &&& forall|j: int| chunk.len() <= j < 4096 ==> #[trigger] page.raw@[j] == 0
                            },
                            None => forall|j: int| 0 <= j < 4096 ==> #[trigger] page.raw@[j] == 0,
                        }
                    },
                }
            },
    {
        if self.cur.bits < self.section.end_vpn.bits {
            let ret = self.cur;
            let (ppn, raw_page) = match self.section.map_target {
                MapTarget::Identity => (PhysicalPageNumber::from(ret.bits), None),
                MapTarget::Random(data) => {
                    let mut raw_page = RawPage::from(allocator.alloc_page().unwrap());
                    if let Some(data) = data {
                        let start_addr = (ret.bits - self.section.start_vpn.bits) * PAGE_SIZE;
                        let mut end_addr = (ret.bits - self.section.start_vpn.bits + 1) * PAGE_SIZE;
                        if end_addr > data.len() {
                            end_addr = data.len();
                        }
                        if start_addr < data.len() {
                            let ghost before = raw_page.raw@;
                            raw_page.copy(&data[start_addr..end_addr]);
                            proof {
                                let chunk = page_chunk(data@, ret.bits - self.section.start_vpn.bits);
                                assert(data@.subrange(start_addr as int, end_addr as int) == chunk);
                                assert(raw_page.raw@.subrange(0, chunk.len() as int) =~= chunk);
                            }
                        }
                    }
                    (raw_page.ppn.ppn, Some(raw_page))
                },
            };
            let entry = PageTableEntry {
                ppn: ppn,
                valid: true,
                read: self.section.permission.read,
                write: self.section.permission.write,
                execute: self.section.permission.execute,
                user: self.section.permission.user,
            };
            self.cur.bits = self.cur.bits + 1;
            Some((ret, entry, raw_page))
        } else {
            None
        }
    }
}

/// The next page of a walk over pages `[start, end)` after `k` calls of
/// `next` from `iter()`: each call moves one page on while the walk is
/// inside the section and stays put at its end (see `next`).
pub open spec fn walk_cur(start: usize, end: usize, k: nat) -> int
    decreases k,
{
    if k == 0 {
        start as int
    } else {
        let c = walk_cur(start, end, (k - 1) as nat);
        if c < end {
            c + 1
        } else {
            c
        }
    }
}

/// The page that call `k` (from 0) of `next` hands out on that walk, if any.
pub open spec fn walk_item(start: usize, end: usize, k: nat) -> Option<int> {
    let c = walk_cur(start, end, k);
    if c < end {
        Some(c)
    } else {
        None
    }
}

/// A whole walk over a section: call `k` of `next` hands out page
/// `start + k` while `start + k < end`, and every later call hands out
/// nothing. So the walk yields each page of the section once, in increasing
/// order, `end - start` of them (none when `end <= start`).
pub proof fn lemma_section_walk(start: usize, end: usize, k: nat)
    ensures
        walk_cur(start, end, k) == if start + k <= end {
            start + k
        } else if start <= end {
            end as int
        } else {
            start as int
        },
        walk_item(start, end, k) == if start + k < end {
            Some(start + k)
        } else {
            None::<int>
        },
    decreases k,
{
    if k > 0 {
        lemma_section_walk(start, end, (k - 1) as nat);
    }
}

/// Two calls of a walk never hand out the same page.
pub proof fn lemma_section_walk_distinct(start: usize, end: usize, k1: nat, k2: nat)
    requires
        k1 < k2,
        walk_item(start, end, k1) is Some,
        walk_item(start, end, k2) is Some,
    ensures
        walk_item(start, end, k1) != walk_item(start, end, k2),
{
    lemma_section_walk(start, end, k1);
    lemma_section_walk(start, end, k2);
}

} // verus!
