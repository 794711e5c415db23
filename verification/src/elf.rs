//! What the kernel reads from a task's ELF image.
use vstd::prelude::*;
use crate::section::{Permission, page_chunk};

verus! {

/// A program header of the image, with the bytes of the segment's file part.
pub struct ElfSegment {
    /// The segment is to be loaded (type `LOAD`).
    pub is_load: bool,
    pub read: bool,
    pub write: bool,
    pub execute: bool,
    pub virtual_addr: u64,
    pub mem_size: u64,
    /// The bytes `[offset, offset + file_size)` of the image.
    pub data: Vec<u8>,
}

/// The parts of an ELF image the loader uses.
pub struct ElfImage {
    pub entry_point: u64,
    pub segments: Vec<ElfSegment>,
}

/// A page to load: its virtual page number, its rights and the bytes it
/// starts with (the rest of the page is clear).
pub type PagePlan = (usize, Permission, Seq<u8>);

/// The rights of a loadable segment: its flags, for user mode.
pub open spec fn seg_perm(s: ElfSegment) -> Permission {
    Permission { read: s.read, write: s.write, execute: s.execute, user: true }
}

/// First page of a segment.
pub open spec fn seg_start(s: ElfSegment) -> usize {
    (s.virtual_addr as usize) / 4096
}

/// End of the pages of a segment (the first page past its memory).
pub open spec fn seg_end(s: ElfSegment) -> usize {
    (((s.virtual_addr + s.mem_size) as usize - 1) as usize / 4096 + 1) as usize
}

/// Number of pages of a loadable segment.
pub open spec fn seg_len(s: ElfSegment) -> nat {
    if seg_end(s) >= seg_start(s) {
        (seg_end(s) - seg_start(s)) as nat
    } else {
        0
    }
}

/// The pages a segment loads: none unless it is loadable; else each page
/// of its memory with the segment's rights and its part of the data.
pub open spec fn seg_pages(s: ElfSegment) -> Seq<PagePlan> {
    if s.is_load {
        Seq::new(
            seg_len(s),
            |k: int| ((seg_start(s) + k) as usize, seg_perm(s), page_chunk(s.data@, k)),
        )
    } else {
        Seq::empty()
    }
}

/// The pages that the segments load, in order.
pub open spec fn plan_of(segs: Seq<ElfSegment>) -> Seq<PagePlan>
    decreases segs.len(),
{
    if segs.len() == 0 {
        Seq::empty()
    } else {
        plan_of(segs.drop_last()) + seg_pages(segs.last())
    }
}

/// The end of the highest loadable segment (0 when there is none).
pub open spec fn max_end(segs: Seq<ElfSegment>) -> usize
    decreases segs.len(),
{
    if segs.len() == 0 {
        0
    } else {
        let m = max_end(segs.drop_last());
        if segs.last().is_load && seg_end(segs.last()) > m {
            seg_end(segs.last())
        } else {
            m
        }
    }
}

/// A segment's page arithmetic stays inside the machine's words.
pub open spec fn seg_fits(s: ElfSegment) -> bool {
    s.is_load ==> {
        &&& s.virtual_addr + s.mem_size <= u64::MAX
        &&& (s.virtual_addr + s.mem_size) as usize > 0
        &&& seg_len(s) * 4096 <= usize::MAX
    }
}

/// The pages of the first `i + 1` segments: those of the first `i`, then
/// those of segment `i`.
pub proof fn lemma_plan_step(segs: Seq<ElfSegment>, i: int)
    requires
        0 <= i < segs.len(),
    ensures
        plan_of(segs.take(i + 1)) == plan_of(segs.take(i)) + seg_pages(segs[i]),
        max_end(segs.take(i + 1)) == if segs[i].is_load && seg_end(segs[i]) > max_end(segs.take(i)) {
            seg_end(segs[i])
        } else {
            max_end(segs.take(i))
        },
{
    assert(segs.take(i + 1).drop_last() =~= segs.take(i));
    assert(segs.take(i + 1).last() == segs[i]);
}

/// The pages of the first `i` segments come first among all the pages.
pub proof fn lemma_plan_prefix(segs: Seq<ElfSegment>, i: int)
    requires
        0 <= i <= segs.len(),
    ensures
        plan_of(segs.take(i)).len() <= plan_of(segs).len(),
        plan_of(segs).take(plan_of(segs.take(i)).len() as int) == plan_of(segs.take(i)),
    decreases segs.len() - i,
{
    if i == segs.len() {
        assert(segs.take(i) =~= segs);
        assert(plan_of(segs).take(plan_of(segs).len() as int) =~= plan_of(segs));
    } else {
        lemma_plan_prefix(segs, i + 1);
        lemma_plan_step(segs, i);
        let a = plan_of(segs.take(i));
        let b = plan_of(segs.take(i + 1));
        assert(b.take(a.len() as int) =~= a);
        assert(plan_of(segs).take(a.len() as int) =~= plan_of(segs).take(b.len() as int).take(a.len() as int));
    }
}

/// No segment ends further than one page past the last page number.
pub proof fn lemma_max_end_bound(segs: Seq<ElfSegment>)
    ensures
        max_end(segs) <= usize::MAX / 4096 + 1,
    decreases segs.len(),
{
    if segs.len() > 0 {
        lemma_max_end_bound(segs.drop_last());
    }
}

} // verus!
