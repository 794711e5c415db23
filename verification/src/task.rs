//! User tasks: their kernel stacks, pages and page tables.
use vstd::prelude::*;
use crate::ppn_manager::PPNManager;
use crate::addr::{PhysicalPageNumber, VirtualPageNumber};
use crate::addr::PAGE_SIZE;
use crate::page_table::{grows_on_lowest, lemma_grows_refl, lemma_grows_trans, 
    PageTableEntry, PageTableTree, TreeAbs, apply_maps, maps_ok, map_error, first_failure, abs_translate,
    mapped_addr, lemma_last_write, lemma_last_maps_from, lemma_offsets_injective,
    lemma_apply_maps_push, lemma_apply_maps_concat, lemma_last_maps_bits, lemma_offsets_bounds,
};
use crate::kernel_map::{
    identity_maps, map_identity_section, section_maps, text_permission_spec, data_permission_spec, identity_entry,
    has_page, in_section, lemma_data_entry_bits, lemma_text_entry_bits, lemma_section_wins, lemma_section_map_at, misses, lemma_identity_maps, lemma_section_identity, lemma_concat_identity,
};
use crate::section::{MapTarget, Permission, VirtualSection, text_permission, data_permission, section_entry, page_chunk};
use crate::elf::{
    ElfImage, ElfSegment, PagePlan, seg_pages, seg_perm, seg_start, plan_of, max_end, seg_fits, seg_end,
    seg_len, lemma_plan_step, lemma_plan_prefix, lemma_max_end_bound,
};
use crate::ppn_manager::lemma_count_free_release;
use crate::sv39::{encode_entry, entry_ppn, entry_valid, lemma_entry_round_trip, vpn_offsets};
use crate::register::satp_of;
use crate::ppn_manager::{PhysicalPageNumberGuard, PPNManagerImpl, lowest_free, next_lowest_free};
use crate::raw_page::RawPage;
use crate::trap::{TrapContext, TrapContextStore};

verus! {

/// Where a task is in its life.
#[derive(Clone, Copy, Debug, PartialEq, Eq, Structural)]
pub enum TaskState {
    Init,
    Running,
    Stopped,
}

/// Number of pages of a kernel stack.
pub const KERNEL_STACK_PAGE_NUM: usize = 2;

/// Number of user pages a task can own.
pub const MAX_RAW_PAGES: usize = 100;

/// A page of a kernel stack; its top holds the task's trap context.
pub struct KernelStackPage {
    ppn: PhysicalPageNumberGuard,
    trap_context: TrapContext,
}

impl KernelStackPage {
    /// Page number of the frame.
    pub closed spec fn ppn_bits(&self) -> usize {
        self.ppn.ppn.bits
    }

    /// The trap context stored at the top of the page.
    pub closed spec fn trap_context_view(&self) -> Seq<u64> {
        self.trap_context.view()
    }

    /// Takes over frame `v` as a stack page with a clear trap context.
    pub fn from(v: PhysicalPageNumberGuard) -> (r: Self)
        ensures
            r.ppn_bits() == v.ppn.bits,
            r.trap_context_view() == Seq::new(35, |i: int| 0u64),
    {
        KernelStackPage { ppn: v, trap_context: TrapContext::default() }
    }

    /// The trap context at the top of the page.
    pub fn get_trap_context(&self) -> (r: &TrapContext)
        ensures
            r.view() == self.trap_context_view(),
    {
        &self.trap_context
    }

    /// The trap context at the top of the page, to change.
    pub fn get_trap_context_mut(&mut self) -> (r: &mut TrapContext)
        ensures
            r.view() == old(self).trap_context_view(),
            final(self).trap_context_view() == final(r).view(),
            final(self).ppn_bits() == old(self).ppn_bits(),
    {
        &mut self.trap_context
    }
}

/// A task's kernel stack: two pages, the first holding the trap context.
pub struct KernelStack {
    kernel_stack: [KernelStackPage; 2],
}

impl KernelStack {
    /// Page numbers of the two stack pages.
    pub closed spec fn page_ppns(&self) -> Seq<usize> {
        seq![self.kernel_stack@[0].ppn_bits(), self.kernel_stack@[1].ppn_bits()]
    }

    /// The task's trap context.
    pub closed spec fn trap_context_view(&self) -> Seq<u64> {
        self.kernel_stack@[0].trap_context_view()
    }

    /// Takes two frames from `allocator`; fails, taking none, when it has
    /// fewer than two free.
    pub fn init(allocator: &mut PPNManagerImpl) -> (r: Result<Self, &'static str>)
        requires
            old(allocator).wf(),
        ensures
            final(allocator).wf(),
            final(allocator).start() == old(allocator).start(),
            r is Ok <==> old(allocator).free_count() >= 2,
            r matches Ok(ks) ==> {
                &&& final(allocator).extends(*old(allocator))
                &&& final(allocator).free_count() + 2 == old(allocator).free_count()
                &&& final(allocator).holds(ks.page_ppns()[0])
                &&& final(allocator).holds(ks.page_ppns()[1])
                &&& !old(allocator).holds(ks.page_ppns()[0])
                &&& !old(allocator).holds(ks.page_ppns()[1])
                &&& ks.page_ppns()[0] != ks.page_ppns()[1]
                &&& lowest_free(*old(allocator), ks.page_ppns()[0])
                &&& next_lowest_free(*old(allocator), ks.page_ppns()[0], ks.page_ppns()[1])
                &&& ks.trap_context_view() == Seq::new(35, |i: int| 0u64)
            },
            r matches Err(e) ==> e@ == "failed to alloc"@ && final(allocator).occupied()
                == old(allocator).occupied(),
    {
        let first = match allocator.alloc_page() {
            Ok(g) => g,
            Err(e) => {
                return Err(e);
            },
        };
        let ghost mid = *allocator;
        let second = match allocator.alloc_page() {
            Ok(g) => g,
            Err(e) => {
                // The first frame goes back, as dropping its guard would.
                allocator.free(first.ppn);
                proof {
                    assert(allocator.occupied() =~= old(allocator).occupied());
                }
                return Err(e);
            },
        };
        proof {
            let st = old(allocator).start().unwrap();
            let i0 = first.ppn.bits - st;
            assert(mid.occupied() == old(allocator).occupied().update(i0, true));
            assert forall|j: int|
                0 <= j < second.ppn.bits - st && j != i0 implies #[trigger] old(allocator).occupied()[j] by {
                assert(mid.occupied()[j]);
            }
        }
        Ok(KernelStack { kernel_stack: [KernelStackPage::from(first), KernelStackPage::from(second)] })
    }

    /// The task's trap context.
    pub fn get_trap_context(&self) -> (r: &TrapContext)
        ensures
            r.view() == self.trap_context_view(),
    {
        self.kernel_stack[0].get_trap_context()
    }
}

impl KernelStack {
    /// The task's trap context, to change.
    pub fn get_trap_context_mut(&mut self) -> (r: &mut TrapContext)
        ensures
            r.view() == old(self).trap_context_view(),
            final(self).trap_context_view() == final(r).view(),
            final(self).page_ppns() == old(self).page_ppns(),
    {
        self.kernel_stack[0].get_trap_context_mut()
    }
}

/// A user page: where it is mapped, its entry and its frame.
pub type SavedPage = (VirtualPageNumber, PageTableEntry, RawPage);

/// A user task: its code's place in memory, its state, its pages, its page
/// table and its kernel stack.
pub struct Task {
    pub start_addr: usize,
    end_addr: usize,
    state: TaskState,
    raw_pages: Vec<Option<SavedPage>>,
    page_table_tree: PageTableTree,
    kernel_stack: KernelStack,
}

impl Task {
    /// Start of the task's code in memory.
    pub closed spec fn start(&self) -> usize {
        self.start_addr
    }

    /// End of the task's code in memory.
    pub closed spec fn end(&self) -> usize {
        self.end_addr
    }

    /// The task's state.
    pub closed spec fn state(&self) -> TaskState {
        self.state
    }

    /// The task's user pages, by slot.
    pub closed spec fn raw_pages(&self) -> Seq<Option<SavedPage>> {
        self.raw_pages@
    }

    /// The task's page table.
    pub closed spec fn tree(&self) -> PageTableTree {
        self.page_table_tree
    }

    /// The task's kernel stack.
    pub closed spec fn stack(&self) -> KernelStack {
        self.kernel_stack
    }

    /// The same task in state `state`.
    pub closed spec fn with_state(self, state: TaskState) -> Task {
        Task { state, ..self }
    }

    /// A task just made for the code at `[start, end)`: not yet loaded, with
    /// no user page, an empty page table and a clear trap context.
    pub open spec fn is_fresh(&self, start: usize, end: usize) -> bool {
        &&& self.wf()
        &&& self.start() == start
        &&& self.end() == end
        &&& self.state() == TaskState::Init
        &&& forall|i: int| 0 <= i < MAX_RAW_PAGES ==> #[trigger] self.raw_pages()[i] is None
        &&& !self.tree().is_init()
        &&& self.tree().free_slots() == crate::page_table::BASE_PAGE_TABLE_COUNT
        &&& forall|a: PPNManagerImpl| self.tree().held_by(a)
        &&& self.stack().trap_context_view() == Seq::new(35, |i: int| 0u64)
    }

    /// The task's invariant.
    pub open spec fn wf(&self) -> bool {
        &&& self.raw_pages().len() == MAX_RAW_PAGES
        &&& self.tree().wf()
        &&& forall|i: int, j: int|
            0 <= i < j < MAX_RAW_PAGES && (#[trigger] self.raw_pages()[j]) is Some ==> (
            #[trigger] self.raw_pages()[i]) is Some
    }

    /// A task for the code at `[start_addr, end_addr)`, with a kernel stack
    /// from `allocator` (which must have two free pages), no user pages and
    /// an empty page table.
    pub fn new(start_addr: usize, end_addr: usize, allocator: &mut PPNManagerImpl) -> (r: Self)
        requires
            old(allocator).wf(),
            old(allocator).free_count() >= 2,
        ensures
            r.is_fresh(start_addr, end_addr),
            final(allocator).wf(),
            final(allocator).extends(*old(allocator)),
            final(allocator).free_count() + 2 == old(allocator).free_count(),
            final(allocator).holds(r.stack().page_ppns()[0]),
            final(allocator).holds(r.stack().page_ppns()[1]),
            !old(allocator).holds(r.stack().page_ppns()[0]),
            !old(allocator).holds(r.stack().page_ppns()[1]),
            r.stack().page_ppns()[0] != r.stack().page_ppns()[1],
            lowest_free(*old(allocator), r.stack().page_ppns()[0]),
            next_lowest_free(*old(allocator), r.stack().page_ppns()[0], r.stack().page_ppns()[1]),
    {
        let kernel_stack = KernelStack::init(allocator).unwrap();
        let mut raw_pages: Vec<Option<SavedPage>> = Vec::new();
        let mut i: usize = 0;
        while i < MAX_RAW_PAGES
            invariant
                0 <= i <= MAX_RAW_PAGES,
                raw_pages@.len() == i,
                forall|j: int| 0 <= j < i ==> #[trigger] raw_pages@[j] is None,
            decreases MAX_RAW_PAGES - i,
        {
            raw_pages.push(None);
            i = i + 1;
        }
        Task {
            start_addr,
            end_addr,
            state: TaskState::Init,
            raw_pages,
            page_table_tree: PageTableTree::default(),
            kernel_stack,
        }
    }

    /// The task's trap context.
    pub fn get_trap_context(&self) -> (r: &TrapContext)
        ensures
            r.view() == self.stack().trap_context_view(),
    {
        self.kernel_stack.get_trap_context()
    }

    /// Sets the task's state.
    pub fn set_state(&mut self, state: TaskState)
        ensures
            *final(self) == old(self).with_state(state),
            final(self).state() == state,
            final(self).start() == old(self).start(),
            final(self).end() == old(self).end(),
            final(self).raw_pages() == old(self).raw_pages(),
            final(self).tree() == old(self).tree(),
            final(self).stack() == old(self).stack(),
    {
        self.state = state;
    }

    /// Page numbers of the task's two kernel stack pages.
    pub fn kernel_stack_ppns(&self) -> (r: [usize; 2])
        ensures
            r@ == self.stack().page_ppns(),
    {
        let r = [self.kernel_stack.kernel_stack[0].ppn.ppn.bits, self.kernel_stack.kernel_stack[1].ppn.ppn.bits];
        assert(r@ =~= self.stack().page_ppns());
        r
    }

    /// The user page kept in slot `i`, if any: its frame and the bytes that
    /// belong in it.
    pub fn raw_page(&self, i: usize) -> (r: Option<&RawPage>)
        requires
            self.wf(),
            i < MAX_RAW_PAGES,
        ensures
            r is Some <==> self.raw_pages()[i as int] is Some,
            r matches Some(p) ==> *p == self.raw_pages()[i as int]->Some_0.2,
    {
        match &self.raw_pages[i] {
            Some(saved) => Some(&saved.2),
            None => None,
        }
    }

    /// Replaces the task's trap context with the registers `ctx` that the
    /// trap entry saved, changing nothing else.
    pub fn set_trap_context(&mut self, ctx: &TrapContext)
        ensures
            final(self).stack().trap_context_view() == ctx.view(),
            final(self).stack().page_ppns() == old(self).stack().page_ppns(),
            final(self).start() == old(self).start(),
            final(self).end() == old(self).end(),
            final(self).state() == old(self).state(),
            final(self).raw_pages() == old(self).raw_pages(),
            final(self).tree() == old(self).tree(),
    {
        let saved = self.kernel_stack.get_trap_context_mut();
        *saved = ctx.duplicate();
    }

    /// Whether the task's page table has its root in place.
    pub fn has_page_table(&self) -> (r: bool)
        requires
            self.wf(),
        ensures
            r == self.tree().is_init(),
    {
        self.page_table_tree.has_root()
    }

    /// Whether the task's image was loaded: its first user page is in place.
    pub fn is_loaded(&self) -> (r: bool)
        requires
            self.wf(),
        ensures
            r == self.raw_pages()[0] is Some,
    {
        self.raw_pages[0].is_some()
    }

    /// Whether the task can run: it was not stopped.
    pub fn is_runnable(&self) -> (r: bool)
        ensures
            r == (self.state() == TaskState::Init || self.state() == TaskState::Running),
    {
        self.state == TaskState::Init || self.state == TaskState::Running
    }

    /// Keeps a user page in the first free slot; when all slots are taken
    /// the page's frame goes back to `allocator`.
    fn save_raw_page(
        &mut self,
        vpn: VirtualPageNumber,
        entry: PageTableEntry,
        raw_page: RawPage,
        allocator: &mut PPNManagerImpl,
    ) -> (r: Result<(), &'static str>)
        requires
            old(self).wf(),
            old(allocator).wf(),
            old(allocator).holds(raw_page.ppn.ppn.bits),
        ensures
            final(allocator).wf(),
            r is Ok ==> *final(allocator) == *old(allocator),
            r is Err ==> final(allocator).start() == old(allocator).start() && final(allocator).occupied()
                == old(allocator).occupied().update(
                raw_page.ppn.ppn.bits - old(allocator).start().unwrap(),
                false,
            ),
            final(self).wf(),
            final(self).start() == old(self).start(),
            final(self).end() == old(self).end(),
            final(self).state() == old(self).state(),
            final(self).tree() == old(self).tree(),
            final(self).stack() == old(self).stack(),
            r is Ok <==> exists|i: int| 0 <= i < MAX_RAW_PAGES && #[trigger] old(self).raw_pages()[i] is None,
            r is Ok ==> exists|i: int|
                0 <= i < MAX_RAW_PAGES && #[trigger] old(self).raw_pages()[i] is None && (forall|j: int|
                    0 <= j < i ==> old(self).raw_pages()[j] is Some) && final(self).raw_pages()
                    == old(self).raw_pages().update(i, Some((vpn, entry, raw_page))),
            r matches Err(e) ==> e@ == "failed to save raw page"@ && final(self).raw_pages() == old(
                self,
            ).raw_pages(),
    {
        let mut i: usize = 0;
        while i < MAX_RAW_PAGES
            invariant
                0 <= i <= MAX_RAW_PAGES,
                self.raw_pages@.len() == MAX_RAW_PAGES,
                *self == *old(self),
                *allocator == *old(allocator),
                old(self).wf(),
                old(allocator).wf(),
                old(allocator).holds(raw_page.ppn.ppn.bits),
                forall|j: int| 0 <= j < i ==> #[trigger] self.raw_pages@[j] is Some,
            decreases MAX_RAW_PAGES - i,
        {
            if self.raw_pages[i].is_none() {
                self.raw_pages[i] = Some((vpn, entry, raw_page));
                return Ok(());
            }
            i = i + 1;
        }
        // The page is dropped: its frame goes back.
        allocator.free(raw_page.ppn.ppn);
        Err("failed to save raw page")
    }

    /// Page number of the task's root page table.
    pub fn get_page_table_root_ppn(&self) -> (r: PhysicalPageNumber)
        requires
            self.wf(),
            self.tree().is_init(),
        ensures
            r.bits == self.tree().tppn(0),
    {
        self.page_table_tree.get_root_ppn()
    }
}

/// The maps of the user pages held in `pages`, slot by slot.
pub open spec fn raw_maps(pages: Seq<Option<SavedPage>>) -> Seq<(usize, u64)>
    decreases pages.len(),
{
    if pages.len() == 0 {
        Seq::empty()
    } else {
        raw_maps(pages.drop_last()) + match pages.last() {
            Some(p) => seq![(p.0.bits, encode_entry(p.1))],
            None => Seq::empty(),
        }
    }
}

/// The map that user page `p` makes.
pub open spec fn saved_map(p: SavedPage) -> (usize, u64) {
    (p.0.bits, encode_entry(p.1))
}

/// Map `m` is the one of a user page kept in a slot after `k`.
pub open spec fn from_later_slot(pages: Seq<Option<SavedPage>>, k: int, m: (usize, u64)) -> bool {
    exists|k2: int| k < k2 < pages.len() && #[trigger] pages[k2] is Some && m == saved_map(pages[k2]->Some_0)
}

/// The map of the page in slot `k` is among the maps of the user pages, and
/// every map after it is that of a page in a later slot.
proof fn lemma_raw_maps_slot(pages: Seq<Option<SavedPage>>, k: int)
    requires
        0 <= k < pages.len(),
        pages[k] is Some,
    ensures
        exists|i: int|
            0 <= i < raw_maps(pages).len() && #[trigger] raw_maps(pages)[i] == saved_map(pages[k]->Some_0) && (
            forall|j: int| i < j < raw_maps(pages).len() ==> from_later_slot(pages, k, #[trigger] raw_maps(pages)[j])),
    decreases pages.len(),
{
    let n = pages.len() as int;
    let prev = pages.drop_last();
    let rp = raw_maps(prev);
    let r = raw_maps(pages);
    if k == n - 1 {
        let i = rp.len() as int;
        assert(r[i] == saved_map(pages[k]->Some_0));
    } else {
        lemma_raw_maps_slot(prev, k);
        let i = choose|i: int|
            0 <= i < rp.len() && #[trigger] rp[i] == saved_map(prev[k]->Some_0) && (forall|j: int|
                i < j < rp.len() ==> from_later_slot(prev, k, #[trigger] rp[j]));
        assert(r[i] == rp[i]);
        assert forall|j: int| i < j < r.len() implies from_later_slot(pages, k, #[trigger] r[j]) by {
            if j < rp.len() {
                assert(r[j] == rp[j]);
                assert(from_later_slot(prev, k, rp[j]));
                let k2 = choose|k2: int|
                    k < k2 < prev.len() && #[trigger] prev[k2] is Some && rp[j] == saved_map(prev[k2]->Some_0);
                assert(pages[k2] == prev[k2]);
            } else {
                assert(pages[n - 1] is Some);
                assert(r[j] == saved_map(pages[n - 1]->Some_0));
            }
        }
    }
}

/// When every map that `Task::map` makes succeeds (the user pages' maps in
/// slot order, then `kernel`, the maps of the kernel's part), an address in
/// a user page translates as the entry of the last slot holding that page
/// says, unless a kernel page shares the page's table offsets.
pub proof fn lemma_task_page_translation(
    a: TreeAbs,
    pages: Seq<Option<SavedPage>>,
    kernel: Seq<(usize, u64)>,
    k: int,
    va: usize,
)
    requires
        maps_ok(a, raw_maps(pages) + kernel),
        0 <= k < pages.len(),
        pages[k] is Some,
        vpn_offsets(pages[k]->Some_0.0.bits) == vpn_offsets(va / 4096),
        forall|k2: int|
            k < k2 < pages.len() && #[trigger] pages[k2] is Some ==> vpn_offsets(pages[k2]->Some_0.0.bits)
                != vpn_offsets(va / 4096),
        forall|i: int| 0 <= i < kernel.len() ==> vpn_offsets(#[trigger] kernel[i].0) != vpn_offsets(va / 4096),
    ensures
        abs_translate(apply_maps(a, raw_maps(pages) + kernel), va) == mapped_addr(pages[k]->Some_0.1, va),
{
    let r = raw_maps(pages);
    let m = r + kernel;
    let o = vpn_offsets(va / 4096);
    lemma_raw_maps_slot(pages, k);
    let i = choose|i: int|
        0 <= i < r.len() && #[trigger] r[i] == saved_map(pages[k]->Some_0) && (forall|j: int|
            i < j < r.len() ==> from_later_slot(pages, k, #[trigger] r[j]));
    assert(m[i] == r[i]);
    assert forall|j: int| i < j < m.len() implies vpn_offsets(#[trigger] m[j].0) != vpn_offsets(m[i].0) by {
        if j < r.len() {
            assert(m[j] == r[j]);
            assert(from_later_slot(pages, k, r[j]));
            let k2 = choose|k2: int|
                k < k2 < pages.len() && #[trigger] pages[k2] is Some && r[j] == saved_map(pages[k2]->Some_0);
        } else {
            assert(m[j] == kernel[j - r.len()]);
        }
    }
    lemma_last_write(a, m, i);
    lemma_entry_round_trip(pages[k]->Some_0.1);
}

/// When every map that `Task::map` makes succeeds (the user pages' maps in
/// slot order, then the kernel's part), each byte of the kernel's trap code
/// `[start, end)` and of the two kernel stack pages `stack` translates to
/// itself, whatever the user pages are.
pub proof fn lemma_task_kernel_identity(
    a: TreeAbs,
    pages: Seq<Option<SavedPage>>,
    start: usize,
    end: usize,
    stack: Seq<usize>,
    va: usize,
)
    requires
        0 < end <= 0x80_0000_0000,
        stack.len() == 2,
        stack[0] < 0x7ff_ffff,
        stack[1] < 0x7ff_ffff,
        maps_ok(a, raw_maps(pages) + kernel_part_maps(start, end, stack)),
        in_section(va, start, end) || va / 4096 == stack[0] || va / 4096 == stack[1],
    ensures
        abs_translate(apply_maps(a, raw_maps(pages) + kernel_part_maps(start, end, stack)), va) == Some(va),
{
    let r = raw_maps(pages);
    let p_text = Permission { user: false, ..text_permission_spec() };
    let p_data = Permission { user: false, ..data_permission_spec() };
    let k1 = section_maps(start, end, p_text);
    let k2 = identity_maps(stack[0], (stack[0] + 1) as usize, p_data);
    let k3 = identity_maps(stack[1], (stack[1] + 1) as usize, p_data);
    let k = kernel_part_maps(start, end, stack);
    let m = r + k;
    let vpn = va / 4096;
    lemma_section_identity(start, end, p_text, va);
    lemma_identity_maps(stack[0], (stack[0] + 1) as usize, p_data, vpn);
    lemma_identity_maps(stack[1], (stack[1] + 1) as usize, p_data, vpn);
    lemma_concat_identity(k1, k2, vpn);
    lemma_concat_identity(k1 + k2, k3, vpn);
    assert(k == k1 + k2 + k3);
    assert(has_page(k, vpn));
    let lo = r.len() as int;
    let o = vpn_offsets(vpn);
    let i = choose|i: int| 0 <= i < k.len() && #[trigger] k[i].0 == vpn;
    assert(m[lo + i] == k[i]);
    assert(identity_entry(k[i]));
    assert forall|j: int| lo <= j < m.len() && vpn_offsets(#[trigger] m[j].0) == o implies entry_valid(m[j].1)
        && entry_ppn(m[j].1) == vpn by {
        assert(m[j] == k[j - lo]);
        assert(identity_entry(k[j - lo]));
        lemma_offsets_injective(m[j].0, vpn);
    }
    lemma_last_maps_from(a, m, o, vpn, lo);
    assert(vpn * 4096 + va % 4096 == va) by {
        vstd::arithmetic::div_mod::lemma_fundamental_div_mod(va as int, 4096);
    }
}

/// When every map that `Task::map` makes succeeds, each of the two kernel
/// stack pages `stack` is mapped to itself as readable and writable, not
/// executable and not for user mode: its leaf entry holds the page's own
/// number and only the valid, read and write flags, whatever the user pages
/// and the trap code are.
pub proof fn lemma_task_stack_rights(
    tree: PageTableTree,
    allocator: PPNManagerImpl,
    a: TreeAbs,
    pages: Seq<Option<SavedPage>>,
    start: usize,
    end: usize,
    stack: Seq<usize>,
    k: int,
)
    requires
        0 < end <= 0x80_0000_0000,
        stack.len() == 2,
        stack[0] < 0x7ff_ffff,
        stack[1] < 0x7ff_ffff,
        maps_ok(a, raw_maps(pages) + kernel_part_maps(start, end, stack)),
        tree.abs_matches(allocator, apply_maps(a, raw_maps(pages) + kernel_part_maps(start, end, stack))),
        k == 0 || k == 1,
    ensures
        tree.entry_of(stack[k]) == ((stack[k] as u64) << 10u64) | 7u64,
{
    let r = raw_maps(pages);
    let pt = Permission { user: false, ..text_permission_spec() };
    let pd = Permission { user: false, ..data_permission_spec() };
    let k1 = section_maps(start, end, pt);
    let k2 = identity_maps(stack[0], (stack[0] + 1) as usize, pd);
    let k3 = identity_maps(stack[1], (stack[1] + 1) as usize, pd);
    let m = r + kernel_part_maps(start, end, stack);
    assert(m == r + k1 + k2 + k3);
    let v = stack[k];
    let o = vpn_offsets(v);
    let e = ((v as u64) << 10u64) | 7u64;
    let base = (r.len() + k1.len()) as int;
    let lo = base + k;
    assert(k2.len() == 1 && k3.len() == 1);
    assert(m[base] == k2[0]);
    assert(m[base + 1] == k3[0]);
    assert(m[lo].0 == v);
    assert forall|j: int| lo <= j < m.len() && vpn_offsets(#[trigger] m[j].0) == o implies m[j].1 == e by {
        let w = stack[j - base];
        assert(m[j] == if j == base { k2[0] } else { k3[0] });
        assert(m[j] == (w, encode_entry(section_entry(w, pd))));
        lemma_offsets_injective(w, v);
        lemma_data_entry_bits(v);
    }
    lemma_last_maps_bits(a, m, o, e, lo);
    lemma_offsets_bounds(v);
}

/// When every map that `Task::map` makes succeeds, each page of the
/// kernel's trap code `[start, end)` other than the two kernel stack pages
/// is mapped to itself as executable, neither readable nor writable, and
/// not for user mode, whatever the user pages are.
pub proof fn lemma_task_trap_text_rights(
    tree: PageTableTree,
    allocator: PPNManagerImpl,
    a: TreeAbs,
    pages: Seq<Option<SavedPage>>,
    start: usize,
    end: usize,
    stack: Seq<usize>,
    va: usize,
)
    requires
        0 < end <= 0x80_0000_0000,
        stack.len() == 2,
        stack[0] < 0x7ff_ffff,
        stack[1] < 0x7ff_ffff,
        maps_ok(a, raw_maps(pages) + kernel_part_maps(start, end, stack)),
        tree.abs_matches(allocator, apply_maps(a, raw_maps(pages) + kernel_part_maps(start, end, stack))),
        in_section(va, start, end),
        va / 4096 != stack[0],
        va / 4096 != stack[1],
    ensures
        tree.entry_of(va / 4096) == (((va / 4096) as u64) << 10u64) | 9u64,
{
    let r = raw_maps(pages);
    let pt = Permission { user: false, ..text_permission_spec() };
    let pd = Permission { user: false, ..data_permission_spec() };
    let k1 = section_maps(start, end, pt);
    let k2 = identity_maps(stack[0], (stack[0] + 1) as usize, pd);
    let k3 = identity_maps(stack[1], (stack[1] + 1) as usize, pd);
    let v = va / 4096;
    let e = ((v as u64) << 10u64) | 9u64;
    assert(r + kernel_part_maps(start, end, stack) =~= r + k1 + (k2 + k3));
    lemma_section_identity(start, end, pt, va);
    lemma_identity_maps(stack[0], (stack[0] + 1) as usize, pd, v);
    lemma_identity_maps(stack[1], (stack[1] + 1) as usize, pd, v);
    lemma_concat_identity(k2, k3, v);
    assert(v < 0x800_0000) by {
        let i = choose|i: int| 0 <= i < k1.len() && #[trigger] k1[i].0 == v;
        assert(identity_entry(k1[i]));
    }
    assert forall|i: int| 0 <= i < k1.len() && (#[trigger] k1[i]).0 == v implies k1[i].1 == e by {
        lemma_section_map_at(start, end, pt, i);
        lemma_text_entry_bits(v);
    }
    assert(misses(k2 + k3, v)) by {
        assert forall|i: int| 0 <= i < (k2 + k3).len() implies (#[trigger] (k2 + k3)[i]).0 != v by {
            if i == 0 {
                assert((k2 + k3)[i] == k2[0]);
            } else {
                assert((k2 + k3)[i] == k3[0]);
            }
        }
    }
    lemma_section_wins(a, r, k1, k2 + k3, v, e);
    lemma_offsets_bounds(v);
}

/// The maps that make the kernel's trap code (bytes `[start, end)`) and
/// the kernel stack pages `stack` reachable from a task's address space.
pub open spec fn kernel_part_maps(start: usize, end: usize, stack: Seq<usize>) -> Seq<(usize, u64)> {
    section_maps(start, end, Permission { user: false, ..text_permission_spec() })
        + identity_maps(stack[0], (stack[0] + 1) as usize, Permission { user: false, ..data_permission_spec() })
        + identity_maps(stack[1], (stack[1] + 1) as usize, Permission { user: false, ..data_permission_spec() })
}

impl Task {
    /// Maps the task's user pages in its page table, in slot order, stopping
    /// at the first failure; then maps the kernel's trap code and the task's
    /// kernel stack pages to themselves for supervisor mode (a page whose map
    /// fails is skipped) and records the task's and the kernel's root tables
    /// in the trap context.
    pub fn map(
        &mut self,
        allocator: &mut PPNManagerImpl,
        trap_text_start: usize,
        trap_text_end: usize,
        kernel_root_ppn: PhysicalPageNumber,
    ) -> (r: Result<(), &'static str>)
        requires
            old(self).wf(),
            old(self).tree().is_init(),
            old(self).tree().held_by(*old(allocator)),
            old(allocator).wf(),
            trap_text_end > 0,
            crate::addr::page_addr(old(self).stack().page_ppns()[0]) + PAGE_SIZE <= usize::MAX,
            crate::addr::page_addr(old(self).stack().page_ppns()[1]) + PAGE_SIZE <= usize::MAX,
        ensures
            final(self).wf(),
            final(self).tree().is_init(),
            final(self).tree().held_by(*final(allocator)),
            final(allocator).wf(),
            final(allocator).extends(*old(allocator)),
            final(self).start() == old(self).start(),
            final(self).end() == old(self).end(),
            final(self).state() == old(self).state(),
            final(self).raw_pages() == old(self).raw_pages(),
            final(self).stack().page_ppns() == old(self).stack().page_ppns(),
            grows_on_lowest(old(self).tree(), final(self).tree(), *old(allocator), *final(allocator)),
            forall|a: TreeAbs| #[trigger] old(self).tree().abs_matches(*old(allocator), a) ==> {
                let m = raw_maps(old(self).raw_pages());
                &&& (r is Ok <==> maps_ok(a, m))
                &&& r is Ok ==> final(self).tree().abs_matches(
                    *final(allocator),
                    apply_maps(
                        a,
                        m + kernel_part_maps(
                            trap_text_start,
                            trap_text_end,
                            seq![
                                (crate::addr::page_addr(old(self).stack().page_ppns()[0]) / 4096) as usize,
                                (crate::addr::page_addr(old(self).stack().page_ppns()[1]) / 4096) as usize,
                            ],
                        ),
                    ),
                )
                &&& r is Ok ==> final(self).stack().trap_context_view() == old(self).stack().trap_context_view().update(
                    34,
                    satp_of(final(self).tree().tppn(0) as u64 as usize) as u64,
                ).update(33, satp_of(kernel_root_ppn.bits as u64 as usize) as u64)
                &&& r matches Err(e) ==> exists|j: int| {
                    &&& #[trigger] first_failure(a, m, j)
                    &&& final(self).tree().abs_matches(*final(allocator), apply_maps(a, m.take(j + 1)))
                    &&& e@ == map_error(apply_maps(a, m.take(j)))
                }
                &&& r is Err ==> final(self).stack() == old(self).stack()
            },
    {
        proof {
            lemma_grows_refl(old(self).tree(), *old(allocator));
        }
        let mut i: usize = 0;
        while i < self.raw_pages.len()
            invariant
                0 <= i <= MAX_RAW_PAGES,
                self.raw_pages@.len() == MAX_RAW_PAGES,
                self.raw_pages@ == old(self).raw_pages@,
                old(self).wf(),
                self.start_addr == old(self).start_addr,
                self.end_addr == old(self).end_addr,
                self.state == old(self).state,
                self.kernel_stack == old(self).kernel_stack,
                self.page_table_tree.wf(),
                self.page_table_tree.is_init(),
                self.page_table_tree.held_by(*allocator),
                allocator.wf(),
                allocator.extends(*old(allocator)),
                grows_on_lowest(old(self).tree(), self.page_table_tree, *old(allocator), *allocator),
                forall|a: TreeAbs| #[trigger] old(self).tree().abs_matches(*old(allocator), a) ==> {
                    &&& maps_ok(a, raw_maps(old(self).raw_pages().take(i as int)))
                    &&& self.page_table_tree.abs_matches(
                        *allocator,
                        apply_maps(a, raw_maps(old(self).raw_pages().take(i as int))),
                    )
                },
            decreases MAX_RAW_PAGES - i,
        {
            let ghost pages = old(self).raw_pages();
            proof {
                assert(pages.take(i as int + 1).drop_last() =~= pages.take(i as int));
                assert(pages.take(i as int + 1).last() == pages[i as int]);
            }
            if let Some(item) = &self.raw_pages[i] {
                let vpn = item.0;
                let entry = item.1;
                let ghost before_tree = self.page_table_tree;
                let ghost before_alloc = *allocator;
                let r_map = self.page_table_tree.map(vpn, entry, allocator);
                proof {
                    lemma_grows_trans(old(self).tree(), before_tree, self.page_table_tree, *old(allocator), before_alloc, *allocator);
                }
                match r_map {
                    Ok(()) => {
                        proof {
                            assert forall|a: TreeAbs| #[trigger] old(self).tree().abs_matches(*old(allocator), a) implies {
                                &&& maps_ok(a, raw_maps(old(self).raw_pages().take(i as int + 1)))
                                &&& self.page_table_tree.abs_matches(
                                    *allocator,
                                    apply_maps(a, raw_maps(old(self).raw_pages().take(i as int + 1))),
                                )
                            } by {
                                let prev = raw_maps(pages.take(i as int));
                                let m = (vpn.bits, encode_entry(entry));
                                assert(raw_maps(pages.take(i as int + 1)) =~= prev.push(m));
                                assert(prev.push(m).drop_last() =~= prev);
                                lemma_apply_maps_push(a, prev, m);
                                assert(before_tree.abs_matches(before_alloc, apply_maps(a, prev)));
                            }
                        }
                    },
                    Err(e) => {
                        proof {
                            assert forall|a: TreeAbs| #[trigger] old(self).tree().abs_matches(*old(allocator), a) implies {
                                let m = raw_maps(old(self).raw_pages());
                                &&& !maps_ok(a, m)
                                &&& exists|j: int| {
                                    &&& #[trigger] first_failure(a, m, j)
                                    &&& self.page_table_tree.abs_matches(*allocator, apply_maps(a, m.take(j + 1)))
                                    &&& e@ == map_error(apply_maps(a, m.take(j)))
                                }
                            } by {
                                let m = raw_maps(pages);
                                let prev = raw_maps(pages.take(i as int));
                                let mm = (vpn.bits, encode_entry(entry));
                                let j = prev.len() as int;
                                assert(raw_maps(pages.take(i as int + 1)) =~= prev.push(mm));
                                lemma_raw_maps_prefix(pages, i as int + 1);
                                assert(m.take(j + 1) == prev.push(mm));
                                assert(m.take(j + 1)[j] == mm);
                                assert(m[j] == mm);
                                assert(m.take(j) =~= prev);
                                assert(prev.push(mm).drop_last() =~= prev);
                                lemma_apply_maps_push(a, prev, mm);
                                assert(before_tree.abs_matches(before_alloc, apply_maps(a, prev)));
                                assert(first_failure(a, m, j));
                                lemma_maps_ok_prefix_fail(a, m, j);
                            }
                        }
                        return Err(e);
                    },
                }
            } else {
                proof {
                    assert(raw_maps(pages.take(i as int + 1)) =~= raw_maps(pages.take(i as int)));
                }
            }
            i = i + 1;
        }
        let ghost after_raw_tree = self.page_table_tree;
        let ghost after_raw_alloc = *allocator;
        proof {
            assert(old(self).raw_pages().take(MAX_RAW_PAGES as int) =~= old(self).raw_pages());
        }
        let trap_section = VirtualSection::new(
            trap_text_start,
            trap_text_end,
            MapTarget::Identity,
            text_permission().for_kernel(),
        );
        map_identity_section(&mut self.page_table_tree, &trap_section, allocator);
        proof {
            lemma_grows_trans(old(self).tree(), after_raw_tree, self.page_table_tree, *old(allocator), after_raw_alloc, *allocator);
        }
        let ghost stack = seq![
            (crate::addr::page_addr(old(self).stack().page_ppns()[0]) / 4096) as usize,
            (crate::addr::page_addr(old(self).stack().page_ppns()[1]) / 4096) as usize,
        ];
        proof {
            assert forall|a: TreeAbs| #[trigger] after_raw_tree.abs_matches(after_raw_alloc, a) implies self.page_table_tree.abs_matches(
                *allocator,
                apply_maps(a, kernel_maps_upto(trap_text_start, trap_text_end, stack, 0)),
            ) by {
                assert(kernel_maps_upto(trap_text_start, trap_text_end, stack, 0) =~= section_maps(
                    trap_text_start,
                    trap_text_end,
                    Permission { user: false, ..text_permission_spec() },
                ));
            }
        }
        let mut k: usize = 0;
        while k < 2
            invariant
                0 <= k <= 2,
                self.raw_pages@ == old(self).raw_pages@,
                old(self).wf(),
                self.start_addr == old(self).start_addr,
                self.end_addr == old(self).end_addr,
                self.state == old(self).state,
                self.kernel_stack == old(self).kernel_stack,
                self.page_table_tree.wf(),
                self.page_table_tree.is_init(),
                self.page_table_tree.held_by(*allocator),
                allocator.wf(),
                allocator.extends(*old(allocator)),
                grows_on_lowest(old(self).tree(), self.page_table_tree, *old(allocator), *allocator),
                crate::addr::page_addr(old(self).stack().page_ppns()[0]) + PAGE_SIZE <= usize::MAX,
                crate::addr::page_addr(old(self).stack().page_ppns()[1]) + PAGE_SIZE <= usize::MAX,
                stack == seq![
                    (crate::addr::page_addr(old(self).stack().page_ppns()[0]) / 4096) as usize,
                    (crate::addr::page_addr(old(self).stack().page_ppns()[1]) / 4096) as usize,
                ],
                trap_section.start_vpn.bits == trap_text_start / 4096,
                trap_section.end_vpn.bits == (trap_text_end - 1) as usize / 4096 + 1,
                forall|a: TreeAbs| #[trigger] after_raw_tree.abs_matches(after_raw_alloc, a) ==> self.page_table_tree.abs_matches(
                    *allocator,
                    apply_maps(a, kernel_maps_upto(trap_text_start, trap_text_end, stack, k as int)),
                ),
            decreases 2 - k,
        {
            let addr = self.kernel_stack.kernel_stack[k].ppn.as_addr();
            let section = VirtualSection::new(addr, addr + PAGE_SIZE, MapTarget::Identity, data_permission().for_kernel());
            let ghost before_tree = self.page_table_tree;
            let ghost before_alloc = *allocator;
            map_identity_section(&mut self.page_table_tree, &section, allocator);
            proof {
                lemma_grows_trans(old(self).tree(), before_tree, self.page_table_tree, *old(allocator), before_alloc, *allocator);
                assert(addr == crate::addr::page_addr(old(self).stack().page_ppns()[k as int]));
                assert(addr % 4096 == 0) by {
                    crate::addr::lemma_page_addr_aligned(old(self).stack().page_ppns()[k as int]);
                }
                assert(section.end_vpn.bits == addr / 4096 + 1) by (nonlinear_arith)
                    requires
                        addr % 4096 == 0,
                        addr + 4096 <= usize::MAX,
                        section.end_vpn.bits == (addr + 4096 - 1) as usize / 4096 + 1,
                ;
                if k == 0 {
                    assert(stack[0] == addr / 4096);
                } else {
                    assert(stack[1] == addr / 4096);
                }
                let part = identity_maps(stack[k as int], (stack[k as int] + 1) as usize, Permission { user: false, ..data_permission_spec() });
                assert(kernel_maps_upto(trap_text_start, trap_text_end, stack, k as int + 1) =~= kernel_maps_upto(
                    trap_text_start,
                    trap_text_end,
                    stack,
                    k as int,
                ) + part);
                assert forall|a: TreeAbs| #[trigger] after_raw_tree.abs_matches(after_raw_alloc, a) implies self.page_table_tree.abs_matches(
                    *allocator,
                    apply_maps(a, kernel_maps_upto(trap_text_start, trap_text_end, stack, k as int + 1)),
                ) by {
                    lemma_apply_maps_concat(a, kernel_maps_upto(trap_text_start, trap_text_end, stack, k as int), part);
                    assert(before_tree.abs_matches(before_alloc, apply_maps(a, kernel_maps_upto(trap_text_start, trap_text_end, stack, k as int))));
                }
            }
            k = k + 1;
        }
        let root = self.get_page_table_root_ppn();
        self.kernel_stack.get_trap_context_mut().set_page_table_root_ppn(root.bits as u64, kernel_root_ppn.bits as u64);
        proof {
            assert(kernel_maps_upto(trap_text_start, trap_text_end, stack, 2) =~= kernel_part_maps(
                trap_text_start,
                trap_text_end,
                stack,
            ));
            assert forall|a: TreeAbs| #[trigger] old(self).tree().abs_matches(*old(allocator), a) implies {
                let m = raw_maps(old(self).raw_pages());
                &&& maps_ok(a, m)
                &&& self.tree().abs_matches(*allocator, apply_maps(a, m + kernel_part_maps(trap_text_start, trap_text_end, stack)))
            } by {
                let m = raw_maps(old(self).raw_pages());
                lemma_apply_maps_concat(a, m, kernel_part_maps(trap_text_start, trap_text_end, stack));
                assert(after_raw_tree.abs_matches(after_raw_alloc, apply_maps(a, m)));
            }
        }
        Ok(())
    }
}

/// The maps of the trap code and of the first `k` kernel stack pages.
pub open spec fn kernel_maps_upto(start: usize, end: usize, stack: Seq<usize>, k: int) -> Seq<(usize, u64)> {
    section_maps(start, end, Permission { user: false, ..text_permission_spec() }) + (if k >= 1 {
        identity_maps(stack[0], (stack[0] + 1) as usize, Permission { user: false, ..data_permission_spec() })
    } else {
        Seq::empty()
    }) + (if k >= 2 {
        identity_maps(stack[1], (stack[1] + 1) as usize, Permission { user: false, ..data_permission_spec() })
    } else {
        Seq::empty()
    })
}

/// Some user page of `pages` sits on frame `p`.
pub open spec fn raw_uses_frame(pages: Seq<Option<SavedPage>>, p: usize) -> bool {
    exists|k: int| 0 <= k < pages.len() && #[trigger] pages[k] is Some && slot_frame(pages[k]) == p
}

impl Task {
    /// Frame `p` belongs to the task: a table of its page table, a page of
    /// its kernel stack or one of its user pages sits on it.
    pub open spec fn uses_frame(&self, p: usize) -> bool {
        ||| self.tree().uses_frame(p)
        ||| p == self.stack().page_ppns()[0]
        ||| p == self.stack().page_ppns()[1]
        ||| raw_uses_frame(self.raw_pages(), p)
    }

    /// The task's page table.
    pub fn page_table(&self) -> (r: &PageTableTree)
        ensures
            *r == self.tree(),
    {
        &self.page_table_tree
    }

    /// Gives every frame of the task back to `allocator`: its tables, its
    /// kernel stack pages and its user pages.
    pub fn release(self, allocator: &mut PPNManagerImpl)
        requires
            self.wf(),
            old(allocator).wf(),
            forall|p: usize| #[trigger] self.uses_frame(p) ==> old(allocator).holds(p),
        ensures
            final(allocator).wf(),
            final(allocator).start() == old(allocator).start(),
            forall|p: usize| #[trigger] final(allocator).holds(p) == (old(allocator).holds(p) && !self.uses_frame(p)),
    {
        let ghost t = self;
        let ghost a0 = *allocator;
        let Task { start_addr: _, end_addr: _, state: _, raw_pages, page_table_tree, kernel_stack } = self;
        let mut tree = page_table_tree;
        proof {
            assert forall|p: usize| #[trigger] tree.uses_frame(p) implies a0.holds(p) by {
                assert(t.uses_frame(p));
            }
            crate::page_table::lemma_held_by_frames(tree, a0);
        }
        tree.release(allocator);
        let mut i: usize = 0;
        while i < raw_pages.len()
            invariant
                0 <= i <= raw_pages@.len(),
                raw_pages@ == t.raw_pages(),
                raw_pages@.len() == MAX_RAW_PAGES,
                a0.wf(),
                allocator.wf(),
                allocator.start() == a0.start(),
                forall|p: usize| #[trigger] t.uses_frame(p) ==> a0.holds(p),
                forall|p: usize| #[trigger] allocator.holds(p) == (a0.holds(p) && !t.tree().uses_frame(p)
                    && !raw_uses_frame(t.raw_pages().take(i as int), p)),
            decreases raw_pages@.len() - i,
        {
            let ghost before = *allocator;
            let ghost pages = t.raw_pages();
            proof {
                assert forall|p: usize| raw_uses_frame(pages.take(i as int + 1), p) == (raw_uses_frame(
                    pages.take(i as int),
                    p,
                ) || (pages[i as int] is Some && slot_frame(pages[i as int]) == p)) by {
                    if raw_uses_frame(pages.take(i as int + 1), p) {
                        let k = choose|k: int| 0 <= k < i + 1 && #[trigger] pages.take(i as int + 1)[k] is Some
                            && slot_frame(pages.take(i as int + 1)[k]) == p;
                        if k < i {
                            assert(pages.take(i as int)[k] == pages[k]);
                        }
                    }
                    if raw_uses_frame(pages.take(i as int), p) {
                        let k = choose|k: int| 0 <= k < i && #[trigger] pages.take(i as int)[k] is Some
                            && slot_frame(pages.take(i as int)[k]) == p;
                        assert(pages.take(i as int + 1)[k] == pages[k]);
                    }
                    if pages[i as int] is Some && slot_frame(pages[i as int]) == p {
                        assert(pages.take(i as int + 1)[i as int] == pages[i as int]);
                    }
                }
            }
            if let Some(page) = &raw_pages[i] {
                proof {
                    assert(raw_uses_frame(pages, page.2.ppn.ppn.bits)) by {
                        assert(pages[i as int] is Some);
                    }
                    assert(t.uses_frame(page.2.ppn.ppn.bits));
                }
                allocator.free(page.2.ppn.ppn);
                proof {
                    let f = page.2.ppn.ppn.bits;
                    assert forall|p: usize| #[trigger] allocator.holds(p) == (before.holds(p) && p != f) by {}
                }
            }
            proof {
                assert forall|p: usize| #[trigger] allocator.holds(p) == (a0.holds(p) && !t.tree().uses_frame(p)
                    && !raw_uses_frame(pages.take(i as int + 1), p)) by {
                    assert(raw_uses_frame(pages.take(i as int + 1), p) == (raw_uses_frame(pages.take(i as int), p)
                        || (pages[i as int] is Some && slot_frame(pages[i as int]) == p)));
                    assert(before.holds(p) == (a0.holds(p) && !t.tree().uses_frame(p) && !raw_uses_frame(
                        pages.take(i as int),
                        p,
                    )));
                }
            }
            i = i + 1;
        }
        proof {
            assert(t.raw_pages().take(MAX_RAW_PAGES as int) =~= t.raw_pages());
            assert(t.uses_frame(t.stack().page_ppns()[0]));
            assert(t.uses_frame(t.stack().page_ppns()[1]));
        }
        let ghost mid = *allocator;
        allocator.free(kernel_stack.kernel_stack[0].ppn.ppn);
        let ghost mid2 = *allocator;
        proof {
            let f = t.stack().page_ppns()[0];
            assert forall|p: usize| #[trigger] mid2.holds(p) == (mid.holds(p) && p != f) by {}
        }
        allocator.free(kernel_stack.kernel_stack[1].ppn.ppn);
        proof {
            let f = t.stack().page_ppns()[1];
            assert forall|p: usize| #[trigger] allocator.holds(p) == (mid2.holds(p) && p != f) by {}
            assert forall|p: usize| #[trigger] allocator.holds(p) == (a0.holds(p) && !t.uses_frame(p)) by {
                assert(mid.holds(p) == (a0.holds(p) && !t.tree().uses_frame(p) && !raw_uses_frame(
                    t.raw_pages().take(MAX_RAW_PAGES as int),
                    p,
                )));
            }
        }
    }
}

/// The frame of the user page kept in slot `p`.
pub open spec fn slot_frame(p: Option<SavedPage>) -> usize {
    p->Some_0.2.ppn.ppn.bits
}

/// The frames of the user pages in slots `[lo, hi)` were not held in `a`,
/// and no two of them are the same.
pub open spec fn fresh_frames(pages: Seq<Option<SavedPage>>, a: PPNManagerImpl, lo: int, hi: int) -> bool {
    &&& forall|k: int| lo <= k < hi ==> !a.holds(slot_frame(#[trigger] pages[k]))
    &&& forall|j: int, k: int|
        lo <= j < k < hi ==> slot_frame(#[trigger] pages[j]) != slot_frame(#[trigger] pages[k])
}

/// The frames of slots `[lo, hi)` are held by `a`, rise with the slot, and
/// every frame that `a` manages below one of them is held by `a` too: they
/// are the lowest frames that were free, taken in slot order.
pub open spec fn in_lowest_order(pages: Seq<Option<SavedPage>>, a: PPNManagerImpl, lo: int, hi: int) -> bool {
    &&& forall|k: int| lo <= k < hi ==> a.holds(slot_frame(#[trigger] pages[k]))
    &&& forall|j: int, k: int|
        lo <= j < k < hi ==> slot_frame(#[trigger] pages[j]) < slot_frame(#[trigger] pages[k])
    &&& forall|k: int, f: usize|
        #![trigger pages[k], a.holds(f)]
        lo <= k < hi && a.start() is Some && a.start().unwrap() <= f < slot_frame(pages[k]) ==> a.holds(f)
}

/// Taking the lowest free frame for the next slot keeps the slots in lowest
/// order.
proof fn lemma_order_step(
    p0: Seq<Option<SavedPage>>,
    p1: Seq<Option<SavedPage>>,
    a0: PPNManagerImpl,
    a1: PPNManagerImpl,
    lo: int,
    m: int,
)
    requires
        lo <= m,
        in_lowest_order(p0, a0, lo, m),
        forall|k: int| lo <= k < m ==> p1[k] == p0[k],
        lowest_free(a0, slot_frame(p1[m])),
        a1.extends(a0),
        a1.holds(slot_frame(p1[m])),
    ensures
        in_lowest_order(p1, a1, lo, m + 1),
{
    let q = slot_frame(p1[m]);
    let st = a0.start().unwrap();
    assert forall|k: int| lo <= k < m + 1 implies a1.holds(slot_frame(#[trigger] p1[k])) by {
        if k < m {
            assert(p1[k] == p0[k]);
            assert(a0.holds(slot_frame(p0[k])));
        }
    }
    assert forall|j: int, k: int| lo <= j < k < m + 1 implies slot_frame(#[trigger] p1[j]) < slot_frame(
        #[trigger] p1[k],
    ) by {
        assert(p1[j] == p0[j]);
        if k < m {
            assert(p1[k] == p0[k]);
        } else {
            let fj = slot_frame(p0[j]);
            assert(a0.holds(fj));
            if q <= fj {
                if q < fj {
                    assert(a0.holds(q));
                }
                assert(!a0.occupied()[q - st]);
            }
        }
    }
    assert forall|k: int, f: usize|
        #![trigger p1[k], a1.holds(f)]
        lo <= k < m + 1 && a1.start() is Some && a1.start().unwrap() <= f < slot_frame(p1[k]) implies a1.holds(f) by {
        if k < m {
            assert(p1[k] == p0[k]);
            assert(a0.holds(f));
        } else {
            assert(a0.occupied()[f - st]);
            assert(a0.holds(f));
        }
    }
}

/// Slots in lowest order up to `n` under `a0`, then slots in lowest order
/// under `a1` on frames that `a0` did not hold, are in lowest order
/// together under `a1`.
proof fn lemma_order_join(pages: Seq<Option<SavedPage>>, a0: PPNManagerImpl, a1: PPNManagerImpl, n: int, hi: int)
    requires
        0 <= n <= hi,
        in_lowest_order(pages, a0, 0, n),
        in_lowest_order(pages, a1, n, hi),
        fresh_frames(pages, a0, n, hi),
        a1.extends(a0),
    ensures
        in_lowest_order(pages, a1, 0, hi),
{
    assert forall|k: int| 0 <= k < hi implies a1.holds(slot_frame(#[trigger] pages[k])) by {
        if k < n {
            assert(a0.holds(slot_frame(pages[k])));
        }
    }
    assert forall|j: int, k: int| 0 <= j < k < hi implies slot_frame(#[trigger] pages[j]) < slot_frame(
        #[trigger] pages[k],
    ) by {
        if j < n && n <= k {
            let fj = slot_frame(pages[j]);
            let fk = slot_frame(pages[k]);
            assert(a0.holds(fj));
            assert(!a0.holds(fk));
            assert(a1.holds(fk));
            if fk < fj {
                assert(a0.holds(fk));
            }
        }
    }
    assert forall|k: int, f: usize|
        #![trigger pages[k], a1.holds(f)]
        0 <= k < hi && a1.start() is Some && a1.start().unwrap() <= f < slot_frame(pages[k]) implies a1.holds(f) by {
        if k < n {
            assert(a0.holds(f));
        }
    }
}

/// Slots in lowest order stay so when the slots keep their pages.
proof fn lemma_order_same(p0: Seq<Option<SavedPage>>, p1: Seq<Option<SavedPage>>, a: PPNManagerImpl, lo: int, hi: int)
    requires
        in_lowest_order(p0, a, lo, hi),
        forall|k: int| lo <= k < hi ==> p1[k] == p0[k],
    ensures
        in_lowest_order(p1, a, lo, hi),
{
    assert forall|k: int| lo <= k < hi implies a.holds(slot_frame(#[trigger] p1[k])) by {
        assert(p1[k] == p0[k]);
    }
    assert forall|j: int, k: int| lo <= j < k < hi implies slot_frame(#[trigger] p1[j]) < slot_frame(
        #[trigger] p1[k],
    ) by {
        assert(p1[j] == p0[j]);
        assert(p1[k] == p0[k]);
    }
    assert forall|k: int, f: usize|
        #![trigger p1[k], a.holds(f)]
        lo <= k < hi && a.start() is Some && a.start().unwrap() <= f < slot_frame(p1[k]) implies a.holds(f) by {
        assert(p1[k] == p0[k]);
    }
}

/// Slots in lowest order under `a0` are so under any allocator that has
/// the same occupancy.
proof fn lemma_order_same_alloc(pages: Seq<Option<SavedPage>>, a0: PPNManagerImpl, a1: PPNManagerImpl, lo: int, hi: int)
    requires
        in_lowest_order(pages, a0, lo, hi),
        a1.start() == a0.start(),
        a1.occupied() == a0.occupied(),
    ensures
        in_lowest_order(pages, a1, lo, hi),
{
    assert forall|p: usize| #[trigger] a1.holds(p) == a0.holds(p) by {}
}

/// Slots whose frames `a_init` did not hold, where `a_init` took `root`,
/// the lowest free frame of `a0`, lie above `root`.
proof fn lemma_above_root(
    pages: Seq<Option<SavedPage>>,
    a0: PPNManagerImpl,
    a_init: PPNManagerImpl,
    a1: PPNManagerImpl,
    hi: int,
    root: usize,
)
    requires
        lowest_free(a0, root),
        a_init.extends(a0),
        a_init.holds(root),
        fresh_frames(pages, a_init, 0, hi),
        a1.start() == a0.start(),
        forall|k: int| 0 <= k < hi ==> a1.holds(slot_frame(#[trigger] pages[k])),
    ensures
        forall|k: int| 0 <= k < hi ==> root < slot_frame(#[trigger] pages[k]),
{
    assert forall|k: int| 0 <= k < hi implies root < slot_frame(#[trigger] pages[k]) by {
        let f = slot_frame(pages[k]);
        assert(a1.holds(f));
        assert(!a_init.holds(f));
        if f < root {
            assert(a0.occupied()[f - a0.start().unwrap()]);
            assert(a0.holds(f));
        }
    }
}

/// Frames fresh with respect to an allocator are fresh with respect to any
/// allocator it extends, and differ from every frame it holds.
proof fn lemma_fresh_older(pages: Seq<Option<SavedPage>>, a0: PPNManagerImpl, a1: PPNManagerImpl, hi: int, q: usize)
    requires
        fresh_frames(pages, a1, 0, hi),
        a1.extends(a0),
        a1.holds(q),
    ensures
        fresh_frames(pages, a0, 0, hi),
        forall|k: int| 0 <= k < hi ==> slot_frame(#[trigger] pages[k]) != q,
{
    assert forall|k: int| 0 <= k < hi implies !a0.holds(slot_frame(#[trigger] pages[k])) by {
        if a0.holds(slot_frame(pages[k])) {
            assert(a1.holds(slot_frame(pages[k])));
        }
    }
}

/// Frames fresh with respect to `a1` that come after frames fresh with
/// respect to `a0` and held in `a1`, where `a1` extends `a0`, are all fresh
/// with respect to `a0`.
proof fn lemma_fresh_join(pages: Seq<Option<SavedPage>>, a0: PPNManagerImpl, a1: PPNManagerImpl, n: int, hi: int)
    requires
        fresh_frames(pages, a0, 0, n),
        fresh_frames(pages, a1, n, hi),
        a1.extends(a0),
        forall|k: int| 0 <= k < n ==> a1.holds(slot_frame(#[trigger] pages[k])),
    ensures
        fresh_frames(pages, a0, 0, hi),
{
    assert forall|k: int| 0 <= k < hi implies !a0.holds(slot_frame(#[trigger] pages[k])) by {
        if k >= n && a0.holds(slot_frame(pages[k])) {
            assert(a1.holds(slot_frame(pages[k])));
        }
    }
    assert forall|j: int, k: int| 0 <= j < k < hi implies slot_frame(#[trigger] pages[j]) != slot_frame(
        #[trigger] pages[k],
    ) by {
        if j < n && n <= k {
            assert(a1.holds(slot_frame(pages[j])));
            assert(!a1.holds(slot_frame(pages[k])));
        }
    }
}

/// A saved page is the page `plan` describes: at its virtual page, with its
/// rights, mapped to its frame, holding its bytes and then zeros.
pub open spec fn page_loaded(p: SavedPage, plan: PagePlan) -> bool {
    &&& p.0.bits == plan.0
    &&& p.1 == section_entry(p.2.ppn.ppn.bits, plan.1)
    &&& p.2.raw@ == plan.2 + Seq::new((4096 - plan.2.len()) as nat, |j: int| 0u8)
}

/// Slots `[lo, hi)` hold the pages `plan[0..hi - lo]`.
pub open spec fn slots_loaded(pages: Seq<Option<SavedPage>>, plan: Seq<PagePlan>, lo: int, hi: int) -> bool {
    forall|k: int|
        lo <= k < hi ==> (#[trigger] pages[k]) is Some && page_loaded(pages[k]->Some_0, plan[k - lo])
}

/// Slots from `n` on are empty.
pub open spec fn slots_free_from(pages: Seq<Option<SavedPage>>, n: int) -> bool {
    forall|k: int| n <= k < pages.len() ==> (#[trigger] pages[k]) is None
}

/// The pages a section of fresh frames holds, in order.
pub open spec fn section_plan(s: VirtualSection) -> Seq<PagePlan> {
    Seq::new(
        if s.end_vpn.bits >= s.start_vpn.bits {
            (s.end_vpn.bits - s.start_vpn.bits) as nat
        } else {
            0
        },
        |k: int|
            (
                (s.start_vpn.bits + k) as usize,
                s.permission,
                match s.map_target {
                    MapTarget::Random(Some(d)) => page_chunk(d@, k),
                    _ => Seq::empty(),
                },
            ),
    )
}

/// The smaller of two numbers.
pub open spec fn min_int(a: int, b: int) -> int {
    if a <= b {
        a
    } else {
        b
    }
}

impl Task {
    /// Allocates and saves every page of a section of fresh frames, in order,
    /// stopping when the page slots run out.
    fn save_section(
        &mut self,
        section: &VirtualSection,
        allocator: &mut PPNManagerImpl,
        Ghost(n): Ghost<int>,
    ) -> (r: Result<(), &'static str>)
        requires
            old(self).wf(),
            old(allocator).wf(),
            0 <= n <= MAX_RAW_PAGES,
            forall|k: int| 0 <= k < n ==> #[trigger] old(self).raw_pages()[k] is Some,
            slots_free_from(old(self).raw_pages(), n),
            section.map_target is Random,
            old(allocator).free_count() >= min_int(
                section_plan(*section).len() as int,
                MAX_RAW_PAGES - n + 1,
            ),
            section.map_target matches MapTarget::Random(Some(_)) ==> section_plan(*section).len() * 4096
                <= usize::MAX,
        ensures
            final(self).wf(),
            final(self).start() == old(self).start(),
            final(self).end() == old(self).end(),
            final(self).state() == old(self).state(),
            final(self).tree() == old(self).tree(),
            final(self).stack() == old(self).stack(),
            final(allocator).wf(),
            final(allocator).start() == old(allocator).start(),
            final(allocator).extends(*old(allocator)),
            ({
                let p = section_plan(*section);
                let hi = min_int(n + p.len(), MAX_RAW_PAGES as int);
                &&& (r is Ok <==> n + p.len() <= MAX_RAW_PAGES)
                &&& forall|k: int| 0 <= k < n ==> #[trigger] final(self).raw_pages()[k] == old(self).raw_pages()[k]
                &&& slots_loaded(final(self).raw_pages(), p, n, hi)
                &&& slots_free_from(final(self).raw_pages(), hi)
                &&& final(allocator).free_count() == old(allocator).free_count() - (hi - n)
                &&& forall|k: int| n <= k < hi ==> final(allocator).holds(
                    (#[trigger] final(self).raw_pages()[k])->Some_0.2.ppn.ppn.bits,
                )
                &&& fresh_frames(final(self).raw_pages(), *old(allocator), n, hi)
                &&& in_lowest_order(final(self).raw_pages(), *final(allocator), n, hi)
                &&& r matches Err(e) ==> e@ == "failed to save raw page"@
            }),
    {
        let ghost p = section_plan(*section);
        let mut it = section.iter();
        loop
            invariant
                self.wf(),
                allocator.wf(),
                allocator.start() == old(allocator).start(),
                allocator.extends(*old(allocator)),
                self.start() == old(self).start(),
                self.end() == old(self).end(),
                self.state() == old(self).state(),
                self.tree() == old(self).tree(),
                self.stack() == old(self).stack(),
                *it.section() == *section,
                section.map_target is Random,
                p == section_plan(*section),
                0 <= n <= MAX_RAW_PAGES,
                forall|k: int| 0 <= k < n ==> #[trigger] old(self).raw_pages()[k] is Some,
                section.map_target matches MapTarget::Random(Some(_)) ==> p.len() * 4096 <= usize::MAX,
                it.cur() >= section.start_vpn.bits,
                ({
                    let done = min_int((it.cur() - section.start_vpn.bits) as int, p.len() as int);
                    &&& n + done <= MAX_RAW_PAGES
                    &&& it.cur() > section.end_vpn.bits ==> it.cur() == section.start_vpn.bits
                    &&& forall|k: int| 0 <= k < n ==> #[trigger] self.raw_pages()[k] == old(self).raw_pages()[k]
                    &&& slots_loaded(self.raw_pages(), p, n, n + done)
                    &&& slots_free_from(self.raw_pages(), n + done)
                    &&& allocator.free_count() == old(allocator).free_count() - done
                    &&& old(allocator).free_count() >= min_int(p.len() as int, MAX_RAW_PAGES - n + 1)
                    &&& forall|k: int| n <= k < n + done ==> allocator.holds(
                        (#[trigger] self.raw_pages()[k])->Some_0.2.ppn.ppn.bits,
                    )
                    &&& fresh_frames(self.raw_pages(), *old(allocator), n, n + done)
                    &&& in_lowest_order(self.raw_pages(), *allocator, n, n + done)
                }),
            ensures
                self.wf(),
                allocator.wf(),
                allocator.start() == old(allocator).start(),
                allocator.extends(*old(allocator)),
                self.start() == old(self).start(),
                self.end() == old(self).end(),
                self.state() == old(self).state(),
                self.tree() == old(self).tree(),
                self.stack() == old(self).stack(),
                n + p.len() <= MAX_RAW_PAGES,
                forall|k: int| 0 <= k < n ==> #[trigger] self.raw_pages()[k] == old(self).raw_pages()[k],
                slots_loaded(self.raw_pages(), p, n, n + p.len()),
                slots_free_from(self.raw_pages(), n + p.len()),
                allocator.free_count() == old(allocator).free_count() - p.len(),
                forall|k: int| n <= k < n + p.len() ==> allocator.holds(
                    (#[trigger] self.raw_pages()[k])->Some_0.2.ppn.ppn.bits,
                ),
                fresh_frames(self.raw_pages(), *old(allocator), n, n + p.len()),
                in_lowest_order(self.raw_pages(), *allocator, n, n + p.len()),
            decreases section.end_vpn.bits - it.cur(),
        {
            let ghost cur = it.cur();
            let ghost done = min_int((cur - section.start_vpn.bits) as int, p.len() as int);
            let ghost before = self.raw_pages();
            let ghost before_alloc = *allocator;
            match it.next(allocator) {
                Some(item) => {
                    let (vpn, entry, raw_page) = item;
                    let raw_page = raw_page.unwrap();
                    let ghost k = cur - section.start_vpn.bits;
                    let ghost ppn = raw_page.ppn.ppn.bits;
                    proof {
                        assert(k == done);
                        let plan = p[k];
                        assert(raw_page.raw@ =~= plan.2 + Seq::new((4096 - plan.2.len()) as nat, |j: int| 0u8));
                    }
                    match self.save_raw_page(vpn, entry, raw_page, allocator) {
                        Ok(()) => {
                            proof {
                                assert forall|j: int| 0 <= j < n + done implies #[trigger] before[j] is Some by {
                                    if j < n {
                                        assert(before[j] == old(self).raw_pages()[j]);
                                    }
                                }
                                let i = choose|i: int|
                                    0 <= i < MAX_RAW_PAGES && #[trigger] before[i] is None && (forall|j: int|
                                        0 <= j < i ==> before[j] is Some) && self.raw_pages()
                                        == before.update(i, Some((vpn, entry, raw_page)));
                                if i < n + done {
                                    assert(before[i] is Some);
                                }
                                if i > n + done {
                                    assert(before[n + done] is Some);
                                }
                                assert(i == n + done);
                                assert(!before_alloc.holds(ppn));
                                assert forall|q: int| n <= q < n + done implies before[q] == self.raw_pages()[q]
                                    && before_alloc.holds(slot_frame(before[q])) by {}
                                assert forall|q: usize| #[trigger] old(allocator).holds(q) implies before_alloc.holds(q) by {}
                                assert(slot_frame(self.raw_pages()[n + done]) == ppn);
                                lemma_order_step(before, self.raw_pages(), before_alloc, *allocator, n, n + done);
                            }
                        },
                        Err(e) => {
                            proof {
                                lemma_count_free_release(before_alloc.occupied().update(ppn - before_alloc.start().unwrap(), true), ppn - before_alloc.start().unwrap(), 256);
                                assert(allocator.occupied() =~= before_alloc.occupied());
                                lemma_order_same_alloc(before, before_alloc, *allocator, n, n + done);
                                assert forall|q: usize| #[trigger] old(allocator).holds(q) implies allocator.holds(q) by {
                                    assert(before_alloc.holds(q));
                                }
                            }
                            return Err(e);
                        },
                    }
                },
                None => {
                    break;
                },
            }
        }
        Ok(())
    }
}

/// The user stack page: one page above the highest loaded segment, leaving a
/// guard page between.
pub open spec fn stack_plan(segs: Seq<ElfSegment>) -> PagePlan {
    (
        (max_end(segs) + 1) as usize,
        Permission { user: true, ..data_permission_spec() },
        Seq::empty(),
    )
}

/// The pages a task loads: those of its segments, then its stack page.
pub open spec fn load_plan(segs: Seq<ElfSegment>) -> Seq<PagePlan> {
    plan_of(segs).push(stack_plan(segs))
}

/// The page arithmetic of every segment the loader reaches fits the
/// machine's words.
pub open spec fn load_fits(segs: Seq<ElfSegment>) -> bool {
    forall|i: int|
        0 <= i < segs.len() && plan_of(segs.take(i)).len() <= MAX_RAW_PAGES ==> seg_fits(
            #[trigger] segs[i],
        )
}

/// The page arithmetic of loadable segment `s` fits the machine's words.
fn segment_fits(s: &ElfSegment) -> (r: bool)
    ensures
        r == seg_fits(*s),
{
    if !s.is_load {
        return true;
    }
    if s.mem_size > u64::MAX - s.virtual_addr {
        return false;
    }
    let end = (s.virtual_addr + s.mem_size) as usize;
    if end == 0 {
        return false;
    }
    let start_vpn = (s.virtual_addr as usize) / 4096;
    let end_vpn = (end - 1) / 4096 + 1;
    let len: usize = if end_vpn >= start_vpn {
        end_vpn - start_vpn
    } else {
        0
    };
    assert(len == seg_len(*s));
    assert(len <= usize::MAX / 4096 <==> len * 4096 <= usize::MAX) by (nonlinear_arith);
    len <= usize::MAX / 4096
}

/// The number of pages loading `image` asks of the allocator besides the
/// root table (its segments' pages and the stack page, counted up to one
/// past the slots), or `None` when the page arithmetic of a segment the
/// loader reaches does not fit the machine's words.
#[verifier::rlimit(100)]
pub fn load_page_count(image: &ElfImage) -> (r: Option<usize>)
    ensures
        r is Some <==> load_fits(image.segments@),
        r matches Some(c) ==> c == min_int(load_plan(image.segments@).len() as int, MAX_RAW_PAGES + 1),
{
    let ghost segs = image.segments@;
    let n = image.segments.len();
    let mut count: usize = 0;
    let mut i: usize = 0;
    while i < n
        invariant
            0 <= i <= n,
            n == segs.len(),
            segs == image.segments@,
            count == min_int(plan_of(segs.take(i as int)).len() as int, MAX_RAW_PAGES + 1),
            forall|k: int|
                0 <= k < i && plan_of(segs.take(k)).len() <= MAX_RAW_PAGES ==> seg_fits(#[trigger] segs[k]),
        ensures
            count == min_int(plan_of(segs.take(i as int)).len() as int, MAX_RAW_PAGES + 1),
            i < n ==> count > MAX_RAW_PAGES,
            forall|k: int|
                0 <= k < i && plan_of(segs.take(k)).len() <= MAX_RAW_PAGES ==> seg_fits(#[trigger] segs[k]),
            i <= n,
        decreases n - i,
    {
        if count > MAX_RAW_PAGES {
            break;
        }
        let s = &image.segments[i];
        if !segment_fits(s) {
            return None;
        }
        proof {
            lemma_plan_step(segs, i as int);
        }
        if s.is_load {
            let start_vpn = (s.virtual_addr as usize) / 4096;
            let end = (s.virtual_addr + s.mem_size) as usize;
            let end_vpn = (end - 1) / 4096 + 1;
            let len: usize = if end_vpn >= start_vpn {
                end_vpn - start_vpn
            } else {
                0
            };
            assert(len == seg_pages(*s).len());
            count = if len > MAX_RAW_PAGES + 1 - count {
                MAX_RAW_PAGES + 1
            } else {
                count + len
            };
        } else {
            assert(seg_pages(*s).len() == 0);
        }
        i = i + 1;
    }
    proof {
        assert forall|k: int|
            0 <= k < segs.len() && plan_of(segs.take(k)).len() <= MAX_RAW_PAGES implies seg_fits(
            #[trigger] segs[k],
        ) by {
            if k >= i {
                lemma_plan_prefix(segs.take(k), i as int);
                assert(segs.take(k).take(i as int) =~= segs.take(i as int));
            }
        }
    }
    if count > MAX_RAW_PAGES {
        proof {
            if i < n {
                lemma_plan_prefix(segs, i as int);
            } else {
                assert(segs.take(i as int) =~= segs);
            }
        }
        Some(MAX_RAW_PAGES + 1)
    } else {
        proof {
            assert(segs.take(i as int) =~= segs);
        }
        Some(count + 1)
    }
}

/// What loading a task's image asks: a well-formed task whose page table
/// is held by a well-formed `a`, and, when the load will run on an image,
/// enough free frames for its pages (up to the slots) and segments that fit.
pub open spec fn load_code_pre(t: Task, a: PPNManagerImpl, elf: Result<ElfImage, &'static str>) -> bool {
    &&& t.wf()
    &&& t.tree().held_by(a)
    &&& a.wf()
    &&& t.raw_pages()[0] is None ==> !t.tree().is_init()
    &&& t.raw_pages()[0] is None && a.free_count() > 0 && elf is Ok ==> {
        let segs = elf->Ok_0.segments@;
        &&& a.free_count() - 1 >= min_int(
            load_plan(segs).len() as int,
            MAX_RAW_PAGES + 1,
        )
        &&& load_fits(segs)
    }
}

/// What loading a task's image does, from task `t0` and allocator `a0` to
/// `t1` and `a1`, with result `r`.
pub open spec fn load_code_post(
    t0: Task,
    t1: Task,
    a0: PPNManagerImpl,
    a1: PPNManagerImpl,
    elf: Result<ElfImage, &'static str>,
    r: Result<(), &'static str>,
) -> bool {
    &&& t1.wf()
    &&& a1.wf()
    &&& a1.extends(a0)
    &&& t1.tree().held_by(a1)
    &&& t1.start() == t0.start()
    &&& t1.end() == t0.end()
    &&& t1.state() == t0.state()
    &&& t1.stack().page_ppns() == t0.stack().page_ppns()
    &&& t0.raw_pages()[0] is Some ==> r is Ok && t1 == t0
        && a1 == a0
    &&& t0.raw_pages()[0] is None && a0.free_count() == 0 ==> (r matches Err(e)
        && e@ == "failed to alloc"@) && t1 == t0
        && a1 == a0
    &&& t0.raw_pages()[0] is None && a0.free_count() > 0 ==> {
        &&& t1.tree().is_init()
        &&& t1.tree().is_empty()
        &&& lowest_free(a0, t1.tree().tppn(0))
        &&& elf matches Err(e) ==> {
            &&& (r matches Err(e2) && e2@ == e@)
            &&& t1.raw_pages() == t0.raw_pages()
            &&& t1.stack() == t0.stack()
        }
        &&& elf matches Ok(img) ==> {
            let segs = img.segments@;
            let plan = load_plan(segs);
            let hi = min_int(plan.len() as int, MAX_RAW_PAGES as int);
            &&& (r is Ok <==> plan.len() <= MAX_RAW_PAGES)
            &&& slots_loaded(t1.raw_pages(), plan, 0, hi)
            &&& slots_free_from(t1.raw_pages(), hi)
            &&& a1.free_count() == a0.free_count() - 1 - hi
            &&& forall|k: int| 0 <= k < hi ==> a1.holds(
                (#[trigger] t1.raw_pages()[k])->Some_0.2.ppn.ppn.bits,
            )
            &&& fresh_frames(t1.raw_pages(), a0, 0, hi)
            &&& forall|k: int| 0 <= k < hi ==> t1.tree().tppn(0) < slot_frame(#[trigger] t1.raw_pages()[k])
            &&& in_lowest_order(t1.raw_pages(), a1, 0, hi)
            &&& r is Ok ==> t1.stack().trap_context_view() == t0.stack().trap_context_view().update(
                32,
                img.entry_point,
            ).update(2, crate::addr::page_addr((max_end(segs) + 2) as usize) as u64)
            &&& (r matches Err(e) ==> e@ == "failed to save raw page"@ && t1.stack()
                == t0.stack())
        }
    }
}

/// Page `p` of a plan lies in the pages of segment `s`, a loadable one, and
/// has its rights.
spec fn plan_in_seg(segs: Seq<ElfSegment>, p: PagePlan, s: int) -> bool {
    &&& 0 <= s < segs.len()
    &&& segs[s].is_load
    &&& p.1 == seg_perm(segs[s])
    &&& seg_start(segs[s]) <= p.0 < seg_end(segs[s])
}

/// Page `k` of the pages the segments load lies in the pages of a loadable
/// segment and has that segment's rights.
proof fn lemma_plan_rights(segs: Seq<ElfSegment>, k: int)
    requires
        0 <= k < plan_of(segs).len(),
    ensures
        exists|s: int| #[trigger] plan_in_seg(segs, plan_of(segs)[k], s),
    decreases segs.len(),
{
    let pre = segs.drop_last();
    let last = segs.last();
    let p0 = plan_of(pre);
    assert(plan_of(segs) == p0 + seg_pages(last));
    if k < p0.len() {
        lemma_plan_rights(pre, k);
        assert(plan_of(segs)[k] == p0[k]);
        let s = choose|s: int| #[trigger] plan_in_seg(pre, p0[k], s);
        assert(pre[s] == segs[s]);
        assert(plan_in_seg(segs, plan_of(segs)[k], s));
    } else {
        let j = k - p0.len();
        assert(plan_of(segs)[k] == seg_pages(last)[j]);
        assert(last.is_load);
        assert(seg_pages(last)[j] == ((seg_start(last) + j) as usize, seg_perm(last), page_chunk(last.data@, j)));
        assert(segs[segs.len() - 1] == last);
        assert(plan_in_seg(segs, plan_of(segs)[k], segs.len() - 1));
    }
}

/// The pages a load saves for the segments belong to user mode and carry
/// the read, write and execute flags of a loadable segment whose pages hold
/// them; the stack page after them is readable and writable by user mode
/// and not executable.
pub proof fn lemma_loaded_page_rights(
    t0: Task,
    t1: Task,
    a0: PPNManagerImpl,
    a1: PPNManagerImpl,
    img: ElfImage,
    r: Result<(), &'static str>,
)
    requires
        load_code_post(t0, t1, a0, a1, Ok(img), r),
        t0.raw_pages()[0] is None,
        a0.free_count() > 0,
    ensures
        forall|k: int|
            0 <= k < min_int(plan_of(img.segments@).len() as int, MAX_RAW_PAGES as int) ==> {
                let p = #[trigger] t1.raw_pages()[k];
                &&& p is Some
                &&& p->Some_0.1.valid
                &&& p->Some_0.1.user
                &&& p->Some_0.1.ppn.bits == slot_frame(p)
                &&& exists|s: int|
                    #![trigger img.segments@[s]]
                    0 <= s < img.segments@.len() && img.segments@[s].is_load
                        && p->Some_0.1.read == img.segments@[s].read
                        && p->Some_0.1.write == img.segments@[s].write
                        && p->Some_0.1.execute == img.segments@[s].execute
                        && seg_start(img.segments@[s]) <= p->Some_0.0.bits < seg_end(img.segments@[s])
            },
        plan_of(img.segments@).len() < MAX_RAW_PAGES ==> {
            let p = t1.raw_pages()[plan_of(img.segments@).len() as int];
            &&& p is Some
            &&& p->Some_0.1.valid
            &&& p->Some_0.1.user
            &&& p->Some_0.1.read
            &&& p->Some_0.1.write
            &&& !p->Some_0.1.execute
            &&& p->Some_0.1.ppn.bits == slot_frame(p)
        },
{
    let segs = img.segments@;
    let plan = load_plan(segs);
    let n = plan_of(segs).len() as int;
    assert forall|k: int| 0 <= k < min_int(n, MAX_RAW_PAGES as int) implies {
        let p = #[trigger] t1.raw_pages()[k];
        &&& p is Some
        &&& p->Some_0.1.valid
        &&& p->Some_0.1.user
        &&& p->Some_0.1.ppn.bits == slot_frame(p)
        &&& exists|s: int|
            #![trigger segs[s]]
            0 <= s < segs.len() && segs[s].is_load && p->Some_0.1.read == segs[s].read
                && p->Some_0.1.write == segs[s].write && p->Some_0.1.execute == segs[s].execute
                && seg_start(segs[s]) <= p->Some_0.0.bits < seg_end(segs[s])
    } by {
        assert(plan[k] == plan_of(segs)[k]);
        lemma_plan_rights(segs, k);
        let s = choose|s: int| #[trigger] plan_in_seg(segs, plan_of(segs)[k], s);
        assert(segs[s] == img.segments@[s]);
        assert(page_loaded(t1.raw_pages()[k]->Some_0, plan[k]));
    }
    if n < MAX_RAW_PAGES {
        assert(plan[n] == stack_plan(segs));
        assert(page_loaded(t1.raw_pages()[n]->Some_0, plan[n]));
    }
}

/// Changing a task's state changes nothing else of it.
pub proof fn lemma_with_state(t: Task, state: TaskState)
    ensures
        t.with_state(state).state() == state,
        t.with_state(state).start() == t.start(),
        t.with_state(state).end() == t.end(),
        t.with_state(state).raw_pages() == t.raw_pages(),
        t.with_state(state).tree() == t.tree(),
        t.with_state(state).stack() == t.stack(),
        t.with_state(t.state()) == t,
        forall|s2: TaskState| #[trigger] t.with_state(state).with_state(s2) == t.with_state(s2),
{
}

impl Task {
    /// Loads the task's image, once: puts a fresh root table in place, then
    /// gives every page of each loadable segment a fresh frame holding the
    /// segment's bytes for that page, then adds a stack page one page above
    /// the highest segment, and sets the entry point and the stack pointer
    /// (the end of the stack page) in the trap context. `elf` is the image
    /// parsed from the task's code. Stops at the first failure: no frame for
    /// the root, a parse error, or more pages than slots.
    #[verifier::rlimit(50)]
    pub fn load_code(&mut self, allocator: &mut PPNManagerImpl, elf: &Result<ElfImage, &'static str>) -> (r:
        Result<(), &'static str>)
        requires
            load_code_pre(*old(self), *old(allocator), *elf),
        ensures
            load_code_post(*old(self), *final(self), *old(allocator), *final(allocator), *elf, r),
    {
        if self.raw_pages[0].is_none() {
            proof {
                assert forall|k: int| 0 <= k < MAX_RAW_PAGES implies #[trigger] self.raw_pages()[k] is None by {
                    if k > 0 && self.raw_pages()[k] is Some {
                        assert(self.raw_pages()[0] is Some);
                    }
                }
            }
            match self.page_table_tree.init(allocator) {
                Ok(()) => {},
                Err(e) => {
                    return Err(e);
                },
            }
            let image = match elf {
                Ok(image) => image,
                Err(e) => {
                    return Err(*e);
                },
            };
            let ghost segs = image.segments@;
            let ghost tree0 = self.tree();
            let ghost after_init = *allocator;
            let max_end_vpn = match self.load_segments(image, allocator) {
                Ok(v) => v,
                Err(e) => {
                    proof {
                        lemma_fresh_older(self.raw_pages(), *old(allocator), after_init, MAX_RAW_PAGES as int, tree0.tppn(0));
                        lemma_load_plan_prefix(segs);
                        lemma_above_root(self.raw_pages(), *old(allocator), after_init, *allocator, MAX_RAW_PAGES as int, tree0.tppn(0));
                        lemma_slots_prefix(self.raw_pages(), load_plan(segs), plan_of(segs), MAX_RAW_PAGES as int);
                        crate::page_table::lemma_held_by_extends(tree0, after_init, *allocator);
                    }
                    return Err(e);
                },
            };
            proof {
                assert(segs.take(segs.len() as int) =~= segs);
                lemma_max_end_bound(segs);
            }
            let ghost n = plan_of(segs).len() as int;
            let stack_vpn = VirtualPageNumber::from(max_end_vpn.bits + 1);
            let section = VirtualSection {
                start_vpn: stack_vpn,
                end_vpn: VirtualPageNumber::from(stack_vpn.bits + 1),
                map_target: MapTarget::Random(None),
                permission: data_permission().for_user(),
            };
            proof {
                assert(section_plan(section) =~= seq![stack_plan(segs)]);
            }
            let ghost a_mid = *allocator;
            let ghost raw_mid = self.raw_pages();
            match self.save_section(&section, allocator, Ghost(n)) {
                Ok(()) => {},
                Err(e) => {
                    proof {
                        assert forall|k: int| 0 <= k < n implies self.raw_pages()[k] == raw_mid[k]
                            && a_mid.holds(slot_frame(#[trigger] self.raw_pages()[k])) by {}
                        assert(fresh_frames(self.raw_pages(), after_init, 0, n)) by {
                            assert forall|k: int| 0 <= k < n implies self.raw_pages()[k] == raw_mid[k] by {}
                        }
                        lemma_fresh_join(self.raw_pages(), after_init, a_mid, n, MAX_RAW_PAGES as int);
                        lemma_order_same(raw_mid, self.raw_pages(), a_mid, 0, n);
                        lemma_order_join(self.raw_pages(), a_mid, *allocator, n, MAX_RAW_PAGES as int);
                        lemma_above_root(self.raw_pages(), *old(allocator), after_init, *allocator, MAX_RAW_PAGES as int, tree0.tppn(0));
                        lemma_fresh_older(self.raw_pages(), *old(allocator), after_init, MAX_RAW_PAGES as int, tree0.tppn(0));
                        lemma_slots_join(self.raw_pages(), plan_of(segs), seq![stack_plan(segs)], n, MAX_RAW_PAGES as int);
                        crate::page_table::lemma_held_by_extends(tree0, after_init, *allocator);
                    }
                    return Err(e);
                },
            }
            proof {
                assert forall|k: int| 0 <= k < n implies self.raw_pages()[k] == raw_mid[k]
                    && a_mid.holds(slot_frame(#[trigger] self.raw_pages()[k])) by {}
                assert(fresh_frames(self.raw_pages(), after_init, 0, n)) by {
                    assert forall|k: int| 0 <= k < n implies self.raw_pages()[k] == raw_mid[k] by {}
                }
                lemma_fresh_join(self.raw_pages(), after_init, a_mid, n, n + 1);
                lemma_order_same(raw_mid, self.raw_pages(), a_mid, 0, n);
                lemma_order_join(self.raw_pages(), a_mid, *allocator, n, n + 1);
                lemma_above_root(self.raw_pages(), *old(allocator), after_init, *allocator, n + 1, tree0.tppn(0));
                lemma_fresh_older(self.raw_pages(), *old(allocator), after_init, n + 1, tree0.tppn(0));
                lemma_slots_join(self.raw_pages(), plan_of(segs), seq![stack_plan(segs)], n, n + 1);
                crate::page_table::lemma_held_by_extends(tree0, after_init, *allocator);
            }
            let entry_addr = image.entry_point;
            self.kernel_stack.get_trap_context_mut().set_pc(entry_addr);
            self.kernel_stack.get_trap_context_mut().set_sp(section.end_vpn.as_addr() as u64);
        }
        Ok(())
    }
}

impl Task {
    /// Gives every page of loadable segment `ph` a fresh frame holding its
    /// part of the segment's bytes, saving them from slot `n` on; returns the
    /// end of the segment's pages.
    fn load_segment(&mut self, ph: &ElfSegment, allocator: &mut PPNManagerImpl, Ghost(n): Ghost<int>) -> (r:
        Result<VirtualPageNumber, &'static str>)
        requires
            old(self).wf(),
            old(allocator).wf(),
            ph.is_load,
            seg_fits(*ph),
            0 <= n <= MAX_RAW_PAGES,
            forall|k: int| 0 <= k < n ==> #[trigger] old(self).raw_pages()[k] is Some,
            slots_free_from(old(self).raw_pages(), n),
            old(allocator).free_count() >= min_int(seg_pages(*ph).len() as int, MAX_RAW_PAGES - n + 1),
        ensures
            final(self).wf(),
            final(self).start() == old(self).start(),
            final(self).end() == old(self).end(),
            final(self).state() == old(self).state(),
            final(self).tree() == old(self).tree(),
            final(self).stack() == old(self).stack(),
            final(allocator).wf(),
            final(allocator).start() == old(allocator).start(),
            final(allocator).extends(*old(allocator)),
            ({
                let p = seg_pages(*ph);
                let hi = min_int(n + p.len(), MAX_RAW_PAGES as int);
                &&& (r is Ok <==> n + p.len() <= MAX_RAW_PAGES)
                &&& r matches Ok(v) ==> v.bits == seg_end(*ph)
                &&& forall|k: int| 0 <= k < n ==> #[trigger] final(self).raw_pages()[k] == old(self).raw_pages()[k]
                &&& slots_loaded(final(self).raw_pages(), p, n, hi)
                &&& slots_free_from(final(self).raw_pages(), hi)
                &&& final(allocator).free_count() == old(allocator).free_count() - (hi - n)
                &&& forall|k: int| n <= k < hi ==> final(allocator).holds(
                    (#[trigger] final(self).raw_pages()[k])->Some_0.2.ppn.ppn.bits,
                )
                &&& fresh_frames(final(self).raw_pages(), *old(allocator), n, hi)
                &&& in_lowest_order(final(self).raw_pages(), *final(allocator), n, hi)
                &&& r matches Err(e) ==> e@ == "failed to save raw page"@
            }),
    {
        let permission = Permission { user: true, read: ph.read, write: ph.write, execute: ph.execute };
        let data: &[u8] = ph.data.as_slice();
        let section = VirtualSection::new(
            ph.virtual_addr as usize,
            (ph.virtual_addr + ph.mem_size) as usize,
            MapTarget::Random(Some(data)),
            permission,
        );
        proof {
            assert(section_plan(section) =~= seg_pages(*ph));
        }
        match self.save_section(&section, allocator, Ghost(n)) {
            Ok(()) => Ok(section.end_vpn),
            Err(e) => Err(e),
        }
    }
}

impl Task {
    /// Loads the pages of every loadable segment of `image`, in order, from
    /// the first slot on; returns the end of the highest segment.
    #[verifier::rlimit(100)]
    #[verifier::spinoff_prover]
    fn load_segments(&mut self, image: &ElfImage, allocator: &mut PPNManagerImpl) -> (r: Result<
        VirtualPageNumber,
        &'static str,
    >)
        requires
            old(self).wf(),
            old(allocator).wf(),
            slots_free_from(old(self).raw_pages(), 0),
            old(allocator).free_count() >= min_int(load_plan(image.segments@).len() as int, MAX_RAW_PAGES + 1),
            load_fits(image.segments@),
        ensures
            final(self).wf(),
            final(allocator).wf(),
            final(allocator).extends(*old(allocator)),
            final(self).tree() == old(self).tree(),
            final(self).start() == old(self).start(),
            final(self).end() == old(self).end(),
            final(self).state() == old(self).state(),
            final(self).stack() == old(self).stack(),
            ({
                let p = plan_of(image.segments@);
                let hi = min_int(p.len() as int, MAX_RAW_PAGES as int);
                &&& (r is Ok <==> p.len() <= MAX_RAW_PAGES)
                &&& r matches Ok(v) ==> v.bits == max_end(image.segments@)
                &&& slots_loaded(final(self).raw_pages(), p, 0, hi)
                &&& slots_free_from(final(self).raw_pages(), hi)
                &&& final(allocator).free_count() == old(allocator).free_count() - hi
                &&& forall|k: int| 0 <= k < hi ==> final(allocator).holds(
                    (#[trigger] final(self).raw_pages()[k])->Some_0.2.ppn.ppn.bits,
                )
                &&& fresh_frames(final(self).raw_pages(), *old(allocator), 0, hi)
                &&& in_lowest_order(final(self).raw_pages(), *final(allocator), 0, hi)
                &&& r matches Err(e) ==> e@ == "failed to save raw page"@
            }),
    {
        let ghost segs = image.segments@;
        let ghost f = allocator.free_count();
        let mut max_end_vpn = VirtualPageNumber::from(0);
        let mut i: usize = 0;
        proof {
            assert(segs.take(0) =~= Seq::empty());
        }
        while i < image.segments.len()
            invariant
                self.wf(),
                allocator.wf(),
                allocator.extends(*old(allocator)),
                self.tree() == old(self).tree(),
                self.start() == old(self).start(),
                self.end() == old(self).end(),
                self.state() == old(self).state(),
                self.stack() == old(self).stack(),
                segs == image.segments@,
                0 <= i <= segs.len(),
                f == old(allocator).free_count(),
                f >= min_int(load_plan(segs).len() as int, MAX_RAW_PAGES + 1),
                load_fits(segs),
                plan_of(segs.take(i as int)).len() <= MAX_RAW_PAGES,
                slots_loaded(self.raw_pages(), plan_of(segs.take(i as int)), 0, plan_of(segs.take(i as int)).len() as int),
                slots_free_from(self.raw_pages(), plan_of(segs.take(i as int)).len() as int),
                allocator.free_count() == f - plan_of(segs.take(i as int)).len(),
                forall|k: int| 0 <= k < plan_of(segs.take(i as int)).len() ==> allocator.holds(
                    (#[trigger] self.raw_pages()[k])->Some_0.2.ppn.ppn.bits,
                ),
                max_end_vpn.bits == max_end(segs.take(i as int)),
                fresh_frames(self.raw_pages(), *old(allocator), 0, plan_of(segs.take(i as int)).len() as int),
                in_lowest_order(self.raw_pages(), *allocator, 0, plan_of(segs.take(i as int)).len() as int),
            decreases segs.len() - i,
        {
            let ghost n = plan_of(segs.take(i as int)).len() as int;
            proof {
                lemma_plan_step(segs, i as int);
                lemma_plan_prefix(segs, i as int + 1);
                lemma_plan_prefix(segs, i as int);
                assert(segs.take(segs.len() as int) =~= segs);
            }
                let ph = &image.segments[i];
                if ph.is_load {
                    let ghost before_raw = self.raw_pages();
                    let ghost a_i = *allocator;
                    match self.load_segment(ph, allocator, Ghost(n)) {
                        Ok(end_vpn) => {
                            proof {
                                let len = seg_pages(segs[i as int]).len() as int;
                                assert forall|k: int| 0 <= k < n implies self.raw_pages()[k] == before_raw[k]
                                    && a_i.holds(slot_frame(#[trigger] self.raw_pages()[k])) by {}
                                assert(fresh_frames(self.raw_pages(), *old(allocator), 0, n)) by {
                                    assert forall|k: int| 0 <= k < n implies self.raw_pages()[k] == before_raw[k] by {}
                                }
                                lemma_fresh_join(self.raw_pages(), *old(allocator), a_i, n, n + len);
                                lemma_order_same(before_raw, self.raw_pages(), a_i, 0, n);
                                lemma_order_join(self.raw_pages(), a_i, *allocator, n, n + len);
                            }
                            if end_vpn.bits > max_end_vpn.bits {
                                max_end_vpn = end_vpn;
                            }
                            proof {
                                lemma_slots_join(self.raw_pages(), plan_of(segs.take(i as int)), seg_pages(segs[i as int]), n, n + seg_pages(segs[i as int]).len());
                            }
                        },
                        Err(e) => {
                            proof {
                                assert forall|k: int| 0 <= k < n implies self.raw_pages()[k] == before_raw[k]
                                    && a_i.holds(slot_frame(#[trigger] self.raw_pages()[k])) by {}
                                assert(fresh_frames(self.raw_pages(), *old(allocator), 0, n)) by {
                                    assert forall|k: int| 0 <= k < n implies self.raw_pages()[k] == before_raw[k] by {}
                                }
                                lemma_fresh_join(self.raw_pages(), *old(allocator), a_i, n, MAX_RAW_PAGES as int);
                                lemma_order_same(before_raw, self.raw_pages(), a_i, 0, n);
                                lemma_order_join(self.raw_pages(), a_i, *allocator, n, MAX_RAW_PAGES as int);
                                lemma_slots_join(self.raw_pages(), plan_of(segs.take(i as int)), seg_pages(segs[i as int]), n, MAX_RAW_PAGES as int);
                                lemma_slots_prefix(self.raw_pages(), plan_of(segs), plan_of(segs.take(i as int + 1)), MAX_RAW_PAGES as int);
                            }
                            return Err(e);
                        },
                    }
                } else {
                    proof {
                        assert(seg_pages(segs[i as int]) =~= Seq::empty());
                        assert(plan_of(segs.take(i as int + 1)) =~= plan_of(segs.take(i as int)));
                    }
                }
                i = i + 1;
            }
        proof {
            assert(segs.take(segs.len() as int) =~= segs);
        }
        Ok(max_end_vpn)
    }
}

/// The pages of the segments come first among the pages a task loads.
proof fn lemma_load_plan_prefix(segs: Seq<ElfSegment>)
    ensures
        load_plan(segs).take(plan_of(segs).len() as int) == plan_of(segs),
{
    assert(load_plan(segs).take(plan_of(segs).len() as int) =~= plan_of(segs));
}

/// Slots holding the pages of `p1` followed by slots holding those of `p2`
/// hold the pages of `p1 + p2`.
proof fn lemma_slots_join(
    pages: Seq<Option<SavedPage>>,
    p1: Seq<PagePlan>,
    p2: Seq<PagePlan>,
    n: int,
    hi: int,
)
    requires
        n == p1.len(),
        n <= hi <= n + p2.len(),
        slots_loaded(pages, p1, 0, n),
        slots_loaded(pages, p2, n, hi),
    ensures
        slots_loaded(pages, p1 + p2, 0, hi),
{
    assert forall|k: int| 0 <= k < hi implies (#[trigger] pages[k]) is Some && page_loaded(
        pages[k]->Some_0,
        (p1 + p2)[k - 0],
    ) by {
        if k < n {
            assert(pages[k] is Some && page_loaded(pages[k]->Some_0, p1[k - 0]));
        } else {
            assert(pages[k] is Some && page_loaded(pages[k]->Some_0, p2[k - n]));
        }
    }
}

/// Slots that hold a prefix of a plan hold the plan's first pages.
proof fn lemma_slots_prefix(pages: Seq<Option<SavedPage>>, full: Seq<PagePlan>, part: Seq<PagePlan>, hi: int)
    requires
        slots_loaded(pages, part, 0, hi),
        hi <= part.len() <= full.len(),
        full.take(part.len() as int) == part,
    ensures
        slots_loaded(pages, full, 0, hi),
{
    assert forall|k: int| 0 <= k < hi implies (#[trigger] pages[k]) is Some && page_loaded(
        pages[k]->Some_0,
        full[k - 0],
    ) by {
        assert(pages[k] is Some && page_loaded(pages[k]->Some_0, part[k - 0]));
        assert(full.take(part.len() as int)[k] == full[k]);
    }
}

/// The maps of a prefix of the slots are a prefix of the maps.
proof fn lemma_raw_maps_prefix(pages: Seq<Option<SavedPage>>, n: int)
    requires
        0 <= n <= pages.len(),
    ensures
        raw_maps(pages).take(raw_maps(pages.take(n)).len() as int) == raw_maps(pages.take(n)),
        raw_maps(pages.take(n)).len() <= raw_maps(pages).len(),
    decreases pages.len() - n,
{
    if n == pages.len() {
        assert(pages.take(n) =~= pages);
        assert(raw_maps(pages).take(raw_maps(pages).len() as int) =~= raw_maps(pages));
    } else {
        lemma_raw_maps_prefix(pages, n + 1);
        assert(pages.take(n + 1).drop_last() =~= pages.take(n));
        let a = raw_maps(pages.take(n));
        let b = raw_maps(pages.take(n + 1));
        assert(b.take(a.len() as int) =~= a);
        assert(raw_maps(pages).take(a.len() as int) =~= raw_maps(pages).take(b.len() as int).take(a.len() as int));
    }
}

/// A failing map in a sequence makes the whole sequence fail.
proof fn lemma_maps_ok_prefix_fail(a: TreeAbs, m: Seq<(usize, u64)>, j: int)
    requires
        first_failure(a, m, j),
    ensures
        !maps_ok(a, m),
    decreases m.len(),
{
    if m.len() == j + 1 {
        assert(m.drop_last() =~= m.take(j));
    } else {
        assert(m.drop_last().take(j) =~= m.take(j));
        lemma_maps_ok_prefix_fail(a, m.drop_last(), j);
    }
}

} // verus!
