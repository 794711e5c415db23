//! Page-table entries and the three-level page-table tree.
use vstd::prelude::*;
use crate::ppn_manager::PPNManager;
use crate::addr::{PhysicalPageNumber, VirtualPageNumber, page_addr};
use crate::ppn_manager::{
    PhysicalPageNumberGuard, PPNManagerImpl, count_free, lowest_free, lemma_count_free_occupy, lemma_count_free_zero,
    lemma_count_all_free,
};
use crate::sv39::{
    PageTableImpl, PageTableEntryImpl, encode_entry, decode_entry, entry_ppn, entry_valid,
    vpn_offsets, split_vpn, ENTRIES_PER_TABLE, lemma_entry_round_trip,
};
use crate::register::{SAtp, satp_of};

verus! {

/// A page-table entry as the kernel sees it.
#[derive(Copy, Clone)]
pub struct PageTableEntry {
    pub ppn: PhysicalPageNumber,
    /// The entry is in use.
    pub valid: bool,
    pub read: bool,
    pub write: bool,
    pub execute: bool,
    /// User mode may access the page (and supervisor mode may not).
    pub user: bool,
}

impl Default for PageTableEntry {
    fn default() -> (r: Self)
        ensures
            r.ppn.bits == 0 && !r.valid && !r.read && !r.write && !r.execute && !r.user,
    {
        Self {
            ppn: PhysicalPageNumber::from(0),
            valid: false,
            read: false,
            write: false,
            execute: false,
            user: false,
        }
    }
}

/// One page table together with the frame that holds it.
pub struct PageTable {
    ppn: PhysicalPageNumberGuard,
    page_table: PageTableImpl,
}

impl PageTable {
    /// Page number of the frame that holds the table.
    pub closed spec fn ppn_bits(&self) -> usize {
        self.ppn.ppn.bits
    }

    /// The raw bits of the table's entries.
    pub closed spec fn entries(&self) -> Seq<u64> {
        self.page_table.view()
    }

    /// Writes entry `offset` in the hardware format.
    pub fn set_entry(&mut self, offset: usize, entry: PageTableEntry)
        requires
            offset < ENTRIES_PER_TABLE,
        ensures
            final(self).ppn_bits() == old(self).ppn_bits(),
            final(self).entries() == old(self).entries().update(offset as int, encode_entry(entry)),
    {
        self.page_table.set_entry(offset, PageTableEntryImpl::from(entry));
    }

    /// Reads entry `offset` back.
    pub fn get_entry(&self, offset: usize) -> (r: PageTableEntry)
        requires
            offset < ENTRIES_PER_TABLE,
        ensures
            r == decode_entry(self.entries()[offset as int]),
    {
        self.page_table.get_entry(offset).into()
    }

    /// Page number of the frame that holds the table.
    pub fn frame(&self) -> (r: PhysicalPageNumber)
        ensures
            r.bits == self.ppn_bits(),
    {
        self.ppn.ppn
    }

    /// Entry `offset` as the hardware reads it: the 64-bit word to store at
    /// byte `8 * offset` of the table's frame.
    pub fn raw_entry(&self, offset: usize) -> (r: u64)
        requires
            offset < ENTRIES_PER_TABLE,
        ensures
            r == self.entries()[offset as int],
    {
        self.page_table.get_entry(offset).bits()
    }

    /// Takes over the frame `v` as an empty page table.
    pub fn from(v: PhysicalPageNumberGuard) -> (r: Self)
        ensures
            r.ppn_bits() == v.ppn.bits,
            r.entries().len() == ENTRIES_PER_TABLE,
            forall|i: int| 0 <= i < ENTRIES_PER_TABLE ==> #[trigger] r.entries()[i] == 0,
    {
        let mut page_table = PageTableImpl::new();
        page_table.clear();
        PageTable { ppn: v, page_table }
    }
}

/// Number of page tables a tree can hold.
pub const BASE_PAGE_TABLE_COUNT: usize = 10;

/// The entry that links a directory slot to the table in page `ppn`.
pub open spec fn directory_entry(ppn: PhysicalPageNumber) -> PageTableEntry {
    PageTableEntry { ppn, valid: true, read: false, write: false, execute: false, user: false }
}

/// A three-level Sv39 page table: slot 0 holds the root, directory entries
/// name the next table by its page number.
pub struct PageTableTree {
    page_tables: Vec<Option<PageTable>>,
    /// For each slot: the table's level (0 root, 1 middle, 2 leaf) and the
    /// virtual page number prefix it translates (`o0` for a middle table,
    /// `o0 * 512 + o1` for a leaf table).
    roles: Ghost<Seq<(int, int)>>,
}

impl PageTableTree {
    /// Slot `i` holds a table.
    pub closed spec fn has(&self, i: int) -> bool {
        0 <= i < BASE_PAGE_TABLE_COUNT && self.page_tables@[i] is Some
    }

    /// Page number of the table in slot `i`.
    pub closed spec fn tppn(&self, i: int) -> usize {
        self.page_tables@[i]->Some_0.ppn_bits()
    }

    /// Bits of entry `o` of the table in slot `i`.
    pub closed spec fn ent(&self, i: int, o: int) -> u64 {
        self.page_tables@[i]->Some_0.entries()[o]
    }

    /// Level and prefix of the table in slot `i`.
    pub closed spec fn role(&self, i: int) -> (int, int) {
        self.roles@[i]
    }

    /// Slot `i` holds the table at the address of page `p`.
    pub closed spec fn matches(&self, i: int, p: usize) -> bool {
        self.has(i) && page_addr(self.tppn(i)) == page_addr(p)
    }

    /// The first slot at or after `i` holding the table at page `p`'s address.
    pub closed spec fn find_from(&self, p: usize, i: int) -> Option<int>
        decreases BASE_PAGE_TABLE_COUNT - i,
    {
        if i >= BASE_PAGE_TABLE_COUNT || i < 0 {
            None
        } else if self.matches(i, p) {
            Some(i)
        } else {
            self.find_from(p, i + 1)
        }
    }

    /// The first slot holding the table at page `p`'s address.
    pub closed spec fn find(&self, p: usize) -> Option<int> {
        self.find_from(p, 0)
    }

    /// The leaf table that the walk for offsets `o0`, `o1` reaches.
    pub closed spec fn leaf_table(&self, o0: int, o1: int) -> Option<int> {
        let e0 = self.ent(0, o0);
        if !entry_valid(e0) {
            None
        } else {
            match self.find(entry_ppn(e0)) {
                None => None,
                Some(t1) => {
                    let e1 = self.ent(t1, o1);
                    if !entry_valid(e1) {
                        None
                    } else {
                        self.find(entry_ppn(e1))
                    }
                },
            }
        }
    }

    /// The bits of the leaf entry for offsets `o0`, `o1`, `o2`; clear when
    /// the walk ends at an invalid directory entry.
    pub closed spec fn entry_at(&self, o0: int, o1: int, o2: int) -> u64 {
        match self.leaf_table(o0, o1) {
            Some(t) => self.ent(t, o2),
            None => 0,
        }
    }

    /// The leaf entry for virtual page number `vpn`.
    pub open spec fn entry_of(&self, vpn: usize) -> u64 {
        let o = vpn_offsets(vpn);
        self.entry_at(o[0] as int, o[1] as int, o[2] as int)
    }

    /// The physical address that virtual address `va` translates to.
    pub open spec fn translate_spec(&self, va: usize) -> Option<usize> {
        let b = self.entry_of(va / 4096);
        if entry_valid(b) {
            Some((page_addr(entry_ppn(b)) + va % 4096) as usize)
        } else {
            None
        }
    }

    /// Root entry `o0` links a middle table.
    pub closed spec fn root_linked(&self, o0: int) -> bool {
        entry_valid(self.ent(0, o0))
    }

    /// The walk of `o0`, `o1` reaches a leaf table.
    pub closed spec fn mid_linked(&self, o0: int, o1: int) -> bool {
        self.leaf_table(o0, o1) is Some
    }

    /// No page is mapped and no directory entry is in use.
    pub open spec fn is_empty(&self) -> bool {
        &&& forall|p0: int, p1: int, p2: int|
            0 <= p0 < 512 && 0 <= p1 < 512 && 0 <= p2 < 512 ==> #[trigger] self.entry_at(p0, p1, p2) == 0
        &&& forall|p0: int| 0 <= p0 < 512 ==> !#[trigger] self.root_linked(p0)
        &&& forall|p0: int, p1: int| 0 <= p0 < 512 && 0 <= p1 < 512 ==> !#[trigger] self.mid_linked(p0, p1)
    }

    /// Some table of the tree sits on frame `p`.
    pub open spec fn uses_frame(&self, p: usize) -> bool {
        exists|i: int| #[trigger] self.has(i) && self.tppn(i) == p
    }

    /// The root table is in place.
    pub open spec fn is_init(&self) -> bool {
        self.has(0)
    }

    /// Which slots hold a table.
    pub closed spec fn used_slots(&self) -> Seq<bool> {
        self.page_tables@.map_values(|t: Option<PageTable>| t is Some)
    }

    /// Number of empty slots.
    pub closed spec fn free_slots(&self) -> nat {
        count_free(self.used_slots(), BASE_PAGE_TABLE_COUNT as int)
    }

    /// Number of tables that must be created for the walk of `o0`, `o1` to
    /// reach a leaf table.
    pub closed spec fn missing_tables(&self, o0: int, o1: int) -> nat {
        let e0 = self.ent(0, o0);
        if !entry_valid(e0) {
            2
        } else {
            match self.find(entry_ppn(e0)) {
                Some(t1) => if entry_valid(self.ent(t1, o1)) { 0 } else { 1 },
                None => 0,
            }
        }
    }

    /// Every table's frame is occupied in `allocator`.
    pub closed spec fn held_by(&self, allocator: PPNManagerImpl) -> bool {
        forall|i: int| #[trigger] self.has(i) ==> allocator.holds(self.tppn(i))
    }

    /// No two tables share a frame address.
    pub closed spec fn distinct(&self) -> bool {
        forall|i: int, j: int|
            #![trigger self.has(i), self.has(j)]
            self.has(i) && self.has(j) && i != j ==> page_addr(self.tppn(i)) != page_addr(
                self.tppn(j),
            )
    }

    /// Table `i` is the root or a middle table, whose valid entries link to
    /// further tables.
    pub closed spec fn is_directory(&self, i: int) -> bool {
        i == 0 || self.role(i).0 == 1
    }

    /// The tree's invariant.
    pub closed spec fn wf(&self) -> bool {
        &&& self.page_tables@.len() == BASE_PAGE_TABLE_COUNT
        &&& self.roles@.len() == BASE_PAGE_TABLE_COUNT
        &&& forall|i: int| #[trigger] self.has(i) ==> self.page_tables@[i]->Some_0.entries().len()
            == ENTRIES_PER_TABLE
        &&& forall|i: int|
            #[trigger] self.has(i) ==> {
                let (l, p) = self.role(i);
                ||| (l == 0 && i == 0 && p == 0)
                ||| (l == 1 && i != 0 && 0 <= p < 512)
                ||| (l == 2 && i != 0 && 0 <= p < 512 * 512)
            }
        &&& self.has(0) ==> self.role(0) == (0int, 0int)
        &&& self.distinct()
        &&& self.has(0) ==> forall|o0: int|
            0 <= o0 < 512 && #[trigger] entry_valid(self.ent(0, o0)) ==> {
                &&& self.find(entry_ppn(self.ent(0, o0))) is Some
                &&& self.role(self.find(entry_ppn(self.ent(0, o0)))->Some_0) == (1int, o0)
            }
        &&& forall|i: int, o1: int|
            #![trigger self.role(i), self.ent(i, o1)]
            self.has(i) && self.role(i).0 == 1 && 0 <= o1 < 512 && entry_valid(self.ent(i, o1))
                ==> {
                &&& self.find(entry_ppn(self.ent(i, o1))) is Some
                &&& self.role(self.find(entry_ppn(self.ent(i, o1)))->Some_0) == (
                    2int,
                    self.role(i).1 * 512 + o1,
                )
            }
    }
}


/// `t1` keeps every table of `t0` in its slot and frame, and every table it
/// adds sits on a frame that `a0` did not hold, in a slot below which `t1`
/// has no empty slot, on a frame below which every frame managed by `a0` is
/// held by `a1`: the new tables took the first empty slots and the lowest
/// free frames.
pub open spec fn grows_on_lowest(t0: PageTableTree, t1: PageTableTree, a0: PPNManagerImpl, a1: PPNManagerImpl) -> bool {
    &&& forall|i: int| #[trigger] t0.has(i) ==> t1.has(i) && t1.tppn(i) == t0.tppn(i)
    &&& forall|i: int| #[trigger] t1.has(i) && !t0.has(i) ==> !a0.holds(t1.tppn(i))
    &&& forall|i: int, j: int|
        #![trigger t1.has(i), t1.has(j)]
        t1.has(i) && !t0.has(i) && 0 <= j < i ==> t1.has(j)
    &&& forall|i: int, f: usize|
        #![trigger t1.tppn(i), a1.holds(f)]
        t1.has(i) && !t0.has(i) && a0.start() is Some && a0.start().unwrap() <= f < t1.tppn(i) ==> a1.holds(f)
}

/// A tree is grown on lowest frames from itself, under an unchanged allocator.
pub proof fn lemma_grows_refl(t: PageTableTree, a: PPNManagerImpl)
    ensures
        grows_on_lowest(t, t, a, a),
{
}

/// Growing twice on the lowest frames is growing once, when each allocator
/// extends the one before.
pub proof fn lemma_grows_trans(
    t0: PageTableTree,
    t1: PageTableTree,
    t2: PageTableTree,
    a0: PPNManagerImpl,
    a1: PPNManagerImpl,
    a2: PPNManagerImpl,
)
    requires
        grows_on_lowest(t0, t1, a0, a1),
        grows_on_lowest(t1, t2, a1, a2),
        a1.extends(a0),
        a2.extends(a1),
    ensures
        grows_on_lowest(t0, t2, a0, a2),
{
    assert forall|i: int| #[trigger] t2.has(i) && !t0.has(i) implies !a0.holds(t2.tppn(i)) by {
        if t1.has(i) {
            assert(t2.tppn(i) == t1.tppn(i));
        } else if a0.holds(t2.tppn(i)) {
            assert(a1.holds(t2.tppn(i)));
        }
    }
    assert forall|i: int, j: int|
        #![trigger t2.has(i), t2.has(j)]
        t2.has(i) && !t0.has(i) && 0 <= j < i implies t2.has(j) by {
        if t1.has(i) {
            assert(t1.has(j));
        }
    }
    assert forall|i: int, f: usize|
        #![trigger t2.tppn(i), a2.holds(f)]
        t2.has(i) && !t0.has(i) && a0.start() is Some && a0.start().unwrap() <= f < t2.tppn(i) implies a2.holds(f) by {
        if t1.has(i) {
            assert(t2.tppn(i) == t1.tppn(i));
            assert(a1.holds(f));
        }
    }
}

/// What `find_from` returns: the first matching slot at or after `i`.
proof fn lemma_find_from(t: PageTableTree, p: usize, i: int)
    requires
        0 <= i,
    ensures
        t.find_from(p, i) matches Some(j) ==> i <= j < BASE_PAGE_TABLE_COUNT && t.matches(j, p)
            && forall|k: int| i <= k < j ==> !#[trigger] t.matches(k, p),
        t.find_from(p, i) is None ==> forall|k: int|
            i <= k < BASE_PAGE_TABLE_COUNT ==> !#[trigger] t.matches(k, p),
    decreases BASE_PAGE_TABLE_COUNT - i,
{
    if i < BASE_PAGE_TABLE_COUNT {
        lemma_find_from(t, p, i + 1);
    }
}

/// With distinct table addresses, `find` returns the one matching slot.
proof fn lemma_find_is(t: PageTableTree, p: usize, j: int)
    requires
        t.distinct(),
        t.matches(j, p),
    ensures
        t.find(p) == Some(j),
{
    lemma_find_from(t, p, 0);
    match t.find(p) {
        Some(k) => {
            if k != j {
                assert(t.has(k) && t.has(j));
            }
        },
        None => {
            assert(!t.matches(j, p));
        },
    }
}

/// `find` only ever returns a slot that holds a table.
proof fn lemma_find_has(t: PageTableTree, p: usize)
    ensures
        t.find(p) matches Some(j) ==> t.has(j) && t.matches(j, p),
{
    lemma_find_from(t, p, 0);
}

impl PageTableTree {
    fn find_table(&self, ppn: PhysicalPageNumber) -> (r: Option<usize>)
        requires
            self.wf(),
        ensures
            match self.find(ppn.bits) {
                Some(j) => r == Some(j as usize),
                None => r is None,
            },
    {
        let mut i: usize = 0;
        while i < BASE_PAGE_TABLE_COUNT
            invariant
                0 <= i <= BASE_PAGE_TABLE_COUNT,
                self.page_tables@.len() == BASE_PAGE_TABLE_COUNT,
                self.find(ppn.bits) == self.find_from(ppn.bits, i as int),
            decreases BASE_PAGE_TABLE_COUNT - i,
        {
            if let Some(table) = &self.page_tables[i] {
                if table.ppn.as_addr() == ppn.as_addr() {
                    return Some(i);
                }
            }
            i = i + 1;
        }
        None
    }

    fn get_table(&self, idx: usize) -> (r: Option<&PageTable>)
        requires
            idx < BASE_PAGE_TABLE_COUNT,
            self.page_tables@.len() == BASE_PAGE_TABLE_COUNT,
        ensures
            r is Some == self.has(idx as int),
            r is Some ==> *r->Some_0 == self.page_tables@[idx as int]->Some_0,
    {
        self.page_tables[idx].as_ref()
    }

    fn get_leaf_table(&self, offsets: &[usize], vpn: VirtualPageNumber) -> (r: Result<
        usize,
        &'static str,
    >)
        requires
            self.wf(),
            self.is_init(),
            offsets@.len() == 3,
            offsets@[0] < 512 && offsets@[1] < 512,
        ensures
            r is Ok <==> self.leaf_table(offsets@[0] as int, offsets@[1] as int) is Some,
            r matches Ok(t) ==> self.leaf_table(offsets@[0] as int, offsets@[1] as int) == Some(
                t as int,
            ),
            r matches Ok(t) ==> t < BASE_PAGE_TABLE_COUNT && self.has(t as int),
            r matches Err(e) ==> e@ == "failed to find leaf"@,
    {
        let ghost o0 = offsets@[0] as int;
        let ghost o1 = offsets@[1] as int;
        let mut cur_table_idx: usize = 0;
        let mut i: usize = 0;
        while i < offsets.len() - 1
            invariant
                self.wf(),
                self.is_init(),
                offsets@.len() == 3,
                o0 == offsets@[0] && o1 == offsets@[1],
                0 <= o0 < 512 && 0 <= o1 < 512,
                0 <= i <= 2,
                cur_table_idx < BASE_PAGE_TABLE_COUNT,
                self.has(cur_table_idx as int),
                i == 0 ==> cur_table_idx == 0,
                i == 1 ==> entry_valid(self.ent(0, o0)) && self.find(entry_ppn(self.ent(0, o0)))
                    == Some(cur_table_idx as int) && self.role(cur_table_idx as int) == (1int, o0),
                i == 2 ==> self.leaf_table(o0, o1) == Some(cur_table_idx as int),
            decreases 2 - i,
        {
            let offset = offsets[i];
            let entry = self.get_table(cur_table_idx).unwrap().get_entry(offset);
            if entry.valid {
                proof {
                    lemma_find_has(*self, entry.ppn.bits);
                }
                cur_table_idx = self.find_table(entry.ppn).unwrap();
            } else {
                return Err("failed to find leaf");
            }
            i = i + 1;
        }
        Ok(cur_table_idx)
    }

    /// The physical address that `virtual_addr` maps to, if its leaf entry
    /// is valid.
    pub fn translate(&self, virtual_addr: usize) -> (r: Option<usize>)
        requires
            self.wf(),
            self.is_init(),
        ensures
            r == self.translate_spec(virtual_addr),
    {
        let vpn = VirtualPageNumber::floor(virtual_addr);
        let base = vpn.as_addr();
        assert(base == virtual_addr - virtual_addr % 4096) by (nonlinear_arith)
            requires
                base == ((virtual_addr / 4096) * 4096) as usize,
                vpn.bits == virtual_addr / 4096,
        ;
        let addr_offset = virtual_addr - base;
        let offsets = split_vpn(vpn.bits);
        match self.get_leaf_table(&offsets, vpn) {
            Ok(idx) => {
                let entry = self.get_table(idx).unwrap().get_entry(offsets[2]);
                if entry.valid {
                    let a = entry.ppn.as_addr();
                    proof {
                        lemma_page_addr_room(entry.ppn.bits, addr_offset);
                    }
                    Some(a + addr_offset)
                } else {
                    None
                }
            },
            Err(err) => {
                proof {
                    lemma_zero_entry_invalid();
                }
                None
            },
        }
    }
}

/// A clear entry is not valid.
proof fn lemma_zero_entry_invalid()
    ensures
        !entry_valid(0),
{
    assert(0u64 & 1 != 1) by (bit_vector);
}

/// A page's address leaves room for any offset inside the page.
proof fn lemma_page_addr_room(p: usize, off: usize)
    requires
        off < 4096,
    ensures
        page_addr(p) + off <= usize::MAX,
{
    let a = page_addr(p);
    assert(a + off == (a | off)) by (bit_vector)
        requires
            a == (p * 4096) as usize,
            off < 4096,
    ;
}


/// `a` and `b` hold tables in the same slots, in the same frames.
pub closed spec fn same_frames(a: PageTableTree, b: PageTableTree) -> bool {
    forall|i: int| #[trigger] a.has(i) == b.has(i) && (a.has(i) ==> a.tppn(i) == b.tppn(i))
}

/// Trees with the same frames: the second grows on no new frame.
proof fn lemma_same_frames_grows(a: PageTableTree, b: PageTableTree, allocator: PPNManagerImpl)
    requires
        same_frames(a, b),
    ensures
        grows_on_lowest(a, b, allocator, allocator),
{
    assert forall|i: int| #[trigger] b.has(i) && !a.has(i) implies !allocator.holds(b.tppn(i)) by {
        assert(a.has(i) == b.has(i));
    }
    assert forall|i: int, j: int|
        #![trigger b.has(i), b.has(j)]
        b.has(i) && !a.has(i) && 0 <= j < i implies b.has(j) by {
        assert(a.has(i) == b.has(i));
    }
    assert forall|i: int, f: usize|
        #![trigger b.tppn(i), allocator.holds(f)]
        b.has(i) && !a.has(i) && allocator.start() is Some && allocator.start().unwrap() <= f < b.tppn(i)
            implies allocator.holds(f) by {
        assert(a.has(i) == b.has(i));
    }
    assert forall|i: int| #[trigger] a.has(i) implies b.has(i) && b.tppn(i) == a.tppn(i) by {
        assert(a.has(i) == b.has(i));
    }
}

/// Trees with the same frames are held by the same allocators.
proof fn lemma_held_same(a: PageTableTree, b: PageTableTree, allocator: PPNManagerImpl)
    requires
        same_frames(a, b),
        a.held_by(allocator),
    ensures
        b.held_by(allocator),
{
    assert forall|i: int| #[trigger] b.has(i) implies allocator.holds(b.tppn(i)) by {
        assert(a.has(i) == b.has(i));
    }
}

/// A tree all of whose frames an allocator holds is held by it.
pub proof fn lemma_held_by_frames(t: PageTableTree, a: PPNManagerImpl)
    requires
        forall|p: usize| #[trigger] t.uses_frame(p) ==> a.holds(p),
    ensures
        t.held_by(a),
{
    assert forall|i: int| #[trigger] t.has(i) implies a.holds(t.tppn(i)) by {
        assert(t.uses_frame(t.tppn(i)));
    }
}

/// A tree held by an allocator is held by any allocator that extends it.
pub proof fn lemma_held_by_extends(t: PageTableTree, a: PPNManagerImpl, b: PPNManagerImpl)
    requires
        t.held_by(a),
        b.extends(a),
    ensures
        t.held_by(b),
{
    assert forall|i: int| #[trigger] t.has(i) implies b.holds(t.tppn(i)) by {
        assert(a.holds(t.tppn(i)));
    }
}

proof fn lemma_find_from_same(a: PageTableTree, b: PageTableTree, q: usize, i: int)
    requires
        same_frames(a, b),
    ensures
        a.find_from(q, i) == b.find_from(q, i),
    decreases BASE_PAGE_TABLE_COUNT - i,
{
    if 0 <= i < BASE_PAGE_TABLE_COUNT {
        assert(a.has(i) == b.has(i));
        lemma_find_from_same(a, b, q, i + 1);
    }
}

/// Trees with the same frames find the same slots.
proof fn lemma_find_same(a: PageTableTree, b: PageTableTree)
    requires
        same_frames(a, b),
    ensures
        forall|q: usize| #[trigger] a.find(q) == b.find(q),
{
    assert forall|q: usize| #[trigger] a.find(q) == b.find(q) by {
        lemma_find_from_same(a, b, q, 0);
    }
}

/// The directory entry that links a table keeps the table's address.
proof fn lemma_directory_entry(p: usize)
    ensures
        entry_valid(encode_entry(directory_entry(PhysicalPageNumber { bits: p }))),
        page_addr(entry_ppn(encode_entry(directory_entry(PhysicalPageNumber { bits: p }))))
            == page_addr(p),
{
    let b = encode_entry(directory_entry(PhysicalPageNumber { bits: p }));
    let q = p as u64;
    assert(b == ((q << 10u64) | (0u64 << 4u64) | (0u64 << 3u64) | (0u64 << 2u64) | (0u64 << 1u64)
        | 1u64));
    assert((b & 1 == 1) && (((b >> 10u64) as usize) * 4096) as usize == (p * 4096) as usize)
        by (bit_vector)
        requires
            q == p as u64,
            b == ((q << 10u64) | (0u64 << 4u64) | (0u64 << 3u64) | (0u64 << 2u64) | (0u64 << 1u64)
                | 1u64),
    ;
}

/// Two page numbers less than 256 apart have different addresses.
proof fn lemma_page_addr_distinct(a: usize, b: usize)
    requires
        a != b,
        a < b + 256,
        b < a + 256,
    ensures
        page_addr(a) != page_addr(b),
{
    assert((a * 4096) as usize != (b * 4096) as usize) by (bit_vector)
        requires
            a != b,
            a < b + 256,
            b < a + 256,
    ;
}

/// `o0 * 512 + o1` determines `o0` and `o1`.
proof fn lemma_prefix_unique(o0: int, o1: int, p0: int, p1: int)
    requires
        0 <= o1 < 512,
        0 <= p1 < 512,
        o0 * 512 + o1 == p0 * 512 + p1,
    ensures
        o0 == p0,
        o1 == p1,
{
    assert(o0 == p0) by (nonlinear_arith)
        requires
            0 <= o1 < 512,
            0 <= p1 < 512,
            o0 * 512 + o1 == p0 * 512 + p1,
    ;
}

/// The tables on the walk of `o0`, `o1` and their roles.
proof fn lemma_walk_roles(a: PageTableTree, o0: int, o1: int)
    requires
        a.wf(),
        a.is_init(),
        0 <= o0 < 512,
        0 <= o1 < 512,
    ensures
        entry_valid(a.ent(0, o0)) ==> {
            let t1 = a.find(entry_ppn(a.ent(0, o0)))->Some_0;
            &&& a.find(entry_ppn(a.ent(0, o0))) is Some
            &&& a.has(t1)
            &&& t1 != 0
            &&& a.role(t1) == (1int, o0)
        },
        a.leaf_table(o0, o1) matches Some(t) ==> a.has(t) && t != 0 && a.role(t) == (
            2int,
            o0 * 512 + o1,
        ),
{
    if entry_valid(a.ent(0, o0)) {
        lemma_find_has(a, entry_ppn(a.ent(0, o0)));
        let t1 = a.find(entry_ppn(a.ent(0, o0)))->Some_0;
        assert(a.has(t1));
        if entry_valid(a.ent(t1, o1)) {
            assert(a.role(t1).0 == 1);
            lemma_find_has(a, entry_ppn(a.ent(t1, o1)));
        }
    }
}

/// Writing leaf entry `o2` of the leaf table of `o0`, `o1` changes the
/// translation of that one page and keeps the tree well formed.
proof fn lemma_set_leaf(
    a: PageTableTree,
    b: PageTableTree,
    t: int,
    o0: int,
    o1: int,
    o2: int,
    v: u64,
)
    requires
        a.wf(),
        a.is_init(),
        0 <= o0 < 512,
        0 <= o1 < 512,
        0 <= o2 < 512,
        a.leaf_table(o0, o1) == Some(t),
        same_frames(a, b),
        b.roles@ == a.roles@,
        b.page_tables@.len() == BASE_PAGE_TABLE_COUNT,
        forall|i: int| #[trigger] b.has(i) ==> b.page_tables@[i]->Some_0.entries().len()
            == ENTRIES_PER_TABLE,
        forall|i: int, x: int|
            #![trigger b.ent(i, x)]
            b.has(i) && 0 <= x < ENTRIES_PER_TABLE && (i != t || x != o2) ==> b.ent(i, x) == a.ent(
                i,
                x,
            ),
        b.ent(t, o2) == v,
    ensures
        b.wf(),
        b.is_init(),
        forall|p0: int, p1: int, p2: int|
            0 <= p0 < 512 && 0 <= p1 < 512 && 0 <= p2 < 512 ==> #[trigger] b.entry_at(p0, p1, p2)
                == if p0 == o0 && p1 == o1 && p2 == o2 {
                v
            } else {
                a.entry_at(p0, p1, p2)
            },
        forall|p0: int| 0 <= p0 < 512 ==> #[trigger] b.root_linked(p0) == a.root_linked(p0),
        forall|p0: int, p1: int|
            0 <= p0 < 512 && 0 <= p1 < 512 ==> #[trigger] b.mid_linked(p0, p1) == a.mid_linked(p0, p1),
{
    lemma_find_same(a, b);
    lemma_walk_roles(a, o0, o1);
    assert forall|p0: int| 0 <= p0 < 512 implies #[trigger] b.root_linked(p0) == a.root_linked(p0) by {
        assert(b.ent(0, p0) == a.ent(0, p0));
    }
    assert forall|p0: int, p1: int|
        0 <= p0 < 512 && 0 <= p1 < 512 implies #[trigger] b.mid_linked(p0, p1) == a.mid_linked(p0, p1) by {
        lemma_walk_roles(a, p0, p1);
        assert(b.ent(0, p0) == a.ent(0, p0));
        if entry_valid(a.ent(0, p0)) {
            let t1 = a.find(entry_ppn(a.ent(0, p0)))->Some_0;
            assert(b.ent(t1, p1) == a.ent(t1, p1));
        }
    }
    assert(b.has(0));
    assert forall|p0: int, p1: int, p2: int|
        0 <= p0 < 512 && 0 <= p1 < 512 && 0 <= p2 < 512 implies #[trigger] b.entry_at(p0, p1, p2)
        == if p0 == o0 && p1 == o1 && p2 == o2 {
        v
    } else {
        a.entry_at(p0, p1, p2)
    } by {
        lemma_walk_roles(a, p0, p1);
        assert(b.ent(0, p0) == a.ent(0, p0));
        if entry_valid(a.ent(0, p0)) {
            let t1 = a.find(entry_ppn(a.ent(0, p0)))->Some_0;
            assert(b.ent(t1, p1) == a.ent(t1, p1));
        }
        assert(b.leaf_table(p0, p1) == a.leaf_table(p0, p1));
        if let Some(t2) = a.leaf_table(p0, p1) {
            if t2 == t {
                lemma_prefix_unique(o0, o1, p0, p1);
            }
            if p0 == o0 && p1 == o1 {
                assert(t2 == t);
            }
        }
    }
    assert forall|o: int| 0 <= o < 512 && #[trigger] entry_valid(b.ent(0, o)) implies {
        &&& b.find(entry_ppn(b.ent(0, o))) is Some
        &&& b.role(b.find(entry_ppn(b.ent(0, o)))->Some_0) == (1int, o)
    } by {
        assert(b.ent(0, o) == a.ent(0, o));
    }
    assert forall|i: int, x: int|
        b.has(i) && b.role(i).0 == 1 && 0 <= x < 512 && entry_valid(#[trigger] b.ent(i, x)) implies {
        &&& b.find(entry_ppn(b.ent(i, x))) is Some
        &&& b.role(b.find(entry_ppn(b.ent(i, x)))->Some_0) == (2int, b.role(i).1 * 512 + x)
    } by {
        assert(a.has(i) == b.has(i));
        assert(b.ent(i, x) == a.ent(i, x));
    }
    assert forall|i: int, j: int|
        b.has(i) && b.has(j) && i != j implies page_addr(b.tppn(i)) != page_addr(b.tppn(j)) by {
        assert(a.has(i) == b.has(i));
        assert(a.has(j) == b.has(j));
    }
    assert forall|i: int| #[trigger] b.has(i) implies {
        let (l, p) = b.role(i);
        ||| (l == 0 && i == 0 && p == 0)
        ||| (l == 1 && i != 0 && 0 <= p < 512)
        ||| (l == 2 && i != 0 && 0 <= p < 512 * 512)
    } by {
        assert(a.has(i) == b.has(i));
    }
    assert(b.distinct());
}

/// Filling empty slot `k` with a fresh, clear table changes no translation
/// and keeps the tree well formed.
proof fn lemma_add_table(a: PageTableTree, b: PageTableTree, k: int, p_new: usize, role: (int, int))
    requires
        a.wf(),
        a.is_init(),
        0 < k < BASE_PAGE_TABLE_COUNT,
        !a.has(k),
        b.has(k),
        b.page_tables@.len() == BASE_PAGE_TABLE_COUNT,
        forall|i: int| 0 <= i < BASE_PAGE_TABLE_COUNT && i != k ==> #[trigger] b.page_tables@[i]
            == a.page_tables@[i],
        b.roles@ == a.roles@.update(k, role),
        b.tppn(k) == p_new,
        b.page_tables@[k]->Some_0.entries().len() == ENTRIES_PER_TABLE,
        forall|x: int| 0 <= x < ENTRIES_PER_TABLE ==> #[trigger] b.ent(k, x) == 0,
        forall|i: int| #[trigger] a.has(i) ==> page_addr(a.tppn(i)) != page_addr(p_new),
        (role.0 == 1 && 0 <= role.1 < 512) || (role.0 == 2 && 0 <= role.1 < 512 * 512),
    ensures
        b.wf(),
        b.is_init(),
        forall|q: usize| #[trigger] a.find(q) is Some ==> b.find(q) == a.find(q),
        b.find(p_new) == Some(k),
        forall|p0: int, p1: int|
            0 <= p0 < 512 && 0 <= p1 < 512 ==> #[trigger] b.leaf_table(p0, p1) == a.leaf_table(
                p0,
                p1,
            ),
        forall|p0: int, p1: int, p2: int|
            0 <= p0 < 512 && 0 <= p1 < 512 && 0 <= p2 < 512 ==> #[trigger] b.entry_at(p0, p1, p2)
                == a.entry_at(p0, p1, p2),
        forall|i: int, x: int|
            #![trigger b.ent(i, x)]
            b.has(i) && b.is_directory(i) && 0 <= x < 512 && entry_valid(b.ent(i, x)) ==> b.find(
                entry_ppn(b.ent(i, x)),
            ) != Some(k),
        forall|p0: int| 0 <= p0 < 512 ==> #[trigger] b.root_linked(p0) == a.root_linked(p0),
{
    assert forall|i: int| #[trigger] b.has(i) && i != k implies a.has(i) && b.tppn(i) == a.tppn(i)
        && b.role(i) == a.role(i) by {
        assert(b.page_tables@[i] == a.page_tables@[i]);
    }
    assert forall|i: int| #[trigger] a.has(i) implies b.has(i) && i != k by {
        assert(b.page_tables@[i] == a.page_tables@[i]);
    }
    assert(b.distinct());
    assert forall|q: usize| #[trigger] a.find(q) is Some implies b.find(q) == a.find(q) by {
        lemma_find_has(a, q);
        lemma_find_is(b, q, a.find(q)->Some_0);
    }
    lemma_find_is(b, p_new, k);
    assert forall|p0: int| 0 <= p0 < 512 implies #[trigger] b.root_linked(p0) == a.root_linked(p0) by {
        assert(b.ent(0, p0) == a.ent(0, p0));
    }
    assert forall|p0: int, p1: int|
        0 <= p0 < 512 && 0 <= p1 < 512 implies #[trigger] b.leaf_table(p0, p1) == a.leaf_table(
        p0,
        p1,
    ) by {
        lemma_walk_roles(a, p0, p1);
        assert(b.ent(0, p0) == a.ent(0, p0));
        if entry_valid(a.ent(0, p0)) {
            let t1 = a.find(entry_ppn(a.ent(0, p0)))->Some_0;
            assert(b.ent(t1, p1) == a.ent(t1, p1));
            if entry_valid(a.ent(t1, p1)) {
                assert(a.role(t1).0 == 1);
            }
        }
    }
    assert forall|p0: int, p1: int, p2: int|
        0 <= p0 < 512 && 0 <= p1 < 512 && 0 <= p2 < 512 implies #[trigger] b.entry_at(p0, p1, p2)
        == a.entry_at(p0, p1, p2) by {
        lemma_walk_roles(a, p0, p1);
        assert(b.leaf_table(p0, p1) == a.leaf_table(p0, p1));
    }
    assert forall|o: int| 0 <= o < 512 && #[trigger] entry_valid(b.ent(0, o)) implies {
        &&& b.find(entry_ppn(b.ent(0, o))) is Some
        &&& b.role(b.find(entry_ppn(b.ent(0, o)))->Some_0) == (1int, o)
    } by {
        assert(b.ent(0, o) == a.ent(0, o));
        lemma_find_has(a, entry_ppn(a.ent(0, o)));
    }
    assert forall|i: int, x: int|
        b.has(i) && b.role(i).0 == 1 && 0 <= x < 512 && entry_valid(#[trigger] b.ent(i, x)) implies {
        &&& b.find(entry_ppn(b.ent(i, x))) is Some
        &&& b.role(b.find(entry_ppn(b.ent(i, x)))->Some_0) == (2int, b.role(i).1 * 512 + x)
    } by {
        if i == k {
            lemma_zero_entry_invalid();
        } else {
            assert(b.ent(i, x) == a.ent(i, x));
            lemma_find_has(a, entry_ppn(a.ent(i, x)));
        }
    }
    assert forall|i: int, x: int|
        b.has(i) && b.is_directory(i) && 0 <= x < 512 && entry_valid(
            #[trigger] b.ent(i, x),
        ) implies b.find(entry_ppn(b.ent(i, x))) != Some(k) by {
        if i == k {
            lemma_zero_entry_invalid();
        } else {
            assert(b.ent(i, x) == a.ent(i, x));
            lemma_find_has(a, entry_ppn(a.ent(i, x)));
        }
    }
}

/// Linking empty table `k` from the invalid entry `o` of directory `c`
/// changes no translation and keeps the tree well formed.
proof fn lemma_link(a: PageTableTree, b: PageTableTree, c: int, o: int, k: int)
    requires
        a.wf(),
        a.is_init(),
        a.has(c),
        a.is_directory(c),
        a.has(k),
        k != c,
        k != 0,
        0 <= o < 512,
        !entry_valid(a.ent(c, o)),
        c != 0 ==> 0 <= a.role(c).1 < 512 && a.root_linked(a.role(c).1) && a.find(
            entry_ppn(a.ent(0, a.role(c).1)),
        ) == Some(c),
        forall|x: int| 0 <= x < ENTRIES_PER_TABLE ==> #[trigger] a.ent(k, x) == 0,
        a.role(k) == (a.role(c).0 + 1, if c == 0 {
            o
        } else {
            a.role(c).1 * 512 + o
        }),
        forall|i: int, x: int|
            #![trigger a.ent(i, x)]
            a.has(i) && a.is_directory(i) && 0 <= x < 512 && entry_valid(a.ent(i, x)) ==> a.find(
                entry_ppn(a.ent(i, x)),
            ) != Some(k),
        same_frames(a, b),
        b.roles@ == a.roles@,
        b.page_tables@.len() == BASE_PAGE_TABLE_COUNT,
        forall|i: int| #[trigger] b.has(i) ==> b.page_tables@[i]->Some_0.entries().len()
            == ENTRIES_PER_TABLE,
        forall|i: int, x: int|
            #![trigger b.ent(i, x)]
            b.has(i) && 0 <= x < ENTRIES_PER_TABLE && (i != c || x != o) ==> b.ent(i, x) == a.ent(
                i,
                x,
            ),
        b.ent(c, o) == encode_entry(directory_entry(PhysicalPageNumber { bits: a.tppn(k) })),
    ensures
        b.wf(),
        b.is_init(),
        entry_valid(b.ent(c, o)),
        b.find(entry_ppn(b.ent(c, o))) == Some(k),
        forall|q: usize| #[trigger] b.find(q) == a.find(q),
        forall|p0: int, p1: int, p2: int|
            0 <= p0 < 512 && 0 <= p1 < 512 && 0 <= p2 < 512 ==> #[trigger] b.entry_at(p0, p1, p2)
                == a.entry_at(p0, p1, p2),
        forall|p0: int|
            0 <= p0 < 512 ==> #[trigger] b.root_linked(p0) == (a.root_linked(p0) || (c == 0 && p0 == o)),
        forall|p0: int, p1: int|
            0 <= p0 < 512 && 0 <= p1 < 512 ==> #[trigger] b.mid_linked(p0, p1) == (a.mid_linked(p0, p1)
                || (c != 0 && p0 == a.role(c).1 && p1 == o)),
{
    lemma_find_same(a, b);
    lemma_directory_entry(a.tppn(k));
    lemma_find_is(a, entry_ppn(b.ent(c, o)), k);
    lemma_zero_entry_invalid();
    assert(b.has(0));
    assert forall|p0: int, p1: int, p2: int|
        0 <= p0 < 512 && 0 <= p1 < 512 && 0 <= p2 < 512 implies #[trigger] b.entry_at(p0, p1, p2)
        == a.entry_at(p0, p1, p2) by {
        lemma_walk_roles(a, p0, p1);
        if c == 0 && p0 == o {
            assert(b.ent(k, p1) == 0);
        } else {
            assert(b.ent(0, p0) == a.ent(0, p0));
            if entry_valid(a.ent(0, p0)) {
                let t1 = a.find(entry_ppn(a.ent(0, p0)))->Some_0;
                if t1 == c && p1 == o {
                    assert(a.leaf_table(p0, p1) is None);
                    assert(b.leaf_table(p0, p1) == Some(k));
                    assert(b.ent(k, p2) == 0);
                } else {
                    assert(b.ent(t1, p1) == a.ent(t1, p1));
                    assert(b.leaf_table(p0, p1) == a.leaf_table(p0, p1));
                    if let Some(t2) = a.leaf_table(p0, p1) {
                        assert(a.role(t1).0 == 1);
                        assert(t2 != k);
                        assert(b.ent(t2, p2) == a.ent(t2, p2));
                    }
                }
            }
        }
    }
    assert forall|p0: int|
        0 <= p0 < 512 implies #[trigger] b.root_linked(p0) == (a.root_linked(p0) || (c == 0 && p0 == o)) by {
        if !(c == 0 && p0 == o) {
            assert(b.ent(0, p0) == a.ent(0, p0));
        }
    }
    assert forall|p0: int, p1: int|
        0 <= p0 < 512 && 0 <= p1 < 512 implies #[trigger] b.mid_linked(p0, p1) == (a.mid_linked(p0, p1)
        || (c != 0 && p0 == a.role(c).1 && p1 == o)) by {
        lemma_walk_roles(a, p0, p1);
        if c == 0 && p0 == o {
            assert(b.ent(k, p1) == 0);
            if c != 0 {
            }
        } else {
            assert(b.ent(0, p0) == a.ent(0, p0));
            if entry_valid(a.ent(0, p0)) {
                let t1 = a.find(entry_ppn(a.ent(0, p0)))->Some_0;
                if t1 == c && p1 == o {
                    assert(b.leaf_table(p0, p1) == Some(k));
                } else {
                    assert(b.ent(t1, p1) == a.ent(t1, p1));
                    if t1 == c {
                    }
                }
            } else {
                if c != 0 && p0 == a.role(c).1 {
                    assert(a.role(c).0 == 1);
                }
            }
        }
    }
    assert forall|x: int| 0 <= x < 512 && #[trigger] entry_valid(b.ent(0, x)) implies {
        &&& b.find(entry_ppn(b.ent(0, x))) is Some
        &&& b.role(b.find(entry_ppn(b.ent(0, x)))->Some_0) == (1int, x)
    } by {
        if !(c == 0 && x == o) {
            assert(b.ent(0, x) == a.ent(0, x));
        }
    }
    assert forall|i: int, x: int|
        b.has(i) && b.role(i).0 == 1 && 0 <= x < 512 && entry_valid(#[trigger] b.ent(i, x)) implies {
        &&& b.find(entry_ppn(b.ent(i, x))) is Some
        &&& b.role(b.find(entry_ppn(b.ent(i, x)))->Some_0) == (2int, b.role(i).1 * 512 + x)
    } by {
        assert(a.has(i) == b.has(i));
        if !(i == c && x == o) {
            assert(b.ent(i, x) == a.ent(i, x));
        }
    }
    assert forall|i: int, j: int|
        b.has(i) && b.has(j) && i != j implies page_addr(b.tppn(i)) != page_addr(b.tppn(j)) by {
        assert(a.has(i) == b.has(i));
        assert(a.has(j) == b.has(j));
    }
    assert forall|i: int| #[trigger] b.has(i) implies {
        let (l, p) = b.role(i);
        ||| (l == 0 && i == 0 && p == 0)
        ||| (l == 1 && i != 0 && 0 <= p < 512)
        ||| (l == 2 && i != 0 && 0 <= p < 512 * 512)
    } by {
        assert(a.has(i) == b.has(i));
    }
    assert(b.distinct());
}


impl PageTableTree {
    /// A tree with no tables; `init` puts the root in place.
    pub fn default() -> (r: Self)
        ensures
            r.wf(),
            !r.is_init(),
            r.free_slots() == BASE_PAGE_TABLE_COUNT,
            forall|a: PPNManagerImpl| r.held_by(a),
            forall|i: int| !#[trigger] r.has(i),
    {
        let mut page_tables: Vec<Option<PageTable>> = Vec::new();
        let mut i: usize = 0;
        while i < BASE_PAGE_TABLE_COUNT
            invariant
                0 <= i <= BASE_PAGE_TABLE_COUNT,
                page_tables@.len() == i,
                forall|j: int| 0 <= j < i ==> #[trigger] page_tables@[j] is None,
            decreases BASE_PAGE_TABLE_COUNT - i,
        {
            page_tables.push(None);
            i = i + 1;
        }
        let r = PageTableTree { page_tables, roles: Ghost(Seq::new(10, |i: int| (0int, 0int))) };
        proof {
            assert forall|j: int| 0 <= j < BASE_PAGE_TABLE_COUNT implies !r.used_slots()[j] by {}
            lemma_count_all_free(r.used_slots(), BASE_PAGE_TABLE_COUNT as int);
        }
        r
    }

    fn set_table_entry(&mut self, idx: usize, offset: usize, entry: PageTableEntry)
        requires
            idx < BASE_PAGE_TABLE_COUNT,
            old(self).wf(),
            old(self).has(idx as int),
            offset < ENTRIES_PER_TABLE,
        ensures
            final(self).page_tables@.len() == BASE_PAGE_TABLE_COUNT,
            final(self).roles@ == old(self).roles@,
            same_frames(*old(self), *final(self)),
            final(self).used_slots() == old(self).used_slots(),
            forall|i: int| #[trigger] final(self).has(i) ==> final(self).page_tables@[i]->Some_0.entries().len()
                == ENTRIES_PER_TABLE,
            forall|i: int, x: int|
                #![trigger final(self).ent(i, x)]
                final(self).has(i) && 0 <= x < ENTRIES_PER_TABLE && (i != idx || x != offset) ==> final(self).ent(i, x)
                    == old(self).ent(i, x),
            final(self).ent(idx as int, offset as int) == encode_entry(entry),
    {
        match &mut self.page_tables[idx] {
            Some(table) => table.set_entry(offset, entry),
            None => {},
        }
        proof {
            assert forall|i: int| #[trigger] old(self).has(i) == self.has(i) && (old(self).has(i)
                ==> old(self).tppn(i) == self.tppn(i)) by {
                if i == idx {
                } else if 0 <= i < BASE_PAGE_TABLE_COUNT {
                    assert(self.page_tables@[i] == old(self).page_tables@[i]);
                }
            }
            assert forall|i: int| #[trigger] self.has(i) implies self.page_tables@[i]->Some_0.entries().len()
                == ENTRIES_PER_TABLE by {
                assert(old(self).has(i) == self.has(i));
            }
            assert forall|i: int, x: int|
                #![trigger self.ent(i, x)]
                self.has(i) && 0 <= x < ENTRIES_PER_TABLE && (i != idx || x != offset) implies self.ent(i, x)
                    == old(self).ent(i, x) by {
                if i != idx {
                    assert(self.page_tables@[i] == old(self).page_tables@[i]);
                }
            }
            assert(self.used_slots() =~= old(self).used_slots());
        }
    }

    fn create_table(&mut self, allocator: &mut PPNManagerImpl, Ghost(role): Ghost<(int, int)>) -> (r:
        Result<usize, &'static str>)
        requires
            old(self).wf(),
            old(self).is_init(),
            old(self).held_by(*old(allocator)),
            old(allocator).wf(),
            (role.0 == 1 && 0 <= role.1 < 512) || (role.0 == 2 && 0 <= role.1 < 512 * 512),
        ensures
            final(allocator).wf(),
            final(allocator).extends(*old(allocator)),
            r matches Ok(k) ==> {
                &&& 0 < k < BASE_PAGE_TABLE_COUNT
                &&& !old(self).has(k as int)
                &&& forall|j: int| 0 <= j < k ==> #[trigger] old(self).has(j)
                &&& lowest_free(*old(allocator), final(self).tppn(k as int))
                &&& grows_on_lowest(*old(self), *final(self), *old(allocator), *final(allocator))
                &&& final(self).has(k as int)
                &&& final(self).wf()
                &&& final(self).is_init()
                &&& final(self).held_by(*final(allocator))
                &&& final(self).role(k as int) == role
                &&& forall|x: int| 0 <= x < ENTRIES_PER_TABLE ==> #[trigger] final(self).ent(k as int, x) == 0
                &&& forall|i: int| #[trigger] old(self).has(i) ==> final(self).has(i) && final(self).tppn(i) == old(self).tppn(i)
                    && final(self).role(i) == old(self).role(i)
                &&& forall|i: int, x: int|
                    #![trigger final(self).ent(i, x)]
                    old(self).has(i) ==> final(self).ent(i, x) == old(self).ent(i, x)
                &&& forall|q: usize| #[trigger] old(self).find(q) is Some ==> final(self).find(q) == old(self).find(q)
                &&& forall|p0: int, p1: int, p2: int|
                    0 <= p0 < 512 && 0 <= p1 < 512 && 0 <= p2 < 512 ==> #[trigger] final(self).entry_at(p0, p1, p2)
                        == old(self).entry_at(p0, p1, p2)
                &&& forall|i: int, x: int|
                    #![trigger final(self).ent(i, x)]
                    final(self).has(i) && final(self).is_directory(i) && 0 <= x < 512 && entry_valid(final(self).ent(i, x)) ==> final(self).find(
                        entry_ppn(final(self).ent(i, x)),
                    ) != Some(k as int)
                &&& final(self).free_slots() + 1 == old(self).free_slots()
                &&& final(allocator).free_count() + 1 == old(allocator).free_count()
                &&& forall|p0: int| 0 <= p0 < 512 ==> #[trigger] final(self).root_linked(p0) == old(self).root_linked(p0)
                &&& forall|p0: int, p1: int|
                    0 <= p0 < 512 && 0 <= p1 < 512 ==> #[trigger] final(self).mid_linked(p0, p1)
                        == old(self).mid_linked(p0, p1)
            },
            r matches Err(e) ==> {
                &&& *final(self) == *old(self)
                &&& *final(allocator) == *old(allocator)
                &&& (old(self).free_slots() == 0 && e@ == "no area to save page_table"@) || (
                old(self).free_slots() > 0 && old(allocator).free_count() == 0 && e@
                    == "failed to alloc"@)
            },
    {
        let mut i: usize = 0;
        while i < BASE_PAGE_TABLE_COUNT
            invariant
                0 <= i <= BASE_PAGE_TABLE_COUNT,
                *self == *old(self),
                *allocator == *old(allocator),
                self.wf(),
                self.is_init(),
                allocator.wf(),
                self.held_by(*allocator),
                (role.0 == 1 && 0 <= role.1 < 512) || (role.0 == 2 && 0 <= role.1 < 512 * 512),
                forall|j: int| 0 <= j < i ==> #[trigger] self.has(j),
            decreases BASE_PAGE_TABLE_COUNT - i,
        {
            if self.page_tables[i].is_none() {
                match allocator.alloc_page() {
                    Ok(g) => {
                        let ghost a = *self;
                        let ghost old_alloc = *old(allocator);
                        let ghost slot = (g.ppn.bits - old_alloc.start().unwrap()) as int;
                        let ghost p_new = g.ppn.bits;
                        let table = PageTable::from(g);
                        self.page_tables[i] = Some(table);
                        proof {
                            self.roles = Ghost(self.roles@.update(i as int, role));
                            assert forall|j: int| #[trigger] a.has(j) implies page_addr(a.tppn(j))
                                != page_addr(p_new) by {
                                assert(old_alloc.holds(a.tppn(j)));
                                assert(a.tppn(j) != p_new);
                                lemma_page_addr_distinct(a.tppn(j), p_new);
                            }
                            assert forall|j: int|
                                0 <= j < BASE_PAGE_TABLE_COUNT && j != i implies #[trigger] self.page_tables@[j]
                                == a.page_tables@[j] by {}
                            lemma_add_table(a, *self, i as int, p_new, role);
                            assert forall|j: int| #[trigger] self.has(j) implies allocator.holds(self.tppn(j)) by {
                                if j != i {
                                    assert(self.page_tables@[j] == a.page_tables@[j]);
                                    assert(a.has(j));
                                }
                            }
                            assert forall|j: int| #[trigger] a.has(j) implies self.has(j) && self.tppn(j) == a.tppn(j)
                                && self.role(j) == a.role(j) by {
                                assert(self.page_tables@[j] == a.page_tables@[j]);
                            }
                            assert forall|j: int, x: int|
                                #![trigger self.ent(j, x)]
                                a.has(j) implies self.ent(j, x) == a.ent(j, x) by {
                                assert(self.page_tables@[j] == a.page_tables@[j]);
                            }
                            assert(self.used_slots() =~= a.used_slots().update(i as int, true));
                            lemma_count_free_occupy(a.used_slots(), i as int, BASE_PAGE_TABLE_COUNT as int);
                            assert forall|j: int| #[trigger] self.has(j) && !a.has(j) implies !old_alloc.holds(
                                self.tppn(j),
                            ) by {
                                if j != i {
                                    assert(self.page_tables@[j] == a.page_tables@[j]);
                                }
                            }
                            assert forall|j: int, m: int|
                                #![trigger self.has(j), self.has(m)]
                                self.has(j) && !a.has(j) && 0 <= m < j implies self.has(m) by {
                                if j != i {
                                    assert(self.page_tables@[j] == a.page_tables@[j]);
                                }
                                assert(a.has(m));
                            }
                            assert forall|j: int, f: usize|
                                #![trigger self.tppn(j), allocator.holds(f)]
                                self.has(j) && !a.has(j) && old_alloc.start() is Some && old_alloc.start().unwrap()
                                    <= f < self.tppn(j) implies allocator.holds(f) by {
                                if j != i {
                                    assert(self.page_tables@[j] == a.page_tables@[j]);
                                }
                                assert(old_alloc.occupied()[f - old_alloc.start().unwrap()]);
                                assert(old_alloc.holds(f));
                            }
                        }
                        return Ok(i);
                    },
                    Err(e) => {
                        proof {
                            lemma_count_free_zero(self.used_slots(), BASE_PAGE_TABLE_COUNT as int);
                            assert(!self.used_slots()[i as int]);
                        }
                        return Err(e);
                    },
                }
            }
            i = i + 1;
        }
        proof {
            assert forall|j: int| 0 <= j < BASE_PAGE_TABLE_COUNT implies #[trigger] self.used_slots()[j] by {
                assert(self.has(j));
            }
            lemma_count_free_zero(self.used_slots(), BASE_PAGE_TABLE_COUNT as int);
        }
        Err("no area to save page_table")
    }
}


/// Where a virtual address in a page mapped by `entry` goes: the entry's
/// page number as the hardware keeps it (its low 54 bits) plus the offset in
/// the page; nowhere when the entry is not valid.
pub open spec fn mapped_addr(entry: PageTableEntry, va: usize) -> Option<usize> {
    if entry.valid {
        Some(
            (page_addr(((entry.ppn.bits as u64) % 0x40_0000_0000_0000) as usize) + va % 4096) as usize,
        )
    } else {
        None
    }
}

/// What a tree holds, as far as mapping goes: the leaf entry of each page,
/// which root entries link a middle table, which walks reach a leaf table,
/// the number of empty table slots and the number of free frames.
pub ghost struct TreeAbs {
    pub entry: spec_fn(int, int, int) -> u64,
    pub root: spec_fn(int) -> bool,
    pub mid: spec_fn(int, int) -> bool,
    pub slots: int,
    pub frames: int,
}

/// Number of tables that mapping a page with offsets `o0`, `o1` creates.
pub open spec fn missing_of(a: TreeAbs, o0: int, o1: int) -> int {
    if !(a.root)(o0) {
        2
    } else if !(a.mid)(o0, o1) {
        1
    } else {
        0
    }
}

/// Whether mapping page `vpn` succeeds: the missing tables fit in the empty
/// slots and the free frames.
pub open spec fn map_ok(a: TreeAbs, vpn: usize) -> bool {
    let o = vpn_offsets(vpn);
    let k = missing_of(a, o[0] as int, o[1] as int);
    k <= a.slots && k <= a.frames
}

/// The tree after mapping page `vpn` with entry bits `bits`. On success the
/// missing tables are created and linked and the leaf entry is written. On
/// failure the tables that fit (at most one, when two are missing) are
/// created and linked, and no translation changes.
pub open spec fn map_abs(a: TreeAbs, vpn: usize, bits: u64) -> TreeAbs {
    let o = vpn_offsets(vpn);
    let o0 = o[0] as int;
    let o1 = o[1] as int;
    let o2 = o[2] as int;
    let k = missing_of(a, o0, o1);
    if map_ok(a, vpn) {
        TreeAbs {
            entry: |p0: int, p1: int, p2: int|
                if p0 == o0 && p1 == o1 && p2 == o2 {
                    bits
                } else {
                    (a.entry)(p0, p1, p2)
                },
            root: |p0: int| p0 == o0 || (a.root)(p0),
            mid: |p0: int, p1: int| (p0 == o0 && p1 == o1) || (a.mid)(p0, p1),
            slots: a.slots - k,
            frames: a.frames - k,
        }
    } else {
        let c = if a.slots <= a.frames {
            a.slots
        } else {
            a.frames
        };
        TreeAbs {
            entry: a.entry,
            root: |p0: int| (p0 == o0 && c >= 1) || (a.root)(p0),
            mid: a.mid,
            slots: a.slots - c,
            frames: a.frames - c,
        }
    }
}

/// Mapping a page again overrides the earlier map: mapping page `vpn` with
/// entry bits `b1` and then with `b2` leaves the tree as mapping it with
/// `b2` alone would, whether either map succeeds or not. Unmapping writes
/// the zero entry, so unmapping a page right after mapping it is the same
/// as unmapping it at once. (`a` is any description of a tree: no negative
/// counts, and a middle table is only reached through a linked root entry.)
pub proof fn lemma_map_overrides(a: TreeAbs, vpn: usize, b1: u64, b2: u64)
    requires
        a.slots >= 0,
        a.frames >= 0,
        forall|p0: int, p1: int| 0 <= p0 < 512 && 0 <= p1 < 512 && #[trigger] (a.mid)(p0, p1) ==> (a.root)(p0),
    ensures
        map_abs(map_abs(a, vpn, b1), vpn, b2) == map_abs(a, vpn, b2),
{
    lemma_offsets_bounds(vpn);
    let o = vpn_offsets(vpn);
    let o0 = o[0] as int;
    let o1 = o[1] as int;
    let b = map_abs(a, vpn, b1);
    let lhs = map_abs(b, vpn, b2);
    let rhs = map_abs(a, vpn, b2);
    if map_ok(a, vpn) {
        assert(missing_of(b, o0, o1) == 0);
        assert(lhs.entry =~= rhs.entry);
        assert(lhs.root =~= rhs.root);
        assert(lhs.mid =~= rhs.mid);
    } else {
        let c = if a.slots <= a.frames {
            a.slots
        } else {
            a.frames
        };
        if c >= 1 {
            assert(!(a.root)(o0));
            assert(!(a.mid)(o0, o1));
            assert(!map_ok(b, vpn));
            assert(lhs.root =~= rhs.root);
        } else {
            assert(b.root =~= a.root);
            assert(b == a);
        }
    }
}

/// The description of a tree meets what `lemma_map_overrides` asks: its
/// counts are not negative, and a walk reaches a leaf table only through a
/// linked root entry.
pub proof fn lemma_abs_valid(t: PageTableTree, allocator: PPNManagerImpl, a: TreeAbs)
    requires
        t.abs_matches(allocator, a),
    ensures
        a.slots >= 0,
        a.frames >= 0,
        forall|p0: int, p1: int| 0 <= p0 < 512 && 0 <= p1 < 512 && #[trigger] (a.mid)(p0, p1) ==> (a.root)(p0),
{
    assert forall|p0: int, p1: int| 0 <= p0 < 512 && 0 <= p1 < 512 && #[trigger] (a.mid)(p0, p1) implies (a.root)(p0) by {
        assert(t.mid_linked(p0, p1));
        assert(t.root_linked(p0));
    }
}

/// The address that `va` translates to in a tree that `a` describes.
pub open spec fn abs_translate(a: TreeAbs, va: usize) -> Option<usize> {
    let o = vpn_offsets(va / 4096);
    let b = (a.entry)(o[0] as int, o[1] as int, o[2] as int);
    if entry_valid(b) {
        Some((page_addr(entry_ppn(b)) + va % 4096) as usize)
    } else {
        None
    }
}

/// A tree translates as its description does.
pub proof fn lemma_abs_translate(t: PageTableTree, allocator: PPNManagerImpl, a: TreeAbs, va: usize)
    requires
        t.abs_matches(allocator, a),
    ensures
        t.translate_spec(va) == abs_translate(a, va),
{
    lemma_offsets_bounds(va / 4096);
}

/// An address translates as the start of its page does, plus its offset
/// in the page; a translated address keeps the offset.
pub proof fn lemma_translate_offset(t: PageTableTree, va: usize)
    ensures
        t.translate_spec(va) == match t.translate_spec((va - va % 4096) as usize) {
            Some(p) => Some((p + va % 4096) as usize),
            None => None,
        },
        t.translate_spec(va) matches Some(p) ==> p % 4096 == va % 4096,
{
    let off = va % 4096;
    let base = (va - off) as usize;
    assert(base / 4096 == va / 4096 && base % 4096 == 0) by {
        vstd::arithmetic::div_mod::lemma_fundamental_div_mod(va as int, 4096);
    }
    let b = t.entry_of(va / 4096);
    if entry_valid(b) {
        let pa = page_addr(entry_ppn(b));
        crate::addr::lemma_page_addr_aligned(entry_ppn(b));
        assert(pa + 4095 <= usize::MAX && (pa + off) % 4096 == off) by {
            assert(usize::MAX % 4096 == 4095) by {
                assert(usize::MAX == 0xffff_ffff || usize::MAX == 0xffff_ffff_ffff_ffff);
            }
            vstd::arithmetic::div_mod::lemma_fundamental_div_mod(pa as int, 4096);
            vstd::arithmetic::div_mod::lemma_fundamental_div_mod(usize::MAX as int, 4096);
        }
    }
}

/// Two page numbers below 2^27 with the same table offsets are the same.
pub proof fn lemma_offsets_injective(v1: usize, v2: usize)
    requires
        v1 < 0x800_0000,
        v2 < 0x800_0000,
        vpn_offsets(v1) == vpn_offsets(v2),
    ensures
        v1 == v2,
{
    assert(vpn_offsets(v1)[0] == vpn_offsets(v2)[0]);
    assert(vpn_offsets(v1)[1] == vpn_offsets(v2)[1]);
    assert(vpn_offsets(v1)[2] == vpn_offsets(v2)[2]);
    assert((v1 >> 18usize) & 511 == (v2 >> 18usize) & 511 && (v1 >> 9usize) & 511 == (v2 >> 9usize) & 511
        && v1 & 511 == v2 & 511 && v1 < 0x800_0000 && v2 < 0x800_0000 ==> v1 == v2) by (bit_vector);
}

/// When every map of `maps` succeeds, the entry left at offsets `o` is the
/// one of the last map of a page with those offsets: if every map there
/// writes a valid entry for frame `ppn`, and one does, the entry ends up
/// valid for `ppn`.
pub proof fn lemma_last_map_wins(a: TreeAbs, maps: Seq<(usize, u64)>, o: Seq<usize>, ppn: usize)
    requires
        maps_ok(a, maps),
        exists|i: int| 0 <= i < maps.len() && vpn_offsets(#[trigger] maps[i].0) == o,
        forall|i: int|
            0 <= i < maps.len() && vpn_offsets(#[trigger] maps[i].0) == o ==> entry_valid(maps[i].1) && entry_ppn(
                maps[i].1,
            ) == ppn,
    ensures
        ({
            let b = (apply_maps(a, maps).entry)(o[0] as int, o[1] as int, o[2] as int);
            entry_valid(b) && entry_ppn(b) == ppn
        }),
    decreases maps.len(),
{
    let n = maps.len() as int;
    let last = maps[n - 1];
    let prefix = maps.drop_last();
    let lo = vpn_offsets(last.0);
    lemma_offsets_bounds(last.0);
    if lo != o {
        let i = choose|i: int| 0 <= i < maps.len() && vpn_offsets(#[trigger] maps[i].0) == o;
        assert(i != n - 1);
        assert(prefix[i] == maps[i]);
        assert forall|j: int|
            0 <= j < prefix.len() && vpn_offsets(#[trigger] prefix[j].0) == o implies entry_valid(prefix[j].1)
                && entry_ppn(prefix[j].1) == ppn by {
            assert(prefix[j] == maps[j]);
        }
        lemma_last_map_wins(a, prefix, o, ppn);
        if o.len() == 3 {
            assert(!(o[0] == lo[0] && o[1] == lo[1] && o[2] == lo[2])) by {
                if o[0] == lo[0] && o[1] == lo[1] && o[2] == lo[2] {
                    assert(o =~= lo);
                }
            }
        }
    }
}

/// When every map of `maps` succeeds, the entry left at offsets `o` is the
/// one of the last map of a page with those offsets: if every map there from
/// index `lo` on writes a valid entry for frame `ppn`, and one does, the
/// entry ends up valid for `ppn`.
pub proof fn lemma_last_maps_from(a: TreeAbs, maps: Seq<(usize, u64)>, o: Seq<usize>, ppn: usize, lo: int)
    requires
        maps_ok(a, maps),
        0 <= lo,
        exists|i: int| lo <= i < maps.len() && vpn_offsets(#[trigger] maps[i].0) == o,
        forall|i: int|
            lo <= i < maps.len() && vpn_offsets(#[trigger] maps[i].0) == o ==> entry_valid(maps[i].1) && entry_ppn(
                maps[i].1,
            ) == ppn,
    ensures
        ({
            let b = (apply_maps(a, maps).entry)(o[0] as int, o[1] as int, o[2] as int);
            entry_valid(b) && entry_ppn(b) == ppn
        }),
    decreases maps.len(),
{
    let n = maps.len() as int;
    let last = maps[n - 1];
    let prefix = maps.drop_last();
    let l = vpn_offsets(last.0);
    lemma_offsets_bounds(last.0);
    if !(n - 1 >= lo && l == o) {
        let i = choose|i: int| lo <= i < maps.len() && vpn_offsets(#[trigger] maps[i].0) == o;
        assert(i != n - 1);
        assert(prefix[i] == maps[i]);
        assert forall|j: int|
            lo <= j < prefix.len() && vpn_offsets(#[trigger] prefix[j].0) == o implies entry_valid(prefix[j].1)
                && entry_ppn(prefix[j].1) == ppn by {
            assert(prefix[j] == maps[j]);
        }
        lemma_last_maps_from(a, prefix, o, ppn, lo);
        if l != o && o.len() == 3 {
            assert(!(o[0] == l[0] && o[1] == l[1] && o[2] == l[2])) by {
                if o[0] == l[0] && o[1] == l[1] && o[2] == l[2] {
                    assert(o =~= l);
                }
            }
        } else if l == o {
            assert(entry_valid(last.1) && entry_ppn(last.1) == ppn) by {
                assert(maps[n - 1] == last);
            }
        }
    }
}

/// When every map of `maps` succeeds, and every map from index `lo` on of
/// a page with offsets `o` writes the bits `e`, one of them doing so, the
/// entry left at `o` is `e`.
pub proof fn lemma_last_maps_bits(a: TreeAbs, maps: Seq<(usize, u64)>, o: Seq<usize>, e: u64, lo: int)
    requires
        maps_ok(a, maps),
        0 <= lo,
        exists|i: int| lo <= i < maps.len() && vpn_offsets(#[trigger] maps[i].0) == o,
        forall|i: int| lo <= i < maps.len() && vpn_offsets(#[trigger] maps[i].0) == o ==> maps[i].1 == e,
    ensures
        (apply_maps(a, maps).entry)(o[0] as int, o[1] as int, o[2] as int) == e,
    decreases maps.len(),
{
    let n = maps.len() as int;
    let last = maps[n - 1];
    let prefix = maps.drop_last();
    let l = vpn_offsets(last.0);
    lemma_offsets_bounds(last.0);
    if !(n - 1 >= lo && l == o) {
        let i = choose|i: int| lo <= i < maps.len() && vpn_offsets(#[trigger] maps[i].0) == o;
        assert(i != n - 1);
        assert(prefix[i] == maps[i]);
        assert forall|j: int| lo <= j < prefix.len() && vpn_offsets(#[trigger] prefix[j].0) == o implies prefix[j].1
            == e by {
            assert(prefix[j] == maps[j]);
        }
        lemma_last_maps_bits(a, prefix, o, e, lo);
        if l != o && o.len() == 3 {
            assert(!(o[0] == l[0] && o[1] == l[1] && o[2] == l[2])) by {
                if o[0] == l[0] && o[1] == l[1] && o[2] == l[2] {
                    assert(o =~= l);
                }
            }
        }
    } else {
        assert(last.1 == e) by {
            assert(maps[n - 1] == last);
        }
    }
}

/// When every map of `maps` succeeds, the entry left at the offsets of map
/// `i` is the one map `i` wrote, provided no later map has those offsets.
pub proof fn lemma_last_write(a: TreeAbs, maps: Seq<(usize, u64)>, i: int)
    requires
        maps_ok(a, maps),
        0 <= i < maps.len(),
        forall|j: int| i < j < maps.len() ==> vpn_offsets(#[trigger] maps[j].0) != vpn_offsets(maps[i].0),
    ensures
        ({
            let o = vpn_offsets(maps[i].0);
            (apply_maps(a, maps).entry)(o[0] as int, o[1] as int, o[2] as int) == maps[i].1
        }),
    decreases maps.len(),
{
    let n = maps.len() as int;
    let o = vpn_offsets(maps[i].0);
    lemma_offsets_bounds(maps[i].0);
    if i < n - 1 {
        let prefix = maps.drop_last();
        assert(prefix[i] == maps[i]);
        assert forall|j: int| i < j < prefix.len() implies vpn_offsets(#[trigger] prefix[j].0) != vpn_offsets(
            prefix[i].0,
        ) by {
            assert(prefix[j] == maps[j]);
        }
        lemma_last_write(a, prefix, i);
        let lo = vpn_offsets(maps[n - 1].0);
        lemma_offsets_bounds(maps[n - 1].0);
        assert(lo != o);
        assert(!(o[0] == lo[0] && o[1] == lo[1] && o[2] == lo[2])) by {
            if o[0] == lo[0] && o[1] == lo[1] && o[2] == lo[2] {
                assert(o =~= lo);
            }
        }
    }
}

/// A tree with an empty root table.
pub open spec fn empty_abs(slots: int, frames: int) -> TreeAbs {
    TreeAbs {
        entry: |p0: int, p1: int, p2: int| 0u64,
        root: |p0: int| false,
        mid: |p0: int, p1: int| false,
        slots,
        frames,
    }
}

/// The tree after mapping each `(vpn, bits)` of `maps` in turn.
pub open spec fn apply_maps(a: TreeAbs, maps: Seq<(usize, u64)>) -> TreeAbs
    decreases maps.len(),
{
    if maps.len() == 0 {
        a
    } else {
        map_abs(apply_maps(a, maps.drop_last()), maps.last().0, maps.last().1)
    }
}

/// Mapping one more page after a sequence.
pub proof fn lemma_apply_maps_push(a: TreeAbs, maps: Seq<(usize, u64)>, m: (usize, u64))
    ensures
        apply_maps(a, maps.push(m)) == map_abs(apply_maps(a, maps), m.0, m.1),
{
    assert(maps.push(m).drop_last() =~= maps);
}

/// Mapping two sequences in turn is mapping their concatenation.
pub proof fn lemma_apply_maps_concat(a: TreeAbs, s1: Seq<(usize, u64)>, s2: Seq<(usize, u64)>)
    ensures
        apply_maps(a, s1 + s2) == apply_maps(apply_maps(a, s1), s2),
    decreases s2.len(),
{
    if s2.len() == 0 {
        assert(s1 + s2 =~= s1);
    } else {
        lemma_apply_maps_concat(a, s1, s2.drop_last());
        assert((s1 + s2).drop_last() =~= s1 + s2.drop_last());
        assert((s1 + s2).last() == s2.last());
    }
}

/// Every map of `maps` succeeds when they are made in turn.
pub open spec fn maps_ok(a: TreeAbs, maps: Seq<(usize, u64)>) -> bool
    decreases maps.len(),
{
    if maps.len() == 0 {
        true
    } else {
        maps_ok(a, maps.drop_last()) && map_ok(apply_maps(a, maps.drop_last()), maps.last().0)
    }
}

/// Making the maps of `maps` in turn, all succeed up to `j` and map `j`
/// fails.
pub open spec fn first_failure(a: TreeAbs, maps: Seq<(usize, u64)>, j: int) -> bool {
    &&& 0 <= j < maps.len()
    &&& maps_ok(a, maps.take(j))
    &&& !map_ok(apply_maps(a, maps.take(j)), maps[j].0)
}

/// The message a failed map returns.
pub open spec fn map_error(a: TreeAbs) -> Seq<char> {
    if a.slots <= a.frames {
        "no area to save page_table"@
    } else {
        "failed to alloc"@
    }
}

impl PageTableTree {
    /// `a` describes this tree, together with `allocator`.
    pub open spec fn abs_matches(&self, allocator: PPNManagerImpl, a: TreeAbs) -> bool {
        &&& forall|p0: int, p1: int, p2: int|
            0 <= p0 < 512 && 0 <= p1 < 512 && 0 <= p2 < 512 ==> #[trigger] self.entry_at(p0, p1, p2)
                == (a.entry)(p0, p1, p2)
        &&& forall|p0: int| 0 <= p0 < 512 ==> #[trigger] self.root_linked(p0) == (a.root)(p0)
        &&& forall|p0: int, p1: int|
            0 <= p0 < 512 && 0 <= p1 < 512 ==> #[trigger] self.mid_linked(p0, p1) == (a.mid)(p0, p1)
        &&& self.free_slots() == a.slots
        &&& allocator.free_count() == a.frames
    }
}

/// The number of missing tables, read off the links.
proof fn lemma_missing(t: PageTableTree, o0: int, o1: int)
    requires
        t.wf(),
        t.is_init(),
        0 <= o0 < 512,
        0 <= o1 < 512,
    ensures
        t.missing_tables(o0, o1) == if !t.root_linked(o0) {
            2int
        } else if !t.mid_linked(o0, o1) {
            1int
        } else {
            0int
        },
{
    lemma_walk_roles(t, o0, o1);
    if entry_valid(t.ent(0, o0)) {
        let t1 = t.find(entry_ppn(t.ent(0, o0)))->Some_0;
        if entry_valid(t.ent(t1, o1)) {
            assert(t.role(t1).0 == 1);
        }
    }
}

impl PageTableTree {
    /// Follows the directory entries for `offsets[0]` and `offsets[1]` from
    /// the root, creating each missing table (first empty slot, lowest free
    /// frame) and linking it; returns the slot of the leaf table reached.
    /// No leaf entry changes, so no translation does, whether it succeeds
    /// or not.
    pub fn get_or_create_leaf_table(
        &mut self,
        offsets: &[usize],
        vpn: VirtualPageNumber,
        allocator: &mut PPNManagerImpl,
    ) -> (r: Result<usize, &'static str>)
        requires
            old(self).wf(),
            old(self).is_init(),
            old(self).held_by(*old(allocator)),
            old(allocator).wf(),
            offsets@.len() == 3,
            offsets@[0] < 512 && offsets@[1] < 512,
        ensures
            final(self).wf(),
            final(self).is_init(),
            final(self).held_by(*final(allocator)),
            final(allocator).wf(),
            final(allocator).extends(*old(allocator)),
            forall|p0: int, p1: int, p2: int|
                0 <= p0 < 512 && 0 <= p1 < 512 && 0 <= p2 < 512 ==> #[trigger] final(self).entry_at(p0, p1, p2)
                    == old(self).entry_at(p0, p1, p2),
            grows_on_lowest(*old(self), *final(self), *old(allocator), *final(allocator)),
            forall|va: usize| #[trigger] final(self).translate_spec(va) == old(self).translate_spec(va),
            final(self).free_slots() <= old(self).free_slots(),
            old(self).free_slots() - final(self).free_slots() == old(allocator).free_count()
                - final(allocator).free_count(),
            ({
                let k = old(self).missing_tables(offsets@[0] as int, offsets@[1] as int);
                let s = old(self).free_slots();
                let a = old(allocator).free_count();
                &&& (r is Ok <==> k <= s && k <= a)
                &&& r matches Ok(t) ==> t < BASE_PAGE_TABLE_COUNT && final(self).has(t as int)
                    && final(self).leaf_table(offsets@[0] as int, offsets@[1] as int) == Some(t as int)
                    && s - final(self).free_slots() == k
                &&& r matches Err(e) ==> if s <= a {
                    e@ == "no area to save page_table"@
                } else {
                    e@ == "failed to alloc"@
                }
                &&& r is Ok ==> forall|p0: int|
                    0 <= p0 < 512 ==> #[trigger] final(self).root_linked(p0) == (p0 == offsets@[0]
                        || old(self).root_linked(p0))
                &&& r is Ok ==> forall|p0: int, p1: int|
                    0 <= p0 < 512 && 0 <= p1 < 512 ==> #[trigger] final(self).mid_linked(p0, p1) == ((
                    p0 == offsets@[0] && p1 == offsets@[1]) || old(self).mid_linked(p0, p1))
                &&& r is Err ==> forall|p0: int|
                    0 <= p0 < 512 ==> #[trigger] final(self).root_linked(p0) == ((p0 == offsets@[0]
                        && s - final(self).free_slots() >= 1) || old(self).root_linked(p0))
                &&& r is Err ==> forall|p0: int, p1: int|
                    0 <= p0 < 512 && 0 <= p1 < 512 ==> #[trigger] final(self).mid_linked(p0, p1)
                        == old(self).mid_linked(p0, p1)
                &&& r is Err ==> s - final(self).free_slots() == if s <= a {
                    s
                } else {
                    a
                }
            }),
    {
        let ghost o0 = offsets@[0] as int;
        let ghost o1 = offsets@[1] as int;
        let ghost k = old(self).missing_tables(o0, o1);
        let ghost s = old(self).free_slots();
        let ghost a = old(allocator).free_count();
        proof {
            lemma_walk_roles(*old(self), o0, o1);
            lemma_missing(*old(self), o0, o1);
            lemma_grows_refl(*old(self), *old(allocator));
        }
        let mut cur_table_idx: usize = 0;
        let mut i: usize = 0;
        while i < offsets.len() - 1
            invariant
                self.wf(),
                self.is_init(),
                self.held_by(*allocator),
                allocator.wf(),
                allocator.extends(*old(allocator)),
                old(self).wf(),
                old(self).is_init(),
                offsets@.len() == 3,
                o0 == offsets@[0] && o1 == offsets@[1],
                0 <= o0 < 512 && 0 <= o1 < 512,
                k == old(self).missing_tables(o0, o1),
                s == old(self).free_slots(),
                a == old(allocator).free_count(),
                entry_valid(old(self).ent(0, o0)) ==> {
                    let t1 = old(self).find(entry_ppn(old(self).ent(0, o0)))->Some_0;
                    &&& old(self).find(entry_ppn(old(self).ent(0, o0))) is Some
                    &&& old(self).has(t1)
                    &&& old(self).role(t1) == (1int, o0)
                },
                forall|p0: int, p1: int, p2: int|
                    0 <= p0 < 512 && 0 <= p1 < 512 && 0 <= p2 < 512 ==> #[trigger] self.entry_at(p0, p1, p2)
                        == old(self).entry_at(p0, p1, p2),
                0 <= i <= 2,
                cur_table_idx < BASE_PAGE_TABLE_COUNT,
                self.has(cur_table_idx as int),
                grows_on_lowest(*old(self), *self, *old(allocator), *allocator),
                self.free_slots() <= s,
                s - self.free_slots() == a - allocator.free_count(),
                i == 0 ==> cur_table_idx == 0 && *self == *old(self) && *allocator == *old(allocator),
                i == 1 ==> {
                    &&& entry_valid(self.ent(0, o0))
                    &&& self.find(entry_ppn(self.ent(0, o0))) == Some(cur_table_idx as int)
                    &&& self.role(cur_table_idx as int) == (1int, o0)
                    &&& (s - self.free_slots()) + (if entry_valid(self.ent(cur_table_idx as int, o1)) {
                        0int
                    } else {
                        1int
                    }) == k
                },
                i == 2 ==> self.leaf_table(o0, o1) == Some(cur_table_idx as int) && s - self.free_slots()
                    == k,
                forall|p0: int|
                    0 <= p0 < 512 ==> #[trigger] self.root_linked(p0) == ((p0 == o0 && s - self.free_slots()
                        >= 1) || old(self).root_linked(p0)),
                forall|p0: int, p1: int|
                    0 <= p0 < 512 && 0 <= p1 < 512 ==> #[trigger] self.mid_linked(p0, p1) == ((i == 2
                        && p0 == o0 && p1 == o1) || old(self).mid_linked(p0, p1)),
            decreases 2 - i,
        {
            let offset = offsets[i];
            let entry = self.get_table(cur_table_idx).unwrap().get_entry(offset);
            if entry.valid {
                proof {
                    lemma_find_has(*self, entry.ppn.bits);
                    lemma_walk_roles(*self, o0, o1);
                }
                cur_table_idx = self.find_table(entry.ppn).unwrap();
            } else {
                let ghost role: (int, int) = if i == 0 {
                    (1int, o0)
                } else {
                    (2int, o0 * 512 + o1)
                };
                let ghost t_pre = *self;
                let ghost a_pre = *allocator;
                match self.create_table(allocator, Ghost(role)) {
                    Ok(idx) => {
                        let mut dir = PageTableEntry::default();
                        dir.valid = true;
                        dir.ppn = self.get_table(idx).unwrap().ppn.ppn;
                        let ghost t = *self;
                        assert(dir == directory_entry(PhysicalPageNumber { bits: t.tppn(idx as int) }));
                        self.set_table_entry(cur_table_idx, offset, dir);
                        proof {
                            lemma_link(t, *self, cur_table_idx as int, offset as int, idx as int);
                            lemma_held_same(t, *self, *allocator);
                            lemma_same_frames_grows(t, *self, *allocator);
                            lemma_grows_trans(t_pre, t, *self, a_pre, *allocator, *allocator);
                            lemma_grows_trans(*old(self), t_pre, *self, *old(allocator), a_pre, *allocator);
                            lemma_zero_entry_invalid();
                            if i == 1 {
                                assert(self.ent(0, o0) == t.ent(0, o0));
                            }
                        }
                        cur_table_idx = idx;
                    },
                    Err(err) => {
                        proof {
                            assert forall|va: usize| #[trigger] self.translate_spec(va) == old(self).translate_spec(va) by {
                                lemma_offsets_bounds(va / 4096);
                            }
                        }
                        return Err(err);
                    },
                }
            }
            i = i + 1;
        }
        proof {
            assert forall|va: usize| #[trigger] self.translate_spec(va) == old(self).translate_spec(va) by {
                lemma_offsets_bounds(va / 4096);
            }
        }
        Ok(cur_table_idx)
    }

    /// Maps virtual page `vpn` with `entry`, creating the missing directory
    /// tables (frames come from `allocator`). Fails, with the translation
    /// unchanged, when the tree has too few empty slots or the allocator too
    /// few free pages for the missing tables.
    pub fn map(&mut self, vpn: VirtualPageNumber, entry: PageTableEntry, allocator: &mut PPNManagerImpl) -> (r:
        Result<(), &'static str>)
        requires
            old(self).wf(),
            old(self).is_init(),
            old(self).held_by(*old(allocator)),
            old(allocator).wf(),
        ensures
            final(self).wf(),
            final(self).is_init(),
            final(self).held_by(*final(allocator)),
            final(allocator).wf(),
            final(allocator).extends(*old(allocator)),
            grows_on_lowest(*old(self), *final(self), *old(allocator), *final(allocator)),
            old(self).free_slots() - final(self).free_slots() == old(allocator).free_count()
                - final(allocator).free_count(),
            ({
                let o = vpn_offsets(vpn.bits);
                let k = old(self).missing_tables(o[0] as int, o[1] as int);
                let s = old(self).free_slots();
                let a = old(allocator).free_count();
                &&& (r is Ok <==> k <= s && k <= a)
                &&& r is Ok ==> forall|p0: int, p1: int, p2: int|
                    0 <= p0 < 512 && 0 <= p1 < 512 && 0 <= p2 < 512 ==> #[trigger] final(self).entry_at(
                        p0,
                        p1,
                        p2,
                    ) == if p0 == o[0] && p1 == o[1] && p2 == o[2] {
                        encode_entry(entry)
                    } else {
                        old(self).entry_at(p0, p1, p2)
                    }
                &&& r is Ok ==> forall|va: usize| #[trigger] final(self).translate_spec(va) == if vpn_offsets(va / 4096) == o {
                        mapped_addr(entry, va)
                    } else {
                        old(self).translate_spec(va)
                    }
                &&& r matches Err(e) ==> (if s <= a {
                    e@ == "no area to save page_table"@
                } else {
                    e@ == "failed to alloc"@
                })
                &&& r is Err ==> forall|p0: int, p1: int, p2: int|
                    0 <= p0 < 512 && 0 <= p1 < 512 && 0 <= p2 < 512 ==> #[trigger] final(self).entry_at(
                        p0,
                        p1,
                        p2,
                    ) == old(self).entry_at(p0, p1, p2)
                &&& r is Err ==> forall|va: usize| #[trigger] final(self).translate_spec(va) == old(self).translate_spec(va)
            }),
            forall|A: TreeAbs| #[trigger] old(self).abs_matches(*old(allocator), A) ==> {
                &&& final(self).abs_matches(*final(allocator), map_abs(A, vpn.bits, encode_entry(entry)))
                &&& (r is Ok <==> map_ok(A, vpn.bits))
                &&& (r matches Err(e) ==> e@ == map_error(A))
            },
    {
        let offsets = split_vpn(vpn.bits);
        let ghost o = vpn_offsets(vpn.bits);
        let r = match self.get_or_create_leaf_table(offsets.as_slice(), vpn, allocator) {
            Ok(idx) => {
                let ghost t = *self;
                self.set_table_entry(idx, offsets[offsets.len() - 1], entry);
                proof {
                    lemma_set_leaf(t, *self, idx as int, o[0] as int, o[1] as int, o[2] as int, encode_entry(entry));
                    lemma_held_same(t, *self, *allocator);
                    lemma_same_frames_grows(t, *self, *allocator);
                    lemma_grows_trans(*old(self), t, *self, *old(allocator), *allocator, *allocator);
                    lemma_entry_round_trip(entry);
                    assert forall|va: usize| #[trigger] self.translate_spec(va) == if vpn_offsets(va / 4096) == o {
                        mapped_addr(entry, va)
                    } else {
                        old(self).translate_spec(va)
                    } by {
                        let q = vpn_offsets(va / 4096);
                        lemma_offsets_bounds(va / 4096);
                        if q == o {
                        } else {
                            assert(!(q[0] == o[0] && q[1] == o[1] && q[2] == o[2]));
                        }
                    }
                }
                Ok(())
            },
            Err(err) => {
                proof {
                    assert forall|va: usize| #[trigger] self.translate_spec(va) == old(self).translate_spec(va) by {
                        lemma_offsets_bounds(va / 4096);
                    }
                }
                Err(err)
            },
        };
        proof {
            let o0 = o[0] as int;
            let o1 = o[1] as int;
            lemma_offsets_bounds(vpn.bits);
            lemma_missing(*old(self), o0, o1);
            assert forall|A: TreeAbs| #[trigger] old(self).abs_matches(*old(allocator), A) implies {
                &&& self.abs_matches(*allocator, map_abs(A, vpn.bits, encode_entry(entry)))
                &&& (r is Ok <==> map_ok(A, vpn.bits))
                &&& (r matches Err(e) ==> e@ == map_error(A))
            } by {
                assert((A.root)(o0) == old(self).root_linked(o0));
                assert((A.mid)(o0, o1) == old(self).mid_linked(o0, o1));
            }
        }
        r
    }
}

impl PageTableTree {
    /// Puts a fresh, empty root table in slot 0 of a tree that has none, on
    /// the lowest free frame of `allocator`.
    pub fn init(&mut self, allocator: &mut PPNManagerImpl) -> (r: Result<(), &'static str>)
        requires
            old(self).wf(),
            !old(self).is_init(),
            old(self).held_by(*old(allocator)),
            old(allocator).wf(),
        ensures
            final(self).wf(),
            final(self).held_by(*final(allocator)),
            final(allocator).wf(),
            final(allocator).extends(*old(allocator)),
            r is Ok <==> old(allocator).free_count() > 0,
            r is Ok ==> {
                &&& final(self).is_init()
                &&& final(self).is_empty()
                &&& forall|p0: int, p1: int, p2: int|
                    0 <= p0 < 512 && 0 <= p1 < 512 && 0 <= p2 < 512 ==> #[trigger] final(self).entry_at(
                        p0,
                        p1,
                        p2,
                    ) == 0
                &&& forall|va: usize| #[trigger] final(self).translate_spec(va) is None
                &&& final(self).free_slots() == old(self).free_slots() - 1
                &&& final(allocator).free_count() + 1 == old(allocator).free_count()
                &&& lowest_free(*old(allocator), final(self).tppn(0))
                &&& grows_on_lowest(*old(self), *final(self), *old(allocator), *final(allocator))
                &&& final(allocator).holds(final(self).tppn(0))
                &&& final(allocator).occupied() == old(allocator).occupied().update(
                    final(self).tppn(0) - old(allocator).start().unwrap(),
                    true,
                )
                &&& final(self).abs_matches(
                    *final(allocator),
                    empty_abs(final(self).free_slots() as int, final(allocator).free_count() as int),
                )
            },
            r matches Err(e) ==> *final(self) == *old(self) && *final(allocator) == *old(allocator)
                && e@ == "failed to alloc"@,
    {
        match allocator.alloc_page() {
            Ok(g) => {
                let ghost a = *self;
                let ghost old_alloc = *old(allocator);
                let ghost p_new = g.ppn.bits;
                self.page_tables[0] = Some(PageTable::from(g));
                proof {
                    self.roles = Ghost(self.roles@.update(0, (0int, 0int)));
                    lemma_zero_entry_invalid();
                    assert forall|j: int| #[trigger] self.has(j) && j != 0 implies a.has(j)
                        && self.tppn(j) == a.tppn(j) && self.role(j) == a.role(j) && self.page_tables@[j]
                        == a.page_tables@[j] by {
                        assert(self.page_tables@[j] == a.page_tables@[j]);
                    }
                    assert forall|j: int| #[trigger] a.has(j) && j != 0 implies page_addr(a.tppn(j))
                        != page_addr(p_new) by {
                        assert(old_alloc.holds(a.tppn(j)));
                        lemma_page_addr_distinct(a.tppn(j), p_new);
                    }
                    assert forall|i: int, j: int|
                        self.has(i) && self.has(j) && i != j implies page_addr(self.tppn(i)) != page_addr(
                        self.tppn(j),
                    ) by {
                        if i != 0 {
                            assert(a.has(i));
                        }
                        if j != 0 {
                            assert(a.has(j));
                        }
                    }
                    assert(self.distinct());
                    assert forall|i: int, x: int|
                        self.has(i) && self.role(i).0 == 1 && 0 <= x < 512 && entry_valid(
                            #[trigger] self.ent(i, x),
                        ) implies {
                        &&& self.find(entry_ppn(self.ent(i, x))) is Some
                        &&& self.role(self.find(entry_ppn(self.ent(i, x)))->Some_0) == (
                            2int,
                            self.role(i).1 * 512 + x,
                        )
                    } by {
                        assert(a.has(i));
                        assert(self.ent(i, x) == a.ent(i, x));
                        let q = entry_ppn(a.ent(i, x));
                        lemma_find_has(a, q);
                        let j = a.find(q)->Some_0;
                        assert(a.has(j));
                        assert(j != 0);
                        assert(self.has(j));
                        assert(self.page_tables@[j] == a.page_tables@[j]);
                        lemma_find_is(*self, q, j);
                    }
                    assert forall|j: int| #[trigger] self.has(j) implies allocator.holds(self.tppn(j)) by {
                        if j != 0 {
                            assert(a.has(j));
                        }
                    }
                    assert(self.wf());
                    assert forall|p0: int, p1: int, p2: int|
                        0 <= p0 < 512 && 0 <= p1 < 512 && 0 <= p2 < 512 implies #[trigger] self.entry_at(
                        p0,
                        p1,
                        p2,
                    ) == 0 by {}
                    assert forall|va: usize| #[trigger] self.translate_spec(va) is None by {
                        lemma_offsets_bounds(va / 4096);
                    }
                    assert forall|p0: int, p1: int|
                        0 <= p0 < 512 && 0 <= p1 < 512 implies !#[trigger] self.mid_linked(p0, p1) by {}
                    assert forall|j: int| #[trigger] a.has(j) implies self.has(j) && self.tppn(j) == a.tppn(j) by {
                        assert(self.page_tables@[j] == a.page_tables@[j]);
                    }
                    assert forall|j: int| #[trigger] self.has(j) && !a.has(j) implies j == 0 by {
                        if j != 0 {
                            assert(self.page_tables@[j] == a.page_tables@[j]);
                        }
                    }
                    assert forall|j: int, f: usize|
                        #![trigger self.tppn(j), allocator.holds(f)]
                        self.has(j) && !a.has(j) && old_alloc.start() is Some && old_alloc.start().unwrap() <= f
                            < self.tppn(j) implies allocator.holds(f) by {
                        assert(j == 0);
                        assert(old_alloc.occupied()[f - old_alloc.start().unwrap()]);
                        assert(old_alloc.holds(f));
                    }
                    assert(self.used_slots() =~= a.used_slots().update(0, true));
                    if !a.has(0) {
                        lemma_count_free_occupy(a.used_slots(), 0, BASE_PAGE_TABLE_COUNT as int);
                    } else {
                        assert(self.used_slots() =~= a.used_slots());
                    }
                }
                Ok(())
            },
            Err(e) => Err(e),
        }
    }

    /// Removes the mapping of virtual page `vpn` (writes a clear leaf entry),
    /// creating the missing directory tables on the way as `map` does.
    pub fn unmap(&mut self, vpn: VirtualPageNumber, allocator: &mut PPNManagerImpl) -> (r: Result<
        (),
        &'static str,
    >)
        requires
            old(self).wf(),
            old(self).is_init(),
            old(self).held_by(*old(allocator)),
            old(allocator).wf(),
        ensures
            final(self).wf(),
            final(self).is_init(),
            final(self).held_by(*final(allocator)),
            final(allocator).wf(),
            final(allocator).extends(*old(allocator)),
            grows_on_lowest(*old(self), *final(self), *old(allocator), *final(allocator)),
            old(self).free_slots() - final(self).free_slots() == old(allocator).free_count()
                - final(allocator).free_count(),
            ({
                let o = vpn_offsets(vpn.bits);
                let k = old(self).missing_tables(o[0] as int, o[1] as int);
                let s = old(self).free_slots();
                let a = old(allocator).free_count();
                &&& (r is Ok <==> k <= s && k <= a)
                &&& r is Ok ==> forall|p0: int, p1: int, p2: int|
                    0 <= p0 < 512 && 0 <= p1 < 512 && 0 <= p2 < 512 ==> #[trigger] final(self).entry_at(
                        p0,
                        p1,
                        p2,
                    ) == if p0 == o[0] && p1 == o[1] && p2 == o[2] {
                        0
                    } else {
                        old(self).entry_at(p0, p1, p2)
                    }
                &&& r is Ok ==> forall|va: usize| #[trigger] final(self).translate_spec(va) == if vpn_offsets(va / 4096) == o {
                        None
                    } else {
                        old(self).translate_spec(va)
                    }
                &&& r matches Err(e) ==> (if s <= a {
                    e@ == "no area to save page_table"@
                } else {
                    e@ == "failed to alloc"@
                })
                &&& r is Err ==> forall|p0: int, p1: int, p2: int|
                    0 <= p0 < 512 && 0 <= p1 < 512 && 0 <= p2 < 512 ==> #[trigger] final(self).entry_at(
                        p0,
                        p1,
                        p2,
                    ) == old(self).entry_at(p0, p1, p2)
                &&& r is Err ==> forall|va: usize| #[trigger] final(self).translate_spec(va) == old(self).translate_spec(va)
            }),
            forall|A: TreeAbs| #[trigger] old(self).abs_matches(*old(allocator), A) ==> {
                &&& final(self).abs_matches(*final(allocator), map_abs(A, vpn.bits, 0))
                &&& (r is Ok <==> map_ok(A, vpn.bits))
                &&& (r matches Err(e) ==> e@ == map_error(A))
            },
    {
        let offsets = split_vpn(vpn.bits);
        let ghost o = vpn_offsets(vpn.bits);
        let r = match self.get_or_create_leaf_table(offsets.as_slice(), vpn, allocator) {
            Ok(idx) => {
                let ghost t = *self;
                let clear = PageTableEntry::default();
                self.set_table_entry(idx, offsets[offsets.len() - 1], clear);
                proof {
                    assert(encode_entry(clear) == 0) by {
                        lemma_clear_entry(clear);
                    }
                    lemma_set_leaf(t, *self, idx as int, o[0] as int, o[1] as int, o[2] as int, 0);
                    lemma_held_same(t, *self, *allocator);
                    lemma_same_frames_grows(t, *self, *allocator);
                    lemma_grows_trans(*old(self), t, *self, *old(allocator), *allocator, *allocator);
                    lemma_zero_entry_invalid();
                    assert forall|va: usize| #[trigger] self.translate_spec(va) == if vpn_offsets(va / 4096) == o {
                        None
                    } else {
                        old(self).translate_spec(va)
                    } by {
                        let q = vpn_offsets(va / 4096);
                        lemma_offsets_bounds(va / 4096);
                        if q == o {
                        } else {
                            assert(!(q[0] == o[0] && q[1] == o[1] && q[2] == o[2]));
                        }
                    }
                }
                Ok(())
            },
            Err(err) => {
                proof {
                    assert forall|va: usize| #[trigger] self.translate_spec(va) == old(self).translate_spec(va) by {
                        lemma_offsets_bounds(va / 4096);
                    }
                }
                Err(err)
            },
        };
        proof {
            let o0 = o[0] as int;
            let o1 = o[1] as int;
            lemma_offsets_bounds(vpn.bits);
            lemma_missing(*old(self), o0, o1);
            assert forall|A: TreeAbs| #[trigger] old(self).abs_matches(*old(allocator), A) implies {
                &&& self.abs_matches(*allocator, map_abs(A, vpn.bits, 0))
                &&& (r is Ok <==> map_ok(A, vpn.bits))
                &&& (r matches Err(e) ==> e@ == map_error(A))
            } by {
                assert((A.root)(o0) == old(self).root_linked(o0));
                assert((A.mid)(o0, o1) == old(self).mid_linked(o0, o1));
            }
        }
        r
    }

    /// The table in slot `idx`, if any: its frame and its entries, for
    /// writing the tree into the frames that the hardware walks.
    pub fn table(&self, idx: usize) -> (r: Option<&PageTable>)
        requires
            self.wf(),
            idx < BASE_PAGE_TABLE_COUNT,
        ensures
            r is Some == self.has(idx as int),
            r matches Some(t) ==> {
                &&& t.ppn_bits() == self.tppn(idx as int)
                &&& t.entries().len() == ENTRIES_PER_TABLE
                &&& forall|o: int| 0 <= o < ENTRIES_PER_TABLE ==> #[trigger] t.entries()[o] == self.ent(idx as int, o)
            },
    {
        self.get_table(idx)
    }

    /// Gives the frame of every table back to `allocator` and leaves the
    /// tree without tables.
    pub fn release(&mut self, allocator: &mut PPNManagerImpl)
        requires
            old(self).wf(),
            old(self).held_by(*old(allocator)),
            old(allocator).wf(),
        ensures
            final(self).wf(),
            final(self).free_slots() == BASE_PAGE_TABLE_COUNT,
            forall|i: int| !#[trigger] final(self).has(i),
            final(allocator).wf(),
            final(allocator).start() == old(allocator).start(),
            forall|p: usize| #[trigger] final(allocator).holds(p) == (old(allocator).holds(p) && !old(self).uses_frame(p)),
    {
        let ghost t0 = *self;
        let ghost a0 = *allocator;
        let mut i: usize = 0;
        while i < BASE_PAGE_TABLE_COUNT
            invariant
                0 <= i <= BASE_PAGE_TABLE_COUNT,
                *self == t0,
                t0.wf(),
                t0.held_by(a0),
                allocator.wf(),
                allocator.start() == a0.start(),
                forall|p: usize| #[trigger] allocator.holds(p) == (a0.holds(p) && !(exists|k: int|
                    0 <= k < i && t0.has(k) && #[trigger] t0.tppn(k) == p)),
            decreases BASE_PAGE_TABLE_COUNT - i,
        {
            let ghost before = *allocator;
            if let Some(t) = &self.page_tables[i] {
                proof {
                    assert(t0.has(i as int));
                    assert(a0.holds(t0.tppn(i as int)));
                }
                allocator.free(t.frame());
                proof {
                    let q = t0.tppn(i as int);
                    assert forall|p: usize| #[trigger] allocator.holds(p) == (a0.holds(p) && !(exists|k: int|
                        0 <= k < i + 1 && t0.has(k) && #[trigger] t0.tppn(k) == p)) by {
                        if a0.holds(p) && p == q {
                            assert(exists|k: int| 0 <= k < i + 1 && t0.has(k) && #[trigger] t0.tppn(k) == p) by {
                                assert(t0.tppn(i as int) == p);
                            }
                        }
                        if exists|k: int| 0 <= k < i + 1 && t0.has(k) && #[trigger] t0.tppn(k) == p {
                            let k = choose|k: int| 0 <= k < i + 1 && t0.has(k) && #[trigger] t0.tppn(k) == p;
                            if k < i {
                                assert(!before.holds(p));
                            }
                        }
                        if before.holds(p) != allocator.holds(p) {
                            assert(p == q);
                        }
                    }
                }
            } else {
                proof {
                    assert forall|p: usize| #[trigger] allocator.holds(p) == (a0.holds(p) && !(exists|k: int|
                        0 <= k < i + 1 && t0.has(k) && #[trigger] t0.tppn(k) == p)) by {
                        if exists|k: int| 0 <= k < i + 1 && t0.has(k) && #[trigger] t0.tppn(k) == p {
                            let k = choose|k: int| 0 <= k < i + 1 && t0.has(k) && #[trigger] t0.tppn(k) == p;
                            assert(k != i);
                        }
                    }
                }
            }
            i = i + 1;
        }
        *self = PageTableTree::default();
        proof {
            assert forall|p: usize| #[trigger] allocator.holds(p) == (a0.holds(p) && !t0.uses_frame(p)) by {
                if t0.uses_frame(p) {
                    let k = choose|k: int| #[trigger] t0.has(k) && t0.tppn(k) == p;
                    assert(0 <= k < BASE_PAGE_TABLE_COUNT);
                    assert(t0.tppn(k) == p);
                }
            }
        }
    }

    /// Whether the root table is in place.
    pub fn has_root(&self) -> (r: bool)
        requires
            self.wf(),
        ensures
            r == self.is_init(),
    {
        self.page_tables[0].is_some()
    }

    /// Page number of the root table.
    pub fn get_root_ppn(&self) -> (r: PhysicalPageNumber)
        requires
            self.wf(),
            self.is_init(),
        ensures
            r.bits == self.tppn(0),
    {
        self.get_table(0).unwrap().ppn.ppn
    }

    /// The `satp` value that makes this tree the one the hardware walks;
    /// loading it is the caller's part.
    pub fn active(&self) -> (r: SAtp)
        requires
            self.wf(),
            self.is_init(),
        ensures
            r.bits == satp_of(self.tppn(0)),
    {
        crate::sv39::active_page_table_root(self.get_table(0).unwrap().ppn.ppn)
    }
}

/// A clear entry (all flags off, page 0) has no bits set.
proof fn lemma_clear_entry(e: PageTableEntry)
    requires
        e.ppn.bits == 0 && !e.valid && !e.read && !e.write && !e.execute && !e.user,
    ensures
        encode_entry(e) == 0,
{
    let q = e.ppn.bits as u64;
    assert(q == 0);
    assert(((q << 10u64) | (0u64 << 4u64) | (0u64 << 3u64) | (0u64 << 2u64) | (0u64 << 1u64) | 0u64)
        == 0) by (bit_vector)
        requires
            q == 0,
    ;
}

/// Each table offset of a virtual page number is below 512.
pub proof fn lemma_offsets_bounds(vpn: usize)
    ensures
        vpn_offsets(vpn).len() == 3,
        vpn_offsets(vpn)[0] < 512 && vpn_offsets(vpn)[1] < 512 && vpn_offsets(vpn)[2] < 512,
{
    assert((vpn >> 18usize) & 511 < 512 && (vpn >> 9usize) & 511 < 512 && vpn & 511 < 512) by (bit_vector);
}

} // verus!
