//! The kernel's own address space: identity mappings of its sections.
use vstd::prelude::*;
use crate::page_table::{grows_on_lowest, lemma_grows_refl, lemma_grows_trans, 
    PageTableTree, TreeAbs, apply_maps, empty_abs, lemma_apply_maps_push, lemma_apply_maps_concat, maps_ok,
    abs_translate, lemma_abs_translate, lemma_last_map_wins, lemma_offsets_injective, lemma_last_maps_bits,
    lemma_offsets_bounds,
};
use crate::ppn_manager::{PPNManagerImpl, lowest_free};
use crate::register::{SAtp, satp_of};
use crate::section::{
    MapTarget, Permission, VirtualSection, section_entry, text_permission, rodata_permission,
    data_permission, bss_permission,
};
use crate::sv39::{encode_entry, entry_ppn, entry_valid, lemma_entry_round_trip, vpn_offsets, bit_of};
use crate::task_manager::{TASK_RUNNING_ADDR, MAX_TASK_SIZE};

verus! {

/// The maps that identity-map pages `[start, end)` with rights `p`, in order.
pub open spec fn identity_maps(start: usize, end: usize, p: Permission) -> Seq<(usize, u64)> {
    Seq::new(
        if end >= start {
            (end - start) as nat
        } else {
            0
        },
        |i: int| ((start + i) as usize, encode_entry(section_entry((start + i) as usize, p))),
    )
}

/// The maps for the pages covering bytes `[start_addr, end_addr)`.
pub open spec fn section_maps(start_addr: usize, end_addr: usize, p: Permission) -> Seq<(usize, u64)> {
    identity_maps(start_addr / 4096, ((end_addr - 1) as usize / 4096 + 1) as usize, p)
}

/// Maps every page of an identity section, one after another; a page whose
/// map fails is skipped.
pub(crate) fn map_identity_section(
    tree: &mut PageTableTree,
    section: &VirtualSection,
    allocator: &mut PPNManagerImpl,
)
    requires
        old(tree).wf(),
        old(tree).is_init(),
        old(tree).held_by(*old(allocator)),
        old(allocator).wf(),
        section.map_target is Identity,
    ensures
        final(tree).wf(),
        final(tree).is_init(),
        final(tree).held_by(*final(allocator)),
        final(allocator).wf(),
        final(allocator).extends(*old(allocator)),
        grows_on_lowest(*old(tree), *final(tree), *old(allocator), *final(allocator)),
        forall|a: TreeAbs| #[trigger] old(tree).abs_matches(*old(allocator), a) ==> final(tree).abs_matches(
            *final(allocator),
            apply_maps(a, identity_maps(section.start_vpn.bits, section.end_vpn.bits, section.permission)),
        ),
{
    proof {
        lemma_grows_refl(*old(tree), *old(allocator));
    }
    let mut it = section.iter();
    let ghost start = section.start_vpn.bits;
    loop
        invariant
            tree.wf(),
            tree.is_init(),
            tree.held_by(*allocator),
            allocator.wf(),
            allocator.extends(*old(allocator)),
            grows_on_lowest(*old(tree), *tree, *old(allocator), *allocator),
            *it.section() == *section,
            section.map_target is Identity,
            start == section.start_vpn.bits,
            it.cur() >= start,
            it.cur() <= section.end_vpn.bits || it.cur() == start,
            forall|a: TreeAbs| #[trigger] old(tree).abs_matches(*old(allocator), a) ==> tree.abs_matches(
                *allocator,
                apply_maps(a, identity_maps(start, it.cur(), section.permission)),
            ),
        ensures
            tree.wf(),
            tree.is_init(),
            tree.held_by(*allocator),
            allocator.wf(),
            allocator.extends(*old(allocator)),
            grows_on_lowest(*old(tree), *tree, *old(allocator), *allocator),
            forall|a: TreeAbs| #[trigger] old(tree).abs_matches(*old(allocator), a) ==> tree.abs_matches(
                *allocator,
                apply_maps(a, identity_maps(start, section.end_vpn.bits, section.permission)),
            ),
        decreases section.end_vpn.bits - it.cur(),
    {
        let ghost cur = it.cur();
        let ghost before_tree = *tree;
        let ghost before_alloc = *allocator;
        match it.next(allocator) {
            Some(item) => {
                let _ = tree.map(item.0, item.1, allocator);
                proof {
                    lemma_grows_trans(*old(tree), before_tree, *tree, *old(allocator), before_alloc, *allocator);
                    let m = (cur, encode_entry(section_entry(cur, section.permission)));
                    assert(identity_maps(start, (cur + 1) as usize, section.permission) =~= identity_maps(
                        start,
                        cur,
                        section.permission,
                    ).push(m));
                    assert forall|a: TreeAbs| #[trigger] old(tree).abs_matches(*old(allocator), a) implies tree.abs_matches(
                        *allocator,
                        apply_maps(a, identity_maps(start, it.cur(), section.permission)),
                    ) by {
                        lemma_apply_maps_push(a, identity_maps(start, cur, section.permission), m);
                        let b = apply_maps(a, identity_maps(start, cur, section.permission));
                        assert(before_tree.abs_matches(before_alloc, b));
                    }
                }
            },
            None => {
                proof {
                    if cur > section.end_vpn.bits {
                        assert(identity_maps(start, cur, section.permission) =~= identity_maps(
                            start,
                            section.end_vpn.bits,
                            section.permission,
                        ));
                    }
                }
                break;
            },
        }
    }
}

/// Addresses of the kernel's sections, as the linker placed them.
pub struct KernelLayout {
    pub text_start: usize,
    pub text_end: usize,
    pub rodata_start: usize,
    pub rodata_end: usize,
    pub data_start: usize,
    pub data_end: usize,
    pub bss_start: usize,
    pub bss_end: usize,
    pub kernel_end: usize,
}

/// End of the memory the kernel maps for itself: the task area, which
/// holds up to ten task images after the task count.
pub open spec fn kernel_memory_end() -> usize {
    (TASK_RUNNING_ADDR + 10 * MAX_TASK_SIZE) as usize
}

/// The maps that build the kernel's address space: code, read-only data,
/// data and bss with their rights, then the memory from the kernel's end to
/// the end of the task area as writable data, all identity-mapped and for
/// supervisor mode.
pub open spec fn kernel_maps(l: KernelLayout) -> Seq<(usize, u64)> {
    section_maps(l.text_start, l.text_end, Permission { user: false, ..text_permission_spec() })
        + section_maps(l.rodata_start, l.rodata_end, Permission { user: false, ..rodata_permission_spec() })
        + section_maps(l.data_start, l.data_end, Permission { user: false, ..data_permission_spec() })
        + section_maps(l.bss_start, l.bss_end, Permission { user: false, ..bss_permission_spec() })
        + section_maps(l.kernel_end, kernel_memory_end(), Permission { user: false, ..data_permission_spec() })
}

/// The rights of the kernel's code: execute only.
pub open spec fn text_permission_spec() -> Permission {
    Permission { read: false, write: false, execute: true, user: false }
}

/// The rights of the kernel's read-only data: read only.
pub open spec fn rodata_permission_spec() -> Permission {
    Permission { read: true, write: false, execute: false, user: false }
}

/// The rights of the kernel's data: read and write.
pub open spec fn data_permission_spec() -> Permission {
    Permission { read: true, write: true, execute: false, user: false }
}

/// The rights of the kernel's bss: read and write.
pub open spec fn bss_permission_spec() -> Permission {
    Permission { read: true, write: true, execute: false, user: false }
}

/// Builds the kernel's address space in `tree`, which has no root yet: a
/// fresh root (whose frame must be available), then every page of the kernel's sections mapped to
/// itself, a page whose map fails being skipped. Returns the `satp` value
/// that activates it; loading it is the caller's part.
pub fn init_kernel_map(tree: &mut PageTableTree, allocator: &mut PPNManagerImpl, layout: &KernelLayout) -> (r:
    SAtp)
    requires
        old(tree).wf(),
        !old(tree).is_init(),
        old(tree).held_by(*old(allocator)),
        old(allocator).wf(),
        old(allocator).free_count() > 0,
        layout.text_end > 0,
        layout.rodata_end > 0,
        layout.data_end > 0,
        layout.bss_end > 0,
    ensures
        final(tree).wf(),
        final(tree).is_init(),
        final(tree).held_by(*final(allocator)),
        final(allocator).wf(),
        final(allocator).extends(*old(allocator)),
        lowest_free(*old(allocator), final(tree).tppn(0)),
        grows_on_lowest(*old(tree), *final(tree), *old(allocator), *final(allocator)),
        r.bits == satp_of(final(tree).tppn(0)),
        final(tree).abs_matches(
            *final(allocator),
            apply_maps(
                empty_abs(
                    old(tree).free_slots() - 1,
                    old(allocator).free_count() - 1,
                ),
                kernel_maps(*layout),
            ),
        ),
{
    tree.init(allocator).unwrap();
    let ghost root_tree = *tree;
    let ghost root_alloc = *allocator;
    let ghost a0 = empty_abs(tree.free_slots() as int, allocator.free_count() as int);
    let section_def: [(usize, usize, MapTarget, Permission); 5] = [
        (layout.text_start, layout.text_end, MapTarget::Identity, text_permission().for_kernel()),
        (layout.rodata_start, layout.rodata_end, MapTarget::Identity, rodata_permission().for_kernel()),
        (layout.data_start, layout.data_end, MapTarget::Identity, data_permission().for_kernel()),
        (layout.bss_start, layout.bss_end, MapTarget::Identity, bss_permission().for_kernel()),
        (
            layout.kernel_end,
            TASK_RUNNING_ADDR + 10 * MAX_TASK_SIZE,
            MapTarget::Identity,
            data_permission().for_kernel(),
        ),
    ];
    let ghost parts: Seq<Seq<(usize, u64)>> = seq![
        section_maps(layout.text_start, layout.text_end, Permission { user: false, ..text_permission_spec() }),
        section_maps(layout.rodata_start, layout.rodata_end, Permission { user: false, ..rodata_permission_spec() }),
        section_maps(layout.data_start, layout.data_end, Permission { user: false, ..data_permission_spec() }),
        section_maps(layout.bss_start, layout.bss_end, Permission { user: false, ..bss_permission_spec() }),
        section_maps(layout.kernel_end, kernel_memory_end(), Permission { user: false, ..data_permission_spec() }),
    ];
    let mut i: usize = 0;
    while i < 5
        invariant
            0 <= i <= 5,
            tree.wf(),
            tree.is_init(),
            tree.held_by(*allocator),
            allocator.wf(),
            allocator.extends(*old(allocator)),
            allocator.extends(root_alloc),
            root_alloc.extends(*old(allocator)),
            tree.has(0) && tree.tppn(0) == root_tree.tppn(0),
            lowest_free(*old(allocator), root_tree.tppn(0)),
            grows_on_lowest(*old(tree), *tree, *old(allocator), *allocator),
            parts.len() == 5,
            forall|j: int| 0 <= j < 5 ==> section_def@[j].1 > 0 && (#[trigger] section_def@[j]).2 is Identity
                && parts[j] == section_maps(section_def@[j].0, section_def@[j].1, section_def@[j].3),
            tree.abs_matches(*allocator, apply_maps(a0, parts.take(i as int).fold_left(Seq::empty(), |acc: Seq<(usize, u64)>, x: Seq<(usize, u64)>| acc + x))),
        decreases 5 - i,
    {
        let item = section_def[i];
        let section = VirtualSection::new(item.0, item.1, item.2, item.3);
        let ghost before_tree = *tree;
        let ghost before_alloc = *allocator;
        let ghost prefix = parts.take(i as int).fold_left(Seq::empty(), |acc: Seq<(usize, u64)>, x: Seq<(usize, u64)>| acc + x);
        map_identity_section(tree, &section, allocator);
        proof {
            lemma_grows_trans(*old(tree), before_tree, *tree, *old(allocator), before_alloc, *allocator);
            assert(before_tree.abs_matches(before_alloc, apply_maps(a0, prefix)));
            lemma_apply_maps_concat(a0, prefix, parts[i as int]);
            assert(parts.take(i as int + 1).drop_last() =~= parts.take(i as int));
            assert(parts.take(i as int + 1).last() == parts[i as int]);
        }
        i = i + 1;
    }
    proof {
        assert(parts.take(5) =~= parts);
        reveal_with_fuel(Seq::fold_left, 6);
        assert(parts.take(5).fold_left(Seq::empty(), |acc: Seq<(usize, u64)>, x: Seq<(usize, u64)>| acc + x) =~= kernel_maps(*layout));
    }
    tree.active()
}

/// A map that sends page `m.0`, below 2^27, to itself with a valid entry.
pub open spec fn identity_entry(m: (usize, u64)) -> bool {
    &&& m.0 < 0x800_0000
    &&& entry_valid(m.1)
    &&& entry_ppn(m.1) == m.0
}

/// Some map of `maps` is for page `v`.
pub open spec fn has_page(maps: Seq<(usize, u64)>, v: usize) -> bool {
    exists|i: int| 0 <= i < maps.len() && #[trigger] maps[i].0 == v
}

/// Byte `va` lies in a page of the section `[start, end)`.
pub open spec fn in_section(va: usize, start: usize, end: usize) -> bool {
    start / 4096 <= va / 4096 < ((end - 1) as usize / 4096 + 1) as usize
}

/// Byte `va` lies in a page that the kernel's address space maps.
pub open spec fn in_kernel_space(l: KernelLayout, va: usize) -> bool {
    ||| in_section(va, l.text_start, l.text_end)
    ||| in_section(va, l.rodata_start, l.rodata_end)
    ||| in_section(va, l.data_start, l.data_end)
    ||| in_section(va, l.bss_start, l.bss_end)
    ||| in_section(va, l.kernel_end, kernel_memory_end())
}

/// The kernel's sections end within the 2^39 bytes that Sv39 addresses
/// reach.
pub open spec fn layout_in_reach(l: KernelLayout) -> bool {
    &&& 0 < l.text_end <= 0x80_0000_0000
    &&& 0 < l.rodata_end <= 0x80_0000_0000
    &&& 0 < l.data_end <= 0x80_0000_0000
    &&& 0 < l.bss_end <= 0x80_0000_0000
}

/// The maps of pages `[lo, hi)`, below 2^27, send each page to itself.
pub proof fn lemma_identity_maps(lo: usize, hi: usize, p: Permission, v: usize)
    requires
        hi <= 0x800_0000,
    ensures
        forall|i: int| 0 <= i < identity_maps(lo, hi, p).len() ==> identity_entry(#[trigger] identity_maps(lo, hi, p)[i]),
        lo <= v < hi ==> has_page(identity_maps(lo, hi, p), v),
{
    let m = identity_maps(lo, hi, p);
    assert forall|i: int| 0 <= i < m.len() implies identity_entry(#[trigger] m[i]) by {
        let w = (lo + i) as usize;
        assert(m[i] == (w, encode_entry(section_entry(w, p))));
        lemma_entry_round_trip(section_entry(w, p));
    }
    if lo <= v < hi {
        assert(m[v - lo].0 == v);
    }
}

/// The maps of a section below 2^39 send each of its pages to itself.
pub proof fn lemma_section_identity(start: usize, end: usize, p: Permission, va: usize)
    requires
        0 < end <= 0x80_0000_0000,
    ensures
        forall|i: int|
            0 <= i < section_maps(start, end, p).len() ==> identity_entry(#[trigger] section_maps(start, end, p)[i]),
        in_section(va, start, end) ==> has_page(section_maps(start, end, p), va / 4096),
{
    let hi = ((end - 1) as usize / 4096 + 1) as usize;
    assert(hi <= 0x800_0000);
    lemma_identity_maps(start / 4096, hi, p, va / 4096);
}

/// Both parts of a sequence of identity maps are identity maps, and a page
/// of either part is a page of the whole.
pub proof fn lemma_concat_identity(a: Seq<(usize, u64)>, b: Seq<(usize, u64)>, v: usize)
    requires
        forall|i: int| 0 <= i < a.len() ==> identity_entry(#[trigger] a[i]),
        forall|i: int| 0 <= i < b.len() ==> identity_entry(#[trigger] b[i]),
    ensures
        forall|i: int| 0 <= i < (a + b).len() ==> identity_entry(#[trigger] (a + b)[i]),
        has_page(a, v) || has_page(b, v) ==> has_page(a + b, v),
{
    assert forall|i: int| 0 <= i < (a + b).len() implies identity_entry(#[trigger] (a + b)[i]) by {
        if i < a.len() {
            assert((a + b)[i] == a[i]);
        } else {
            assert((a + b)[i] == b[i - a.len()]);
        }
    }
    if has_page(a, v) {
        let i = choose|i: int| 0 <= i < a.len() && #[trigger] a[i].0 == v;
        assert((a + b)[i] == a[i]);
    } else if has_page(b, v) {
        let i = choose|i: int| 0 <= i < b.len() && #[trigger] b[i].0 == v;
        assert((a + b)[a.len() + i] == b[i]);
    }
}

/// When every map of the kernel's address space succeeds, each byte of a
/// page the kernel maps (its code, read-only data, data, bss, and the memory
/// from its end to the end of the task area) translates to itself.
pub proof fn lemma_kernel_map_identity(a: TreeAbs, l: KernelLayout, va: usize)
    requires
        layout_in_reach(l),
        maps_ok(a, kernel_maps(l)),
        in_kernel_space(l, va),
    ensures
        abs_translate(apply_maps(a, kernel_maps(l)), va) == Some(va),
{
    let p1 = section_maps(l.text_start, l.text_end, Permission { user: false, ..text_permission_spec() });
    let p2 = section_maps(l.rodata_start, l.rodata_end, Permission { user: false, ..rodata_permission_spec() });
    let p3 = section_maps(l.data_start, l.data_end, Permission { user: false, ..data_permission_spec() });
    let p4 = section_maps(l.bss_start, l.bss_end, Permission { user: false, ..bss_permission_spec() });
    let p5 = section_maps(l.kernel_end, kernel_memory_end(), Permission { user: false, ..data_permission_spec() });
    let vpn = va / 4096;
    lemma_section_identity(l.text_start, l.text_end, Permission { user: false, ..text_permission_spec() }, va);
    lemma_section_identity(l.rodata_start, l.rodata_end, Permission { user: false, ..rodata_permission_spec() }, va);
    lemma_section_identity(l.data_start, l.data_end, Permission { user: false, ..data_permission_spec() }, va);
    lemma_section_identity(l.bss_start, l.bss_end, Permission { user: false, ..bss_permission_spec() }, va);
    lemma_section_identity(l.kernel_end, kernel_memory_end(), Permission { user: false, ..data_permission_spec() }, va);
    lemma_concat_identity(p1, p2, vpn);
    lemma_concat_identity(p1 + p2, p3, vpn);
    lemma_concat_identity(p1 + p2 + p3, p4, vpn);
    lemma_concat_identity(p1 + p2 + p3 + p4, p5, vpn);
    let m = kernel_maps(l);
    assert(m == p1 + p2 + p3 + p4 + p5);
    assert(has_page(m, vpn));
    let o = vpn_offsets(vpn);
    let k = choose|i: int| 0 <= i < m.len() && #[trigger] m[i].0 == vpn;
    assert(identity_entry(m[k]));
    assert forall|i: int|
        0 <= i < m.len() && vpn_offsets(#[trigger] m[i].0) == o implies entry_valid(m[i].1) && entry_ppn(m[i].1)
            == vpn by {
        assert(identity_entry(m[i]));
        lemma_offsets_injective(m[i].0, vpn);
    }
    lemma_last_map_wins(a, m, o, vpn);
    assert(vpn * 4096 + va % 4096 == va) by {
        vstd::arithmetic::div_mod::lemma_fundamental_div_mod(va as int, 4096);
    }
}

/// The same for the table that `init_kernel_map` builds: when every map
/// succeeded, each byte of a page the kernel maps translates to itself.
pub proof fn lemma_kernel_tree_identity(
    tree: PageTableTree,
    allocator: PPNManagerImpl,
    a: TreeAbs,
    l: KernelLayout,
    va: usize,
)
    requires
        layout_in_reach(l),
        maps_ok(a, kernel_maps(l)),
        tree.abs_matches(allocator, apply_maps(a, kernel_maps(l))),
        in_kernel_space(l, va),
    ensures
        tree.translate_spec(va) == Some(va),
{
    lemma_kernel_map_identity(a, l, va);
    lemma_abs_translate(tree, allocator, apply_maps(a, kernel_maps(l)), va);
}

/// The bits of the entry that maps page `v` to itself with the rights of
/// the kernel's code: valid and executable, not readable, not writable,
/// not for user mode.
pub proof fn lemma_text_entry_bits(v: usize)
    ensures
        encode_entry(section_entry(v, Permission { user: false, ..text_permission_spec() })) == ((v as u64)
            << 10u64) | 9u64,
{
    let p = v as u64;
    assert(bit_of(false) == 0u64 && bit_of(true) == 1u64);
    assert(((p << 10u64) | (0u64 << 4u64) | (1u64 << 3u64) | (0u64 << 2u64) | (0u64 << 1u64) | 1u64) == (p
        << 10u64) | 9u64) by (bit_vector);
}

/// The bits of the entry that maps page `v` to itself with the rights of
/// the kernel's data: valid, readable and writable, not executable, not for
/// user mode.
pub proof fn lemma_data_entry_bits(v: usize)
    ensures
        encode_entry(section_entry(v, Permission { user: false, ..data_permission_spec() })) == ((v as u64)
            << 10u64) | 7u64,
{
    let p = v as u64;
    assert(bit_of(false) == 0u64 && bit_of(true) == 1u64);
    assert(((p << 10u64) | (0u64 << 4u64) | (0u64 << 3u64) | (1u64 << 2u64) | (1u64 << 1u64) | 1u64) == (p
        << 10u64) | 7u64) by (bit_vector);
}

/// Map `i` of a section's maps is for a page of the section, with the
/// section's rights.
pub proof fn lemma_section_map_at(start: usize, end: usize, p: Permission, i: int)
    requires
        0 <= i < section_maps(start, end, p).len(),
    ensures
        ({
            let m = section_maps(start, end, p)[i];
            &&& start / 4096 <= m.0 < ((end - 1) as usize / 4096 + 1) as usize
            &&& m.0 == start / 4096 + i
            &&& m.1 == encode_entry(section_entry(m.0, p))
        }),
{
}

/// When every map of the kernel's address space succeeds, each page of the
/// kernel's code that no other section shares is mapped to itself as
/// executable, neither readable nor writable, and not for user mode: its
/// leaf entry holds the page's own number and only the valid and execute
/// flags.
pub proof fn lemma_kernel_text_rights(tree: PageTableTree, allocator: PPNManagerImpl, a: TreeAbs, l: KernelLayout, va: usize)
    requires
        layout_in_reach(l),
        maps_ok(a, kernel_maps(l)),
        tree.abs_matches(allocator, apply_maps(a, kernel_maps(l))),
        in_section(va, l.text_start, l.text_end),
        !in_section(va, l.rodata_start, l.rodata_end),
        !in_section(va, l.data_start, l.data_end),
        !in_section(va, l.bss_start, l.bss_end),
        !in_section(va, l.kernel_end, kernel_memory_end()),
    ensures
        tree.entry_of(va / 4096) == (((va / 4096) as u64) << 10u64) | 9u64,
{
    let pt = Permission { user: false, ..text_permission_spec() };
    let pr = Permission { user: false, ..rodata_permission_spec() };
    let pd = Permission { user: false, ..data_permission_spec() };
    let pb = Permission { user: false, ..bss_permission_spec() };
    let p1 = section_maps(l.text_start, l.text_end, pt);
    let p2 = section_maps(l.rodata_start, l.rodata_end, pr);
    let p3 = section_maps(l.data_start, l.data_end, pd);
    let p4 = section_maps(l.bss_start, l.bss_end, pb);
    let p5 = section_maps(l.kernel_end, kernel_memory_end(), pd);
    let vpn = va / 4096;
    let o = vpn_offsets(vpn);
    let e = ((vpn as u64) << 10u64) | 9u64;
    lemma_section_identity(l.text_start, l.text_end, pt, va);
    lemma_section_identity(l.rodata_start, l.rodata_end, pr, va);
    lemma_section_identity(l.data_start, l.data_end, pd, va);
    lemma_section_identity(l.bss_start, l.bss_end, pb, va);
    lemma_section_identity(l.kernel_end, kernel_memory_end(), pd, va);
    lemma_concat_identity(p1, p2, vpn);
    lemma_concat_identity(p1 + p2, p3, vpn);
    lemma_concat_identity(p1 + p2 + p3, p4, vpn);
    lemma_concat_identity(p1 + p2 + p3 + p4, p5, vpn);
    let m = kernel_maps(l);
    assert(m == p1 + p2 + p3 + p4 + p5);
    let n1 = p1.len() as int;
    let n2 = n1 + p2.len();
    let n3 = n2 + p3.len();
    let n4 = n3 + p4.len();
    let lo = vpn - l.text_start / 4096;
    assert(m[lo] == p1[lo]);
    lemma_section_map_at(l.text_start, l.text_end, pt, lo);
    assert(identity_entry(m[lo]));
    assert forall|j: int| lo <= j < m.len() && vpn_offsets(#[trigger] m[j].0) == o implies m[j].1 == e by {
        assert(identity_entry(m[j]));
        assert(vpn < 0x800_0000);
        lemma_offsets_injective(m[j].0, vpn);
        if j < n1 {
            assert(m[j] == p1[j]);
            lemma_section_map_at(l.text_start, l.text_end, pt, j);
            lemma_text_entry_bits(vpn);
        } else if j < n2 {
            assert(m[j] == p2[j - n1]);
            lemma_section_map_at(l.rodata_start, l.rodata_end, pr, j - n1);
        } else if j < n3 {
            assert(m[j] == p3[j - n2]);
            lemma_section_map_at(l.data_start, l.data_end, pd, j - n2);
        } else if j < n4 {
            assert(m[j] == p4[j - n3]);
            lemma_section_map_at(l.bss_start, l.bss_end, pb, j - n3);
        } else {
            assert(m[j] == p5[j - n4]);
            lemma_section_map_at(l.kernel_end, kernel_memory_end(), pd, j - n4);
        }
    }
    lemma_last_maps_bits(a, m, o, e, lo);
    lemma_offsets_bounds(vpn);
}

/// The bits of the entry that maps page `v` to itself with the rights of
/// the kernel's read-only data: valid and readable only.
pub proof fn lemma_rodata_entry_bits(v: usize)
    ensures
        encode_entry(section_entry(v, Permission { user: false, ..rodata_permission_spec() })) == ((v as u64)
            << 10u64) | 3u64,
{
    let p = v as u64;
    assert(bit_of(false) == 0u64 && bit_of(true) == 1u64);
    assert(((p << 10u64) | (0u64 << 4u64) | (0u64 << 3u64) | (0u64 << 2u64) | (1u64 << 1u64) | 1u64) == (p
        << 10u64) | 3u64) by (bit_vector);
}

/// No map of `maps` is for page `v`.
pub open spec fn misses(maps: Seq<(usize, u64)>, v: usize) -> bool {
    forall|i: int| 0 <= i < maps.len() ==> (#[trigger] maps[i]).0 != v
}

/// A section's maps miss every page of a byte outside it, and two lists of
/// maps that miss a page miss it together.
pub proof fn lemma_misses(start: usize, end: usize, p: Permission, va: usize, x: Seq<(usize, u64)>, y: Seq<(usize, u64)>)
    ensures
        !in_section(va, start, end) ==> misses(section_maps(start, end, p), va / 4096),
        misses(x, va / 4096) && misses(y, va / 4096) ==> misses(x + y, va / 4096),
{
    if !in_section(va, start, end) {
        assert forall|i: int| 0 <= i < section_maps(start, end, p).len() implies (#[trigger] section_maps(
            start,
            end,
            p,
        )[i]).0 != va / 4096 by {
            lemma_section_map_at(start, end, p, i);
        }
    }
    if misses(x, va / 4096) && misses(y, va / 4096) {
        assert forall|i: int| 0 <= i < (x + y).len() implies (#[trigger] (x + y)[i]).0 != va / 4096 by {
            if i < x.len() {
                assert((x + y)[i] == x[i]);
            } else {
                assert((x + y)[i] == y[i - x.len()]);
            }
        }
    }
}

/// When every map of `pre + sec + post` succeeds, where `sec` maps byte
/// `va`'s page with the bits `e` and `post` maps other pages only, the
/// entry left for that page is `e`.
pub proof fn lemma_section_wins(
    a: TreeAbs,
    pre: Seq<(usize, u64)>,
    sec: Seq<(usize, u64)>,
    post: Seq<(usize, u64)>,
    v: usize,
    e: u64,
)
    requires
        maps_ok(a, pre + sec + post),
        v < 0x800_0000,
        forall|i: int| 0 <= i < sec.len() ==> identity_entry(#[trigger] sec[i]),
        forall|i: int| 0 <= i < post.len() ==> identity_entry(#[trigger] post[i]),
        exists|i: int| 0 <= i < sec.len() && (#[trigger] sec[i]).0 == v,
        forall|i: int| 0 <= i < sec.len() && (#[trigger] sec[i]).0 == v ==> sec[i].1 == e,
        misses(post, v),
    ensures
        ({
            let o = vpn_offsets(v);
            (apply_maps(a, pre + sec + post).entry)(o[0] as int, o[1] as int, o[2] as int) == e
        }),
{
    let m = pre + sec + post;
    let o = vpn_offsets(v);
    let lo = pre.len() as int;
    let n = lo + sec.len();
    let i0 = choose|i: int| 0 <= i < sec.len() && (#[trigger] sec[i]).0 == v;
    assert(m[lo + i0] == sec[i0]);
    assert forall|j: int| lo <= j < m.len() && vpn_offsets(#[trigger] m[j].0) == o implies m[j].1 == e by {
        if j < n {
            assert(m[j] == sec[j - lo]);
            assert(identity_entry(sec[j - lo]));
        } else {
            assert(m[j] == post[j - n]);
            assert(identity_entry(post[j - n]));
        }
        lemma_offsets_injective(m[j].0, v);
    }
    lemma_last_maps_bits(a, m, o, e, lo);
}

/// When every map of the kernel's address space succeeds, a page gets the
/// rights of the last of the kernel's sections that holds it, mapped to
/// itself and not for user mode: read only for read-only data, read and
/// write for data, bss and the memory from the kernel's end to the end of
/// the task area.
pub proof fn lemma_kernel_data_rights(tree: PageTableTree, allocator: PPNManagerImpl, a: TreeAbs, l: KernelLayout, va: usize)
    requires
        layout_in_reach(l),
        maps_ok(a, kernel_maps(l)),
        tree.abs_matches(allocator, apply_maps(a, kernel_maps(l))),
    ensures
        ({
            let v = va / 4096;
            let b = tree.entry_of(v);
            let in_rest = in_section(va, l.kernel_end, kernel_memory_end());
            let in_bss = in_section(va, l.bss_start, l.bss_end);
            let in_data = in_section(va, l.data_start, l.data_end);
            let in_rodata = in_section(va, l.rodata_start, l.rodata_end);
            &&& in_rest ==> b == ((v as u64) << 10u64) | 7u64
            &&& in_bss && !in_rest ==> b == ((v as u64) << 10u64) | 7u64
            &&& in_data && !in_bss && !in_rest ==> b == ((v as u64) << 10u64) | 7u64
            &&& in_rodata && !in_data && !in_bss && !in_rest ==> b == ((v as u64) << 10u64) | 3u64
        }),
{
    let pt = Permission { user: false, ..text_permission_spec() };
    let pr = Permission { user: false, ..rodata_permission_spec() };
    let pd = Permission { user: false, ..data_permission_spec() };
    let pb = Permission { user: false, ..bss_permission_spec() };
    let p1 = section_maps(l.text_start, l.text_end, pt);
    let p2 = section_maps(l.rodata_start, l.rodata_end, pr);
    let p3 = section_maps(l.data_start, l.data_end, pd);
    let p4 = section_maps(l.bss_start, l.bss_end, pb);
    let p5 = section_maps(l.kernel_end, kernel_memory_end(), pd);
    let v = va / 4096;
    let o = vpn_offsets(v);
    let m = kernel_maps(l);
    lemma_offsets_bounds(v);
    lemma_section_identity(l.text_start, l.text_end, pt, va);
    lemma_section_identity(l.rodata_start, l.rodata_end, pr, va);
    lemma_section_identity(l.data_start, l.data_end, pd, va);
    lemma_section_identity(l.bss_start, l.bss_end, pb, va);
    lemma_section_identity(l.kernel_end, kernel_memory_end(), pd, va);
    lemma_concat_identity(p4, p5, v);
    lemma_concat_identity(p3, p4 + p5, v);
    lemma_misses(l.kernel_end, kernel_memory_end(), pd, va, p4, p5);
    lemma_misses(l.bss_start, l.bss_end, pb, va, p4, p5);
    lemma_misses(l.data_start, l.data_end, pd, va, p3, p4 + p5);
    let e7 = ((v as u64) << 10u64) | 7u64;
    let e3 = ((v as u64) << 10u64) | 3u64;
    lemma_data_entry_bits(v);
    lemma_rodata_entry_bits(v);
    if in_section(va, l.kernel_end, kernel_memory_end()) {
        assert(m =~= (p1 + p2 + p3 + p4) + p5 + Seq::empty());
        assert(v < 0x800_0000) by {
            let i = choose|i: int| 0 <= i < p5.len() && #[trigger] p5[i].0 == v;
            assert(identity_entry(p5[i]));
        }
        assert forall|i: int| 0 <= i < p5.len() && (#[trigger] p5[i]).0 == v implies p5[i].1 == e7 by {
            lemma_section_map_at(l.kernel_end, kernel_memory_end(), pd, i);
        }
        lemma_section_wins(a, p1 + p2 + p3 + p4, p5, Seq::empty(), v, e7);
    } else if in_section(va, l.bss_start, l.bss_end) {
        assert(m =~= (p1 + p2 + p3) + p4 + p5);
        assert(v < 0x800_0000) by {
            let i = choose|i: int| 0 <= i < p4.len() && #[trigger] p4[i].0 == v;
            assert(identity_entry(p4[i]));
        }
        assert forall|i: int| 0 <= i < p4.len() && (#[trigger] p4[i]).0 == v implies p4[i].1 == e7 by {
            lemma_section_map_at(l.bss_start, l.bss_end, pb, i);
        }
        lemma_section_wins(a, p1 + p2 + p3, p4, p5, v, e7);
    } else if in_section(va, l.data_start, l.data_end) {
        assert(m =~= (p1 + p2) + p3 + (p4 + p5));
        assert(v < 0x800_0000) by {
            let i = choose|i: int| 0 <= i < p3.len() && #[trigger] p3[i].0 == v;
            assert(identity_entry(p3[i]));
        }
        assert forall|i: int| 0 <= i < p3.len() && (#[trigger] p3[i]).0 == v implies p3[i].1 == e7 by {
            lemma_section_map_at(l.data_start, l.data_end, pd, i);
        }
        lemma_section_wins(a, p1 + p2, p3, p4 + p5, v, e7);
    } else if in_section(va, l.rodata_start, l.rodata_end) {
        assert(m =~= p1 + p2 + (p3 + p4 + p5));
        assert(p3 + (p4 + p5) =~= p3 + p4 + p5);
        assert(v < 0x800_0000) by {
            let i = choose|i: int| 0 <= i < p2.len() && #[trigger] p2[i].0 == v;
            assert(identity_entry(p2[i]));
        }
        assert forall|i: int| 0 <= i < p2.len() && (#[trigger] p2[i]).0 == v implies p2[i].1 == e3 by {
            lemma_section_map_at(l.rodata_start, l.rodata_end, pr, i);
        }
        lemma_section_wins(a, p1, p2, p3 + (p4 + p5), v, e3);
    }
}

} // verus!
