//! The hardware layout of Sv39 page-table entries and tables.
use vstd::prelude::*;
use crate::addr::PhysicalPageNumber;
use crate::page_table::PageTableEntry;
use crate::register::{SAtp, satp_of};

verus! {

/// Number of entries in one page table (a page of 8-byte entries).
pub const ENTRIES_PER_TABLE: usize = 512;

/// `1` for `true`, `0` for `false`.
pub open spec fn bit_of(b: bool) -> u64 {
    if b { 1 } else { 0 }
}

/// The bits of an entry: page number from bit 10 up, then the user,
/// execute, write, read and valid flags in bits 4 down to 0 (the reserved,
/// dirty, accessed and global bits stay clear).
pub open spec fn encode_entry(e: PageTableEntry) -> u64 {
    ((e.ppn.bits as u64) << 10u64) | (bit_of(e.user) << 4u64) | (bit_of(e.execute) << 3u64) | (
    bit_of(e.write) << 2u64) | (bit_of(e.read) << 1u64) | bit_of(e.valid)
}

/// The page number that an entry's bits hold.
pub open spec fn entry_ppn(bits: u64) -> usize {
    (bits >> 10u64) as usize
}

/// Whether an entry's valid bit is set.
pub open spec fn entry_valid(bits: u64) -> bool {
    bits & 1 == 1
}

/// The entry that `into` reads from `bits`. Each flag is read as
/// `bits & (1 << pos) == 1`, which only the valid bit (position 0) can meet,
/// so the read, write, execute and user flags always read as `false`.
pub open spec fn decode_entry(bits: u64) -> PageTableEntry {
    PageTableEntry {
        ppn: PhysicalPageNumber { bits: entry_ppn(bits) },
        user: false,
        execute: false,
        write: false,
        read: false,
        valid: entry_valid(bits),
    }
}

fn flag(b: bool) -> (r: u64)
    ensures
        r == bit_of(b),
{
    if b { 1 } else { 0 }
}

/// An Sv39 page-table entry as the hardware reads it.
#[derive(Copy, Clone)]
pub struct PageTableEntryImpl {
    bits: u64,
}

impl PageTableEntryImpl {
    /// The entry's raw bits.
    pub closed spec fn value(&self) -> u64 {
        self.bits
    }

    /// The entry's raw bits.
    pub fn bits(&self) -> (r: u64)
        ensures
            r == self.value(),
    {
        self.bits
    }

    /// An entry with all bits clear.
    pub fn zero() -> (r: Self)
        ensures
            r.value() == 0,
    {
        PageTableEntryImpl { bits: 0 }
    }

    /// Lays a page-table entry out in the hardware format.
    pub fn from(v: PageTableEntry) -> (r: Self)
        ensures
            r.value() == encode_entry(v),
    {
        let p: u64 = v.ppn.bits as u64;
        let u = flag(v.user);
        let x = flag(v.execute);
        let w = flag(v.write);
        let rd = flag(v.read);
        let vl = flag(v.valid);
        let mut bits: u64 = p;
        bits = bits << 6u64;
        bits = bits | u;
        bits = bits << 1u64;
        bits = bits | x;
        bits = bits << 1u64;
        bits = bits | w;
        bits = bits << 1u64;
        bits = bits | rd;
        bits = bits << 1u64;
        bits = bits | vl;
        assert(bits == (p << 10u64) | (u << 4u64) | (x << 3u64) | (w << 2u64) | (rd << 1u64) | vl)
            by (bit_vector)
            requires
                u <= 1,
                x <= 1,
                w <= 1,
                rd <= 1,
                vl <= 1,
                bits == ((((((((((p << 6u64) | u) << 1u64) | x) << 1u64) | w) << 1u64) | rd) << 1u64)
                    | vl),
        ;
        Self { bits }
    }

    fn get_bit(&self, pos: u64) -> (r: bool)
        requires
            pos < 64,
        ensures
            r == (self.bits & (1u64 << pos) == 1),
            r == (pos == 0 && self.bits & 1 == 1),
    {
        let b = self.bits;
        let r = b & (1u64 << pos) == 1;
        assert(r == (pos == 0 && b & 1 == 1)) by (bit_vector)
            requires
                pos < 64,
                r == (b & (1u64 << pos) == 1),
        ;
        r
    }

    /// Reads the entry back.
    pub fn into(self) -> (r: PageTableEntry)
        ensures
            r == decode_entry(self.value()),
    {
        PageTableEntry {
            ppn: PhysicalPageNumber::from((self.bits >> 10u64) as usize),
            user: self.get_bit(4),
            execute: self.get_bit(3),
            write: self.get_bit(2),
            read: self.get_bit(1),
            valid: self.get_bit(0),
        }
    }
}

/// Decoding an encoded entry gives back its page number, modulo `2^54`, and
/// its valid flag; the other flags read back as clear, so an entry whose
/// read, write, execute and user flags are clear and whose page number is
/// below `2^54` comes back unchanged.
pub proof fn lemma_entry_round_trip(e: PageTableEntry)
    ensures
        decode_entry(encode_entry(e)).ppn.bits == ((e.ppn.bits as u64) % 0x40_0000_0000_0000)
            as usize,
        decode_entry(encode_entry(e)).valid == e.valid,
        !e.read && !e.write && !e.execute && !e.user && e.ppn.bits < 0x40_0000_0000_0000
            ==> decode_entry(encode_entry(e)) == e,
{
    let p = e.ppn.bits as u64;
    let u = bit_of(e.user);
    let x = bit_of(e.execute);
    let w = bit_of(e.write);
    let rd = bit_of(e.read);
    let vl = bit_of(e.valid);
    let bits = (p << 10u64) | (u << 4u64) | (x << 3u64) | (w << 2u64) | (rd << 1u64) | vl;
    assert((bits >> 10u64) == p % 0x40_0000_0000_0000 && (bits & 1 == 1) == (vl == 1))
        by (bit_vector)
        requires
            u <= 1,
            x <= 1,
            w <= 1,
            rd <= 1,
            vl <= 1,
            bits == (p << 10u64) | (u << 4u64) | (x << 3u64) | (w << 2u64) | (rd << 1u64) | vl,
    ;
}

/// Where the flags of an entry sit: valid in bit 0, read in bit 1, write
/// in bit 2, execute in bit 3, user in bit 4, bits 5 to 9 clear, and the
/// page number (its low 54 bits) from bit 10 up.
pub proof fn lemma_entry_fields(e: PageTableEntry)
    ensures
        (encode_entry(e) & 1u64 == 1u64) == e.valid,
        ((encode_entry(e) >> 1u64) & 1u64 == 1u64) == e.read,
        ((encode_entry(e) >> 2u64) & 1u64 == 1u64) == e.write,
        ((encode_entry(e) >> 3u64) & 1u64 == 1u64) == e.execute,
        ((encode_entry(e) >> 4u64) & 1u64 == 1u64) == e.user,
        (encode_entry(e) >> 5u64) & 31u64 == 0u64,
        encode_entry(e) >> 10u64 == (e.ppn.bits as u64) % 0x40_0000_0000_0000,
{
    let p = e.ppn.bits as u64;
    let u = bit_of(e.user);
    let x = bit_of(e.execute);
    let w = bit_of(e.write);
    let rd = bit_of(e.read);
    let vl = bit_of(e.valid);
    let bits = encode_entry(e);
    assert(bits == (p << 10u64) | (u << 4u64) | (x << 3u64) | (w << 2u64) | (rd << 1u64) | vl);
    assert({
        &&& (bits & 1u64 == 1u64) == (vl == 1u64)
        &&& ((bits >> 1u64) & 1u64 == 1u64) == (rd == 1u64)
        &&& ((bits >> 2u64) & 1u64 == 1u64) == (w == 1u64)
        &&& ((bits >> 3u64) & 1u64 == 1u64) == (x == 1u64)
        &&& ((bits >> 4u64) & 1u64 == 1u64) == (u == 1u64)
        &&& (bits >> 5u64) & 31u64 == 0u64
        &&& bits >> 10u64 == p % 0x40_0000_0000_0000
    }) by (bit_vector)
        requires
            u <= 1,
            x <= 1,
            w <= 1,
            rd <= 1,
            vl <= 1,
            bits == (p << 10u64) | (u << 4u64) | (x << 3u64) | (w << 2u64) | (rd << 1u64) | vl,
    ;
}

/// One page table: 512 entries.
pub struct PageTableImpl {
    entries: [PageTableEntryImpl; 512],
}

impl PageTableImpl {
    /// The raw bits of each entry.
    pub closed spec fn view(&self) -> Seq<u64> {
        self.entries@.map_values(|e: PageTableEntryImpl| e.value())
    }

    /// A table whose entries are all clear.
    pub fn new() -> (r: Self)
        ensures
            r.view().len() == ENTRIES_PER_TABLE,
            forall|i: int| 0 <= i < ENTRIES_PER_TABLE ==> #[trigger] r.view()[i] == 0,
    {
        PageTableImpl { entries: [PageTableEntryImpl { bits: 0 }; 512] }
    }

    /// Number of entries.
    pub proof fn lemma_len(&self)
        ensures
            self.view().len() == ENTRIES_PER_TABLE,
    {
    }

    /// Writes entry `offset`.
    pub fn set_entry(&mut self, offset: usize, entry: PageTableEntryImpl)
        requires
            offset < ENTRIES_PER_TABLE,
        ensures
            final(self).view() == old(self).view().update(offset as int, entry.value()),
    {
        self.entries[offset] = entry;
        assert(self.view() =~= old(self).view().update(offset as int, entry.value()));
    }

    /// Reads entry `offset`.
    pub fn get_entry(&self, offset: usize) -> (r: PageTableEntryImpl)
        requires
            offset < ENTRIES_PER_TABLE,
        ensures
            r.value() == self.view()[offset as int],
    {
        self.entries[offset]
    }

    /// Clears every entry.
    pub fn clear(&mut self)
        ensures
            final(self).view().len() == ENTRIES_PER_TABLE,
            forall|i: int| 0 <= i < ENTRIES_PER_TABLE ==> #[trigger] final(self).view()[i] == 0,
    {
        let mut i: usize = 0;
        while i < ENTRIES_PER_TABLE
            invariant
                0 <= i <= ENTRIES_PER_TABLE,
                self.view().len() == ENTRIES_PER_TABLE,
                forall|j: int| 0 <= j < i ==> #[trigger] self.view()[j] == 0,
            decreases ENTRIES_PER_TABLE - i,
        {
            let ghost prev = self.view();
            self.entries[i] = PageTableEntryImpl { bits: 0 };
            assert(self.view() =~= prev.update(i as int, 0));
            i = i + 1;
        }
    }
}

/// The three 9-bit table offsets of a virtual page number, the highest
/// level first.
pub open spec fn vpn_offsets(vpn: usize) -> Seq<usize> {
    seq![(vpn >> 18usize) & 511, (vpn >> 9usize) & 511, vpn & 511]
}

/// Splits a virtual page number into its three table offsets, the highest
/// level first.
pub fn split_vpn(addr: usize) -> (r: [usize; 3])
    ensures
        r@ == vpn_offsets(addr),
        r@[0] < 512 && r@[1] < 512 && r@[2] < 512,
{
    let mut offsets: [usize; 3] = [0; 3];
    let mut i: usize = 0;
    while i < 3
        invariant
            0 <= i <= 3,
            offsets@.len() == 3,
            forall|k: int|
                3 - i <= k < 3 ==> #[trigger] offsets@[k] == (addr >> (((2 - k) * 9) as usize)) & 511,
        decreases 3 - i,
    {
        offsets[2 - i] = (addr >> (i * 9)) & 511;
        i = i + 1;
    }
    assert(offsets@[0] == (addr >> 18usize) & 511);
    assert(offsets@[1] == (addr >> 9usize) & 511);
    assert(offsets@[2] == (addr >> 0usize) & 511);
    assert((addr >> 0usize) == addr && (addr >> 18usize) & 511 < 512 && (addr >> 9usize) & 511 < 512
        && addr & 511 < 512) by (bit_vector);
    assert(offsets@ =~= vpn_offsets(addr));
    offsets
}

/// The `satp` value that makes `ppn` the root of translation; loading it is
/// the caller's part.
pub fn active_page_table_root(ppn: PhysicalPageNumber) -> (r: SAtp)
    ensures
        r.bits == satp_of(ppn.bits),
{
    SAtp::from_ppn(ppn.bits)
}

} // verus!
