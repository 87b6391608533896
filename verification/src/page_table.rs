//! SV39 page tables: 64-bit entries and a three-level radix tree.
//!
//! The hardware keeps each level of the tree in a physical frame of 512
//! entries and links levels through the entry's page number. The model
//! keeps the same three-level shape and the same 512-entry nodes, but a
//! table owns its child nodes directly, so the physical placement of the
//! page-table pages themselves is abstracted away; leaf entries carry
//! real physical page numbers.

use vstd::prelude::*;

use crate::address::{PhysAddr, PhysPageNum, VirtAddr, VirtPageNum};
use crate::address::lemma_level_indices_injective;
use crate::config::PAGE_SIZE;

verus! {

/// Entry flag: valid.
pub const PTE_V: u8 = 0x01;

/// Entry flag: readable.
pub const PTE_R: u8 = 0x02;

/// Entry flag: writable.
pub const PTE_W: u8 = 0x04;

/// Entry flag: executable.
pub const PTE_X: u8 = 0x08;

/// Entry flag: reachable from user mode.
pub const PTE_U: u8 = 0x10;

/// Entry flag: global.
pub const PTE_G: u8 = 0x20;

/// Entry flag: accessed.
pub const PTE_A: u8 = 0x40;

/// Entry flag: dirty.
pub const PTE_D: u8 = 0x80;

/// A 64-bit SV39 page-table entry: bits `[53:10]` hold the physical page
/// number and the low 8 bits the flags.
#[derive(Clone, Copy, PartialEq, Eq, Structural, Debug)]
pub struct PageTableEntry {
    /// The raw bits of the entry.
    pub bits: u64,
}

impl PageTableEntry {
    /// The physical page number held in bits `[53:10]`.
    pub open spec fn spec_ppn(self) -> u64 {
        (self.bits >> 10) & 0xfff_ffff_ffff
    }

    /// The flag byte held in the low 8 bits.
    pub open spec fn spec_flags(self) -> u8 {
        (self.bits & 0xff) as u8
    }

    /// Whether the valid flag is set.
    pub open spec fn spec_valid(self) -> bool {
        self.bits & 1 == 1
    }

    /// Pack a physical page number and flags into an entry.
    pub fn new(ppn: PhysPageNum, flags: u8) -> (r: Self)
        requires
            ppn.wf(),
        ensures
            r.spec_ppn() == ppn.0,
            r.spec_flags() == flags,
            r.spec_valid() <==> flags & 1 == 1,
    {
        let bits: u64 = (ppn.0 << 10) | (flags as u64);
        proof {
            let p = ppn.0;
            let f = flags;
            assert(p < 0x1000_0000_0000 ==> ((p << 10) | (f as u64)) >> 10 & 0xfff_ffff_ffff
                == p) by (bit_vector);
            assert(((p << 10) | (f as u64)) & 0xff == (f as u64) & 0xff) by (bit_vector);
            assert((f as u64) & 0xff == ((f & 0xff) as u64)) by (bit_vector);
            assert(f & 0xff == f) by (bit_vector);
            assert(((p << 10) | (f as u64)) & 1 == (f as u64) & 1) by (bit_vector);
            assert((f as u64) & 1 == ((f & 1) as u64)) by (bit_vector);
        }
        PageTableEntry { bits }
    }

    /// The all-zero entry, in particular not valid.
    pub fn empty() -> (r: Self)
        ensures
            r.bits == 0,
            !r.spec_valid(),
            r.spec_flags() == 0,
    {
        proof {
            assert(0u64 & 1 == 0) by (bit_vector);
            assert(0u64 & 0xff == 0) by (bit_vector);
        }
        PageTableEntry { bits: 0 }
    }

    /// The physical page number the entry points at.
    pub fn ppn(&self) -> (r: PhysPageNum)
        ensures
            r.0 == self.spec_ppn(),
            r.wf(),
    {
        proof {
            let b = self.bits;
            assert((b >> 10) & 0xfff_ffff_ffff < 0x1000_0000_0000) by (bit_vector);
        }
        PhysPageNum((self.bits >> 10) & 0xfff_ffff_ffff)
    }

    /// The flag byte of the entry.
    pub fn flags(&self) -> (r: u8)
        ensures
            r == self.spec_flags(),
    {
        (self.bits & 0xff) as u8
    }

    /// Whether the entry is valid.
    pub fn is_valid(&self) -> (r: bool)
        ensures
            r <==> self.spec_valid(),
    {
        (self.bits & 1) == 1
    }

    /// Whether the entry allows writes.
    pub fn writable(&self) -> (r: bool)
        ensures
            r <==> self.spec_flags() & PTE_W != 0,
    {
        proof {
            let b = self.bits;
            assert((b & 4 != 0) <==> ((b & 0xff) as u8) & 4u8 != 0) by (bit_vector);
        }
        (self.bits & 4) != 0
    }

    /// Whether the entry allows instruction fetch.
    pub fn executable(&self) -> (r: bool)
        ensures
            r <==> self.spec_flags() & PTE_X != 0,
    {
        proof {
            let b = self.bits;
            assert((b & 8 != 0) <==> ((b & 0xff) as u8) & 8u8 != 0) by (bit_vector);
        }
        (self.bits & 8) != 0
    }
}

/// The three page-table indices of a well-formed page number each
/// fall in `[0, 512)`.
pub proof fn lemma_index_bounds(v: VirtPageNum)
    requires
        v.wf(),
    ensures
        0 <= v.level_index(0) < 512,
        0 <= v.level_index(1) < 512,
        0 <= v.level_index(2) < 512,
{
    let x = v.0 as int;
    assert(0 <= x / 0x40000 < 512) by (nonlinear_arith)
        requires
            0 <= x < 0x800_0000,
    ;
    assert(0 <= (x / 0x200) % 0x200 < 512) by (nonlinear_arith)
        requires
            0 <= x,
    ;
    assert(0 <= x % 0x200 < 512) by (nonlinear_arith)
        requires
            0 <= x,
    ;
}

/// A last-level page-table node: 512 leaf entries.
pub struct PTLeaf {
    entries: Vec<PageTableEntry>,
}

impl PTLeaf {
    /// A leaf node holds exactly 512 entries.
    pub closed spec fn wf(self) -> bool {
        self.entries@.len() == 512
    }

    /// The entry at the given slot.
    pub closed spec fn entry(self, j: int) -> PageTableEntry {
        self.entries@[j]
    }

    /// A fresh node of invalid entries.
    pub fn new() -> (r: Self)
        ensures
            r.wf(),
            forall|j: int| 0 <= j < 512 ==> !(#[trigger] r.entry(j)).spec_valid(),
    {
        let mut entries: Vec<PageTableEntry> = Vec::new();
        let mut k: usize = 0;
        while k < 512
            invariant
                k == entries@.len(),
                k <= 512,
                forall|j: int| 0 <= j < k ==> !(#[trigger] entries@[j]).spec_valid(),
            decreases 512 - k,
        {
            entries.push(PageTableEntry::empty());
            k = k + 1;
        }
        PTLeaf { entries }
    }

    /// Read the entry at a slot.
    pub fn get(&self, j: usize) -> (r: PageTableEntry)
        requires
            self.wf(),
            j < 512,
        ensures
            r == self.entry(j as int),
    {
        self.entries[j]
    }

    /// Overwrite the entry at a slot.
    pub fn set(&mut self, j: usize, e: PageTableEntry)
        requires
            old(self).wf(),
            j < 512,
        ensures
            final(self).wf(),
            final(self).entry(j as int) == e,
            forall|j2: int| 0 <= j2 < 512 && j2 != j ==> final(self).entry(j2) == old(
                self,
            ).entry(j2),
    {
        self.entries[j] = e;
    }
}

/// A middle-level page-table node: 512 slots, each possibly owning a
/// leaf node.
pub struct PTMid {
    kids: Vec<Option<PTLeaf>>,
}

impl PTMid {
    /// A middle node holds exactly 512 slots of well-formed leaves.
    pub closed spec fn wf(self) -> bool {
        &&& self.kids@.len() == 512
        &&& forall|j: int|
            0 <= j < 512 ==> ((#[trigger] self.kids@[j]) matches Some(leaf) ==> leaf.wf())
    }

    /// The slot at the given index.
    pub closed spec fn kid(self, j: int) -> Option<PTLeaf> {
        self.kids@[j]
    }

    /// The leaf entry behind a pair of indices, if the leaf node
    /// exists.
    pub open spec fn lookup(self, j1: int, j2: int) -> Option<PageTableEntry> {
        match self.kid(j1) {
            Some(leaf) => Some(leaf.entry(j2)),
            None => None,
        }
    }

    /// Whether the pair of indices reaches a valid leaf entry.
    pub open spec fn lookup_mapped(self, j1: int, j2: int) -> bool {
        self.lookup(j1, j2) matches Some(e) && e.spec_valid()
    }

    /// A fresh node of empty slots.
    pub fn new() -> (r: Self)
        ensures
            r.wf(),
            forall|j: int| 0 <= j < 512 ==> (#[trigger] r.kid(j)) is None,
    {
        let mut kids: Vec<Option<PTLeaf>> = Vec::new();
        let mut k: usize = 0;
        while k < 512
            invariant
                k == kids@.len(),
                k <= 512,
                forall|j: int| 0 <= j < k ==> (#[trigger] kids@[j]) is None,
            decreases 512 - k,
        {
            kids.push(None);
            k = k + 1;
        }
        PTMid { kids }
    }

    /// Write a leaf entry, creating the leaf node if it is missing.
    /// Entries behind every other index pair keep their mapped state.
    pub fn set_entry(&mut self, j1: usize, j2: usize, e: PageTableEntry)
        requires
            old(self).wf(),
            j1 < 512,
            j2 < 512,
        ensures
            final(self).wf(),
            final(self).lookup(j1 as int, j2 as int) == Some(e),
            forall|c: int|
                0 <= c < 512 && c != j2 ==> {
                    &&& final(self).lookup_mapped(j1 as int, c) == old(self).lookup_mapped(
                        j1 as int,
                        c,
                    )
                    &&& (old(self).lookup_mapped(j1 as int, c) ==> final(self).lookup(
                        j1 as int,
                        c,
                    ) == old(self).lookup(j1 as int, c))
                },
            forall|b: int, c: int|
                0 <= b < 512 && 0 <= c < 512 && b != j1 ==> final(self).lookup(b, c) == old(
                    self,
                ).lookup(b, c),
    {
        if self.kids[j1].is_none() {
            let leaf = PTLeaf::new();
            self.kids[j1] = Some(leaf);
        }
        if let Some(leaf) = &mut self.kids[j1] {
            leaf.set(j2, e);
        }
    }
}

/// An SV39 page table: a three-level radix tree over 9-bit indices.
pub struct PageTable {
    root_ppn: u64,
    slots: Vec<Option<PTMid>>,
}

impl PageTable {
    /// The table is a well-formed three-level tree.
    pub closed spec fn wf(self) -> bool {
        &&& self.slots@.len() == 512
        &&& forall|i: int|
            0 <= i < 512 ==> ((#[trigger] self.slots@[i]) matches Some(mid) ==> mid.wf())
    }

    /// The walk of the three levels: the leaf entry reached from the
    /// page number's indices, if every link on the way exists.
    pub closed spec fn walk(self, vpn: VirtPageNum) -> Option<PageTableEntry> {
        match self.slots@[vpn.level_index(0)] {
            Some(mid) => mid.lookup(vpn.level_index(1), vpn.level_index(2)),
            None => None,
        }
    }

    /// Whether the page number is mapped: its walk ends at a valid leaf
    /// entry.
    pub open spec fn is_mapped(self, vpn: VirtPageNum) -> bool {
        self.walk(vpn) matches Some(e) && e.spec_valid()
    }

    /// The leaf entry of a mapped page number.
    pub open spec fn mapped_pte(self, vpn: VirtPageNum) -> PageTableEntry {
        self.walk(vpn)->Some_0
    }

    /// An empty table: only the root node, nothing mapped.
    pub fn new() -> (r: Self)
        ensures
            r.wf(),
            forall|v: VirtPageNum| v.wf() ==> (#[trigger] r.walk(v)) is None,
            r.spec_token() == 0x8000_0000_0000_0000u64,
    {
        let mut slots: Vec<Option<PTMid>> = Vec::new();
        let mut k: usize = 0;
        while k < 512
            invariant
                k == slots@.len(),
                k <= 512,
                forall|j: int| 0 <= j < k ==> (#[trigger] slots@[j]) is None,
            decreases 512 - k,
        {
            slots.push(None);
            k = k + 1;
        }
        proof {
            assert(0x8000_0000_0000_0000u64 | 0u64 == 0x8000_0000_0000_0000u64) by (bit_vector);
        }
        PageTable { root_ppn: 0, slots }
    }

    /// The value that activates this table when written to `satp`: mode
    /// SV39 in the top bits and the root page number in the low bits.
    pub closed spec fn spec_token(self) -> u64 {
        0x8000_0000_0000_0000u64 | self.root_ppn
    }

    /// See [`PageTable::spec_token`].
    pub fn token(&self) -> (r: u64)
        ensures
            r == self.spec_token(),
    {
        0x8000_0000_0000_0000u64 | self.root_ppn
    }

    /// Map a page to a frame with the given flags; the valid flag is
    /// added. The page must not be mapped yet; every other page keeps
    /// its mapped state (an intermediate node created on the way may
    /// give a sibling page an invalid leaf entry where it had none, as
    /// on the hardware).
    pub fn map(&mut self, vpn: VirtPageNum, ppn: PhysPageNum, flags: u8)
        requires
            old(self).wf(),
            vpn.wf(),
            ppn.wf(),
            !old(self).is_mapped(vpn),
        ensures
            final(self).wf(),
            final(self).is_mapped(vpn),
            final(self).mapped_pte(vpn).spec_ppn() == ppn.0,
            final(self).mapped_pte(vpn).spec_flags() == (flags | PTE_V),
            forall|v: VirtPageNum|
                v.wf() && v.0 != vpn.0 ==> #[trigger] final(self).is_mapped(v) == old(
                    self,
                ).is_mapped(v) && (old(self).is_mapped(v) ==> final(self).mapped_pte(v) == old(
                    self,
                ).mapped_pte(v)),
            final(self).spec_token() == old(self).spec_token(),
    {
        let idx = vpn.indexes();
        let i0 = idx[0];
        let i1 = idx[1];
        let i2 = idx[2];
        proof {
            assert((flags | 1) & 1 == 1) by (bit_vector);
        }
        let pte = PageTableEntry::new(ppn, flags | PTE_V);
        let taken = self.slots[i0].take();
        let mut mid = match taken {
            Some(m) => m,
            None => PTMid::new(),
        };
        mid.set_entry(i1, i2, pte);
        self.slots[i0] = Some(mid);
        proof {
            lemma_index_bounds(vpn);
            assert forall|v: VirtPageNum| v.wf() && v.0 != vpn.0 implies #[trigger] self.is_mapped(
                v,
            ) == old(self).is_mapped(v) && (old(self).is_mapped(v) ==> self.mapped_pte(v) == old(
                self,
            ).mapped_pte(v)) by {
                lemma_index_bounds(v);
                if v.level_index(0) == vpn.level_index(0) {
                    if v.level_index(1) == vpn.level_index(1) && v.level_index(2)
                        == vpn.level_index(2) {
                        lemma_level_indices_injective(v, vpn);
                    }
                }
            }
        }
    }

    /// Clear the leaf entry of a mapped page; every other page keeps
    /// its mapped state.
    pub fn unmap(&mut self, vpn: VirtPageNum)
        requires
            old(self).wf(),
            vpn.wf(),
            old(self).is_mapped(vpn),
        ensures
            final(self).wf(),
            !final(self).is_mapped(vpn),
            final(self).walk(vpn) matches Some(e) && e.bits == 0,
            forall|v: VirtPageNum|
                v.wf() && v.0 != vpn.0 ==> #[trigger] final(self).is_mapped(v) == old(
                    self,
                ).is_mapped(v) && (old(self).is_mapped(v) ==> final(self).mapped_pte(v) == old(
                    self,
                ).mapped_pte(v)),
            final(self).spec_token() == old(self).spec_token(),
    {
        let idx = vpn.indexes();
        let i0 = idx[0];
        let i1 = idx[1];
        let i2 = idx[2];
        let taken = self.slots[i0].take();
        if let Some(mut mid) = taken {
            mid.set_entry(i1, i2, PageTableEntry::empty());
            self.slots[i0] = Some(mid);
        }
        proof {
            lemma_index_bounds(vpn);
            assert forall|v: VirtPageNum| v.wf() && v.0 != vpn.0 implies #[trigger] self.is_mapped(
                v,
            ) == old(self).is_mapped(v) && (old(self).is_mapped(v) ==> self.mapped_pte(v) == old(
                self,
            ).mapped_pte(v)) by {
                lemma_index_bounds(v);
                if v.level_index(0) == vpn.level_index(0) {
                    if v.level_index(1) == vpn.level_index(1) && v.level_index(2)
                        == vpn.level_index(2) {
                        lemma_level_indices_injective(v, vpn);
                    }
                }
            }
        }
    }

    /// Read-only walk: the leaf entry reached from the page number, or
    /// nothing if a link on the way is missing.
    pub fn translate(&self, vpn: VirtPageNum) -> (r: Option<PageTableEntry>)
        requires
            self.wf(),
            vpn.wf(),
        ensures
            r == self.walk(vpn),
    {
        let idx = vpn.indexes();
        match &self.slots[idx[0]] {
            Some(mid) => match &mid.kids[idx[1]] {
                Some(leaf) => Some(leaf.get(idx[2])),
                None => None,
            },
            None => None,
        }
    }

    /// Translate a virtual address to the physical address its page is
    /// mapped at, or nothing if its page is not mapped.
    pub fn translate_va(&self, va: VirtAddr) -> (r: Option<PhysAddr>)
        requires
            self.wf(),
            va.wf(),
        ensures
            self.is_mapped(VirtPageNum { 0: va.0 / PAGE_SIZE }) ==> (r matches Some(pa) && pa.0
                == self.mapped_pte(VirtPageNum { 0: va.0 / PAGE_SIZE }).spec_ppn() * PAGE_SIZE
                + va.0 % PAGE_SIZE),
            !self.is_mapped(VirtPageNum { 0: va.0 / PAGE_SIZE }) ==> r is None,
    {
        let vpn = va.floor();
        match self.translate(vpn) {
            Some(pte) => {
                if pte.is_valid() {
                    let ppn = pte.ppn();
                    let base = ppn.base_addr();
                    Some(PhysAddr(base.0 + va.page_offset()))
                } else {
                    None
                }
            },
            None => None,
        }
    }
}

} // verus!
