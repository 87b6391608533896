//! Physical and virtual addresses and page numbers under SV39.
//!
//! A physical address has 56 significant bits and a physical page number
//! 44; a virtual address has 39 significant bits and a virtual page
//! number 27, split into three 9-bit page-table indices.

use vstd::prelude::*;

use crate::config::PAGE_SIZE;

verus! {

/// A physical address.
#[derive(Clone, Copy, PartialEq, Eq, Structural, Debug)]
pub struct PhysAddr(pub u64);

/// A virtual address.
#[derive(Clone, Copy, PartialEq, Eq, Structural, Debug)]
pub struct VirtAddr(pub u64);

/// A physical page number.
#[derive(Clone, Copy, PartialEq, Eq, Structural, Debug)]
pub struct PhysPageNum(pub u64);

/// A virtual page number.
#[derive(Clone, Copy, PartialEq, Eq, Structural, Debug)]
pub struct VirtPageNum(pub u64);

impl PhysAddr {
    /// A physical address carries 56 significant bits.
    pub open spec fn wf(self) -> bool {
        self.0 < 0x100_0000_0000_0000
    }

    /// Keep the 56 low bits of a raw machine word.
    pub fn from_raw(v: u64) -> (r: Self)
        ensures
            r.0 == v % 0x100_0000_0000_0000,
            r.wf(),
    {
        proof {
            assert(v & 0xff_ffff_ffff_ffff == v % 0x100_0000_0000_0000) by (bit_vector);
        }
        PhysAddr(v & 0xff_ffff_ffff_ffff)
    }

    /// Offset of the address within its page.
    pub fn page_offset(&self) -> (r: u64)
        ensures
            r == self.0 % PAGE_SIZE,
    {
        proof {
            let v = self.0;
            assert(v & 0xfff == v % 4096) by (bit_vector);
        }
        self.0 & 0xfff
    }

    /// Number of the page the address falls on.
    pub fn floor(&self) -> (r: PhysPageNum)
        ensures
            r.0 == self.0 / PAGE_SIZE,
    {
        PhysPageNum(self.0 / PAGE_SIZE)
    }

    /// Number of the first page that starts at or after the address.
    pub fn ceil(&self) -> (r: PhysPageNum)
        requires
            self.wf(),
        ensures
            r.0 == (self.0 + PAGE_SIZE - 1) / (PAGE_SIZE as int),
    {
        PhysPageNum((self.0 + PAGE_SIZE - 1) / PAGE_SIZE)
    }

    /// Whether the address sits on a page boundary.
    pub fn aligned(&self) -> (r: bool)
        ensures
            r <==> self.0 % PAGE_SIZE == 0,
    {
        self.page_offset() == 0
    }
}

impl PhysPageNum {
    /// A physical page number carries 44 significant bits.
    pub open spec fn wf(self) -> bool {
        self.0 < 0x1000_0000_0000
    }

    /// Keep the 44 low bits of a raw machine word.
    pub fn from_raw(v: u64) -> (r: Self)
        ensures
            r.0 == v % 0x1000_0000_0000,
            r.wf(),
    {
        proof {
            assert(v & 0xfff_ffff_ffff == v % 0x1000_0000_0000) by (bit_vector);
        }
        PhysPageNum(v & 0xfff_ffff_ffff)
    }

    /// The first address of the page.
    pub fn base_addr(&self) -> (r: PhysAddr)
        requires
            self.wf(),
        ensures
            r.0 == self.0 * PAGE_SIZE,
            r.wf(),
    {
        PhysAddr(self.0 * PAGE_SIZE)
    }
}

impl VirtAddr {
    /// A virtual address carries 39 significant bits.
    pub open spec fn wf(self) -> bool {
        self.0 < 0x80_0000_0000
    }

    /// Keep the 39 low bits of a raw machine word.
    pub fn from_raw(v: u64) -> (r: Self)
        ensures
            r.0 == v % 0x80_0000_0000,
            r.wf(),
    {
        proof {
            assert(v & 0x7f_ffff_ffff == v % 0x80_0000_0000) by (bit_vector);
        }
        VirtAddr(v & 0x7f_ffff_ffff)
    }

    /// The full machine word the address stands for: bits above the
    /// 39th repeat bit 38.
    pub fn canonical(&self) -> (r: u64)
        requires
            self.wf(),
        ensures
            self.0 < 0x40_0000_0000 ==> r == self.0,
            self.0 >= 0x40_0000_0000 ==> r == self.0 + 0xffff_ff80_0000_0000u64,
    {
        if self.0 >= 0x40_0000_0000 {
            proof {
                let v = self.0;
                assert(v < 0x80_0000_0000 && v >= 0x40_0000_0000 ==> (v
                    | 0xffff_ff80_0000_0000) == v + 0xffff_ff80_0000_0000) by (bit_vector);
            }
            self.0 | 0xffff_ff80_0000_0000u64
        } else {
            self.0
        }
    }

    /// Offset of the address within its page.
    pub fn page_offset(&self) -> (r: u64)
        ensures
            r == self.0 % PAGE_SIZE,
    {
        proof {
            let v = self.0;
            assert(v & 0xfff == v % 4096) by (bit_vector);
        }
        self.0 & 0xfff
    }

    /// Number of the page the address falls on.
    pub fn floor(&self) -> (r: VirtPageNum)
        ensures
            r.0 == self.0 / PAGE_SIZE,
    {
        VirtPageNum(self.0 / PAGE_SIZE)
    }

    /// Number of the first page that starts at or after the address.
    pub fn ceil(&self) -> (r: VirtPageNum)
        requires
            self.wf(),
        ensures
            r.0 == (self.0 + PAGE_SIZE - 1) / (PAGE_SIZE as int),
    {
        VirtPageNum((self.0 + PAGE_SIZE - 1) / PAGE_SIZE)
    }

    /// Whether the address sits on a page boundary.
    pub fn aligned(&self) -> (r: bool)
        ensures
            r <==> self.0 % PAGE_SIZE == 0,
    {
        self.page_offset() == 0
    }
}

impl VirtPageNum {
    /// A virtual page number carries 27 significant bits.
    pub open spec fn wf(self) -> bool {
        self.0 < 0x800_0000
    }

    /// Keep the 27 low bits of a raw machine word.
    pub fn from_raw(v: u64) -> (r: Self)
        ensures
            r.0 == v % 0x800_0000,
            r.wf(),
    {
        proof {
            assert(v & 0x7ff_ffff == v % 0x800_0000) by (bit_vector);
        }
        VirtPageNum(v & 0x7ff_ffff)
    }

    /// The first address of the page.
    pub fn base_addr(&self) -> (r: VirtAddr)
        requires
            self.wf(),
        ensures
            r.0 == self.0 * PAGE_SIZE,
            r.wf(),
    {
        VirtAddr(self.0 * PAGE_SIZE)
    }

    /// Page-table index of the page number at the given level: level 0
    /// selects the root entry.
    pub open spec fn level_index(self, level: int) -> int {
        if level == 0 {
            self.0 as int / 0x40000
        } else if level == 1 {
            (self.0 as int / 0x200) % 0x200
        } else {
            self.0 as int % 0x200
        }
    }

    /// The three 9-bit page-table indices of the page number, highest
    /// level first.
    pub fn indexes(&self) -> (r: [usize; 3])
        requires
            self.wf(),
        ensures
            r[0] == self.level_index(0),
            r[1] == self.level_index(1),
            r[2] == self.level_index(2),
            0 <= self.level_index(0) < 512,
            0 <= self.level_index(1) < 512,
            0 <= self.level_index(2) < 512,
    {
        proof {
            let v = self.0;
            assert(v < 0x800_0000 ==> ((v >> 18) & 0x1ff) == v / 0x40000) by (bit_vector);
            assert(((v >> 9) & 0x1ff) == (v / 0x200) % 0x200) by (bit_vector);
            assert((v & 0x1ff) == v % 0x200) by (bit_vector);
            assert(v / 0x40000 < 0x200);
        }
        let i0 = ((self.0 >> 18) & 0x1ff) as usize;
        let i1 = ((self.0 >> 9) & 0x1ff) as usize;
        let i2 = (self.0 & 0x1ff) as usize;
        [i0, i1, i2]
    }
}

/// Two distinct well-formed page numbers differ in at least one of
/// their three page-table indices.
pub proof fn lemma_level_indices_injective(a: VirtPageNum, b: VirtPageNum)
    requires
        a.wf(),
        b.wf(),
        a.level_index(0) == b.level_index(0),
        a.level_index(1) == b.level_index(1),
        a.level_index(2) == b.level_index(2),
    ensures
        a.0 == b.0,
{
    let x = a.0 as int;
    let y = b.0 as int;
    assert(x == (x / 0x40000) * 0x40000 + ((x / 0x200) % 0x200) * 0x200 + x % 0x200) by (nonlinear_arith)
        requires 0 <= x < 0x800_0000;
    assert(y == (y / 0x40000) * 0x40000 + ((y / 0x200) % 0x200) * 0x200 + y % 0x200) by (nonlinear_arith)
        requires 0 <= y < 0x800_0000;
}

/// Stepping forward by one page.
pub trait StepByOne: Sized + Copy {
    /// The numeric value that stepping increments.
    spec fn sval(&self) -> int;

    /// The value always fits the machine word.
    proof fn sval_in_range(&self)
        ensures
            0 <= self.sval() < 0x1_0000_0000_0000_0000,
    ;

    /// Move to the next page number.
    fn step(&mut self)
        requires
            old(self).sval() + 1 < 0x1_0000_0000_0000_0000,
        ensures
            final(self).sval() == old(self).sval() + 1,
    ;

    /// Order on page numbers.
    fn leq(&self, other: &Self) -> (r: bool)
        ensures
            r <==> self.sval() <= other.sval(),
    ;

    /// Equality on page numbers.
    fn same_as(&self, other: &Self) -> (r: bool)
        ensures
            r <==> self.sval() == other.sval(),
    ;
}

impl StepByOne for VirtPageNum {
    open spec fn sval(&self) -> int {
        self.0 as int
    }

    proof fn sval_in_range(&self) {
    }

    fn step(&mut self) {
        self.0 = self.0 + 1;
    }

    fn leq(&self, other: &Self) -> (r: bool) {
        self.0 <= other.0
    }

    fn same_as(&self, other: &Self) -> (r: bool) {
        self.0 == other.0
    }
}

impl StepByOne for PhysPageNum {
    open spec fn sval(&self) -> int {
        self.0 as int
    }

    proof fn sval_in_range(&self) {
    }

    fn step(&mut self) {
        self.0 = self.0 + 1;
    }

    fn leq(&self, other: &Self) -> (r: bool) {
        self.0 <= other.0
    }

    fn same_as(&self, other: &Self) -> (r: bool) {
        self.0 == other.0
    }
}

/// A half-open range of page numbers.
#[derive(Clone, Copy)]
pub struct SimpleRange<T: StepByOne> {
    l: T,
    r: T,
}

impl<T: StepByOne> SimpleRange<T> {
    /// Left end of the range.
    pub closed spec fn start(self) -> T {
        self.l
    }

    /// Right end of the range.
    pub closed spec fn end(self) -> T {
        self.r
    }

    /// Build the range `[start, end)`.
    pub fn new(start: T, end: T) -> (s: Self)
        requires
            start.sval() <= end.sval(),
        ensures
            s.start() == start,
            s.end() == end,
    {
        SimpleRange { l: start, r: end }
    }

    /// Left end of the range.
    pub fn get_start(&self) -> (r: T)
        ensures
            r == self.start(),
    {
        self.l
    }

    /// Right end of the range.
    pub fn get_end(&self) -> (r: T)
        ensures
            r == self.end(),
    {
        self.r
    }

    /// Walk the range from its left end.
    pub fn iter(&self) -> (it: SimpleRangeIterator<T>)
        ensures
            it.current() == self.start(),
            it.until() == self.end(),
    {
        SimpleRangeIterator::new(self.l, self.r)
    }
}

/// Walks a [`SimpleRange`] page by page.
pub struct SimpleRangeIterator<T: StepByOne> {
    cur: T,
    end: T,
}

impl<T: StepByOne> SimpleRangeIterator<T> {
    /// The next page number to hand out.
    pub closed spec fn current(self) -> T {
        self.cur
    }

    /// The page number that stops the walk.
    pub closed spec fn until(self) -> T {
        self.end
    }

    /// Start a walk of `[l, r)`.
    pub fn new(l: T, r: T) -> (it: Self)
        ensures
            it.current() == l,
            it.until() == r,
    {
        SimpleRangeIterator { cur: l, end: r }
    }

    /// Hand out the next page number, or nothing once the walk has
    /// reached its stop.
    pub fn next(&mut self) -> (r: Option<T>)
        requires
            old(self).current().sval() <= old(self).until().sval(),
        ensures
            final(self).until() == old(self).until(),
            old(self).current().sval() == old(self).until().sval() ==> r is None
                && final(self).current() == old(self).current(),
            old(self).current().sval() < old(self).until().sval() ==> r == Some(
                old(self).current(),
            ) && final(self).current().sval() == old(self).current().sval() + 1,
    {
        if self.cur.same_as(&self.end) {
            None
        } else {
            let t = self.cur;
            proof {
                self.end.sval_in_range();
            }
            self.cur.step();
            Some(t)
        }
    }
}

/// A half-open range of virtual page numbers.
pub type VPNRange = SimpleRange<VirtPageNum>;

} // verus!
