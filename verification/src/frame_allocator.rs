//! The physical-frame allocator and the tracker that owns one frame.
//!
//! The allocator hands out page numbers from `[begin, end)` by bumping a
//! watermark, and reuses returned pages from a recycle stack. A
//! [`FrameTracker`] owns one allocated page together with its contents;
//! the page returns to the allocator exactly once, when the tracker is
//! handed to [`frame_dealloc`].

use vstd::prelude::*;

use crate::address::PhysPageNum;
use crate::config::{PAGE_SIZE, PPN_LIMIT};

verus! {

/// A stack-style physical-frame allocator.
pub struct StackFrameAllocator {
    current: u64,
    end: u64,
    recycled: Vec<u64>,
}

impl StackFrameAllocator {
    /// The watermark: pages at or above it (and below `end`) were never
    /// issued.
    pub closed spec fn spec_current(self) -> u64 {
        self.current
    }

    /// First page number past the managed range.
    pub closed spec fn spec_end(self) -> u64 {
        self.end
    }

    /// How many pages sit on the recycle stack.
    pub closed spec fn spec_free_count(self) -> int {
        self.recycled@.len() as int
    }

    /// How many more frames the allocator can still hand out.
    pub open spec fn spec_avail(self) -> int {
        self.spec_end() - self.spec_current() + self.spec_free_count()
    }

    /// Whether the page sits on the recycle stack.
    pub closed spec fn in_recycled(self, p: u64) -> bool {
        self.recycled@.contains(p)
    }

    /// Whether the allocator treats the page as allocated: issued at
    /// some point and not returned since.
    pub open spec fn allocated(self, p: u64) -> bool {
        p < self.spec_current() && !self.in_recycled(p)
    }

    /// Whether the page may be returned: exactly the condition under
    /// which the kernel does not declare a double or stray free fatal.
    pub open spec fn can_dealloc(self, p: u64) -> bool {
        p < self.spec_current() && !self.in_recycled(p)
    }

    /// The allocator's bookkeeping is consistent: the watermark is
    /// inside the managed range and the recycle stack holds distinct
    /// pages below the watermark.
    pub closed spec fn wf(self) -> bool {
        &&& self.current <= self.end
        &&& self.end <= PPN_LIMIT
        &&& forall|i: int| 0 <= i < self.recycled@.len() ==> self.recycled@[i] < self.current
        &&& forall|i: int, j: int|
            0 <= i < self.recycled@.len() && 0 <= j < self.recycled@.len() && i != j
                ==> self.recycled@[i] != self.recycled@[j]
    }

    /// An allocator that manages nothing yet.
    pub fn new() -> (r: Self)
        ensures
            r.wf(),
            r.spec_current() == 0,
            r.spec_end() == 0,
            r.spec_free_count() == 0,
            forall|p: u64| !r.allocated(p),
    {
        StackFrameAllocator { current: 0, end: 0, recycled: Vec::new() }
    }

    /// Hand the allocator the range `[l, r)` of physical pages.
    pub fn init(&mut self, l: PhysPageNum, r: PhysPageNum)
        requires
            old(self).wf(),
            old(self).spec_current() == 0,
            old(self).spec_end() == 0,
            l.0 <= r.0,
            r.0 <= PPN_LIMIT,
        ensures
            final(self).wf(),
            final(self).spec_current() == l.0,
            final(self).spec_end() == r.0,
            final(self).spec_free_count() == old(self).spec_free_count(),
            forall|p: u64| final(self).in_recycled(p) == old(self).in_recycled(p),
    {
        proof {
            assert(forall|i: int|
                0 <= i < old(self).recycled@.len() ==> old(self).recycled@[i] < 0);
        }
        self.current = l.0;
        self.end = r.0;
    }

    /// A consistent recycle stack can hold at most one entry per page
    /// below the watermark.
    pub proof fn lemma_free_count_bound(&self)
        requires
            self.wf(),
        ensures
            self.spec_free_count() <= self.spec_current(),
    {
        let s = self.recycled@.map_values(|x: u64| x as int);
        assert(s.no_duplicates());
        s.unique_seq_to_set();
        assert(s.to_set().subset_of(vstd::set_lib::set_int_range(0, self.current as int))) by {
            assert forall|e: int| s.to_set().contains(e) implies vstd::set_lib::set_int_range(
                0,
                self.current as int,
            ).contains(e) by {
                let i = choose|i: int| 0 <= i < s.len() && s[i] == e;
                assert(self.recycled@[i] < self.current);
            }
        }
        vstd::set_lib::lemma_int_range(0, self.current as int);
        vstd::set_lib::lemma_len_subset(
            s.to_set(),
            vstd::set_lib::set_int_range(0, self.current as int),
        );
    }

    /// How many more frames can still be handed out.
    pub fn avail_frames(&self) -> (r: u64)
        requires
            self.wf(),
        ensures
            r == self.spec_avail(),
    {
        proof {
            self.lemma_free_count_bound();
        }
        self.end - self.current + (self.recycled.len() as u64)
    }

    /// Pop a recycled page or bump the watermark; nothing is handed out
    /// once the range is exhausted. A returned page was not allocated
    /// before the call, is allocated after it, and no other page
    /// changes state.
    pub fn alloc_frame(&mut self) -> (r: Option<PhysPageNum>)
        requires
            old(self).wf(),
        ensures
            final(self).wf(),
            final(self).spec_end() == old(self).spec_end(),
            r is Some <==> old(self).spec_avail() > 0,
            r is Some ==> final(self).spec_avail() == old(self).spec_avail() - 1,
            old(self).spec_free_count() == 0 && old(self).spec_current() < old(self).spec_end()
                ==> r == Some(PhysPageNum(old(self).spec_current())) && final(self).spec_current()
                == old(self).spec_current() + 1,
            old(self).spec_free_count() > 0 ==> final(self).spec_current() == old(
                self,
            ).spec_current(),
            r matches Some(p) ==> {
                &&& p.0 < PPN_LIMIT
                &&& p.wf()
                &&& !old(self).allocated(p.0)
                &&& final(self).allocated(p.0)
                &&& forall|q: u64| q != p.0 ==> final(self).allocated(q) == old(self).allocated(q)
            },
            r is None ==> final(self).spec_current() == old(self).spec_current() && forall|
                q: u64,
            | final(self).allocated(q) == old(self).allocated(q),
    {
        let popped = self.recycled.pop();
        match popped {
            Some(p) => {
                proof {
                    let old_rec = old(self).recycled@;
                    assert(old_rec[old_rec.len() - 1] == p);
                    assert(old_rec.contains(p));
                    assert forall|q: u64| q != p implies self.recycled@.contains(q) == old_rec.contains(
                        q,
                    ) by {
                        if old_rec.contains(q) {
                            let i = choose|i: int| 0 <= i < old_rec.len() && old_rec[i] == q;
                            assert(i != old_rec.len() - 1);
                            assert(self.recycled@[i] == q);
                        }
                        if self.recycled@.contains(q) {
                            let i = choose|i: int|
                                0 <= i < self.recycled@.len() && self.recycled@[i] == q;
                            assert(old_rec[i] == q);
                        }
                    }
                    assert(!self.recycled@.contains(p)) by {
                        if self.recycled@.contains(p) {
                            let i = choose|i: int|
                                0 <= i < self.recycled@.len() && self.recycled@[i] == p;
                            assert(old_rec[i] == old_rec[old_rec.len() - 1]);
                        }
                    }
                }
                Some(PhysPageNum(p))
            },
            None => {
                if self.current == self.end {
                    None
                } else {
                    let p = self.current;
                    self.current = self.current + 1;
                    proof {
                        assert(old(self).recycled@.len() == 0);
                        assert(forall|q: u64| !old(self).in_recycled(q) && !self.in_recycled(q));
                    }
                    Some(PhysPageNum(p))
                }
            },
        }
    }

    /// Return a page to the recycle stack. Returning a page that is not
    /// currently allocated is fatal in the kernel, so it is excluded
    /// here.
    pub fn dealloc(&mut self, ppn: PhysPageNum)
        requires
            old(self).wf(),
            old(self).can_dealloc(ppn.0),
        ensures
            final(self).wf(),
            final(self).spec_current() == old(self).spec_current(),
            final(self).spec_end() == old(self).spec_end(),
            !final(self).allocated(ppn.0),
            final(self).in_recycled(ppn.0),
            final(self).spec_avail() == old(self).spec_avail() + 1,
            forall|q: u64| q != ppn.0 ==> final(self).allocated(q) == old(self).allocated(q),
    {
        self.recycled.push(ppn.0);
        proof {
            assert(self.recycled@[self.recycled@.len() - 1] == ppn.0);
            assert forall|q: u64| q != ppn.0 implies self.recycled@.contains(q) == old(
                self,
            ).recycled@.contains(q) by {
                if self.recycled@.contains(q) {
                    let i = choose|i: int|
                        0 <= i < self.recycled@.len() && self.recycled@[i] == q;
                    assert(i != self.recycled@.len() - 1);
                    assert(old(self).recycled@[i] == q);
                }
                if old(self).recycled@.contains(q) {
                    let i = choose|i: int|
                        0 <= i < old(self).recycled@.len() && old(self).recycled@[i] == q;
                    assert(self.recycled@[i] == q);
                }
            }
        }
    }
}

/// Right after a page is returned, returning it a second time is no
/// longer permitted: a frame goes back to the allocator exactly once.
pub proof fn lemma_second_dealloc_excluded(a: StackFrameAllocator, p: PhysPageNum)
    requires
        a.in_recycled(p.0),
    ensures
        !a.can_dealloc(p.0),
{
}

/// Exclusive owner of one allocated physical page and its contents.
/// The page's bytes live here; they are zeroed when the frame is
/// handed out.
pub struct FrameTracker {
    /// The page this tracker owns.
    pub ppn: PhysPageNum,
    /// The page's contents.
    pub data: Vec<u8>,
}

impl FrameTracker {
    /// A tracker always holds one whole page of bytes.
    pub open spec fn wf(self) -> bool {
        &&& self.data@.len() == PAGE_SIZE
        &&& self.ppn.wf()
    }

    /// The contents of the page.
    pub open spec fn bytes(self) -> Seq<u8> {
        self.data@
    }

    /// Take ownership of a page and zero it.
    pub fn new(ppn: PhysPageNum) -> (r: Self)
        requires
            ppn.wf(),
        ensures
            r.wf(),
            r.ppn == ppn,
            r.bytes() =~= Seq::new(PAGE_SIZE as nat, |i: int| 0u8),
    {
        let mut data: Vec<u8> = Vec::new();
        let mut k: usize = 0;
        while k < 4096
            invariant
                k == data@.len(),
                k <= 4096,
                forall|i: int| 0 <= i < k ==> data@[i] == 0u8,
            decreases 4096 - k,
        {
            data.push(0u8);
            k = k + 1;
        }
        FrameTracker { ppn, data }
    }

    /// Read the byte at an offset within the page.
    pub fn read_byte(&self, off: usize) -> (r: u8)
        requires
            self.wf(),
            off < PAGE_SIZE,
        ensures
            r == self.bytes()[off as int],
    {
        self.data[off]
    }

    /// Overwrite the byte at an offset within the page.
    pub fn write_byte(&mut self, off: usize, b: u8)
        requires
            old(self).wf(),
            off < PAGE_SIZE,
        ensures
            final(self).wf(),
            final(self).ppn == old(self).ppn,
            final(self).bytes() == old(self).bytes().update(off as int, b),
    {
        self.data[off] = b;
    }

    /// Copy `n` bytes of `src`, starting at `src_start`, to the start
    /// of the page; the rest of the page keeps its contents.
    pub fn write_from(&mut self, src: &Vec<u8>, src_start: usize, n: usize)
        requires
            old(self).wf(),
            n <= PAGE_SIZE,
            src_start + n <= src@.len(),
        ensures
            final(self).wf(),
            final(self).ppn == old(self).ppn,
            forall|k: int| 0 <= k < n ==> final(self).bytes()[k] == src@[src_start + k],
            forall|k: int|
                n <= k < PAGE_SIZE ==> final(self).bytes()[k] == old(self).bytes()[k],
    {
        let total = src.len();
        let mut k: usize = 0;
        while k < n
            invariant
                old(self).wf(),
                self.wf(),
                self.ppn == old(self).ppn,
                k <= n,
                n <= PAGE_SIZE,
                total == src@.len(),
                src_start + n <= total,
                forall|i: int| 0 <= i < k ==> self.bytes()[i] == src@[src_start + i],
                forall|i: int| k <= i < PAGE_SIZE ==> self.bytes()[i] == old(self).bytes()[i],
            decreases n - k,
        {
            let b = src[src_start + k];
            self.write_byte(k, b);
            k = k + 1;
        }
    }

    /// Copy the whole page contents of another frame over this one.
    pub fn copy_page_from(&mut self, src: &FrameTracker)
        requires
            old(self).wf(),
            src.wf(),
        ensures
            final(self).wf(),
            final(self).ppn == old(self).ppn,
            final(self).bytes() =~= src.bytes(),
    {
        let mut k: usize = 0;
        while k < 4096
            invariant
                old(self).wf(),
                src.wf(),
                self.wf(),
                self.ppn == old(self).ppn,
                k <= 4096,
                forall|i: int| 0 <= i < k ==> self.bytes()[i] == src.bytes()[i],
            decreases 4096 - k,
        {
            let b = src.read_byte(k);
            self.write_byte(k, b);
            k = k + 1;
        }
    }
}

/// Take one frame from the allocator, zeroed, in a fresh tracker.
pub fn frame_alloc(a: &mut StackFrameAllocator) -> (r: Option<FrameTracker>)
    requires
        old(a).wf(),
    ensures
        final(a).wf(),
        final(a).spec_end() == old(a).spec_end(),
        r is Some <==> old(a).spec_avail() > 0,
        old(a).spec_free_count() == 0 && old(a).spec_current() < old(a).spec_end() ==> (r matches
            Some(f) && f.ppn.0 == old(a).spec_current()) && final(a).spec_current() == old(
            a,
        ).spec_current() + 1,
        r matches Some(f) ==> {
            &&& f.wf()
            &&& f.bytes() =~= Seq::new(PAGE_SIZE as nat, |i: int| 0u8)
            &&& !old(a).allocated(f.ppn.0)
            &&& final(a).allocated(f.ppn.0)
            &&& forall|q: u64| q != f.ppn.0 ==> final(a).allocated(q) == old(a).allocated(q)
            &&& final(a).spec_avail() == old(a).spec_avail() - 1
        },
        r is None ==> final(a).spec_current() == old(a).spec_current() && forall|q: u64|
            final(a).allocated(q) == old(a).allocated(q),
{
    match a.alloc_frame() {
        Some(ppn) => Some(FrameTracker::new(ppn)),
        None => None,
    }
}

/// Give a tracked frame back to the allocator. Consuming the tracker
/// here is the model of dropping it: the page cannot be returned twice
/// because the tracker is gone.
pub fn frame_dealloc(a: &mut StackFrameAllocator, frame: FrameTracker)
    requires
        old(a).wf(),
        old(a).can_dealloc(frame.ppn.0),
    ensures
        final(a).wf(),
        !final(a).allocated(frame.ppn.0),
        forall|q: u64| q != frame.ppn.0 ==> final(a).allocated(q) == old(a).allocated(q),
        final(a).spec_avail() == old(a).spec_avail() + 1,
        final(a).spec_end() == old(a).spec_end(),
        final(a).spec_current() == old(a).spec_current(),
{
    a.dealloc(frame.ppn);
}

/// Hand the allocator the pages between the end of the kernel image and
/// the end of physical memory.
pub fn init_frame_allocator(a: &mut StackFrameAllocator, ekernel: crate::address::PhysAddr)
    requires
        old(a).wf(),
        old(a).spec_current() == 0,
        old(a).spec_end() == 0,
        ekernel.wf(),
        ekernel.0 <= crate::config::MEMORY_END,
    ensures
        final(a).wf(),
        final(a).spec_current() == (ekernel.0 + PAGE_SIZE - 1) / (PAGE_SIZE as int),
        final(a).spec_end() == crate::config::MEMORY_END / PAGE_SIZE,
{
    let l = ekernel.ceil();
    let r = crate::address::PhysAddr(crate::config::MEMORY_END).floor();
    a.init(l, r);
}

} // verus!
