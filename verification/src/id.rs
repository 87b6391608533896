//! Recycling integer-id allocation, used for process ids, per-process
//! thread ids and kernel-stack slots, and the fixed placement of each
//! kernel stack below the trampoline.

use vstd::prelude::*;

use crate::config::{KERNEL_STACK_GUARD, KERNEL_STACK_SIZE, TRAMPOLINE};

verus! {

/// Hands out increasing ids and reissues freed ones.
pub struct RecycleAllocator {
    current: u64,
    recycled: Vec<u64>,
}

impl RecycleAllocator {
    /// The next never-issued id.
    pub closed spec fn spec_current(self) -> u64 {
        self.current
    }

    /// Whether the id sits on the recycle stack.
    pub closed spec fn in_recycled(self, id: u64) -> bool {
        self.recycled@.contains(id)
    }

    /// Whether the id is issued and not freed since.
    pub open spec fn id_in_use(self, id: u64) -> bool {
        id < self.spec_current() && !self.in_recycled(id)
    }

    /// Issued ids stay below the watermark and freed ids are distinct.
    pub closed spec fn wf(self) -> bool {
        &&& self.current <= 0x8000_0000_0000_0000
        &&& forall|i: int| 0 <= i < self.recycled@.len() ==> self.recycled@[i] < self.current
        &&& forall|i: int, j: int|
            0 <= i < self.recycled@.len() && 0 <= j < self.recycled@.len() && i != j
                ==> self.recycled@[i] != self.recycled@[j]
    }

    /// An allocator with no id issued.
    pub fn new() -> (r: Self)
        ensures
            r.wf(),
            r.spec_current() == 0,
            forall|id: u64| !r.id_in_use(id),
    {
        RecycleAllocator { current: 0, recycled: Vec::new() }
    }

    /// Issue an id: a freed one if any, else the next fresh one. The
    /// result is not in use before the call and in use after it; no
    /// other id changes state.
    pub fn alloc_id(&mut self) -> (r: u64)
        requires
            old(self).wf(),
            old(self).spec_current() < 0x8000_0000_0000_0000,
        ensures
            final(self).wf(),
            !old(self).id_in_use(r),
            final(self).id_in_use(r),
            forall|q: u64| q != r ==> final(self).id_in_use(q) == old(self).id_in_use(q),
            final(self).spec_current() <= old(self).spec_current() + 1,
            final(self).spec_current() < 0x8000_0000_0000_0001,
    {
        let popped = self.recycled.pop();
        match popped {
            Some(id) => {
                proof {
                    let old_rec = old(self).recycled@;
                    assert(old_rec[old_rec.len() - 1] == id);
                    assert(old_rec.contains(id));
                    assert forall|q: u64| q != id implies self.recycled@.contains(q)
                        == old_rec.contains(q) by {
                        if old_rec.contains(q) {
                            let i = choose|i: int| 0 <= i < old_rec.len() && old_rec[i] == q;
                            assert(i != old_rec.len() - 1);
                            assert(self.recycled@[i] == q);
                        }
                        if self.recycled@.contains(q) {
                            let i = choose|i: int|
                                0 <= i < self.recycled@.len() && self.recycled@[i] == q;
                            assert(old_rec[i] == q);
                        }
                    }
                    assert(!self.recycled@.contains(id)) by {
                        if self.recycled@.contains(id) {
                            let i = choose|i: int|
                                0 <= i < self.recycled@.len() && self.recycled@[i] == id;
                            assert(old_rec[i] == old_rec[old_rec.len() - 1]);
                        }
                    }
                }
                id
            },
            None => {
                let id = self.current;
                self.current = self.current + 1;
                proof {
                    assert(old(self).recycled@.len() == 0);
                    assert(forall|q: u64| !old(self).in_recycled(q) && !self.in_recycled(q));
                }
                id
            },
        }
    }

    /// Free an id for reissue. Freeing an id that is not in use is
    /// fatal in the kernel, so it is excluded here.
    pub fn dealloc_id(&mut self, id: u64)
        requires
            old(self).wf(),
            old(self).id_in_use(id),
        ensures
            final(self).wf(),
            final(self).spec_current() == old(self).spec_current(),
            !final(self).id_in_use(id),
            forall|q: u64| q != id ==> final(self).id_in_use(q) == old(self).id_in_use(q),
    {
        self.recycled.push(id);
        proof {
            assert(self.recycled@[self.recycled@.len() - 1] == id);
            assert forall|q: u64| q != id implies self.recycled@.contains(q) == old(
                self,
            ).recycled@.contains(q) by {
                if self.recycled@.contains(q) {
                    let i = choose|i: int|
                        0 <= i < self.recycled@.len() && self.recycled@[i] == q;
                    assert(i != self.recycled@.len() - 1);
                    assert(old(self).recycled@[i] == q);
                }
                if old(self).recycled@.contains(q) {
                    let i = choose|i: int|
                        0 <= i < old(self).recycled@.len() && old(self).recycled@[i] == q;
                    assert(self.recycled@[i] == q);
                }
            }
        }
    }
}

/// Highest address (exclusive) of the kernel stack in slot `kstack_id`:
/// slots stack downwards from the trampoline, a guard gap between any
/// two.
pub fn kernel_stack_position(kstack_id: u64) -> (r: (u64, u64))
    requires
        kstack_id < 0x1_0000_0000,
    ensures
        r.1 == TRAMPOLINE - kstack_id * (KERNEL_STACK_SIZE + KERNEL_STACK_GUARD),
        r.0 == r.1 - KERNEL_STACK_SIZE,
        r.0 < r.1,
{
    proof {
        assert(kstack_id * (KERNEL_STACK_SIZE + KERNEL_STACK_GUARD) <= 0x1_0000_0000 * (
        KERNEL_STACK_SIZE + KERNEL_STACK_GUARD)) by (nonlinear_arith)
            requires
                kstack_id <= 0x1_0000_0000,
        ;
    }
    let top: u64 = TRAMPOLINE - kstack_id * (KERNEL_STACK_SIZE + KERNEL_STACK_GUARD);
    let bottom: u64 = top - KERNEL_STACK_SIZE;
    (bottom, top)
}

} // verus!
