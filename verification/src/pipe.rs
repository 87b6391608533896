//! A pipe: a bounded ring buffer between a read end and a write end.
//! Bytes come out in exactly the order they went in.

use vstd::prelude::*;

verus! {

/// Capacity of a pipe's ring buffer.
pub const RING_BUFFER_SIZE: usize = 32;

/// A pipe's ring buffer together with the state of its two ends.
pub struct Pipe {
    /// The backing storage.
    pub arr: Vec<u8>,
    /// Index of the oldest byte.
    pub head: usize,
    /// Index one past the newest byte.
    pub tail: usize,
    /// Number of buffered bytes.
    pub count: usize,
    /// Whether the write end has been closed.
    pub write_closed: bool,
    /// Whether the read end has been closed.
    pub read_closed: bool,
}

impl Pipe {
    /// The bytes currently buffered, oldest first.
    pub closed spec fn contents(self) -> Seq<u8> {
        Seq::new(
            self.count as nat,
            |i: int| self.arr@[((self.head + i) % (RING_BUFFER_SIZE as int))],
        )
    }

    /// The buffer's bookkeeping is consistent.
    pub closed spec fn wf(self) -> bool {
        &&& self.arr@.len() == RING_BUFFER_SIZE
        &&& self.head < RING_BUFFER_SIZE
        &&& self.tail < RING_BUFFER_SIZE
        &&& self.count <= RING_BUFFER_SIZE
        &&& self.tail == (self.head + self.count) % (RING_BUFFER_SIZE as int)
    }

    /// How many bytes are buffered.
    pub open spec fn len(self) -> int {
        self.contents().len() as int
    }

    /// A consistent pipe never buffers more than the ring's capacity.
    pub proof fn lemma_len_bound(self)
        requires
            self.wf(),
        ensures
            self.contents().len() <= RING_BUFFER_SIZE,
    {
    }

    /// An empty pipe with both ends open.
    pub fn new() -> (r: Self)
        ensures
            r.wf(),
            r.contents() =~= Seq::<u8>::empty(),
            !r.write_closed,
            !r.read_closed,
    {
        let mut arr: Vec<u8> = Vec::new();
        let mut k: usize = 0;
        while k < 32
            invariant
                k == arr@.len(),
                k <= 32,
            decreases 32 - k,
        {
            arr.push(0u8);
            k = k + 1;
        }
        Pipe { arr, head: 0, tail: 0, count: 0, write_closed: false, read_closed: false }
    }

    /// Append one byte, if there is room and the write end is open.
    /// Exactly when it returns true, the byte went to the back of the
    /// buffer.
    pub fn push_byte(&mut self, b: u8) -> (r: bool)
        requires
            old(self).wf(),
        ensures
            final(self).wf(),
            final(self).write_closed == old(self).write_closed,
            final(self).read_closed == old(self).read_closed,
            r <==> (old(self).len() < RING_BUFFER_SIZE && !old(self).write_closed && !old(
                self,
            ).read_closed),
            r ==> final(self).contents() =~= old(self).contents().push(b),
            !r ==> final(self).contents() =~= old(self).contents(),
    {
        if self.write_closed || self.read_closed || self.count == 32 {
            return false;
        }
        self.arr[self.tail] = b;
        self.tail = (self.tail + 1) % 32;
        self.count = self.count + 1;
        proof {
            let oh = old(self).head as int;
            let oc = old(self).count as int;
            let ot = old(self).tail as int;
            let nt = self.tail as int;
            assert((oh + oc) % 32int == ot);
            assert(nt == (oh + oc + 1) % 32int) by (nonlinear_arith)
                requires
                    0 <= oc < 32,
                    0 <= oh < 32,
                    ot == (oh + oc) % 32int,
                    nt == (ot + 1) % 32int,
            ;
            assert forall|i: int| 0 <= i < self.count implies self.contents()[i] == old(
                self,
            ).contents().push(b)[i] by {
                let slot = (oh + i) % 32int;
                assert(0 <= slot < 32) by (nonlinear_arith)
                    requires
                        slot == (oh + i) % 32int,
                        0 <= oh < 32,
                        0 <= i,
                ;
                if i < oc {
                    assert(slot != ot) by (nonlinear_arith)
                        requires
                            slot == (oh + i) % 32int,
                            ot == (oh + oc) % 32int,
                            0 <= i < oc,
                            oc < 32,
                            0 <= oh < 32,
                    ;
                } else {
                    assert(slot == ot) by (nonlinear_arith)
                        requires
                            slot == (oh + i) % 32int,
                            ot == (oh + oc) % 32int,
                            i == oc,
                            0 <= oh < 32,
                    ;
                }
            }
        }
        true
    }

    /// Take the oldest byte, if any.
    pub fn pop_byte(&mut self) -> (r: Option<u8>)
        requires
            old(self).wf(),
        ensures
            final(self).wf(),
            final(self).write_closed == old(self).write_closed,
            final(self).read_closed == old(self).read_closed,
            old(self).len() == 0 ==> r is None && final(self).contents() =~= old(self).contents(),
            old(self).len() > 0 ==> r == Some(old(self).contents()[0]) && final(self).contents()
                =~= old(self).contents().drop_first(),
    {
        if self.count == 0 {
            return None;
        }
        let b = self.arr[self.head];
        proof {
            let oh = self.head as int;
            assert((oh + 0) % 32int == oh) by (nonlinear_arith)
                requires
                    0 <= oh < 32,
            ;
        }
        self.head = (self.head + 1) % 32;
        self.count = self.count - 1;
        proof {
            let oh = old(self).head as int;
            let oc = old(self).count as int;
            let nh = self.head as int;
            let nt = self.tail as int;
            assert(nt == (nh + oc - 1) % 32int) by (nonlinear_arith)
                requires
                    nh == (oh + 1) % 32int,
                    0 < oc <= 32,
                    0 <= oh < 32,
                    nt == (oh + oc) % 32int,
            ;
            assert forall|i: int| 0 <= i < self.count implies self.contents()[i] == old(
                self,
            ).contents().drop_first()[i] by {
                assert((nh + i) % 32int == (oh + (i + 1)) % 32int) by (nonlinear_arith)
                    requires
                        nh == (oh + 1) % 32int,
                        0 <= oh < 32,
                        0 <= i,
                ;
            }
        }
        Some(b)
    }
}

/// Bytes travel a pipe in order: a byte pushed behind the buffered
/// contents never overtakes them, so a full drain returns the old
/// contents first and the new byte last.
pub proof fn lemma_pipe_fifo(before: Pipe, after: Pipe, b: u8)
    requires
        before.wf(),
        after.contents() =~= before.contents().push(b),
    ensures
        forall|i: int| 0 <= i < before.len() ==> after.contents()[i] == before.contents()[i],
        after.contents()[after.len() - 1] == b,
{
}

} // verus!
