//! Map areas and address spaces.
//!
//! A [`MapArea`] is a half-open range of virtual pages mapped in one of
//! three ways — identity, freshly allocated frames, or at a fixed linear
//! offset — with one permission byte. A [`MemorySet`] is a page table
//! together with the areas mapped in it; its invariant ties every valid
//! leaf entry of the table to the area that put it there.

use vstd::prelude::*;

use crate::address::{PhysPageNum, VirtAddr, VirtPageNum, VPNRange, SimpleRange};
use crate::config::{MEMORY_END, PAGE_SIZE, PPN_LIMIT, TRAMPOLINE_VPN, VPN_LIMIT};
use crate::elf::{ElfImage, lemma_segment_vpn_order, lemma_segments_pairwise_disjoint};
use crate::frame_allocator::{frame_alloc, FrameTracker, StackFrameAllocator};
use crate::page_table::{PageTable, PageTableEntry, PTE_R, PTE_V, PTE_X};

verus! {

/// Area permission: readable.
pub const MAP_PERM_R: u8 = 0x02;

/// Area permission: writable.
pub const MAP_PERM_W: u8 = 0x04;

/// Area permission: executable.
pub const MAP_PERM_X: u8 = 0x08;

/// Area permission: reachable from user mode.
pub const MAP_PERM_U: u8 = 0x10;

/// How an area's pages find their frames.
#[derive(Clone, Copy, PartialEq, Eq, Structural, Debug)]
pub enum MapType {
    /// Each page maps to the frame of the same number.
    Identical,
    /// Each page maps to a freshly allocated frame owned by the area.
    Framed,
    /// Each page maps to the frame at a fixed signed offset.
    Linear(i64),
}

/// A contiguous range of virtual pages mapped one way with one
/// permission byte. A framed area owns its frames: the frame of page
/// `start + k` sits at position `k`.
pub struct MapArea {
    vpn_range: VPNRange,
    data_frames: Vec<FrameTracker>,
    map_type: MapType,
    map_perm: u8,
}

impl MapArea {
    /// First page of the area.
    pub closed spec fn start(self) -> u64 {
        self.vpn_range.start().0
    }

    /// First page past the area.
    pub closed spec fn end(self) -> u64 {
        self.vpn_range.end().0
    }

    /// How the area maps pages.
    pub closed spec fn spec_map_type(self) -> MapType {
        self.map_type
    }

    /// The area's permission byte.
    pub closed spec fn perm(self) -> u8 {
        self.map_perm
    }

    /// The frames a framed area owns so far.
    pub closed spec fn frames(self) -> Seq<FrameTracker> {
        self.data_frames@
    }

    /// Whether the area covers the page.
    pub open spec fn covers(self, v: u64) -> bool {
        self.start() <= v < self.end()
    }

    /// Number of pages of the area.
    pub open spec fn page_count(self) -> int {
        self.end() - self.start()
    }

    /// The frame that the area's page `v` maps to.
    pub open spec fn ppn_for(self, v: u64) -> u64 {
        match self.spec_map_type() {
            MapType::Identical => v,
            MapType::Framed => self.frames()[v - self.start()].ppn.0,
            MapType::Linear(off) => (v + off) as u64,
        }
    }

    /// The byte of a framed area at page `v`, offset `off`.
    pub open spec fn byte_at(self, v: u64, off: int) -> u8 {
        self.frames()[v - self.start()].bytes()[off]
    }

    /// Whether the area owns the frame.
    pub open spec fn owns_frame(self, p: u64) -> bool {
        exists|i: int| 0 <= i < self.frames().len() && self.frames()[i].ppn.0 == p
    }

    /// The area's bounds, frames and offsets are consistent.
    pub open spec fn wf(self) -> bool {
        &&& self.start() <= self.end() <= VPN_LIMIT
        &&& match self.spec_map_type() {
            MapType::Identical => self.frames().len() == 0,
            MapType::Framed => {
                &&& self.frames().len() <= self.page_count()
                &&& forall|i: int|
                    0 <= i < self.frames().len() ==> (#[trigger] self.frames()[i]).wf()
                &&& forall|i: int, j: int|
                    0 <= i < self.frames().len() && 0 <= j < self.frames().len() && i != j
                        ==> self.frames()[i].ppn.0 != self.frames()[j].ppn.0
            },
            MapType::Linear(off) => {
                &&& self.frames().len() == 0
                &&& 0 <= self.start() + off
                &&& self.end() + off <= PPN_LIMIT
            },
        }
    }

    /// A framed area is fully mapped once it owns one frame per page;
    /// other areas hold no frames at all.
    pub open spec fn fully_mapped(self) -> bool {
        match self.spec_map_type() {
            MapType::Framed => self.frames().len() == self.page_count(),
            _ => true,
        }
    }

    /// Build the area covering `[floor(start_va), ceil(end_va))`, not
    /// yet mapped anywhere.
    pub fn new(start_va: VirtAddr, end_va: VirtAddr, map_type: MapType, map_perm: u8) -> (r: Self)
        requires
            start_va.0 / PAGE_SIZE <= (end_va.0 + PAGE_SIZE - 1) / (PAGE_SIZE as int),
            end_va.wf(),
            map_type matches MapType::Linear(off) ==> 0 <= start_va.0 / PAGE_SIZE + off
                && (end_va.0 + PAGE_SIZE - 1) / (PAGE_SIZE as int) + off <= PPN_LIMIT,
        ensures
            r.wf(),
            r.start() == start_va.0 / PAGE_SIZE,
            r.end() == (end_va.0 + PAGE_SIZE - 1) / (PAGE_SIZE as int),
            r.spec_map_type() == map_type,
            r.perm() == map_perm,
            r.frames().len() == 0,
    {
        let start_vpn = start_va.floor();
        let end_vpn = end_va.ceil();
        MapArea {
            vpn_range: SimpleRange::new(start_vpn, end_vpn),
            data_frames: Vec::new(),
            map_type,
            map_perm,
        }
    }

    /// Clone another area's range, type and permissions; the copy owns
    /// no frames yet.
    pub fn from_another(another: &MapArea) -> (r: Self)
        requires
            another.wf(),
        ensures
            r.wf(),
            r.start() == another.start(),
            r.end() == another.end(),
            r.spec_map_type() == another.spec_map_type(),
            r.perm() == another.perm(),
            r.frames().len() == 0,
    {
        MapArea {
            vpn_range: SimpleRange::new(
                self_range_start(another),
                self_range_end(another),
            ),
            data_frames: Vec::new(),
            map_type: another.map_type,
            map_perm: another.map_perm,
        }
    }

    /// Map one page of the area: the area's next unmapped page for a
    /// framed area, any page of the range otherwise. A framed area
    /// takes one fresh zeroed frame from the allocator.
    pub fn map_one(
        &mut self,
        page_table: &mut PageTable,
        a: &mut StackFrameAllocator,
        vpn: VirtPageNum,
    )
        requires
            old(self).wf(),
            old(page_table).wf(),
            old(a).wf(),
            old(self).covers(vpn.0),
            old(self).spec_map_type() is Framed ==> vpn.0 == old(self).start() + old(
                self,
            ).frames().len(),
            old(self).spec_map_type() is Framed ==> old(a).spec_avail() > 0,
            !old(page_table).is_mapped(vpn),
            forall|i: int|
                0 <= i < old(self).frames().len() ==> old(a).allocated(
                    (#[trigger] old(self).frames()[i]).ppn.0,
                ),
        ensures
            final(self).wf(),
            final(page_table).wf(),
            final(a).wf(),
            final(self).start() == old(self).start(),
            final(self).end() == old(self).end(),
            final(self).spec_map_type() == old(self).spec_map_type(),
            final(self).perm() == old(self).perm(),
            final(page_table).is_mapped(vpn),
            final(page_table).mapped_pte(vpn).spec_ppn() == final(self).ppn_for(vpn.0),
            final(page_table).mapped_pte(vpn).spec_flags() == (old(self).perm() | PTE_V),
            forall|v: VirtPageNum|
                v.wf() && v.0 != vpn.0 ==> #[trigger] final(page_table).is_mapped(v) == old(
                    page_table,
                ).is_mapped(v) && (old(page_table).is_mapped(v) ==> final(page_table).mapped_pte(
                    v,
                ) == old(page_table).mapped_pte(v)),
            old(self).spec_map_type() is Framed ==> {
                &&& final(self).frames().len() == old(self).frames().len() + 1
                &&& final(self).frames() =~= old(self).frames().push(
                    final(self).frames().last(),
                )
                &&& final(self).frames().last().bytes() =~= Seq::new(
                    PAGE_SIZE as nat,
                    |i: int| 0u8,
                )
                &&& !old(a).allocated(final(self).frames().last().ppn.0)
                &&& final(a).spec_avail() == old(a).spec_avail() - 1
            },
            !(old(self).spec_map_type() is Framed) ==> final(self).frames()
                =~= old(self).frames() && *final(a) == *old(a),
            forall|q: u64| old(a).allocated(q) ==> final(a).allocated(q),
            forall|q: u64|
                final(a).allocated(q) && !old(a).allocated(q) ==> final(self).owns_frame(q)
                    && !old(self).owns_frame(q),
            forall|i: int|
                0 <= i < final(self).frames().len() ==> final(a).allocated(
                    (#[trigger] final(self).frames()[i]).ppn.0,
                ),
            final(a).spec_end() == old(a).spec_end(),
            final(page_table).spec_token() == old(page_table).spec_token(),
    {
        proof {
            assert(vpn.0 < VPN_LIMIT);
        }
        match self.map_type {
            MapType::Identical => {
                page_table.map(vpn, PhysPageNum(vpn.0), self.map_perm);
            },
            MapType::Framed => {
                let frame = frame_alloc(a).unwrap();
                let ppn = frame.ppn;
                self.data_frames.push(frame);
                page_table.map(vpn, ppn, self.map_perm);
            },
            MapType::Linear(off) => {
                proof {
                    assert(0 <= self.start() + off && vpn.0 + off < PPN_LIMIT);
                }
                let signed = (vpn.0 as i64) + off;
                proof {
                    assert(0 <= signed < PPN_LIMIT);
                }
                let ppn = PhysPageNum(signed as u64);
                page_table.map(vpn, ppn, self.map_perm);
            },
        }
    }
}

/// Left bound of an area's range (helper to rebuild a range).
fn self_range_start(area: &MapArea) -> (r: VirtPageNum)
    ensures
        r.0 == area.start(),
{
    area.vpn_range.get_start()
}

/// Right bound of an area's range (helper to rebuild a range).
fn self_range_end(area: &MapArea) -> (r: VirtPageNum)
    ensures
        r.0 == area.end(),
{
    area.vpn_range.get_end()
}


/// Copy bytes into the frames of a framed area, page by page from the
/// area's first page; bytes past the data keep their contents.
impl MapArea {
    /// See above.
    pub fn copy_data(&mut self, data: &Vec<u8>)
        requires
            old(self).wf(),
            old(self).spec_map_type() is Framed,
            old(self).fully_mapped(),
            data@.len() <= old(self).page_count() * PAGE_SIZE,
        ensures
            final(self).wf(),
            final(self).fully_mapped(),
            final(self).start() == old(self).start(),
            final(self).end() == old(self).end(),
            final(self).spec_map_type() == old(self).spec_map_type(),
            final(self).perm() == old(self).perm(),
            final(self).frames().len() == old(self).frames().len(),
            forall|i: int|
                0 <= i < final(self).frames().len() ==> (#[trigger] final(self).frames()[i]).ppn
                    == old(self).frames()[i].ppn,
            forall|i: int, off: int|
                0 <= i < final(self).frames().len() && 0 <= off < PAGE_SIZE
                    ==> (#[trigger] final(self).frames()[i].bytes()[off]) == (if i * PAGE_SIZE
                    + off < data@.len() {
                    data@[i * PAGE_SIZE + off]
                } else {
                    old(self).frames()[i].bytes()[off]
                }),
    {
        let total = data.len();
        let count = self.data_frames.len();
        let mut k: usize = 0;
        while k < count
            invariant
                self.wf(),
                self.fully_mapped(),
                self.start() == old(self).start(),
                self.end() == old(self).end(),
                self.spec_map_type() == old(self).spec_map_type(),
                self.perm() == old(self).perm(),
                self.frames().len() == old(self).frames().len(),
                count == self.frames().len(),
                k <= count,
                total == data@.len(),
                total <= self.page_count() * PAGE_SIZE,
                forall|i: int|
                    0 <= i < count ==> (#[trigger] self.frames()[i]).ppn == old(
                        self,
                    ).frames()[i].ppn,
                forall|i: int, off: int|
                    0 <= i < k && 0 <= off < PAGE_SIZE ==> (#[trigger] self.frames()[i].bytes()[off])
                        == (if i * PAGE_SIZE + off < total {
                        data@[i * PAGE_SIZE + off]
                    } else {
                        old(self).frames()[i].bytes()[off]
                    }),
                forall|i: int, off: int|
                    k <= i < count && 0 <= off < PAGE_SIZE ==> (#[trigger] self.frames()[i].bytes()[off])
                        == old(self).frames()[i].bytes()[off],
            decreases count - k,
        {
            if k <= total / 4096 {
                proof {
                    assert(k * 4096 <= total) by (nonlinear_arith)
                        requires
                            k <= total / 4096,
                            total >= 0,
                    ;
                }
                let pos: usize = k * 4096;
                if pos < total {
                    let n: usize = if total - pos >= 4096 {
                        4096
                    } else {
                        total - pos
                    };
                    self.data_frames[k].write_from(data, pos, n);
                }
            } else {
                proof {
                    assert(k * 4096 > total) by (nonlinear_arith)
                        requires
                            k > total / 4096,
                            total >= 0,
                    ;
                }
            }
            proof {
                assert(k * PAGE_SIZE + PAGE_SIZE == (k + 1) * PAGE_SIZE) by (nonlinear_arith);
            }
            k = k + 1;
        }
    }
}

/// Whether some area of the sequence covers the page.
pub open spec fn seq_covers(areas: Seq<MapArea>, v: u64) -> bool {
    exists|k: int| 0 <= k < areas.len() && (#[trigger] areas[k]).covers(v)
}

/// Covering a pushed sequence is covering the old sequence or the new
/// area.
pub proof fn lemma_seq_covers_push(areas: Seq<MapArea>, a2: MapArea, v: u64)
    ensures
        seq_covers(areas.push(a2), v) <==> (seq_covers(areas, v) || a2.covers(v)),
{
    if seq_covers(areas, v) {
        let k = choose|k: int| 0 <= k < areas.len() && (#[trigger] areas[k]).covers(v);
        assert(areas.push(a2)[k].covers(v));
    }
    if a2.covers(v) {
        assert(areas.push(a2)[areas.len() as int].covers(v));
    }
    if seq_covers(areas.push(a2), v) {
        let k = choose|k: int|
            0 <= k < areas.push(a2).len() && (#[trigger] areas.push(a2)[k]).covers(v);
        if k < areas.len() {
            assert(areas[k].covers(v));
        }
    }
}

/// Whether some tracker of the sequence owns the frame.
pub open spec fn seq_owns(fs: Seq<FrameTracker>, q: u64) -> bool {
    exists|i: int| 0 <= i < fs.len() && fs[i].ppn.0 == q
}

/// Two areas whose page ranges do not intersect.
pub open spec fn areas_disjoint(a: MapArea, b: MapArea) -> bool {
    a.end() <= b.start() || b.end() <= a.start()
}

/// The page number value as a typed page number.
pub open spec fn vpn_of(v: u64) -> VirtPageNum {
    VirtPageNum { 0: v }
}

/// An address space: a page table and the areas mapped in it, plus the
/// trampoline page mapped outside any area.
pub struct MemorySet {
    page_table: PageTable,
    areas: Vec<MapArea>,
    trampoline_ppn: Option<PhysPageNum>,
}

impl MemorySet {
    /// The areas of the space.
    pub closed spec fn areas_view(self) -> Seq<MapArea> {
        self.areas@
    }

    /// The page table of the space.
    pub closed spec fn pt(self) -> PageTable {
        self.page_table
    }

    /// The physical page the trampoline is mapped to, once it is.
    pub closed spec fn tramp(self) -> Option<PhysPageNum> {
        self.trampoline_ppn
    }

    /// Whether some area covers the page.
    pub open spec fn covered(self, v: u64) -> bool {
        seq_covers(self.areas_view(), v)
    }

    /// Whether the page table maps the page.
    pub open spec fn spec_mapped(self, v: u64) -> bool {
        self.pt().is_mapped(vpn_of(v))
    }

    /// The page table entry corresponds to what area `k` says of page
    /// `v`.
    pub open spec fn area_maps(self, k: int, v: u64) -> bool {
        &&& self.pt().is_mapped(vpn_of(v))
        &&& self.pt().mapped_pte(vpn_of(v)).spec_ppn() == self.areas_view()[k].ppn_for(v)
        &&& self.pt().mapped_pte(vpn_of(v)).spec_flags() == (self.areas_view()[k].perm() | PTE_V)
    }

    /// The space's invariant: well-formed fully mapped disjoint areas
    /// away from the trampoline page; every page of an area is mapped
    /// as the area says; every mapped page belongs to an area or is the
    /// trampoline; frames are owned by exactly one area.
    pub open spec fn wf(self) -> bool {
        &&& self.pt().wf()
        &&& forall|k: int|
            0 <= k < self.areas_view().len() ==> (#[trigger] self.areas_view()[k]).wf()
                && self.areas_view()[k].fully_mapped() && !self.areas_view()[k].covers(
                TRAMPOLINE_VPN,
            )
        &&& forall|k1: int, k2: int|
            0 <= k1 < self.areas_view().len() && 0 <= k2 < self.areas_view().len() && k1 != k2
                ==> areas_disjoint(self.areas_view()[k1], self.areas_view()[k2])
        &&& forall|k: int, v: u64|
            0 <= k < self.areas_view().len() && (#[trigger] self.areas_view()[k].covers(v))
                ==> self.area_maps(k, v)
        &&& forall|v: u64|
            v < VPN_LIMIT && #[trigger] self.pt().is_mapped(vpn_of(v)) ==> seq_covers(
                self.areas_view(),
                v,
            ) || (v == TRAMPOLINE_VPN && self.tramp() is Some)
        &&& match self.tramp() {
            Some(p) => {
                &&& p.wf()
                &&& self.pt().is_mapped(vpn_of(TRAMPOLINE_VPN))
                &&& self.pt().mapped_pte(vpn_of(TRAMPOLINE_VPN)).spec_ppn() == p.0
                &&& self.pt().mapped_pte(vpn_of(TRAMPOLINE_VPN)).spec_flags() == (PTE_R | PTE_X
                    | PTE_V)
            },
            None => !self.pt().is_mapped(vpn_of(TRAMPOLINE_VPN)),
        }
        &&& forall|k1: int, i1: int, k2: int, i2: int|
            0 <= k1 < self.areas_view().len() && 0 <= i1 < self.areas_view()[k1].frames().len()
                && 0 <= k2 < self.areas_view().len() && 0 <= i2
                < self.areas_view()[k2].frames().len() && k1 != k2 ==> (#[trigger] self.areas_view()[k1].frames()[i1]).ppn.0
                != (#[trigger] self.areas_view()[k2].frames()[i2]).ppn.0
    }

    /// Every frame of the space is allocated in the given allocator.
    pub open spec fn frames_owned_by(self, a: StackFrameAllocator) -> bool {
        forall|k: int, i: int|
            0 <= k < self.areas_view().len() && 0 <= i < self.areas_view()[k].frames().len()
                ==> a.allocated((#[trigger] self.areas_view()[k].frames()[i]).ppn.0)
    }

    /// Whether some area of the space owns the frame.
    pub open spec fn owns_frame(self, p: u64) -> bool {
        exists|k: int|
            0 <= k < self.areas_view().len() && (#[trigger] self.areas_view()[k]).owns_frame(p)
    }

    /// An empty space: fresh table, no areas, no trampoline.
    pub fn new_bare() -> (r: Self)
        ensures
            r.wf(),
            r.areas_view().len() == 0,
            r.tramp() is None,
            forall|v: u64| !r.covered(v),
            forall|v: u64| v < VPN_LIMIT ==> !r.spec_mapped(v),
            forall|a: StackFrameAllocator| r.frames_owned_by(a),
    {
        let r = MemorySet {
            page_table: PageTable::new(),
            areas: Vec::new(),
            trampoline_ppn: None,
        };
        proof {
            assert forall|v: u64| v < VPN_LIMIT implies !r.spec_mapped(v) by {
                assert(vpn_of(v).wf());
                assert(r.pt().walk(vpn_of(v)) is None);
            }
        }
        r
    }

    /// The `satp` value that activates this space.
    pub fn token(&self) -> (r: u64)
        ensures
            r == self.pt().spec_token(),
    {
        self.page_table.token()
    }

    /// Map the trampoline page, outside any area, onto the physical
    /// page holding the trampoline code, readable and executable.
    pub fn map_trampoline(&mut self, strampoline: PhysPageNum)
        requires
            old(self).wf(),
            old(self).tramp() is None,
            strampoline.wf(),
        ensures
            final(self).wf(),
            final(self).tramp() == Some(strampoline),
            final(self).areas_view() == old(self).areas_view(),
            forall|v: u64|
                v < VPN_LIMIT && v != TRAMPOLINE_VPN ==> #[trigger] final(self).spec_mapped(v)
                    == old(self).spec_mapped(v),
            forall|v: u64|
                v < VPN_LIMIT && v != TRAMPOLINE_VPN && old(self).spec_mapped(v) ==> final(self).pt().mapped_pte(vpn_of(v)) == old(self).pt().mapped_pte(vpn_of(v)),
            final(self).pt().spec_token() == old(self).pt().spec_token(),
    {
        proof {
            assert(vpn_of(TRAMPOLINE_VPN).wf());
        }
        self.page_table.map(
            VirtPageNum(crate::config::TRAMPOLINE_VPN),
            strampoline,
            PTE_R | PTE_X,
        );
        self.trampoline_ppn = Some(strampoline);
        proof {
            assert((PTE_R | PTE_X) | PTE_V == (PTE_R | PTE_X | PTE_V)) by (bit_vector);
            assert forall|v: u64| v < VPN_LIMIT && v != TRAMPOLINE_VPN implies #[trigger] self.spec_mapped(
                v,
            ) == old(self).spec_mapped(v) && (old(self).spec_mapped(v) ==> self.pt().mapped_pte(
                vpn_of(v),
            ) == old(self).pt().mapped_pte(vpn_of(v))) by {
                assert(vpn_of(v).wf() && vpn_of(v).0 != TRAMPOLINE_VPN);
            }
            assert forall|k: int, v: u64|
                0 <= k < self.areas_view().len() && #[trigger] self.areas_view()[k].covers(
                    v,
                ) implies self.area_maps(k, v) by {
                assert(old(self).areas_view()[k].covers(v));
                assert(old(self).area_maps(k, v));
                assert(v < VPN_LIMIT);
                assert(v != TRAMPOLINE_VPN);
            }
        }
    }
}


impl MemorySet {
    /// Map a fresh area page by page, copy the given bytes into its
    /// frames (a framed area starts zeroed), and add it to the space.
    pub fn push(&mut self, area: MapArea, data: Option<&Vec<u8>>, a: &mut StackFrameAllocator)
        requires
            old(self).wf(),
            old(a).wf(),
            old(self).frames_owned_by(*old(a)),
            area.wf(),
            area.frames().len() == 0,
            !area.covers(TRAMPOLINE_VPN),
            forall|k: int|
                0 <= k < old(self).areas_view().len() ==> areas_disjoint(
                    area,
                    #[trigger] old(self).areas_view()[k],
                ),
            area.spec_map_type() is Framed ==> old(a).spec_avail() >= area.page_count(),
            data is Some ==> area.spec_map_type() is Framed && data->Some_0@.len()
                <= area.page_count() * PAGE_SIZE,
        ensures
            final(self).wf(),
            final(a).wf(),
            final(self).frames_owned_by(*final(a)),
            final(self).tramp() == old(self).tramp(),
            final(self).pt().spec_token() == old(self).pt().spec_token(),
            final(self).areas_view().len() == old(self).areas_view().len() + 1,
            forall|k: int|
                0 <= k < old(self).areas_view().len() ==> final(self).areas_view()[k] == old(
                    self,
                ).areas_view()[k],
            final(self).areas_view().last().start() == area.start(),
            final(self).areas_view().last().end() == area.end(),
            final(self).areas_view().last().spec_map_type() == area.spec_map_type(),
            final(self).areas_view().last().perm() == area.perm(),
            final(self).areas_view().last().fully_mapped(),
            area.spec_map_type() is Framed ==> forall|i: int, off: int|
                0 <= i < area.page_count() && 0 <= off < PAGE_SIZE
                    ==> (#[trigger] final(self).areas_view().last().frames()[i].bytes()[off]) == (
                if data is Some && i * PAGE_SIZE + off < data->Some_0@.len() {
                    data->Some_0@[i * PAGE_SIZE + off]
                } else {
                    0u8
                }),
            forall|v: u64|
                v < VPN_LIMIT && !area.covers(v) ==> #[trigger] final(self).spec_mapped(v) == old(
                    self,
                ).spec_mapped(v) && (old(self).spec_mapped(v) ==> final(self).pt().mapped_pte(
                    vpn_of(v),
                ) == old(self).pt().mapped_pte(vpn_of(v))),
            forall|q: u64| old(a).allocated(q) ==> final(a).allocated(q),
            forall|q: u64|
                final(a).allocated(q) && !old(a).allocated(q) ==> final(self).areas_view().last().owns_frame(q),
            forall|i: int|
                0 <= i < final(self).areas_view().last().frames().len() ==> !old(a).allocated(
                    (#[trigger] final(self).areas_view().last().frames()[i]).ppn.0,
                ) && final(a).allocated(final(self).areas_view().last().frames()[i].ppn.0),
            final(a).spec_avail() == old(a).spec_avail() - (
            if area.spec_map_type() is Framed {
                area.page_count()
            } else {
                0
            }),
            final(a).spec_end() == old(a).spec_end(),
    {
        let mut area = area;
        let ghost area0 = area;
        let start: u64 = area.vpn_range.get_start().0;
        let end: u64 = area.vpn_range.get_end().0;
        let mut v: u64 = start;
        while v < end
            invariant
                old(self).wf(),
                old(a).wf(),
                old(self).frames_owned_by(*old(a)),
                area0.wf(),
                area0.frames().len() == 0,
                !area0.covers(TRAMPOLINE_VPN),
                forall|k: int|
                    0 <= k < old(self).areas_view().len() ==> areas_disjoint(
                        area0,
                        #[trigger] old(self).areas_view()[k],
                    ),
                start == area0.start(),
                end == area0.end(),
                start <= v <= end,
                area.wf(),
                area.start() == start,
                area.end() == end,
                area.spec_map_type() == area0.spec_map_type(),
                area.perm() == area0.perm(),
                area.spec_map_type() is Framed ==> area.frames().len() == v - start,
                !(area.spec_map_type() is Framed) ==> area.frames().len() == 0,
                self.pt().wf(),
                self.pt().spec_token() == old(self).pt().spec_token(),
                self.areas_view() == old(self).areas_view(),
                self.tramp() == old(self).tramp(),
                forall|w: u64|
                    start <= w < v ==> #[trigger] self.pt().is_mapped(vpn_of(w)) && self.pt().mapped_pte(
                        vpn_of(w),
                    ).spec_ppn() == area.ppn_for(w) && self.pt().mapped_pte(vpn_of(w)).spec_flags()
                        == (area0.perm() | PTE_V),
                forall|w: u64|
                    w < VPN_LIMIT && !(start <= w < v) ==> #[trigger] self.pt().is_mapped(
                        vpn_of(w),
                    ) == old(self).pt().is_mapped(vpn_of(w)) && (old(self).pt().is_mapped(
                        vpn_of(w),
                    ) ==> self.pt().mapped_pte(vpn_of(w)) == old(self).pt().mapped_pte(vpn_of(w))),
                a.wf(),
                a.spec_end() == old(a).spec_end(),
                area.spec_map_type() is Framed ==> a.spec_avail() == old(a).spec_avail() - (v
                    - start) && old(a).spec_avail() >= area0.page_count(),
                !(area.spec_map_type() is Framed) ==> *a == *old(a),
                forall|q: u64| old(a).allocated(q) ==> a.allocated(q),
                forall|q: u64|
                    a.allocated(q) && !old(a).allocated(q) ==> area.owns_frame(q),
                forall|i: int|
                    0 <= i < area.frames().len() ==> a.allocated(
                        (#[trigger] area.frames()[i]).ppn.0,
                    ) && !old(a).allocated(area.frames()[i].ppn.0),
                forall|i: int, off: int|
                    0 <= i < area.frames().len() && 0 <= off < PAGE_SIZE
                        ==> (#[trigger] area.frames()[i].bytes()[off]) == 0u8,
            decreases end - v,
        {
            proof {
                assert(!old(self).covered(v)) by {
                    if seq_covers(old(self).areas_view(), v) {
                        let k = choose|k: int|
                            0 <= k < old(self).areas_view().len() && (#[trigger] old(
                                self,
                            ).areas_view()[k]).covers(v);
                        assert(areas_disjoint(area0, old(self).areas_view()[k]));
                    }
                }
                assert(!self.pt().is_mapped(vpn_of(v)));
            }
            let ghost pt_prev = self.pt();
            let ghost area_prev = area;
            let ghost a_prev = *a;
            area.map_one(&mut self.page_table, a, VirtPageNum(v));
            proof {
                assert forall|w: u64| start <= w < v + 1 implies #[trigger] self.pt().is_mapped(
                    vpn_of(w),
                ) && self.pt().mapped_pte(vpn_of(w)).spec_ppn() == area.ppn_for(w)
                    && self.pt().mapped_pte(vpn_of(w)).spec_flags() == (area0.perm() | PTE_V) by {
                    assert(vpn_of(w).wf());
                    if w < v {
                        assert(pt_prev.is_mapped(vpn_of(w)));
                        assert(self.pt().is_mapped(vpn_of(w)) == pt_prev.is_mapped(vpn_of(w)));
                        assert(self.pt().mapped_pte(vpn_of(w)) == pt_prev.mapped_pte(vpn_of(w)));
                        if area.spec_map_type() is Framed {
                            assert(area.frames()[w - start] == area_prev.frames()[w - start]);
                        }
                    }
                }
                assert forall|q: u64| a.allocated(q) && !old(a).allocated(q) implies area.owns_frame(
                    q,
                ) by {
                    if a_prev.allocated(q) {
                        assert(area_prev.owns_frame(q));
                        let i = choose|i: int|
                            0 <= i < area_prev.frames().len() && area_prev.frames()[i].ppn.0 == q;
                        assert(area.frames()[i].ppn.0 == q);
                    }
                }
                assert forall|w: u64| w < VPN_LIMIT && !(start <= w < v + 1) implies #[trigger] self.pt().is_mapped(
                    vpn_of(w),
                ) == old(self).pt().is_mapped(vpn_of(w)) && (old(self).pt().is_mapped(vpn_of(w))
                    ==> self.pt().mapped_pte(vpn_of(w)) == old(self).pt().mapped_pte(
                    vpn_of(w),
                )) by {
                    assert(vpn_of(w).wf());
                    assert(vpn_of(w).0 != v);
                    assert(self.pt().is_mapped(vpn_of(w)) == pt_prev.is_mapped(vpn_of(w)));
                    assert(pt_prev.is_mapped(vpn_of(w)) == old(self).pt().is_mapped(vpn_of(w)));
                    if old(self).pt().is_mapped(vpn_of(w)) {
                        assert(pt_prev.mapped_pte(vpn_of(w)) == old(self).pt().mapped_pte(
                            vpn_of(w),
                        ));
                        assert(self.pt().mapped_pte(vpn_of(w)) == pt_prev.mapped_pte(vpn_of(w)));
                    }
                }
            }
            v = v + 1;
        }
        let ghost area_loop = area;
        let ghost pt_done = self.pt();
        if let Some(d) = data {
            area.copy_data(d);
        }
        let ghost mapped_area = area;
        self.areas.push(area);
        proof {
            let na = self.areas_view().last();
            let olds = old(self).areas_view();
            assert(self.areas_view() =~= olds.push(na));
            assert(na == mapped_area);
            assert(self.pt() == pt_done);
            assert forall|w: u64| start <= w < end implies na.ppn_for(w) == area_loop.ppn_for(
                w,
            ) by {
                if na.spec_map_type() is Framed {
                    assert(na.frames()[w - start].ppn == area_loop.frames()[w - start].ppn);
                }
            }
            assert forall|q: u64| na.owns_frame(q) == area_loop.owns_frame(q) by {
                if na.owns_frame(q) {
                    let i = choose|i: int|
                        0 <= i < na.frames().len() && na.frames()[i].ppn.0 == q;
                    assert(area_loop.frames()[i].ppn.0 == q);
                }
                if area_loop.owns_frame(q) {
                    let i = choose|i: int|
                        0 <= i < area_loop.frames().len() && area_loop.frames()[i].ppn.0 == q;
                    assert(na.frames()[i].ppn.0 == q);
                }
            }
            assert forall|k: int, v2: u64|
                0 <= k < self.areas_view().len() && (#[trigger] self.areas_view()[k].covers(
                    v2,
                )) implies self.area_maps(k, v2) by {
                if k < olds.len() {
                    assert(olds[k].covers(v2));
                    assert(old(self).area_maps(k, v2));
                    assert(v2 < VPN_LIMIT);
                    assert(areas_disjoint(area0, olds[k]));
                    assert(!area0.covers(v2));
                    assert(vpn_of(v2).wf());
                    assert(self.pt().is_mapped(vpn_of(v2)) == old(self).pt().is_mapped(
                        vpn_of(v2),
                    ));
                } else {
                    assert(na.covers(v2));
                    assert(start <= v2 < end);
                    assert(self.pt().is_mapped(vpn_of(v2)));
                    assert(na.ppn_for(v2) == area_loop.ppn_for(v2));
                }
            }
            assert forall|v2: u64|
                v2 < VPN_LIMIT && #[trigger] self.pt().is_mapped(vpn_of(v2)) implies seq_covers(
                    self.areas_view(),
                    v2,
                ) || (v2 == TRAMPOLINE_VPN && self.tramp() is Some) by {
                lemma_seq_covers_push(olds, na, v2);
                if !area0.covers(v2) {
                    assert(old(self).pt().is_mapped(vpn_of(v2)));
                }
            }
            assert forall|v2: u64| v2 < VPN_LIMIT && !area0.covers(v2) implies #[trigger] self.spec_mapped(
                v2,
            ) == old(self).spec_mapped(v2) && (old(self).spec_mapped(v2) ==> self.pt().mapped_pte(
                vpn_of(v2),
            ) == old(self).pt().mapped_pte(vpn_of(v2))) by {
            }
            assert forall|k1: int, i1: int, k2: int, i2: int|
                0 <= k1 < self.areas_view().len() && 0 <= i1 < self.areas_view()[k1].frames().len()
                    && 0 <= k2 < self.areas_view().len() && 0 <= i2
                    < self.areas_view()[k2].frames().len() && k1 != k2 implies (
            #[trigger] self.areas_view()[k1].frames()[i1]).ppn.0 != (#[trigger] self.areas_view()[k2].frames()[i2]).ppn.0 by {
                if k1 < olds.len() && k2 < olds.len() {
                    assert(old(a).allocated(olds[k1].frames()[i1].ppn.0));
                    assert(old(a).allocated(olds[k2].frames()[i2].ppn.0));
                } else if k1 < olds.len() {
                    assert(old(a).allocated(olds[k1].frames()[i1].ppn.0));
                    assert(!old(a).allocated(na.frames()[i2].ppn.0));
                } else {
                    assert(old(a).allocated(olds[k2].frames()[i2].ppn.0));
                    assert(!old(a).allocated(na.frames()[i1].ppn.0));
                }
            }
            assert forall|i: int| 0 <= i < na.frames().len() implies !old(a).allocated(
                (#[trigger] na.frames()[i]).ppn.0,
            ) && a.allocated(na.frames()[i].ppn.0) by {
                assert(na.frames()[i].ppn == area_loop.frames()[i].ppn);
            }
            assert(self.tramp() == old(self).tramp());
            if old(self).tramp() is Some {
                assert(!area0.covers(TRAMPOLINE_VPN));
                assert(self.pt().is_mapped(vpn_of(TRAMPOLINE_VPN)));
            }
        }
    }
}


impl MemorySet {
    /// Insert a framed area covering `[start_va, end_va)` with the
    /// given permissions.
    pub fn insert_framed_area(
        &mut self,
        start_va: VirtAddr,
        end_va: VirtAddr,
        permission: u8,
        a: &mut StackFrameAllocator,
    )
        requires
            old(self).wf(),
            old(a).wf(),
            old(self).frames_owned_by(*old(a)),
            start_va.0 <= end_va.0,
            end_va.wf(),
            !(start_va.0 / PAGE_SIZE <= TRAMPOLINE_VPN < (end_va.0 + PAGE_SIZE - 1) / (
            PAGE_SIZE as int)),
            forall|k: int|
                0 <= k < old(self).areas_view().len() ==> ((#[trigger] old(self).areas_view()[k]).end()
                    <= start_va.0 / PAGE_SIZE || (end_va.0 + PAGE_SIZE - 1) / (PAGE_SIZE as int)
                    <= old(self).areas_view()[k].start()),
            old(a).spec_avail() >= (end_va.0 + PAGE_SIZE - 1) / (PAGE_SIZE as int) - start_va.0
                / PAGE_SIZE,
        ensures
            final(self).wf(),
            final(a).wf(),
            final(self).frames_owned_by(*final(a)),
            final(self).tramp() == old(self).tramp(),
            final(self).pt().spec_token() == old(self).pt().spec_token(),
            final(self).areas_view().len() == old(self).areas_view().len() + 1,
            forall|k: int|
                0 <= k < old(self).areas_view().len() ==> final(self).areas_view()[k] == old(
                    self,
                ).areas_view()[k],
            final(self).areas_view().last().start() == start_va.0 / PAGE_SIZE,
            final(self).areas_view().last().end() == (end_va.0 + PAGE_SIZE - 1) / (
            PAGE_SIZE as int),
            final(self).areas_view().last().spec_map_type() is Framed,
            final(self).areas_view().last().perm() == permission,
            forall|v: u64|
                v < VPN_LIMIT && !(start_va.0 / PAGE_SIZE <= v < (end_va.0 + PAGE_SIZE - 1) / (
                PAGE_SIZE as int)) ==> #[trigger] final(self).spec_mapped(v) == old(
                    self,
                ).spec_mapped(v),
            forall|q: u64| old(a).allocated(q) ==> final(a).allocated(q),
            final(a).spec_end() == old(a).spec_end(),
            final(a).spec_avail() == old(a).spec_avail() - ((end_va.0 + PAGE_SIZE - 1) / (
            PAGE_SIZE as int) - start_va.0 / PAGE_SIZE),
    {
        let area = MapArea::new(start_va, end_va, MapType::Framed, permission);
        self.push(area, None, a);
    }

    /// Read-only walk of the space's page table.
    pub fn translate(&self, vpn: VirtPageNum) -> (r: Option<PageTableEntry>)
        requires
            self.wf(),
            vpn.wf(),
        ensures
            r == self.pt().walk(vpn),
            (r matches Some(e) && e.spec_valid()) <==> self.spec_mapped(vpn.0),
    {
        self.page_table.translate(vpn)
    }

    /// Drop every area, returning all their frames to the allocator.
    /// The page table itself is kept alive for orderly teardown, so the
    /// space is no longer claimed well-formed.
    pub fn recycle_data_pages(&mut self, a: &mut StackFrameAllocator)
        requires
            old(self).wf(),
            old(a).wf(),
            old(self).frames_owned_by(*old(a)),
        ensures
            final(a).wf(),
            final(self).areas_view().len() == 0,
            forall|q: u64|
                !old(self).owns_frame(q) ==> final(a).allocated(q) == old(a).allocated(q),
            forall|q: u64| old(self).owns_frame(q) ==> !final(a).allocated(q),
            final(a).spec_end() == old(a).spec_end(),
    {
        let mut all: Vec<FrameTracker> = Vec::new();
        while self.areas.len() > 0
            invariant
                old(self).wf(),
                old(self).frames_owned_by(*old(a)),
                *a == *old(a),
                self.areas_view().len() <= old(self).areas_view().len(),
                forall|k: int|
                    0 <= k < self.areas_view().len() ==> self.areas_view()[k] == old(
                        self,
                    ).areas_view()[k],
                forall|q: u64|
                    old(self).owns_frame(q) <==> seq_owns(all@, q) || (exists|k: int|
                        0 <= k < self.areas_view().len() && (
                        #[trigger] self.areas_view()[k]).owns_frame(q)),
                forall|i: int| 0 <= i < all@.len() ==> a.allocated((#[trigger] all@[i]).ppn.0),
                forall|i: int, j: int|
                    0 <= i < all@.len() && 0 <= j < all@.len() && i != j ==> all@[i].ppn.0
                        != all@[j].ppn.0,
                forall|i: int, k: int, i2: int|
                    0 <= i < all@.len() && 0 <= k < self.areas_view().len() && 0 <= i2
                        < self.areas_view()[k].frames().len() ==> (#[trigger] all@[i]).ppn.0 != (
                    #[trigger] self.areas_view()[k].frames()[i2]).ppn.0,
            decreases self.areas_view().len(),
        {
            let ghost areas_before = self.areas_view();
            let ghost all_before = all@;
            let ghost n = self.areas_view().len() as int - 1;
            let mut ar = self.areas.pop().unwrap();
            proof {
                assert(areas_before.last() == old(self).areas_view()[n]);
            }
            all.append(&mut ar.data_frames);
            proof {
                let arf = areas_before.last().frames();
                assert(all@ =~= all_before + arf);
                assert forall|q: u64| old(self).owns_frame(q) implies seq_owns(all@, q) || (
                exists|k: int|
                    0 <= k < self.areas_view().len() && (
                    #[trigger] self.areas_view()[k]).owns_frame(q)) by {
                    if seq_owns(all_before, q) {
                        let i = choose|i: int|
                            0 <= i < all_before.len() && all_before[i].ppn.0 == q;
                        assert(all@[i].ppn.0 == q);
                    } else if exists|k: int|
                        0 <= k < areas_before.len() && (#[trigger] areas_before[k]).owns_frame(
                        q,
                    ) {
                        let k = choose|k: int|
                            0 <= k < areas_before.len() && (#[trigger] areas_before[k]).owns_frame(
                                q,
                            );
                        if k < n {
                            assert(self.areas_view()[k].owns_frame(q));
                        } else {
                            let i = choose|i: int|
                                0 <= i < arf.len() && arf[i].ppn.0 == q;
                            assert(all@[all_before.len() + i].ppn.0 == q);
                        }
                    }
                }
                assert forall|q: u64|
                    seq_owns(all@, q) || (exists|k: int|
                        0 <= k < self.areas_view().len() && (
                        #[trigger] self.areas_view()[k]).owns_frame(q)) implies old(
                    self,
                ).owns_frame(q) by {
                    if seq_owns(all@, q) {
                        let i = choose|i: int| 0 <= i < all@.len() && all@[i].ppn.0 == q;
                        if i < all_before.len() {
                            assert(seq_owns(all_before, q));
                        } else {
                            assert(arf[i - all_before.len()].ppn.0 == q);
                            assert(old(self).areas_view()[n].owns_frame(q));
                        }
                    } else {
                        let k = choose|k: int|
                            0 <= k < self.areas_view().len() && (
                            #[trigger] self.areas_view()[k]).owns_frame(q);
                        assert(areas_before[k].owns_frame(q));
                    }
                }
                assert forall|i: int| 0 <= i < all@.len() implies a.allocated(
                    (#[trigger] all@[i]).ppn.0,
                ) by {
                    if i >= all_before.len() {
                        assert(all@[i] == old(self).areas_view()[n].frames()[
                            i - all_before.len()]);
                    }
                }
                assert forall|i: int, j: int|
                    0 <= i < all@.len() && 0 <= j < all@.len() && i != j implies all@[i].ppn.0
                        != all@[j].ppn.0 by {
                    let bl = all_before.len() as int;
                    if i >= bl && j >= bl {
                        assert(all@[i] == arf[i - bl] && all@[j] == arf[j - bl]);
                        assert(areas_before.last().wf());
                    } else if i >= bl || j >= bl {
                        let ai = if i >= bl { j } else { i };
                        let aj = if i >= bl { i } else { j };
                        assert(all@[ai] == all_before[ai]);
                        assert(all@[aj] == arf[aj - bl]);
                        assert(all_before[ai].ppn.0 != areas_before[n].frames()[aj - bl].ppn.0);
                    } else {
                        assert(all@[i] == all_before[i] && all@[j] == all_before[j]);
                    }
                }
                assert forall|i: int, k: int, i2: int|
                    0 <= i < all@.len() && 0 <= k < self.areas_view().len() && 0 <= i2
                        < self.areas_view()[k].frames().len() implies (#[trigger] all@[i]).ppn.0
                    != (#[trigger] self.areas_view()[k].frames()[i2]).ppn.0 by {
                    let bl = all_before.len() as int;
                    assert(self.areas_view()[k] == old(self).areas_view()[k]);
                    if i < bl {
                        assert(all@[i] == all_before[i]);
                        assert(areas_before[k].frames()[i2] == self.areas_view()[k].frames()[i2]);
                    } else {
                        assert(all@[i] == arf[i - bl]);
                        assert(old(self).areas_view()[n].frames()[i - bl].ppn.0 != old(
                            self,
                        ).areas_view()[k].frames()[i2].ppn.0);
                    }
                }
            }
        }
        let ghost all_full = all@;
        while all.len() > 0
            invariant
                a.wf(),
                a.spec_end() == old(a).spec_end(),
                forall|i: int| 0 <= i < all@.len() ==> all@[i] == all_full[i],
                all@.len() <= all_full.len(),
                forall|i: int| 0 <= i < all@.len() ==> a.allocated((#[trigger] all@[i]).ppn.0),
                forall|i: int, j: int|
                    0 <= i < all_full.len() && 0 <= j < all_full.len() && i != j
                        ==> all_full[i].ppn.0 != all_full[j].ppn.0,
                forall|q: u64| !seq_owns(all_full, q) ==> a.allocated(q) == old(a).allocated(q),
                forall|q: u64|
                    seq_owns(all_full, q) ==> (a.allocated(q) <==> seq_owns(all@, q)),
            decreases all@.len(),
        {
            let ghost all_prev = all@;
            let fr = all.pop().unwrap();
            let ghost gone = fr.ppn.0;
            crate::frame_allocator::frame_dealloc(a, fr);
            proof {
                assert forall|i: int| 0 <= i < all@.len() implies a.allocated(
                    (#[trigger] all@[i]).ppn.0,
                ) by {
                    assert(all@[i] == all_full[i]);
                    assert(gone == all_full[all_prev.len() - 1].ppn.0);
                    assert(all@[i].ppn.0 != gone);
                }
                assert(all_full[all_prev.len() - 1].ppn.0 == gone);
                assert(seq_owns(all_full, gone));
                assert forall|q: u64| !seq_owns(all_full, q) implies a.allocated(q) == old(
                    a,
                ).allocated(q) by {
                    assert(q != gone);
                }
                assert forall|q: u64| seq_owns(all_full, q) implies (a.allocated(q) <==> seq_owns(
                    all@,
                    q,
                )) by {
                    if q == gone {
                        if seq_owns(all@, q) {
                            let i = choose|i: int| 0 <= i < all@.len() && all@[i].ppn.0 == q;
                            assert(all_full[i].ppn.0 == q);
                            assert(all_prev[all_prev.len() - 1].ppn.0 == q);
                            assert(all_full[all_prev.len() - 1].ppn.0 == q);
                        }
                    } else {
                        if seq_owns(all_prev, q) {
                            let i = choose|i: int|
                                0 <= i < all_prev.len() && all_prev[i].ppn.0 == q;
                            assert(i != all_prev.len() - 1);
                            assert(all@[i].ppn.0 == q);
                        } else {
                            if seq_owns(all@, q) {
                                let i = choose|i: int| 0 <= i < all@.len() && all@[i].ppn.0 == q;
                                assert(all_prev[i].ppn.0 == q);
                            }
                        }
                    }
                }
            }
        }
        proof {
            assert forall|q: u64| old(self).owns_frame(q) implies !a.allocated(q) by {
                assert(seq_owns(all_full, q));
            }
        }
    }
}

/// For every memory set and page away from the trampoline, the page
/// table holds a valid entry for the page exactly when some area of the
/// set covers it.
pub proof fn lemma_translate_iff_covered(m: MemorySet, v: VirtPageNum)
    requires
        m.wf(),
        v.wf(),
        v.0 != TRAMPOLINE_VPN,
    ensures
        m.spec_mapped(v.0) <==> m.covered(v.0),
{
    if m.covered(v.0) {
        let k = choose|k: int|
            0 <= k < m.areas_view().len() && (#[trigger] m.areas_view()[k]).covers(v.0);
        assert(m.area_maps(k, v.0));
    }
}

/// The trampoline page of a memory set is never part of an area: once
/// mapped it is always mapped, readable and executable, outside the
/// areas' bookkeeping.
pub proof fn lemma_trampoline_outside_areas(m: MemorySet)
    requires
        m.wf(),
    ensures
        !m.covered(TRAMPOLINE_VPN),
        m.tramp() is Some ==> m.spec_mapped(TRAMPOLINE_VPN) && m.pt().mapped_pte(
            vpn_of(TRAMPOLINE_VPN),
        ).spec_flags() == (PTE_R | PTE_X | PTE_V),
{
    if m.covered(TRAMPOLINE_VPN) {
        let k = choose|k: int|
            0 <= k < m.areas_view().len() && (#[trigger] m.areas_view()[k]).covers(
                TRAMPOLINE_VPN,
            );
    }
}

/// The `satp` value of the kernel address space.
pub fn kernel_token(kernel_space: &MemorySet) -> (r: u64)
    ensures
        r == kernel_space.pt().spec_token(),
{
    kernel_space.token()
}


impl MapArea {
    /// All the bytes of a fully mapped framed area, page after page, in
    /// one flat vector.
    pub fn bytes_concat(&self) -> (r: Vec<u8>)
        requires
            self.wf(),
            self.spec_map_type() is Framed,
            self.fully_mapped(),
        ensures
            r@.len() == self.page_count() * PAGE_SIZE,
            forall|i: int, off: int|
                0 <= i < self.page_count() && 0 <= off < PAGE_SIZE ==> r@[i * PAGE_SIZE + off]
                    == self.frames()[i].bytes()[off],
    {
        let mut r: Vec<u8> = Vec::new();
        let count = self.data_frames.len();
        let mut k: usize = 0;
        while k < count
            invariant
                self.wf(),
                self.spec_map_type() is Framed,
                self.fully_mapped(),
                count == self.frames().len(),
                k <= count,
                r@.len() == k * PAGE_SIZE,
                forall|i: int, off: int|
                    0 <= i < k && 0 <= off < PAGE_SIZE ==> r@[i * PAGE_SIZE + off]
                        == self.frames()[i].bytes()[off],
            decreases count - k,
        {
            let mut j: usize = 0;
            while j < 4096
                invariant
                    self.wf(),
                    self.spec_map_type() is Framed,
                    self.fully_mapped(),
                    count == self.frames().len(),
                    k < count,
                    j <= 4096,
                    r@.len() == k * PAGE_SIZE + j,
                    forall|i: int, off: int|
                        0 <= i < k && 0 <= off < PAGE_SIZE ==> r@[i * PAGE_SIZE + off]
                            == self.frames()[i].bytes()[off],
                    forall|off: int|
                        0 <= off < j ==> r@[k * PAGE_SIZE + off] == self.frames()[
                            k as int].bytes()[off],
                decreases 4096 - j,
            {
                let b = self.data_frames[k].read_byte(j);
                r.push(b);
                j = j + 1;
            }
            proof {
                assert(k * PAGE_SIZE + 4096 == (k + 1) * PAGE_SIZE) by (nonlinear_arith);
            }
            k = k + 1;
        }
        r
    }
}

/// Frames a framed area needs, summed over a sequence of areas.
pub open spec fn seq_pages_needed(areas: Seq<MapArea>) -> int
    decreases areas.len(),
{
    if areas.len() == 0 {
        0
    } else {
        seq_pages_needed(areas.drop_last()) + (
        if areas.last().spec_map_type() is Framed {
            areas.last().page_count()
        } else {
            0
        })
    }
}

impl MemorySet {
    /// Frames a full copy of the space would need: one per page of
    /// each framed area.
    pub fn pages_needed(&self) -> (r: u128)
        requires
            self.wf(),
        ensures
            r == seq_pages_needed(self.areas_view()),
    {
        let n = self.areas.len();
        let mut sum: u128 = 0;
        let mut i: usize = 0;
        proof {
            assert(self.areas_view().take(0) =~= Seq::<MapArea>::empty());
        }
        while i < n
            invariant
                self.wf(),
                n == self.areas_view().len(),
                i <= n,
                sum == seq_pages_needed(self.areas_view().take(i as int)),
                sum <= i * 0x800_0000,
            decreases n - i,
        {
            proof {
                lemma_pages_needed_take_step(self.areas_view(), i as int);
                assert(self.areas_view()[i as int].wf());
                let si = sum as int;
                let ii = i as int;
                assert(si + 0x800_0000 <= (ii + 1) * 0x800_0000) by (nonlinear_arith)
                    requires
                        si <= ii * 0x800_0000,
                        ii >= 0,
                ;
                assert((ii + 1) * 0x800_0000 <= 0x1_0000_0000_0000_0000 * 0x800_0000)
                    by (nonlinear_arith)
                    requires
                        ii + 1 <= 0x1_0000_0000_0000_0000,
                ;
            }
            let a = &self.areas[i];
            let add: u64 = match a.map_type {
                MapType::Framed => a.vpn_range.get_end().0 - a.vpn_range.get_start().0,
                _ => 0,
            };
            sum = sum + add as u128;
            i = i + 1;
        }
        proof {
            assert(self.areas_view().take(n as int) =~= self.areas_view());
        }
        sum
    }
}

/// One more area of the prefix adds exactly that area's need.
pub proof fn lemma_pages_needed_take_step(areas: Seq<MapArea>, k: int)
    requires
        0 <= k < areas.len(),
    ensures
        seq_pages_needed(areas.take(k + 1)) == seq_pages_needed(areas.take(k)) + (
        if areas[k].spec_map_type() is Framed {
            areas[k].page_count()
        } else {
            0
        }),
{
    assert(areas.take(k + 1).drop_last() =~= areas.take(k));
    assert(areas.take(k + 1).last() == areas[k]);
}

/// The whole sequence is its own full prefix.
pub proof fn lemma_pages_needed_full(areas: Seq<MapArea>)
    ensures
        seq_pages_needed(areas.take(areas.len() as int)) == seq_pages_needed(areas),
{
    assert(areas.take(areas.len() as int) =~= areas);
}

/// A prefix of well-formed areas never needs more than the whole
/// sequence.
pub proof fn lemma_pages_needed_mono(areas: Seq<MapArea>, k: int)
    requires
        0 <= k <= areas.len(),
        forall|i: int| 0 <= i < areas.len() ==> (#[trigger] areas[i]).wf(),
    ensures
        seq_pages_needed(areas.take(k)) <= seq_pages_needed(areas),
    decreases areas.len() - k,
{
    if k == areas.len() {
        lemma_pages_needed_full(areas);
    } else {
        lemma_pages_needed_take_step(areas, k);
        lemma_pages_needed_mono(areas, k + 1);
    }
}

/// Owning a frame in a pushed area list is owning it in the old list or
/// in the new area.
pub proof fn lemma_owns_after_push(olds: Seq<MapArea>, na: MapArea, q: u64)
    ensures
        (exists|k: int| 0 <= k < olds.push(na).len() && (#[trigger] olds.push(na)[k]).owns_frame(
            q,
        )) <==> ((exists|k: int| 0 <= k < olds.len() && (#[trigger] olds[k]).owns_frame(q))
            || na.owns_frame(q)),
{
    if exists|k: int| 0 <= k < olds.len() && (#[trigger] olds[k]).owns_frame(q) {
        let k = choose|k: int| 0 <= k < olds.len() && (#[trigger] olds[k]).owns_frame(q);
        assert(olds.push(na)[k].owns_frame(q));
    }
    if na.owns_frame(q) {
        assert(olds.push(na)[olds.len() as int].owns_frame(q));
    }
    if exists|k: int| 0 <= k < olds.push(na).len() && (#[trigger] olds.push(na)[k]).owns_frame(
        q,
    ) {
        let k = choose|k: int|
            0 <= k < olds.push(na).len() && (#[trigger] olds.push(na)[k]).owns_frame(q);
        if k < olds.len() {
            assert(olds[k].owns_frame(q));
        }
    }
}


impl MemorySet {
    /// Deep copy of a user space: same trampoline, mirrored areas with
    /// fresh frames, and every framed byte equal to the source at copy
    /// time. No frame is shared with the source, so writes to the copy
    /// can never reach it.
    pub fn from_existed_user(user_space: &MemorySet, a: &mut StackFrameAllocator) -> (r:
        MemorySet)
        requires
            user_space.wf(),
            user_space.tramp() is Some,
            user_space.frames_owned_by(*old(a)),
            old(a).wf(),
            old(a).spec_avail() >= seq_pages_needed(user_space.areas_view()),
        ensures
            r.wf(),
            final(a).wf(),
            r.tramp() == user_space.tramp(),
            r.areas_view().len() == user_space.areas_view().len(),
            forall|k: int|
                0 <= k < r.areas_view().len() ==> {
                    let ra = #[trigger] r.areas_view()[k];
                    let ua = user_space.areas_view()[k];
                    &&& ra.start() == ua.start()
                    &&& ra.end() == ua.end()
                    &&& ra.spec_map_type() == ua.spec_map_type()
                    &&& ra.perm() == ua.perm()
                    &&& ra.fully_mapped()
                },
            forall|k: int, i: int, off: int|
                0 <= k < r.areas_view().len() && r.areas_view()[k].spec_map_type() is Framed && 0
                    <= i < r.areas_view()[k].page_count() && 0 <= off < PAGE_SIZE
                    ==> (#[trigger] r.areas_view()[k].frames()[i].bytes()[off])
                    == user_space.areas_view()[k].frames()[i].bytes()[off],
            forall|q: u64| r.owns_frame(q) ==> !user_space.owns_frame(q),
            r.frames_owned_by(*final(a)),
            user_space.frames_owned_by(*final(a)),
            forall|q: u64| old(a).allocated(q) ==> final(a).allocated(q),
            final(a).spec_end() == old(a).spec_end(),
    {
        let mut ms = MemorySet::new_bare();
        let tp_opt = &user_space.trampoline_ppn;
        let tp: PhysPageNum = match tp_opt {
            Some(p) => *p,
            None => PhysPageNum(0),
        };
        ms.map_trampoline(tp);
        let count = user_space.areas.len();
        let mut k: usize = 0;
        proof {
            assert(seq_pages_needed(user_space.areas_view().take(0)) == 0);
        }
        while k < count
            invariant
                user_space.wf(),
                user_space.tramp() == Some(tp),
                user_space.frames_owned_by(*old(a)),
                old(a).spec_avail() >= seq_pages_needed(user_space.areas_view()),
                count == user_space.areas_view().len(),
                k <= count,
                ms.wf(),
                a.wf(),
                ms.tramp() == Some(tp),
                ms.areas_view().len() == k,
                forall|k2: int|
                    0 <= k2 < k ==> {
                        let ra = #[trigger] ms.areas_view()[k2];
                        let ua = user_space.areas_view()[k2];
                        &&& ra.start() == ua.start()
                        &&& ra.end() == ua.end()
                        &&& ra.spec_map_type() == ua.spec_map_type()
                        &&& ra.perm() == ua.perm()
                        &&& ra.fully_mapped()
                    },
                forall|k2: int, i: int, off: int|
                    0 <= k2 < k && ms.areas_view()[k2].spec_map_type() is Framed && 0 <= i
                        < ms.areas_view()[k2].page_count() && 0 <= off < PAGE_SIZE
                        ==> (#[trigger] ms.areas_view()[k2].frames()[i].bytes()[off])
                        == user_space.areas_view()[k2].frames()[i].bytes()[off],
                forall|q: u64| ms.owns_frame(q) ==> !old(a).allocated(q),
                ms.frames_owned_by(*a),
                forall|q: u64| old(a).allocated(q) ==> a.allocated(q),
                a.spec_avail() == old(a).spec_avail() - seq_pages_needed(
                    user_space.areas_view().take(k as int),
                ),
                a.spec_end() == old(a).spec_end(),
            decreases count - k,
        {
            let src_area = &user_space.areas[k];
            let na = MapArea::from_another(src_area);
            let ghost prev_ms = ms;
            let ghost prev_a = *a;
            proof {
                assert(user_space.areas_view()[k as int].wf());
                assert(!na.covers(TRAMPOLINE_VPN));
                assert forall|k2: int|
                    0 <= k2 < ms.areas_view().len() implies areas_disjoint(
                    na,
                    #[trigger] ms.areas_view()[k2],
                ) by {
                    assert(areas_disjoint(
                        user_space.areas_view()[k as int],
                        user_space.areas_view()[k2],
                    ));
                }
                lemma_pages_needed_take_step(user_space.areas_view(), k as int);
                lemma_pages_needed_mono(user_space.areas_view(), k as int + 1);
            }
            let is_framed = match src_area.map_type {
                MapType::Framed => true,
                _ => false,
            };
            if is_framed {
                let buf = src_area.bytes_concat();
                proof {
                    assert(na.page_count() * PAGE_SIZE == buf@.len());
                }
                ms.push(na, Some(&buf), a);
                proof {
                    let kk = k as int;
                    let ra = ms.areas_view()[kk];
                    let ua = user_space.areas_view()[kk];
                    assert forall|i: int, off: int|
                        0 <= i < ra.page_count() && 0 <= off < PAGE_SIZE implies (
                    #[trigger] ra.frames()[i].bytes()[off]) == ua.frames()[i].bytes()[off] by {
                        assert(i * PAGE_SIZE + off < buf@.len()) by (nonlinear_arith)
                            requires
                                0 <= i < ra.page_count(),
                                0 <= off < PAGE_SIZE,
                                buf@.len() == ra.page_count() * PAGE_SIZE,
                        ;
                        assert(i * PAGE_SIZE + off >= 0) by (nonlinear_arith)
                            requires
                                i >= 0,
                                off >= 0,
                        ;
                        assert(ra.frames()[i].bytes()[off] == buf@[i * PAGE_SIZE + off]);
                        assert(buf@[i * PAGE_SIZE + off] == ua.frames()[i].bytes()[off]);
                    }
                }
            } else {
                ms.push(na, None, a);
            }
            proof {
                assert forall|q: u64| ms.owns_frame(q) implies !old(a).allocated(q) by {
                    lemma_owns_after_push(prev_ms.areas_view(), ms.areas_view().last(), q);
                    if prev_ms.owns_frame(q) {
                    } else {
                        assert(ms.areas_view().last().owns_frame(q));
                        let i = choose|i: int|
                            0 <= i < ms.areas_view().last().frames().len()
                                && ms.areas_view().last().frames()[i].ppn.0 == q;
                        assert(!prev_a.allocated(q));
                        assert(!old(a).allocated(q));
                    }
                }
            }
            k = k + 1;
        }
        proof {
            assert forall|q: u64| ms.owns_frame(q) implies !user_space.owns_frame(q) by {
                if user_space.owns_frame(q) {
                    let k2 = choose|k2: int|
                        0 <= k2 < user_space.areas_view().len() && (
                        #[trigger] user_space.areas_view()[k2]).owns_frame(q);
                    let i = choose|i: int|
                        0 <= i < user_space.areas_view()[k2].frames().len()
                            && user_space.areas_view()[k2].frames()[i].ppn.0 == q;
                    assert(old(a).allocated(q));
                }
            }
        }
        ms
    }
}


/// Frames needed to map a sequence of loadable segments.
pub open spec fn elf_pages_needed(segs: Seq<crate::elf::ElfSegment>) -> int
    decreases segs.len(),
{
    if segs.len() == 0 {
        0
    } else {
        elf_pages_needed(segs.drop_last()) + (segs.last().end_vpn()
            - segs.last().start_vpn())
    }
}

/// One more segment of the prefix adds exactly that segment's pages.
pub proof fn lemma_elf_pages_needed_take_step(segs: Seq<crate::elf::ElfSegment>, k: int)
    requires
        0 <= k < segs.len(),
    ensures
        elf_pages_needed(segs.take(k + 1)) == elf_pages_needed(segs.take(k)) + (
        segs[k].end_vpn() - segs[k].start_vpn()),
{
    assert(segs.take(k + 1).drop_last() =~= segs.take(k));
    assert(segs.take(k + 1).last() == segs[k]);
}

/// A prefix of well-formed segments never needs more than the whole
/// sequence.
pub proof fn lemma_elf_pages_needed_mono(segs: Seq<crate::elf::ElfSegment>, k: int)
    requires
        0 <= k <= segs.len(),
        forall|i: int| 0 <= i < segs.len() ==> (#[trigger] segs[i]).wf(),
    ensures
        elf_pages_needed(segs.take(k)) <= elf_pages_needed(segs),
    decreases segs.len() - k,
{
    if k == segs.len() {
        assert(segs.take(k) =~= segs);
    } else {
        lemma_elf_pages_needed_take_step(segs, k);
        lemma_segment_vpn_order(segs[k]);
        lemma_elf_pages_needed_mono(segs, k + 1);
    }
}

impl MemorySet {
    /// Build a user space from a validated ELF image: the trampoline,
    /// then one framed user-reachable area per loadable segment, with
    /// the file bytes at the front of the area and the rest zeroed.
    /// Returns the space, the user-stack base (one guard page above
    /// the highest loaded page) and the entry point.
    pub fn from_elf(elf: &ElfImage, strampoline: PhysPageNum, a: &mut StackFrameAllocator) -> (r:
        (MemorySet, u64, u64))
        requires
            elf.wf(),
            strampoline.wf(),
            old(a).wf(),
            old(a).spec_avail() >= elf_pages_needed(elf.segments@),
        ensures
            r.0.wf(),
            final(a).wf(),
            r.0.tramp() == Some(strampoline),
            r.2 == elf.entry,
            r.0.areas_view().len() == elf.segments@.len(),
            forall|k: int|
                0 <= k < r.0.areas_view().len() ==> {
                    let ra = #[trigger] r.0.areas_view()[k];
                    let seg = elf.segments@[k];
                    &&& ra.start() == seg.start_vpn()
                    &&& ra.end() == seg.end_vpn()
                    &&& ra.spec_map_type() is Framed
                    &&& ra.perm() == seg.perm()
                    &&& ra.fully_mapped()
                },
            forall|k: int, i: int, off: int|
                0 <= k < r.0.areas_view().len() && 0 <= i < r.0.areas_view()[k].page_count() && 0
                    <= off < PAGE_SIZE ==> (#[trigger] r.0.areas_view()[k].frames()[i].bytes()[off])
                    == (if i * PAGE_SIZE + off < elf.segments@[k].data@.len() {
                    elf.segments@[k].data@[i * PAGE_SIZE + off]
                } else {
                    0u8
                }),
            r.1 == (if elf.segments@.len() > 0 {
                elf.segments@.last().end_vpn() * PAGE_SIZE + PAGE_SIZE
            } else {
                PAGE_SIZE as int
            }),
            r.1 <= 0x80_0000_0000,
            r.0.frames_owned_by(*final(a)),
            forall|q: u64| old(a).allocated(q) ==> final(a).allocated(q),
            forall|q: u64| r.0.owns_frame(q) ==> !old(a).allocated(q),
            final(a).spec_end() == old(a).spec_end(),
            final(a).spec_avail() == old(a).spec_avail() - elf_pages_needed(elf.segments@),
    {
        let mut ms = MemorySet::new_bare();
        ms.map_trampoline(strampoline);
        let count = elf.segments.len();
        let mut k: usize = 0;
        let mut max_end_vpn: u64 = 0;
        proof {
            assert(elf_pages_needed(elf.segments@.take(0)) == 0);
        }
        while k < count
            invariant
                elf.wf(),
                count == elf.segments@.len(),
                k <= count,
                ms.wf(),
                a.wf(),
                ms.tramp() == Some(strampoline),
                ms.areas_view().len() == k,
                old(a).spec_avail() >= elf_pages_needed(elf.segments@),
                forall|k2: int|
                    0 <= k2 < k ==> {
                        let ra = #[trigger] ms.areas_view()[k2];
                        let seg = elf.segments@[k2];
                        &&& ra.start() == seg.start_vpn()
                        &&& ra.end() == seg.end_vpn()
                        &&& ra.spec_map_type() is Framed
                        &&& ra.perm() == seg.perm()
                        &&& ra.fully_mapped()
                    },
                forall|k2: int, i: int, off: int|
                    0 <= k2 < k && 0 <= i < ms.areas_view()[k2].page_count() && 0 <= off
                        < PAGE_SIZE ==> (#[trigger] ms.areas_view()[k2].frames()[i].bytes()[off])
                        == (if i * PAGE_SIZE + off < elf.segments@[k2].data@.len() {
                        elf.segments@[k2].data@[i * PAGE_SIZE + off]
                    } else {
                        0u8
                    }),
                max_end_vpn == (if k > 0 {
                    elf.segments@[k - 1].end_vpn()
                } else {
                    0
                }),
                ms.frames_owned_by(*a),
                forall|q: u64| old(a).allocated(q) ==> a.allocated(q),
                forall|q: u64| ms.owns_frame(q) ==> !old(a).allocated(q),
                a.spec_avail() == old(a).spec_avail() - elf_pages_needed(
                    elf.segments@.take(k as int),
                ),
                a.spec_end() == old(a).spec_end(),
            decreases count - k,
        {
            let seg = &elf.segments[k];
            proof {
                assert(elf.segments@[k as int].wf());
                lemma_segment_vpn_order(elf.segments@[k as int]);
                lemma_elf_pages_needed_take_step(elf.segments@, k as int);
                lemma_elf_pages_needed_mono(elf.segments@, k as int + 1);
                assert forall|k2: int| 0 <= k2 < k implies elf.segments@[k2].end_vpn()
                    <= elf.segments@[k as int].start_vpn() by {
                    if k2 + 1 < k as int + 1 {
                        lemma_segments_pairwise_disjoint(*elf, k2, k as int);
                    }
                }
            }
            let start_va = VirtAddr(seg.start_va);
            let end_va = VirtAddr(seg.start_va + seg.mem_size);
            let area = MapArea::new(start_va, end_va, MapType::Framed, seg_perm(seg));
            proof {
                let ar = area;
                let sg = elf.segments@[k as int];
                assert(ar.end() == sg.end_vpn());
                assert(ar.page_count() * PAGE_SIZE >= sg.mem_size) by (nonlinear_arith)
                    requires
                        ar.page_count() == sg.end_vpn() - sg.start_vpn(),
                        sg.start_vpn() == sg.start_va / PAGE_SIZE,
                        sg.end_vpn() == (sg.start_va + sg.mem_size + PAGE_SIZE - 1) / (
                        PAGE_SIZE as int),
                        sg.start_va % PAGE_SIZE == 0,
                        sg.mem_size >= 0,
                        sg.start_va >= 0,
                        PAGE_SIZE == 4096,
                ;
                assert(!ar.covers(TRAMPOLINE_VPN)) by {
                    assert(sg.end_vpn() <= TRAMPOLINE_VPN) by (nonlinear_arith)
                        requires
                            sg.end_vpn() == (sg.start_va + sg.mem_size + PAGE_SIZE - 1) / (
                            PAGE_SIZE as int),
                            sg.start_va + sg.mem_size <= 0x7f_ffff_f000,
                            PAGE_SIZE == 4096,
                            TRAMPOLINE_VPN == 0x7ff_ffff,
                    ;
                }
            }
            let ghost prev_ms = ms;
            let ghost prev_a = *a;
            ms.push(area, Some(&seg.data), a);
            proof {
                assert forall|q: u64| ms.owns_frame(q) implies !old(a).allocated(q) by {
                    lemma_owns_after_push(prev_ms.areas_view(), ms.areas_view().last(), q);
                    if !prev_ms.owns_frame(q) {
                        assert(ms.areas_view().last().owns_frame(q));
                        let i = choose|i: int|
                            0 <= i < ms.areas_view().last().frames().len()
                                && ms.areas_view().last().frames()[i].ppn.0 == q;
                        assert(!prev_a.allocated(q));
                    }
                }
            }
            let end_vpn = end_va.ceil();
            max_end_vpn = end_vpn.0;
            k = k + 1;
        }
        let ustack_base: u64 = max_end_vpn * 4096 + 4096;
        proof {
            if count > 0 {
                assert(elf.segments@.last() == elf.segments@[count - 1]);
                let sg = elf.segments@[count - 1];
                assert(sg.wf());
                assert(sg.end_vpn() * PAGE_SIZE + PAGE_SIZE <= 0x80_0000_0000) by (nonlinear_arith)
                    requires
                        sg.end_vpn() == (sg.start_va + sg.mem_size + PAGE_SIZE - 1) / (
                        PAGE_SIZE as int),
                        sg.start_va + sg.mem_size <= 0x7f_ffff_f000,
                        sg.start_va >= 0,
                        sg.mem_size >= 0,
                        PAGE_SIZE == 4096,
                ;
            }
            assert(elf_pages_needed(elf.segments@.take(count as int)) == elf_pages_needed(
                elf.segments@,
            )) by {
                assert(elf.segments@.take(count as int) =~= elf.segments@);
            }
        }
        (ms, ustack_base, elf.entry)
    }
}

/// The permission byte of a loadable segment, as an executable
/// computation.
fn seg_perm(seg: &crate::elf::ElfSegment) -> (r: u8)
    ensures
        r == seg.perm(),
{
    let rb: u8 = if seg.readable {
        MAP_PERM_R
    } else {
        0
    };
    let wb: u8 = if seg.writable {
        MAP_PERM_W
    } else {
        0
    };
    let xb: u8 = if seg.executable {
        MAP_PERM_X
    } else {
        0
    };
    MAP_PERM_U | rb | wb | xb
}


/// Whether the loader accepts the bytes: they parse as an executable
/// and the parsed segments satisfy the loader's layout conditions.
pub open spec fn spec_elf_loadable(s: Seq<u8>) -> bool {
    &&& crate::elf::elf_ok(s)
    &&& crate::elf::views_wf(crate::elf::spec_segments(s, crate::elf::spec_ph_count(s)))
}

/// Frames the bytes' parsed segments need.
pub open spec fn spec_elf_frames(s: Seq<u8>) -> int {
    crate::elf::view_pages(crate::elf::spec_segments(s, crate::elf::spec_ph_count(s)))
}

/// Parse, validate and load an ELF executable into a fresh user
/// space: the trampoline, the loadable segments with their file bytes
/// and the entry point, built by [`MemorySet::from_elf`]. Succeeds
/// exactly when the bytes are loadable and the parsed segments fit
/// the free frames; otherwise nothing is returned and the allocator
/// is untouched.
pub fn load_elf(data: &Vec<u8>, strampoline: PhysPageNum, a: &mut StackFrameAllocator) -> (r:
    Option<(MemorySet, u64, u64)>)
    requires
        strampoline.wf(),
        old(a).wf(),
    ensures
        final(a).wf(),
        final(a).spec_end() == old(a).spec_end(),
        forall|q: u64| old(a).allocated(q) ==> final(a).allocated(q),
        r is Some <==> (spec_elf_loadable(data@) && spec_elf_frames(data@) <= old(
            a,
        ).spec_avail()),
        r matches Some(t) ==> {
            &&& t.0.wf()
            &&& t.0.tramp() == Some(strampoline)
            &&& t.0.frames_owned_by(*final(a))
            &&& forall|q: u64| t.0.owns_frame(q) ==> !old(a).allocated(q)
            &&& t.2 == crate::elf::le64(data@, 24)
            &&& t.1 <= 0x80_0000_0000
        },
        r is None ==> *final(a) == *old(a),
{
    let parsed = crate::elf::parse_elf(data);
    let img = match parsed {
        Some(img) => img,
        None => {
            return None;
        },
    };
    proof {
        assert(crate::elf::views_of(img.segments@) == crate::elf::spec_segments(
            data@,
            crate::elf::spec_ph_count(data@),
        ));
        crate::elf::lemma_views_wf_bridge(img);
    }
    if !crate::elf::validate_elf(&img) {
        return None;
    }
    proof {
        crate::elf::lemma_view_pages_bridge(img.segments@);
        assert(elf_pages_needed(img.segments@) == spec_elf_frames(data@));
    }
    let mut needed: u64 = 0;
    let count = img.segments.len();
    let mut k: usize = 0;
    proof {
        crate::elf::lemma_spec_segments_len(data@, crate::elf::spec_ph_count(data@));
        assert(count <= 0x1_0000);
    }
    while k < count
        invariant
            img.wf(),
            count == img.segments@.len(),
            count <= 0x1_0000,
            k <= count,
            needed == elf_pages_needed(img.segments@.take(k as int)),
            needed <= k * 0x800_0000,
        decreases count - k,
    {
        let seg = &img.segments[k];
        proof {
            assert(img.segments@[k as int].wf());
            lemma_segment_vpn_order(img.segments@[k as int]);
            lemma_elf_pages_needed_take_step(img.segments@, k as int);
            let sg = img.segments@[k as int];
            assert(sg.end_vpn() <= 0x800_0000) by (nonlinear_arith)
                requires
                    sg.end_vpn() == (sg.start_va + sg.mem_size + PAGE_SIZE - 1) / (
                    PAGE_SIZE as int),
                    sg.start_va + sg.mem_size <= 0x7f_ffff_f000,
                    sg.start_va >= 0,
                    sg.mem_size >= 0,
                    PAGE_SIZE == 4096,
            ;
            assert(needed + (sg.end_vpn() - sg.start_vpn()) <= (k + 1) * 0x800_0000)
                by (nonlinear_arith)
                requires
                    needed <= k * 0x800_0000,
                    0 <= sg.end_vpn() - sg.start_vpn() <= 0x800_0000,
                    k >= 0,
            ;
        }
        let pages: u64 = (seg.start_va + seg.mem_size + 4095) / 4096 - seg.start_va / 4096;
        needed = needed + pages;
        k = k + 1;
    }
    proof {
        assert(img.segments@.take(count as int) =~= img.segments@);
        assert(needed * 1 <= 0x1_0000 * 0x800_0000) by (nonlinear_arith)
            requires
                needed <= count * 0x800_0000,
                count <= 0x1_0000,
        ;
    }
    if a.avail_frames() < needed {
        return None;
    }
    let (ms, ustack_base, entry) = MemorySet::from_elf(&img, strampoline, a);
    Some((ms, ustack_base, entry))
}

impl MemorySet {
    /// Drop the area that starts at the given page, if any: unmap each
    /// of its pages and return its frames to the allocator. Succeeds
    /// exactly when some area starts there; otherwise nothing changes.
    pub fn remove_area_with_start_vpn(
        &mut self,
        start_vpn: VirtPageNum,
        a: &mut StackFrameAllocator,
    ) -> (r: bool)
        requires
            old(self).wf(),
            old(a).wf(),
            old(self).frames_owned_by(*old(a)),
        ensures
            final(self).wf(),
            final(a).wf(),
            final(self).frames_owned_by(*final(a)),
            final(a).spec_end() == old(a).spec_end(),
            final(a).spec_current() == old(a).spec_current(),
            final(self).tramp() == old(self).tramp(),
            final(self).pt().spec_token() == old(self).pt().spec_token(),
            r <==> exists|k: int|
                0 <= k < old(self).areas_view().len() && (#[trigger] old(
                    self,
                ).areas_view()[k].start()) == start_vpn.0,
            !r ==> *final(self) == *old(self) && *final(a) == *old(a),
            r ==> exists|k: int|
                {
                    &&& 0 <= k < old(self).areas_view().len()
                    &&& (#[trigger] old(self).areas_view()[k].start()) == start_vpn.0
                    &&& final(self).areas_view() == old(self).areas_view().remove(k)
                    &&& forall|v: u64|
                        old(self).areas_view()[k].covers(v) ==> !final(self).spec_mapped(v)
                    &&& forall|v: u64|
                        v < VPN_LIMIT && !old(self).areas_view()[k].covers(v)
                            ==> #[trigger] final(self).spec_mapped(v) == old(self).spec_mapped(v)
                    &&& forall|q: u64|
                        old(self).areas_view()[k].owns_frame(q) ==> !final(a).allocated(q)
                    &&& forall|q: u64|
                        !old(self).areas_view()[k].owns_frame(q) ==> final(a).allocated(q) == old(
                            a,
                        ).allocated(q)
                    &&& final(a).spec_avail() == old(a).spec_avail() + old(
                        self,
                    ).areas_view()[k].frames().len()
                },
    {
        let n = self.areas.len();
        let mut idx: usize = 0;
        let mut found: bool = false;
        while !found && idx < n
            invariant
                n == self.areas_view().len(),
                *self == *old(self),
                *a == *old(a),
                idx <= n,
                forall|j: int|
                    0 <= j < idx ==> (#[trigger] self.areas_view()[j].start()) != start_vpn.0,
                found ==> idx < n && self.areas_view()[idx as int].start() == start_vpn.0,
            decreases 2 * (n - idx) + (if found { 0int } else { 1int }),
        {
            if self.areas[idx].vpn_range.get_start().0 == start_vpn.0 {
                found = true;
            } else {
                idx = idx + 1;
            }
        }
        if !found {
            return false;
        }
        let ghost k = idx as int;
        let ghost olds = old(self).areas_view();
        let mut ar = self.areas.remove(idx);
        proof {
            assert(ar == olds[k]);
            assert(olds[k].wf() && olds[k].fully_mapped());
        }
        let start: u64 = ar.vpn_range.get_start().0;
        let end: u64 = ar.vpn_range.get_end().0;
        let mut v: u64 = start;
        while v < end
            invariant
                old(self).wf(),
                0 <= k < olds.len(),
                olds == old(self).areas_view(),
                olds[k].start() == start,
                olds[k].end() == end,
                start <= v <= end,
                end <= VPN_LIMIT,
                self.areas_view() == olds.remove(k),
                self.tramp() == old(self).tramp(),
                self.pt().wf(),
                self.pt().spec_token() == old(self).pt().spec_token(),
                forall|u: u64|
                    start <= u < v ==> !(#[trigger] self.pt().is_mapped(vpn_of(u))),
                forall|u: u64|
                    u < VPN_LIMIT && !(start <= u < v) ==> #[trigger] self.pt().is_mapped(
                        vpn_of(u),
                    ) == old(self).pt().is_mapped(vpn_of(u)) && (old(self).pt().is_mapped(
                        vpn_of(u),
                    ) ==> self.pt().mapped_pte(vpn_of(u)) == old(self).pt().mapped_pte(
                        vpn_of(u),
                    )),
            decreases end - v,
        {
            let ghost pt_pre = self.pt();
            proof {
                assert(olds[k].covers(v));
                assert(old(self).area_maps(k, v));
                assert(vpn_of(v).wf());
                assert(self.pt().is_mapped(vpn_of(v)) == old(self).pt().is_mapped(vpn_of(v)));
            }
            self.page_table.unmap(VirtPageNum(v));
            proof {
                assert forall|u: u64| start <= u < v + 1 implies !(#[trigger] self.pt().is_mapped(
                    vpn_of(u),
                )) by {
                    assert(vpn_of(u).wf());
                    if u != v {
                        assert(!pt_pre.is_mapped(vpn_of(u)));
                    }
                }
                assert forall|u: u64| u < VPN_LIMIT && !(start <= u < v + 1) implies #[trigger] self.pt().is_mapped(
                    vpn_of(u),
                ) == old(self).pt().is_mapped(vpn_of(u)) && (old(self).pt().is_mapped(vpn_of(u))
                    ==> self.pt().mapped_pte(vpn_of(u)) == old(self).pt().mapped_pte(
                    vpn_of(u),
                )) by {
                    assert(vpn_of(u).wf());
                    assert(vpn_of(u).0 != v);
                }
            }
            v = v + 1;
        }
        let ghost arf = ar.data_frames@;
        proof {
            assert(arf == olds[k].frames());
            assert forall|i: int, j: int|
                0 <= i < arf.len() && 0 <= j < arf.len() && i != j implies arf[i].ppn.0
                != arf[j].ppn.0 by {
                assert(olds[k].wf());
            }
            assert forall|i: int| 0 <= i < arf.len() implies a.allocated(
                (#[trigger] arf[i]).ppn.0,
            ) by {
                assert(old(self).frames_owned_by(*old(a)));
            }
        }
        while ar.data_frames.len() > 0
            invariant
                a.wf(),
                a.spec_end() == old(a).spec_end(),
                a.spec_current() == old(a).spec_current(),
                ar.data_frames@.len() <= arf.len(),
                forall|i: int| 0 <= i < ar.data_frames@.len() ==> ar.data_frames@[i] == arf[i],
                forall|i: int, j: int|
                    0 <= i < arf.len() && 0 <= j < arf.len() && i != j ==> arf[i].ppn.0
                        != arf[j].ppn.0,
                forall|i: int|
                    0 <= i < ar.data_frames@.len() ==> a.allocated(
                        (#[trigger] ar.data_frames@[i]).ppn.0,
                    ),
                forall|q: u64| !seq_owns(arf, q) ==> a.allocated(q) == old(a).allocated(q),
                forall|q: u64|
                    seq_owns(arf, q) ==> (a.allocated(q) <==> seq_owns(ar.data_frames@, q)),
                a.spec_avail() == old(a).spec_avail() + (arf.len() - ar.data_frames@.len()),
            decreases ar.data_frames@.len(),
        {
            let ghost frames_prev = ar.data_frames@;
            let fr = ar.data_frames.pop().unwrap();
            let ghost gone = fr.ppn.0;
            crate::frame_allocator::frame_dealloc(a, fr);
            proof {
                assert(gone == arf[frames_prev.len() - 1].ppn.0);
                assert forall|i: int| 0 <= i < ar.data_frames@.len() implies a.allocated(
                    (#[trigger] ar.data_frames@[i]).ppn.0,
                ) by {
                    assert(ar.data_frames@[i] == arf[i]);
                    assert(arf[i].ppn.0 != gone);
                }
                assert(seq_owns(arf, gone));
                assert forall|q: u64| !seq_owns(arf, q) implies a.allocated(q) == old(
                    a,
                ).allocated(q) by {
                    assert(q != gone);
                }
                assert forall|q: u64| seq_owns(arf, q) implies (a.allocated(q) <==> seq_owns(
                    ar.data_frames@,
                    q,
                )) by {
                    if q == gone {
                        if seq_owns(ar.data_frames@, q) {
                            let i = choose|i: int|
                                0 <= i < ar.data_frames@.len() && ar.data_frames@[i].ppn.0 == q;
                            assert(arf[i].ppn.0 == q);
                            assert(arf[frames_prev.len() - 1].ppn.0 == q);
                        }
                    } else {
                        if seq_owns(frames_prev, q) {
                            let i = choose|i: int|
                                0 <= i < frames_prev.len() && frames_prev[i].ppn.0 == q;
                            assert(frames_prev[i] == arf[i]);
                            assert(i != frames_prev.len() - 1);
                            assert(ar.data_frames@[i].ppn.0 == q);
                        } else {
                            if seq_owns(ar.data_frames@, q) {
                                let i = choose|i: int|
                                    0 <= i < ar.data_frames@.len() && ar.data_frames@[i].ppn.0
                                        == q;
                                assert(frames_prev[i].ppn.0 == q);
                            }
                        }
                    }
                }
            }
        }
        proof {
            let news = self.areas_view();
            assert forall|q: u64| olds[k].owns_frame(q) implies !a.allocated(q) by {
                let i = choose|i: int| 0 <= i < arf.len() && arf[i].ppn.0 == q;
                assert(seq_owns(arf, q));
            }
            assert forall|q: u64| !olds[k].owns_frame(q) implies a.allocated(q) == old(
                a,
            ).allocated(q) by {
                if seq_owns(arf, q) {
                    let i = choose|i: int| 0 <= i < arf.len() && arf[i].ppn.0 == q;
                    assert(olds[k].owns_frame(q));
                }
            }
            assert forall|i: int| 0 <= i < news.len() implies news[i] == olds[
                if i < k {
                    i
                } else {
                    i + 1
                }
            ] by {}
            assert forall|i: int|
                0 <= i < news.len() implies (#[trigger] news[i]).wf() && news[i].fully_mapped()
                && !news[i].covers(TRAMPOLINE_VPN) by {
                let j = if i < k { i } else { i + 1 };
                assert(olds[j].wf() && olds[j].fully_mapped() && !olds[j].covers(
                    TRAMPOLINE_VPN,
                ));
            }
            assert forall|k1: int, k2: int|
                0 <= k1 < news.len() && 0 <= k2 < news.len() && k1 != k2 implies areas_disjoint(
                news[k1],
                news[k2],
            ) by {
                let j1 = if k1 < k { k1 } else { k1 + 1 };
                let j2 = if k2 < k { k2 } else { k2 + 1 };
                assert(areas_disjoint(olds[j1], olds[j2]));
            }
            assert forall|i: int, v2: u64|
                0 <= i < news.len() && (#[trigger] news[i].covers(v2)) implies self.area_maps(
                i,
                v2,
            ) by {
                let j = if i < k { i } else { i + 1 };
                assert(olds[j].covers(v2));
                assert(old(self).area_maps(j, v2));
                assert(olds[j].wf());
                assert(v2 < VPN_LIMIT);
                assert(areas_disjoint(olds[j], olds[k]));
                assert(!(start <= v2 < end));
                assert(self.pt().is_mapped(vpn_of(v2)) == old(self).pt().is_mapped(vpn_of(v2)));
            }
            assert forall|v2: u64|
                v2 < VPN_LIMIT && #[trigger] self.pt().is_mapped(vpn_of(v2)) implies seq_covers(
                news,
                v2,
            ) || (v2 == TRAMPOLINE_VPN && self.tramp() is Some) by {
                assert(!(start <= v2 < end));
                assert(old(self).pt().is_mapped(vpn_of(v2)));
                if v2 != TRAMPOLINE_VPN || old(self).tramp() is None {
                    assert(seq_covers(olds, v2));
                    let j = choose|j: int| 0 <= j < olds.len() && (#[trigger] olds[j]).covers(v2);
                    assert(j != k);
                    let i = if j < k { j } else { j - 1 };
                    assert(news[i] == olds[j]);
                    assert(news[i].covers(v2));
                }
            }
            assert(!olds[k].covers(TRAMPOLINE_VPN));
            match old(self).tramp() {
                Some(_) => {
                    assert(self.pt().is_mapped(vpn_of(TRAMPOLINE_VPN)) && self.pt().mapped_pte(
                        vpn_of(TRAMPOLINE_VPN),
                    ) == old(self).pt().mapped_pte(vpn_of(TRAMPOLINE_VPN)));
                },
                None => {
                    assert(self.pt().is_mapped(vpn_of(TRAMPOLINE_VPN)) == old(
                        self,
                    ).pt().is_mapped(vpn_of(TRAMPOLINE_VPN)));
                },
            }
            assert forall|k1: int, i1: int, k2: int, i2: int|
                0 <= k1 < news.len() && 0 <= i1 < news[k1].frames().len() && 0 <= k2 < news.len()
                    && 0 <= i2 < news[k2].frames().len() && k1 != k2 implies (
            #[trigger] news[k1].frames()[i1]).ppn.0 != (#[trigger] news[k2].frames()[i2]).ppn.0 by {
                let j1 = if k1 < k { k1 } else { k1 + 1 };
                let j2 = if k2 < k { k2 } else { k2 + 1 };
                assert(olds[j1].frames()[i1] == news[k1].frames()[i1]);
                assert(olds[j2].frames()[i2] == news[k2].frames()[i2]);
            }
            assert forall|i: int, i2: int|
                0 <= i < news.len() && 0 <= i2 < news[i].frames().len() implies a.allocated(
                (#[trigger] news[i].frames()[i2]).ppn.0,
            ) by {
                let j = if i < k { i } else { i + 1 };
                assert(olds[j].frames()[i2] == news[i].frames()[i2]);
                assert(old(a).allocated(olds[j].frames()[i2].ppn.0));
                if seq_owns(arf, news[i].frames()[i2].ppn.0) {
                    let w = choose|w: int|
                        0 <= w < arf.len() && arf[w].ppn.0 == news[i].frames()[i2].ppn.0;
                    assert(olds[k].frames()[w].ppn.0 == olds[j].frames()[i2].ppn.0);
                    assert(false);
                }
            }
            assert forall|v2: u64| olds[k].covers(v2) implies !self.spec_mapped(v2) by {
                assert(start <= v2 < end);
            }
            assert(0 <= k < olds.len() && olds[k].start() == start_vpn.0 && self.areas_view()
                == olds.remove(k));
        }
        true
    }
}

/// The identity-mapped byte ranges a kernel space is built from: the
/// kernel's sections, then the MMIO windows.
pub open spec fn ident_ranges(sections: Seq<(u64, u64, u8)>, mmio: Seq<(u64, u64)>) -> Seq<
    (u64, u64),
> {
    sections.map_values(|t: (u64, u64, u8)| (t.0, t.1)) + mmio
}

/// Page holding the byte at the address.
pub open spec fn page_floor(x: u64) -> int {
    x as int / (PAGE_SIZE as int)
}

/// First page at or past the address.
pub open spec fn page_ceil(x: u64) -> int {
    (x + PAGE_SIZE - 1) / (PAGE_SIZE as int)
}

/// Build the kernel's address space: the trampoline page, one
/// identity-mapped area per kernel section with its permission byte,
/// and one identity-mapped read-write area per MMIO window.
pub fn new_kernel(
    sections: &Vec<(u64, u64, u8)>,
    mmio: &Vec<(u64, u64)>,
    strampoline: PhysPageNum,
    a: &mut StackFrameAllocator,
) -> (r: MemorySet)
    requires
        strampoline.wf(),
        old(a).wf(),
        forall|i: int|
            0 <= i < sections@.len() ==> (#[trigger] sections@[i]).0 <= sections@[i].1
                && sections@[i].1 <= MEMORY_END,
        forall|i: int|
            0 <= i < mmio@.len() ==> (#[trigger] mmio@[i]).0 <= mmio@[i].1 && mmio@[i].1
                <= MEMORY_END,
        forall|i: int, j: int|
            0 <= i < ident_ranges(sections@, mmio@).len() && 0 <= j < ident_ranges(
                sections@,
                mmio@,
            ).len() && i != j ==> page_ceil((#[trigger] ident_ranges(sections@, mmio@)[i]).1)
                <= page_floor((#[trigger] ident_ranges(sections@, mmio@)[j]).0) || page_ceil(
                ident_ranges(sections@, mmio@)[j].1,
            ) <= page_floor(ident_ranges(sections@, mmio@)[i].0),
    ensures
        r.wf(),
        final(a).wf(),
        r.frames_owned_by(*final(a)),
        r.tramp() == Some(strampoline),
        r.areas_view().len() == sections@.len() + mmio@.len(),
        forall|i: int|
            0 <= i < sections@.len() ==> (#[trigger] r.areas_view()[i].start()) == page_floor(
                sections@[i].0,
            ) && r.areas_view()[i].end() == page_ceil(sections@[i].1) && r.areas_view()[i].spec_map_type() is Identical
                && r.areas_view()[i].perm() == sections@[i].2,
        forall|i: int|
            0 <= i < mmio@.len() ==> (#[trigger] r.areas_view()[sections@.len() + i].start())
                == page_floor(mmio@[i].0) && r.areas_view()[sections@.len() + i].end()
                == page_ceil(mmio@[i].1) && r.areas_view()[sections@.len()
                + i].spec_map_type() is Identical && r.areas_view()[sections@.len() + i].perm()
                == (MAP_PERM_R | MAP_PERM_W),
        forall|q: u64| final(a).allocated(q) == old(a).allocated(q),
        final(a).spec_avail() == old(a).spec_avail(),
        final(a).spec_end() == old(a).spec_end(),
{
    let ghost rs = ident_ranges(sections@, mmio@);
    let mut ms = MemorySet::new_bare();
    ms.map_trampoline(strampoline);
    let ns = sections.len();
    let mut i: usize = 0;
    while i < ns
        invariant
            old(a).wf(),
            a.wf(),
            strampoline.wf(),
            rs == ident_ranges(sections@, mmio@),
            forall|j: int|
                0 <= j < sections@.len() ==> (#[trigger] sections@[j]).0 <= sections@[j].1
                    && sections@[j].1 <= MEMORY_END,
            forall|i2: int, j2: int|
                0 <= i2 < rs.len() && 0 <= j2 < rs.len() && i2 != j2 ==> page_ceil(
                    (#[trigger] rs[i2]).1,
                ) <= page_floor((#[trigger] rs[j2]).0) || page_ceil(rs[j2].1) <= page_floor(
                    rs[i2].0,
                ),
            ns == sections@.len(),
            i <= ns,
            ms.wf(),
            ms.tramp() == Some(strampoline),
            ms.areas_view().len() == i,
            forall|j: int|
                0 <= j < i ==> (#[trigger] ms.areas_view()[j].start()) == page_floor(
                    sections@[j].0,
                ) && ms.areas_view()[j].end() == page_ceil(sections@[j].1)
                    && ms.areas_view()[j].spec_map_type() is Identical && ms.areas_view()[j].perm()
                    == sections@[j].2,
            forall|q: u64| a.allocated(q) == old(a).allocated(q),
            a.spec_avail() == old(a).spec_avail(),
            a.spec_end() == old(a).spec_end(),
        decreases ns - i,
    {
        let s = sections[i].0;
        let e = sections[i].1;
        let p = sections[i].2;
        proof {
            vstd::arithmetic::div_mod::lemma_div_is_ordered(
                s as int,
                e as int + PAGE_SIZE - 1,
                PAGE_SIZE as int,
            );
        }
        let area = MapArea::new(VirtAddr(s), VirtAddr(e), MapType::Identical, p);
        proof {
            vstd::arithmetic::div_mod::lemma_div_is_ordered(
                e as int + PAGE_SIZE - 1,
                MEMORY_END as int + PAGE_SIZE - 1,
                PAGE_SIZE as int,
            );
            assert((MEMORY_END as int + PAGE_SIZE - 1) / (PAGE_SIZE as int) == 0x88000);
            assert(!area.covers(TRAMPOLINE_VPN));
            assert(rs[i as int] == (s, e));
            assert forall|kk: int| 0 <= kk < ms.areas_view().len() implies areas_disjoint(
                area,
                #[trigger] ms.areas_view()[kk],
            ) by {
                assert(rs[kk] == (sections@[kk].0, sections@[kk].1));
                assert(page_ceil(rs[i as int].1) <= page_floor(rs[kk].0) || page_ceil(rs[kk].1)
                    <= page_floor(rs[i as int].0));
            }
            assert(ms.frames_owned_by(*a)) by {
                assert forall|k2: int, i2: int|
                    0 <= k2 < ms.areas_view().len() && 0 <= i2
                        < ms.areas_view()[k2].frames().len() implies a.allocated(
                    (#[trigger] ms.areas_view()[k2].frames()[i2]).ppn.0,
                ) by {
                    assert(ms.areas_view()[k2].wf());
                }
            }
        }
        let ghost ms_pre = ms;
        let ghost a_pre = *a;
        ms.push(area, None, a);
        proof {
            assert forall|q: u64| a.allocated(q) == old(a).allocated(q) by {
                if a.allocated(q) && !a_pre.allocated(q) {
                    assert(ms.areas_view().last().owns_frame(q));
                    assert(ms.areas_view().last().wf());
                    assert(false);
                }
            }
        }
        i = i + 1;
    }
    let nm = mmio.len();
    let mut i2: usize = 0;
    while i2 < nm
        invariant
            old(a).wf(),
            a.wf(),
            strampoline.wf(),
            rs == ident_ranges(sections@, mmio@),
            forall|j: int|
                0 <= j < mmio@.len() ==> (#[trigger] mmio@[j]).0 <= mmio@[j].1 && mmio@[j].1
                    <= MEMORY_END,
            forall|i3: int, j3: int|
                0 <= i3 < rs.len() && 0 <= j3 < rs.len() && i3 != j3 ==> page_ceil(
                    (#[trigger] rs[i3]).1,
                ) <= page_floor((#[trigger] rs[j3]).0) || page_ceil(rs[j3].1) <= page_floor(
                    rs[i3].0,
                ),
            ns == sections@.len(),
            nm == mmio@.len(),
            i2 <= nm,
            ms.wf(),
            ms.tramp() == Some(strampoline),
            ms.areas_view().len() == ns + i2,
            forall|j: int|
                0 <= j < ns ==> (#[trigger] ms.areas_view()[j].start()) == page_floor(
                    sections@[j].0,
                ) && ms.areas_view()[j].end() == page_ceil(sections@[j].1)
                    && ms.areas_view()[j].spec_map_type() is Identical && ms.areas_view()[j].perm()
                    == sections@[j].2,
            forall|j: int|
                0 <= j < i2 ==> (#[trigger] ms.areas_view()[ns + j].start()) == page_floor(
                    mmio@[j].0,
                ) && ms.areas_view()[ns + j].end() == page_ceil(mmio@[j].1) && ms.areas_view()[ns
                    + j].spec_map_type() is Identical && ms.areas_view()[ns + j].perm() == (
                MAP_PERM_R | MAP_PERM_W),
            forall|j: int|
                0 <= j < ms.areas_view().len() ==> (#[trigger] ms.areas_view()[j].start())
                    == page_floor(rs[j].0) && ms.areas_view()[j].end() == page_ceil(rs[j].1),
            forall|q: u64| a.allocated(q) == old(a).allocated(q),
            a.spec_avail() == old(a).spec_avail(),
            a.spec_end() == old(a).spec_end(),
        decreases nm - i2,
    {
        let s = mmio[i2].0;
        let e = mmio[i2].1;
        proof {
            vstd::arithmetic::div_mod::lemma_div_is_ordered(
                s as int,
                e as int + PAGE_SIZE - 1,
                PAGE_SIZE as int,
            );
        }
        let area = MapArea::new(
            VirtAddr(s),
            VirtAddr(e),
            MapType::Identical,
            MAP_PERM_R | MAP_PERM_W,
        );
        proof {
            vstd::arithmetic::div_mod::lemma_div_is_ordered(
                e as int + PAGE_SIZE - 1,
                MEMORY_END as int + PAGE_SIZE - 1,
                PAGE_SIZE as int,
            );
            assert((MEMORY_END as int + PAGE_SIZE - 1) / (PAGE_SIZE as int) == 0x88000);
            assert(!area.covers(TRAMPOLINE_VPN));
            assert(rs[ns + i2 as int] == (s, e));
            assert forall|kk: int| 0 <= kk < ms.areas_view().len() implies areas_disjoint(
                area,
                #[trigger] ms.areas_view()[kk],
            ) by {
                assert(page_ceil(rs[ns + i2 as int].1) <= page_floor(rs[kk].0) || page_ceil(
                    rs[kk].1,
                ) <= page_floor(rs[ns + i2 as int].0));
            }
            assert(ms.frames_owned_by(*a)) by {
                assert forall|k2: int, i3: int|
                    0 <= k2 < ms.areas_view().len() && 0 <= i3
                        < ms.areas_view()[k2].frames().len() implies a.allocated(
                    (#[trigger] ms.areas_view()[k2].frames()[i3]).ppn.0,
                ) by {
                    if k2 < ns {
                        assert(ms.areas_view()[k2].start() == page_floor(sections@[k2].0));
                    } else {
                        assert(ms.areas_view()[ns + (k2 - ns)].start() == page_floor(
                            mmio@[k2 - ns].0,
                        ));
                    }
                    assert(ms.areas_view()[k2].spec_map_type() is Identical);
                    assert(ms.areas_view()[k2].wf());
                }
            }
        }
        let ghost a_pre = *a;
        ms.push(area, None, a);
        proof {
            assert forall|q: u64| a.allocated(q) == old(a).allocated(q) by {
                if a.allocated(q) && !a_pre.allocated(q) {
                    assert(ms.areas_view().last().owns_frame(q));
                    assert(ms.areas_view().last().wf());
                    assert(false);
                }
            }
        }
        i2 = i2 + 1;
    }
    proof {
        assert(ms.frames_owned_by(*a)) by {
            assert forall|k2: int, i3: int|
                0 <= k2 < ms.areas_view().len() && 0 <= i3
                    < ms.areas_view()[k2].frames().len() implies a.allocated(
                (#[trigger] ms.areas_view()[k2].frames()[i3]).ppn.0,
            ) by {
                if k2 < ns {
                    assert(ms.areas_view()[k2].start() == page_floor(sections@[k2].0));
                } else {
                    assert(ms.areas_view()[ns + (k2 - ns)].start() == page_floor(
                        mmio@[k2 - ns].0,
                    ));
                }
                assert(ms.areas_view()[k2].spec_map_type() is Identical);
                assert(ms.areas_view()[k2].wf());
            }
        }
    }
    ms
}

} // verus!