//! The loader's view of an ELF executable: the entry point and the
//! loadable segments, as plain values, plus the call into the parser.

use vstd::prelude::*;

use crate::config::PAGE_SIZE;
use crate::memory_set::{MAP_PERM_R, MAP_PERM_U, MAP_PERM_W, MAP_PERM_X};

verus! {

/// One loadable segment: where it sits in the user's address space,
/// how large it is in memory, its access rights, and the file-backed
/// prefix of its contents (the rest is zeroed).
pub struct ElfSegment {
    /// First virtual address of the segment.
    pub start_va: u64,
    /// Size of the segment in memory, in bytes.
    pub mem_size: u64,
    /// Whether the segment may be read.
    pub readable: bool,
    /// Whether the segment may be written.
    pub writable: bool,
    /// Whether the segment may be executed.
    pub executable: bool,
    /// The file-backed bytes of the segment.
    pub data: Vec<u8>,
}

impl ElfSegment {
    /// First page of the segment.
    pub open spec fn start_vpn(self) -> u64 {
        self.start_va / PAGE_SIZE
    }

    /// First page past the segment.
    pub open spec fn end_vpn(self) -> int {
        (self.start_va + self.mem_size + PAGE_SIZE - 1) / (PAGE_SIZE as int)
    }

    /// The permission byte of the segment: user-reachable plus its
    /// access rights.
    pub open spec fn perm(self) -> u8 {
        MAP_PERM_U | (if self.readable {
            MAP_PERM_R
        } else {
            0
        }) | (if self.writable {
            MAP_PERM_W
        } else {
            0
        }) | (if self.executable {
            MAP_PERM_X
        } else {
            0
        })
    }

    /// A loadable segment starts on a page boundary, stays below the
    /// trampoline region, and its file bytes fit its memory size.
    pub open spec fn wf(self) -> bool {
        &&& self.start_va % PAGE_SIZE == 0
        &&& self.start_va + self.mem_size <= 0x7f_ffff_f000
        &&& self.data@.len() <= self.mem_size
    }
}

/// A parsed ELF image: the entry point and the loadable segments in
/// ascending, non-overlapping page order.
pub struct ElfImage {
    /// The program's entry point.
    pub entry: u64,
    /// The loadable segments.
    pub segments: Vec<ElfSegment>,
}

impl ElfImage {
    /// Every segment is well formed and consecutive segments' page
    /// ranges do not overlap.
    pub open spec fn wf(self) -> bool {
        &&& forall|i: int| 0 <= i < self.segments@.len() ==> (#[trigger] self.segments@[i]).wf()
        &&& forall|i: int|
            0 <= i && i + 1 < self.segments@.len() ==> (#[trigger] self.segments@[i]).end_vpn()
                <= self.segments@[i + 1].start_vpn()
    }
}

/// A well-formed segment spans at least the pages from its first to
/// its last.
pub proof fn lemma_segment_vpn_order(seg: ElfSegment)
    requires
        seg.wf(),
    ensures
        seg.start_vpn() <= seg.end_vpn(),
{
    assert(seg.start_va / PAGE_SIZE <= (seg.start_va + seg.mem_size + PAGE_SIZE - 1) / (
    PAGE_SIZE as int)) by (nonlinear_arith)
        requires
            seg.mem_size >= 0,
            seg.start_va >= 0,
    ;
}

/// In a well-formed image any earlier segment ends at or before any
/// later one starts.
pub proof fn lemma_segments_pairwise_disjoint(img: ElfImage, i: int, j: int)
    requires
        img.wf(),
        0 <= i < j < img.segments@.len(),
    ensures
        img.segments@[i].end_vpn() <= img.segments@[j].start_vpn(),
    decreases j - i,
{
    if i + 1 == j {
    } else {
        lemma_segments_pairwise_disjoint(img, i + 1, j);
        lemma_segment_vpn_order(img.segments@[i + 1]);
    }
}

/// Whether the parsed image satisfies everything the loader assumes:
/// aligned segments below the trampoline region, file bytes within
/// memory size, and ascending disjoint page ranges.
pub fn validate_elf(img: &ElfImage) -> (r: bool)
    ensures
        r <==> img.wf(),
{
    let count = img.segments.len();
    let mut k: usize = 0;
    let mut all_wf = true;
    while k < count
        invariant
            count == img.segments@.len(),
            k <= count,
            all_wf <==> forall|i: int| 0 <= i < k ==> (#[trigger] img.segments@[i]).wf(),
        decreases count - k,
    {
        let seg = &img.segments[k];
        let seg_ok = seg.start_va % 4096 == 0 && seg.start_va <= 0x7f_ffff_f000u64
            && seg.mem_size <= 0x7f_ffff_f000u64 - seg.start_va && seg.data.len() as u64
            <= seg.mem_size;
        all_wf = all_wf && seg_ok;
        k = k + 1;
    }
    let mut adj = true;
    if count > 0 {
        let mut k2: usize = 0;
        while k2 + 1 < count
            invariant
                count == img.segments@.len(),
                k2 < count,
                all_wf <==> forall|i: int| 0 <= i < count ==> (#[trigger] img.segments@[i]).wf(),
                all_wf ==> (adj <==> forall|i: int|
                    0 <= i && i + 1 < k2 + 1 ==> (#[trigger] img.segments@[i]).end_vpn()
                        <= img.segments@[i + 1].start_vpn()),
            decreases count - k2,
        {
            let prev = &img.segments[k2];
            let nxt = &img.segments[k2 + 1];
            let step_ok = if prev.start_va <= 0x7f_ffff_f000u64 && prev.mem_size
                <= 0x7f_ffff_f000u64 - prev.start_va {
                (prev.start_va + prev.mem_size + 4095) / 4096 <= nxt.start_va / 4096
            } else {
                false
            };
            adj = adj && step_ok;
            k2 = k2 + 1;
        }
    }
    all_wf && adj
}


/// The little-endian 16-bit value at an offset of a byte string.
pub open spec fn le16(s: Seq<u8>, off: int) -> int {
    s[off] + 0x100 * s[off + 1]
}

/// The little-endian 32-bit value at an offset of a byte string.
pub open spec fn le32(s: Seq<u8>, off: int) -> int {
    le16(s, off) + 0x1_0000 * le16(s, off + 2)
}

/// The little-endian 64-bit value at an offset of a byte string.
pub open spec fn le64(s: Seq<u8>, off: int) -> int {
    le32(s, off) + 0x1_0000_0000 * le32(s, off + 4)
}

/// Read a little-endian 16-bit value.
fn read_u16(data: &Vec<u8>, off: usize) -> (r: u16)
    requires
        off + 2 <= data@.len(),
    ensures
        r == le16(data@, off as int),
{
    proof {
        assert(data@.len() == data.len());
    }
    data[off] as u16 + 0x100 * (data[off + 1] as u16)
}

/// Read a little-endian 32-bit value.
fn read_u32(data: &Vec<u8>, off: usize) -> (r: u32)
    requires
        off + 4 <= data@.len(),
    ensures
        r == le32(data@, off as int),
{
    proof {
        assert(data@.len() == data.len());
    }
    read_u16(data, off) as u32 + 0x1_0000 * (read_u16(data, off + 2) as u32)
}

/// Read a little-endian 64-bit value.
fn read_u64(data: &Vec<u8>, off: usize) -> (r: u64)
    requires
        off + 8 <= data@.len(),
    ensures
        r == le64(data@, off as int),
{
    proof {
        assert(data@.len() == data.len());
    }
    read_u32(data, off) as u64 + 0x1_0000_0000 * (read_u32(data, off + 4) as u64)
}

/// Number of program headers the image declares.
pub open spec fn spec_ph_count(s: Seq<u8>) -> int {
    le16(s, 56)
}

/// Byte offset of program header `i`.
pub open spec fn spec_ph_at(s: Seq<u8>, i: int) -> int {
    le64(s, 32) + 56 * i
}

/// Whether program header `i` is a loadable segment.
pub open spec fn spec_is_load(s: Seq<u8>, i: int) -> bool {
    le32(s, spec_ph_at(s, i)) == 1
}

/// The header conditions: a little-endian 64-bit ELF with 56-byte
/// program headers, all of them inside the file.
pub open spec fn elf_header_ok(s: Seq<u8>) -> bool {
    &&& s.len() >= 64
    &&& s[0] == 0x7f && s[1] == 0x45 && s[2] == 0x4c && s[3] == 0x46
    &&& s[4] == 2
    &&& s[5] == 1
    &&& le16(s, 54) == 56
    &&& le64(s, 32) + 56 * spec_ph_count(s) <= s.len()
}

/// Whether loadable program header `i`'s file bytes lie inside the
/// file.
pub open spec fn spec_load_fits(s: Seq<u8>, i: int) -> bool {
    le64(s, spec_ph_at(s, i) + 8) + le64(s, spec_ph_at(s, i) + 32) <= s.len()
}

/// The bytes an executable must satisfy to parse: the header
/// conditions, and every loadable segment's file bytes inside the
/// file.
pub open spec fn elf_ok(s: Seq<u8>) -> bool {
    &&& elf_header_ok(s)
    &&& forall|i: int|
        0 <= i < spec_ph_count(s) && #[trigger] spec_is_load(s, i) ==> spec_load_fits(s, i)
}

/// The plain view of one parsed segment.
#[verifier::ext_equal]
pub struct SegView {
    /// First virtual address.
    pub start_va: int,
    /// Size in memory.
    pub mem_size: int,
    /// Readable.
    pub readable: bool,
    /// Writable.
    pub writable: bool,
    /// Executable.
    pub executable: bool,
    /// The file-backed bytes.
    pub data: Seq<u8>,
}

/// The view of loadable program header `i`.
pub open spec fn spec_seg_at(s: Seq<u8>, i: int) -> SegView {
    let ph = spec_ph_at(s, i);
    SegView {
        start_va: le64(s, ph + 16),
        mem_size: le64(s, ph + 40),
        readable: (le32(s, ph + 4) / 4) % 2 == 1,
        writable: (le32(s, ph + 4) / 2) % 2 == 1,
        executable: le32(s, ph + 4) % 2 == 1,
        data: s.subrange(le64(s, ph + 8), le64(s, ph + 8) + le64(s, ph + 32)),
    }
}

/// The views of the loadable segments among the first `n` program
/// headers, in header order.
pub open spec fn spec_segments(s: Seq<u8>, n: int) -> Seq<SegView>
    decreases n,
{
    if n <= 0 {
        Seq::empty()
    } else if spec_is_load(s, n - 1) {
        spec_segments(s, n - 1).push(spec_seg_at(s, n - 1))
    } else {
        spec_segments(s, n - 1)
    }
}

impl ElfSegment {
    /// The segment's plain view.
    pub open spec fn view_of(self) -> SegView {
        SegView {
            start_va: self.start_va as int,
            mem_size: self.mem_size as int,
            readable: self.readable,
            writable: self.writable,
            executable: self.executable,
            data: self.data@,
        }
    }
}

/// The views of a segment list.
pub open spec fn views_of(gs: Seq<ElfSegment>) -> Seq<SegView> {
    gs.map_values(|g: ElfSegment| g.view_of())
}

/// Copy a range of bytes out of the input.
fn bytes_range(data: &Vec<u8>, start: usize, n: usize) -> (r: Vec<u8>)
    requires
        start + n <= data@.len(),
    ensures
        r@ =~= data@.subrange(start as int, start as int + n),
{
    let mut r: Vec<u8> = Vec::new();
    let mut k: usize = 0;
    while k < n
        invariant
            start + n <= data@.len(),
            k <= n,
            r@.len() == k,
            forall|j: int| 0 <= j < k ==> r@[j] == data@[start + j],
        decreases n - k,
    {
        proof {
            assert(data@.len() == data.len());
        }
        r.push(data[start + k]);
        k = k + 1;
    }
    r
}

/// Parse an executable: the entry point and, in header order, the
/// loadable segments with their file bytes. Succeeds exactly on the
/// byte strings [`elf_ok`] admits, and the result is a function of
/// the bytes alone.
pub fn parse_elf(data: &Vec<u8>) -> (r: Option<ElfImage>)
    ensures
        r is Some <==> elf_ok(data@),
        r matches Some(img) ==> {
            &&& img.entry == le64(data@, 24)
            &&& views_of(img.segments@) =~= spec_segments(data@, spec_ph_count(data@))
        },
{
    let len = data.len();
    if len < 64 {
        return None;
    }
    if !(data[0] == 0x7f && data[1] == 0x45 && data[2] == 0x4c && data[3] == 0x46 && data[4] == 2
        && data[5] == 1) {
        return None;
    }
    if read_u16(data, 54) != 56 {
        return None;
    }
    proof {
        assert(data@.len() == data.len());
    }
    let phoff = read_u64(data, 32);
    let phnum = read_u16(data, 56) as u64;
    if phoff > len as u64 || 56 * phnum > len as u64 - phoff {
        return None;
    }
    let entry = read_u64(data, 24);
    let mut segments: Vec<ElfSegment> = Vec::new();
    let mut i: u64 = 0;
    while i < phnum
        invariant
            elf_header_ok(data@),
            len == data@.len(),
            phoff == le64(data@, 32),
            phnum == spec_ph_count(data@),
            phoff + 56 * phnum <= len,
            i <= phnum,
            forall|j: int|
                0 <= j < i && #[trigger] spec_is_load(data@, j) ==> spec_load_fits(data@, j),
            views_of(segments@) =~= spec_segments(data@, i as int),
        decreases phnum - i,
    {
        proof {
            assert(phoff + 56 * i + 56 <= len) by (nonlinear_arith)
                requires
                    phoff + 56 * phnum <= len,
                    0 <= i < phnum,
            ;
        }
        let ph = (phoff + 56 * i) as usize;
        proof {
            assert(ph as int == spec_ph_at(data@, i as int));
        }
        let ghost snap = segments@;
        if read_u32(data, ph) == 1 {
            proof {
                assert(spec_is_load(data@, i as int));
            }
            let off = read_u64(data, ph + 8);
            let fsz = read_u64(data, ph + 32);
            if off > len as u64 || fsz > len as u64 - off {
                proof {
                    assert(!spec_load_fits(data@, i as int));
                    assert(!elf_ok(data@));
                }
                return None;
            }
            let f = read_u32(data, ph + 4);
            let seg = ElfSegment {
                start_va: read_u64(data, ph + 16),
                mem_size: read_u64(data, ph + 40),
                readable: (f / 4) % 2 == 1,
                writable: (f / 2) % 2 == 1,
                executable: f % 2 == 1,
                data: bytes_range(data, off as usize, fsz as usize),
            };
            segments.push(seg);
            proof {
                assert(views_of(segments@) =~= views_of(snap).push(
                    segments@.last().view_of(),
                ));
                assert(segments@.last().view_of() =~= spec_seg_at(data@, i as int));
                assert(views_of(segments@) =~= spec_segments(data@, i as int + 1));
            }
        } else {
            proof {
                assert(views_of(segments@) =~= spec_segments(data@, i as int + 1));
            }
        }
        i = i + 1;
    }
    proof {
        assert(elf_ok(data@));
    }
    Some(ElfImage { entry, segments })
}


impl SegView {
    /// First page of the viewed segment.
    pub open spec fn start_vpn(self) -> int {
        self.start_va / (PAGE_SIZE as int)
    }

    /// First page past the viewed segment.
    pub open spec fn end_vpn(self) -> int {
        (self.start_va + self.mem_size + PAGE_SIZE - 1) / (PAGE_SIZE as int)
    }

    /// The loader's conditions on one viewed segment.
    pub open spec fn wf(self) -> bool {
        &&& self.start_va % (PAGE_SIZE as int) == 0
        &&& 0 <= self.start_va
        &&& self.start_va + self.mem_size <= 0x7f_ffff_f000
        &&& self.data.len() <= self.mem_size
    }
}

/// The loader's conditions on a viewed segment list: each well
/// formed, consecutive page ranges disjoint and ascending.
pub open spec fn views_wf(vs: Seq<SegView>) -> bool {
    &&& forall|i: int| 0 <= i < vs.len() ==> (#[trigger] vs[i]).wf()
    &&& forall|i: int|
        0 <= i && i + 1 < vs.len() ==> (#[trigger] vs[i]).end_vpn() <= vs[i + 1].start_vpn()
}

/// Frames needed to map a viewed segment list.
pub open spec fn view_pages(vs: Seq<SegView>) -> int
    decreases vs.len(),
{
    if vs.len() == 0 {
        0
    } else {
        view_pages(vs.drop_last()) + (vs.last().end_vpn() - vs.last().start_vpn())
    }
}

/// A segment list is well formed exactly when its views are.
pub proof fn lemma_views_wf_bridge(img: ElfImage)
    ensures
        img.wf() <==> views_wf(views_of(img.segments@)),
{
    let vs = views_of(img.segments@);
    assert(vs.len() == img.segments@.len());
    assert(forall|i: int| 0 <= i < vs.len() ==> vs[i] == (#[trigger] img.segments@[i]).view_of());
    assert forall|i: int| 0 <= i < vs.len() implies ((#[trigger] vs[i]).wf() <==> img.segments@[
        i].wf()) by {
        assert(vs[i] == img.segments@[i].view_of());
    }
    if views_wf(vs) {
        assert forall|i: int| 0 <= i < img.segments@.len() implies (
        #[trigger] img.segments@[i]).wf() by {
            assert(vs[i].wf());
        }
        assert forall|i: int|
            0 <= i && i + 1 < img.segments@.len() implies (#[trigger] img.segments@[i]).end_vpn()
            <= img.segments@[i + 1].start_vpn() by {
            assert(vs[i].end_vpn() <= vs[i + 1].start_vpn());
        }
    }
    if img.wf() {
        assert forall|i: int|
            0 <= i && i + 1 < vs.len() implies (#[trigger] vs[i]).end_vpn() <= vs[
            i + 1].start_vpn() by {
            assert(img.segments@[i].end_vpn() <= img.segments@[i + 1].start_vpn());
        }
    }
}

/// A segment list needs exactly as many frames as its views.
pub proof fn lemma_view_pages_bridge(gs: Seq<ElfSegment>)
    ensures
        crate::memory_set::elf_pages_needed(gs) == view_pages(views_of(gs)),
    decreases gs.len(),
{
    if gs.len() > 0 {
        lemma_view_pages_bridge(gs.drop_last());
        assert(views_of(gs.drop_last()) =~= views_of(gs).drop_last());
        assert(views_of(gs).last() == gs.last().view_of());
    }
}

/// The parsed segments are never more numerous than the program
/// headers.
pub proof fn lemma_spec_segments_len(s: Seq<u8>, n: int)
    ensures
        spec_segments(s, n).len() <= (if n >= 0 {
            n
        } else {
            0
        }),
    decreases n,
{
    if n > 0 {
        lemma_spec_segments_len(s, n - 1);
    }
}

} // verus!
