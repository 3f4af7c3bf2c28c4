use vstd::prelude::*;
use crate::context::{ForeignContext, LocalContext};
use crate::elf::{
    elf_header_of, elf_segments_of, entry_of, executable_entry, header_table_readable,
    parse_header, parse_segments, table_readable, Segment, PF_R, PF_W, PF_X,
};
use crate::ids::{TaskId, TaskIdCounter};
use crate::mm::{padded, PhysMemory, MAX_FRAMES, PAGE_SIZE};
use crate::vm::{AddressSpace, FLAG_R, FLAG_U, FLAG_V, FLAG_W, FLAG_X, USER_TOP_VPN};

verus! {

/// First page of the two-page user stack.
pub const STACK_BOTTOM_VPN: usize = 67108862;

/// Initial user stack pointer, `1 << 38`.
pub const USER_STACK_TOP: u64 = 274877906944;

/// Flags of the user stack pages: user, readable, writable, valid.
pub const STACK_FLAGS: u8 = 23;

/// The parent id of a process that nobody forked.
pub const NO_PARENT: usize = usize::MAX;

/// First virtual page of segment `s`.
pub open spec fn seg_start(s: Segment) -> int {
    (s.vaddr as int) / (PAGE_SIZE as int)
}

/// Page after the last virtual page of segment `s`.
pub open spec fn seg_end(s: Segment) -> int {
    (s.vaddr + s.mem_size + PAGE_SIZE - 1) as int / (PAGE_SIZE as int)
}

/// Whether segment `s` gets pages: loadable, with a page range that is not
/// empty (a segment of no bytes at an address inside a page still takes
/// that page).
pub open spec fn seg_mapped(s: Segment) -> bool {
    s.loadable && seg_end(s) > seg_start(s)
}

/// File offset and virtual address of `s` agree within a page.
pub open spec fn seg_aligned(s: Segment) -> bool {
    (s.offset as int) % (PAGE_SIZE as int) == (s.vaddr as int) % (PAGE_SIZE as int)
}

/// A mapped segment of an image of `len` bytes can be loaded on its own:
/// its bytes lie in the image, it ends below the user stack and its bytes
/// fit its pages.
pub open spec fn seg_valid(s: Segment, len: int) -> bool {
    &&& s.offset + s.file_size <= len
    &&& s.vaddr + s.mem_size <= STACK_BOTTOM_VPN * PAGE_SIZE
    &&& (s.vaddr as int) % (PAGE_SIZE as int) + s.file_size <= (seg_end(s) - seg_start(s)) * PAGE_SIZE
}

pub open spec fn disjoint(a: Segment, b: Segment) -> bool {
    seg_end(a) <= seg_start(b) || seg_end(b) <= seg_start(a)
}

/// Every loadable segment is aligned, every mapped segment is valid and no
/// two mapped segments share a page.
pub open spec fn segs_ok(segs: Seq<Segment>, len: int) -> bool {
    &&& forall|i: int| 0 <= i < segs.len() && segs[i].loadable ==> seg_aligned(#[trigger] segs[i])
    &&& forall|i: int| 0 <= i < segs.len() && seg_mapped(segs[i]) ==> seg_valid(#[trigger] segs[i], len)
    &&& forall|i: int, j: int|
        0 <= i < j < segs.len() && seg_mapped(segs[i]) && seg_mapped(segs[j]) ==> disjoint(
            #[trigger] segs[i],
            #[trigger] segs[j],
        )
}

/// Pages that the mapped segments of `segs` take.
pub open spec fn pages_of(segs: Seq<Segment>) -> nat
    decreases segs.len(),
{
    if segs.len() == 0 {
        0
    } else {
        let s = segs.last();
        pages_of(segs.drop_last()) + if seg_mapped(s) {
            (seg_end(s) - seg_start(s)) as nat
        } else {
            0
        }
    }
}

/// Page flags of a segment with permission bits `f`: always user and valid.
pub open spec fn seg_flags(f: u32) -> u8 {
    (FLAG_U + FLAG_V + (if f & PF_X == PF_X { FLAG_X } else { 0u8 }) + (if f & PF_W == PF_W {
        FLAG_W
    } else {
        0u8
    }) + (if f & PF_R == PF_R { FLAG_R } else { 0u8 })) as u8
}

/// Whether an image loads into an arena that has handed out `frames`
/// frames: a 64-bit RISC-V executable whose program headers can be read,
/// whose segments are valid and apart, and whose pages, root and stack fit.
pub open spec fn image_loads(b: Seq<u8>, frames: nat) -> bool {
    &&& entry_of(elf_header_of(b)) is Some
    &&& table_readable(elf_header_of(b)->0, b.len() as int)
    &&& segs_ok(elf_segments_of(b), b.len() as int)
    &&& frames + 3 + pages_of(elf_segments_of(b)) <= MAX_FRAMES
}

proof fn lemma_pages_prefix(segs: Seq<Segment>, k: int)
    requires
        0 <= k < segs.len(),
    ensures
        pages_of(segs.take(k + 1)) == pages_of(segs.take(k)) + if seg_mapped(segs[k]) {
            (seg_end(segs[k]) - seg_start(segs[k])) as nat
        } else {
            0
        },
{
    assert(segs.take(k + 1).drop_last() =~= segs.take(k));
}

proof fn lemma_pages_mono(segs: Seq<Segment>, k: int)
    requires
        0 <= k <= segs.len(),
    ensures
        pages_of(segs.take(k)) <= pages_of(segs),
    decreases segs.len() - k,
{
    if k < segs.len() {
        lemma_pages_prefix(segs, k);
        lemma_pages_mono(segs, k + 1);
    } else {
        assert(segs.take(k) =~= segs);
    }
}

/// Flags of the pages of a segment with permission bits `f`.
pub fn segment_flags(f: u32) -> (r: u8)
    ensures
        r == seg_flags(f),
{
    let mut flags: u8 = FLAG_U + FLAG_V;
    if f & PF_X == PF_X {
        flags = flags + FLAG_X;
    }
    if f & PF_W == PF_W {
        flags = flags + FLAG_W;
    }
    if f & PF_R == PF_R {
        flags = flags + FLAG_R;
    }
    flags
}

/// Bytes of page `i` of segment `s` of image `b`: the segment's file bytes
/// placed at the address's offset within its first page, zero elsewhere.
pub open spec fn seg_page(b: Seq<u8>, s: Segment, i: int) -> Seq<u8> {
    padded(
        b.subrange(s.offset as int, s.offset + s.file_size),
        (s.vaddr as int) % (PAGE_SIZE as int),
        (seg_end(s) - seg_start(s)) * PAGE_SIZE,
    ).subrange(i * PAGE_SIZE, i * PAGE_SIZE + PAGE_SIZE)
}

/// A page of zeros.
pub open spec fn zero_page() -> Seq<u8> {
    Seq::new(PAGE_SIZE as nat, |k: int| 0u8)
}

/// Whether virtual page `v` is a user page of `a`, mapped with flags `f`
/// onto a frame of `mem` that holds `bytes`.
pub open spec fn has_page(a: &AddressSpace, mem: &PhysMemory, v: int, f: u8, bytes: Seq<u8>) -> bool {
    exists|i: int|
        0 <= i < a.entries_view().len() && (#[trigger] a.entries_view()[i]).vpn == v
            && a.entries_view()[i].flags == f && mem.frame(a.entries_view()[i].frame as int) == bytes
}

/// Every page of segment `s` of image `b` is a user page of `a`, with the
/// flags that the segment's permissions give and the segment's bytes.
pub open spec fn seg_covered(a: &AddressSpace, mem: &PhysMemory, b: Seq<u8>, s: Segment) -> bool {
    forall|v: int|
        seg_start(s) <= v < seg_end(s) ==> #[trigger] has_page(
            a,
            mem,
            v,
            seg_flags(s.flags),
            seg_page(b, s, v - seg_start(s)),
        )
}

/// `a` holds exactly what loading image `b` maps: every page of every
/// mapped segment with its flags and bytes, the two zeroed stack pages,
/// nothing else, and only frames numbered `fresh` or above.
pub open spec fn image_space(a: &AddressSpace, mem: &PhysMemory, b: Seq<u8>, fresh: nat) -> bool {
    let segs = elf_segments_of(b);
    &&& forall|j: int|
        0 <= j < segs.len() && seg_mapped(segs[j]) ==> seg_covered(a, mem, b, #[trigger] segs[j])
    &&& forall|v: int|
        STACK_BOTTOM_VPN <= v < USER_TOP_VPN ==> #[trigger] has_page(a, mem, v, STACK_FLAGS, zero_page())
    &&& forall|i: int|
        0 <= i < a.entries_view().len() ==> in_some_seg(
            segs,
            segs.len() as int,
            (#[trigger] a.entries_view()[i]).vpn as int,
        ) || STACK_BOTTOM_VPN <= a.entries_view()[i].vpn < USER_TOP_VPN
    &&& forall|i: int| 0 <= i < a.entries_view().len() ==> (#[trigger] a.entries_view()[i]).frame >= fresh
}

/// A page stays where it is when the table only grows and the frames of the
/// old entries keep their bytes.
proof fn lemma_has_page_keep(
    a: &AddressSpace,
    m: &PhysMemory,
    a2: &AddressSpace,
    m2: &PhysMemory,
    bound: int,
    v: int,
    f: u8,
    bytes: Seq<u8>,
)
    requires
        has_page(a, m, v, f, bytes),
        a.entries_view().len() <= a2.entries_view().len(),
        forall|i: int| 0 <= i < a.entries_view().len() ==> #[trigger] a2.entries_view()[i] == a.entries_view()[i],
        forall|i: int| 0 <= i < a.entries_view().len() ==> (#[trigger] a.entries_view()[i]).frame < bound,
        forall|g: int| 0 <= g < bound ==> #[trigger] m2.frame(g) == m.frame(g),
    ensures
        has_page(a2, m2, v, f, bytes),
{
    let e = a.entries_view();
    let i = choose|i: int|
        0 <= i < e.len() && (#[trigger] e[i]).vpn == v && e[i].flags == f && m.frame(e[i].frame as int)
            == bytes;
    assert(a2.entries_view()[i] == e[i]);
    assert(e[i].frame < bound);
}

/// Every page of every mapped segment in `segs[..k]` is mapped in `a`, and
/// every user page of `a` belongs to one of them.
pub open spec fn in_some_seg(segs: Seq<Segment>, k: int, v: int) -> bool {
    exists|j: int| 0 <= j < k && seg_mapped(segs[j]) && seg_start(segs[j]) <= v < seg_end(#[trigger] segs[j])
}

pub open spec fn covers(a: &AddressSpace, mem: &PhysMemory, b: Seq<u8>, segs: Seq<Segment>, k: int) -> bool {
    &&& forall|i: int|
        0 <= i < a.entries_view().len() ==> in_some_seg(segs, k, (#[trigger] a.entries_view()[i]).vpn as int)
    &&& forall|j: int| 0 <= j < k && seg_mapped(segs[j]) ==> seg_covered(a, mem, b, #[trigger] segs[j])
}

/// `segs[..k]` is free of faults.
pub open spec fn prefix_ok(segs: Seq<Segment>, len: int, k: int) -> bool {
    &&& forall|i: int| 0 <= i < k && segs[i].loadable ==> seg_aligned(#[trigger] segs[i])
    &&& forall|i: int| 0 <= i < k && seg_mapped(segs[i]) ==> seg_valid(#[trigger] segs[i], len)
    &&& forall|i: int, j: int|
        0 <= i < j < k && seg_mapped(segs[i]) && seg_mapped(segs[j]) ==> disjoint(
            #[trigger] segs[i],
            #[trigger] segs[j],
        )
}

/// Highest end address of a segment: the bottom of the user stack.
const SEG_LIMIT: u64 = 274877898752;

/// Maps the mapped segments of `segs` into `space`, in order, with their
/// bytes taken from `elf`. Succeeds exactly when the segments are free of
/// faults and their pages fit in the arena.
fn map_segments(space: &mut AddressSpace, mem: &mut PhysMemory, elf: &[u8], segs: &Vec<Segment>) -> (r: bool)
    requires
        old(mem).wf(),
        old(space).wf(old(mem).frames()),
        old(space).entries_view().len() == 0,
    ensures
        final(mem).wf(),
        final(mem).frames() >= old(mem).frames(),
        forall|f: int| 0 <= f < old(mem).frames() ==> #[trigger] final(mem).frame(f) == old(mem).frame(f),
        r == (segs_ok(segs@, elf@.len() as int) && old(mem).frames() + pages_of(segs@) <= MAX_FRAMES),
        r ==> {
            &&& final(space).wf(final(mem).frames())
            &&& covers(final(space), final(mem), elf@, segs@, segs@.len() as int)
            &&& final(mem).frames() == old(mem).frames() + pages_of(segs@)
            &&& final(space).root_frame() == old(space).root_frame()
            &&& final(space).portal_frame() == old(space).portal_frame()
            &&& forall|i: int|
                0 <= i < final(space).entries_view().len() ==> (
                #[trigger] final(space).entries_view()[i]).frame >= old(mem).frames()
            &&& forall|f: int|
                0 <= f < old(mem).frames() ==> #[trigger] final(mem).frame(f) == old(mem).frame(f)
        },
{
    let len = elf.len();
    let p: u64 = PAGE_SIZE as u64;
    let mut k: usize = 0;
    while k < segs.len()
        invariant
            k <= segs@.len(),
            len == elf@.len(),
            p == PAGE_SIZE,
            mem.wf(),
            space.wf(mem.frames()),
            space.root_frame() == old(space).root_frame(),
            space.portal_frame() == old(space).portal_frame(),
            prefix_ok(segs@, len as int, k as int),
            covers(space, mem, elf@, segs@, k as int),
            mem.frames() == old(mem).frames() + pages_of(segs@.take(k as int)),
            forall|i: int|
                0 <= i < space.entries_view().len() ==> (#[trigger] space.entries_view()[i]).frame
                    >= old(mem).frames(),
            forall|f: int| 0 <= f < old(mem).frames() ==> #[trigger] mem.frame(f) == old(mem).frame(f),
        decreases segs@.len() - k,
    {
        let s = segs[k];
        proof {
            lemma_pages_prefix(segs@, k as int);
            lemma_pages_mono(segs@, k as int + 1);
        }
        if s.loadable && s.offset % p != s.vaddr % p {
            assert(!seg_aligned(segs@[k as int]));
            return false;
        }
        if !s.loadable || (s.mem_size == 0 && s.vaddr % p == 0) {
            assert(!seg_mapped(segs@[k as int]));
            proof {
                let e = space.entries_view();
                assert forall|i: int| 0 <= i < e.len() implies in_some_seg(segs@, k + 1, (#[trigger] e[i]).vpn as int) by {
                    assert(in_some_seg(segs@, k as int, e[i].vpn as int));
                    let j = choose|j: int|
                        0 <= j < k && seg_mapped(segs@[j]) && seg_start(segs@[j]) <= e[i].vpn < seg_end(#[trigger] segs@[j]);
                    assert(0 <= j < k + 1 && seg_mapped(segs@[j]) && seg_start(segs@[j]) <= e[i].vpn < seg_end(segs@[j]));
                }
                assert forall|j: int| 0 <= j < k + 1 && seg_mapped(segs@[j]) implies seg_covered(
                    space,
                    mem,
                    elf@,
                    #[trigger] segs@[j],
                ) by {
                    assert(j < k);
                }
            }
            k = k + 1;
            continue;
        }
        if s.file_size > len as u64 || s.offset > len as u64 - s.file_size
            || s.mem_size > SEG_LIMIT || s.vaddr > SEG_LIMIT - s.mem_size {
            assert(!seg_valid(segs@[k as int], len as int));
            return false;
        }
        let start = (s.vaddr / p) as usize;
        let end = ((s.vaddr + s.mem_size + (p - 1)) / p) as usize;
        let off = (s.vaddr % p) as usize;
        assert(seg_mapped(segs@[k as int]));
        assert(start < end);
        let data = vstd::slice::slice_subrange(elf, s.offset as usize, (s.offset + s.file_size) as usize);
        let ghost before = *space;
        let ghost mem_before = *mem;
        let ok = space.map(mem, start, end, data, off, segment_flags(s.flags));
        if !ok {
            proof {
                if before.overlaps(start as int, end as int) {
                    let i = choose|i: int|
                        0 <= i < before.entries_view().len() && start <= (
                        #[trigger] before.entries_view()[i]).vpn < end;
                    assert(in_some_seg(segs@, k as int, before.entries_view()[i].vpn as int));
                    let j = choose|j: int|
                        0 <= j < k && seg_mapped(segs@[j]) && seg_start(segs@[j]) <= before.entries_view()[i].vpn < seg_end(#[trigger] segs@[j]);
                    assert(!disjoint(segs@[j], segs@[k as int]));
                }
            }
            return false;
        }
        proof {
            let e = space.entries_view();
            let o = before.entries_view();
            let n = (end - start) as int;
            assert forall|j: int| 0 <= j < k && seg_mapped(segs@[j]) implies disjoint(
                #[trigger] segs@[j],
                segs@[k as int],
            ) by {
                if !disjoint(segs@[j], segs@[k as int]) {
                    let v = if seg_start(segs@[j]) < start { start as int } else { seg_start(segs@[j]) };
                    let f = seg_flags(segs@[j].flags);
                    let bytes = seg_page(elf@, segs@[j], v - seg_start(segs@[j]));
                    assert(seg_covered(&before, &mem_before, elf@, segs@[j]));
                    assert(has_page(&before, &mem_before, v, f, bytes));
                    let i = choose|i: int|
                        0 <= i < o.len() && (#[trigger] o[i]).vpn == v && o[i].flags == f
                            && mem_before.frame(o[i].frame as int) == bytes;
                    assert(before.overlaps(start as int, end as int));
                }
            }
            assert forall|i: int| 0 <= i < e.len() implies in_some_seg(segs@, k + 1, (#[trigger] e[i]).vpn as int) by {
                if i < o.len() {
                    assert(e[i] == o[i]);
                    assert(in_some_seg(segs@, k as int, o[i].vpn as int));
                    let j = choose|j: int|
                        0 <= j < k && seg_mapped(segs@[j]) && seg_start(segs@[j]) <= o[i].vpn < seg_end(#[trigger] segs@[j]);
                    assert(0 <= j < k + 1 && seg_mapped(segs@[j]) && seg_start(segs@[j]) <= e[i].vpn < seg_end(segs@[j]));
                } else {
                    assert(e[i].vpn == start + (i - o.len()));
                    assert(seg_start(segs@[k as int]) <= e[i].vpn < seg_end(segs@[k as int]));
                }
            }
            let first = mem_before.frames() as int;
            assert(data@ == elf@.subrange(s.offset as int, s.offset + s.file_size));
            assert forall|g: int| 0 <= g < first implies #[trigger] mem.frame(g) == mem_before.frame(g) by {}
            assert forall|i: int| 0 <= i < o.len() implies (#[trigger] o[i]).frame < first by {}
            assert forall|i: int| 0 <= i < o.len() implies #[trigger] e[i] == o[i] by {}
            assert forall|j: int| 0 <= j < k + 1 && seg_mapped(segs@[j]) implies seg_covered(
                space,
                mem,
                elf@,
                #[trigger] segs@[j],
            ) by {
                let f = seg_flags(segs@[j].flags);
                assert forall|v: int| seg_start(segs@[j]) <= v < seg_end(segs@[j]) implies #[trigger] has_page(
                    space,
                    mem,
                    v,
                    f,
                    seg_page(elf@, segs@[j], v - seg_start(segs@[j])),
                ) by {
                    let bytes = seg_page(elf@, segs@[j], v - seg_start(segs@[j]));
                    if j < k {
                        assert(seg_covered(&before, &mem_before, elf@, segs@[j]));
                        assert(has_page(&before, &mem_before, v, f, bytes));
                        lemma_has_page_keep(&before, &mem_before, space, mem, first, v, f, bytes);
                    } else {
                        let idx = v - start;
                        let i = o.len() + idx;
                        assert(e[i].vpn == v && e[i].flags == f);
                        assert(e[i].frame == first + idx);
                        mem.lemma_span_frame(first, n, idx);
                        assert(mem.frame(first + idx) =~= bytes);
                    }
                }
            }
            assert forall|f: int| 0 <= f < old(mem).frames() implies #[trigger] mem.frame(f)
                == old(mem).frame(f) by {
                assert(mem.frame(f) == mem_before.frame(f));
            }
        }
        k = k + 1;
    }
    proof {
        assert(segs@.take(segs@.len() as int) =~= segs@);
    }
    true
}

/// A process: identity, saved context with its page-table selector, and
/// the address space it owns.
pub struct Process {
    pub pid: TaskId,
    pub parent: TaskId,
    pub children: Vec<TaskId>,
    pub context: ForeignContext,
    pub address_space: AddressSpace,
}

impl Process {
    /// The context is complete, the address space well formed over `frames`
    /// frames, and the selector is that of the address space.
    pub open spec fn wf(&self, frames: nat) -> bool {
        &&& self.context.context.wf()
        &&& self.address_space.wf(frames)
        &&& self.address_space.root_frame() < MAX_FRAMES
        &&& self.context.satp == self.address_space.selector()
    }

    /// Loads the image `elf` into a new address space whose trampoline is
    /// frame `portal`, and builds a process that starts at the image's entry
    /// with the stack pointer at `1 << 38`. `None`, with no identity used,
    /// when the image does not load.
    pub fn from_elf(mem: &mut PhysMemory, ids: &mut TaskIdCounter, portal: usize, elf: &[u8]) -> (r: Option<Process>)
        requires
            old(mem).wf(),
            portal < old(mem).frames(),
            old(ids).next_value() < usize::MAX,
        ensures
            final(mem).wf(),
            final(mem).frames() >= old(mem).frames(),
            r is Some <==> image_loads(elf@, old(mem).frames()),
            r is None ==> *final(ids) == *old(ids) && final(mem).frames() == old(mem).frames(),
            forall|f: int|
                0 <= f < old(mem).frames() ==> #[trigger] final(mem).frame(f) == old(mem).frame(f),
            r is Some ==> {
                let p = r->0;
                let segs = elf_segments_of(elf@);
                &&& p.wf(final(mem).frames())
                &&& p.pid.val() == old(ids).next_value()
                &&& final(ids).next_value() == old(ids).next_value() + 1
                &&& p.parent.val() == NO_PARENT
                &&& p.children@.len() == 0
                &&& p.context.context.is_user()
                &&& p.context.context.pc_spec() == entry_of(elf_header_of(elf@))->0
                &&& p.context.context.reg(2) == USER_STACK_TOP
                &&& p.address_space.portal_frame() == portal
                &&& p.address_space.root_frame() == old(mem).frames()
                &&& image_space(&p.address_space, final(mem), elf@, old(mem).frames())
            },
    {
        let f0 = mem.frame_count();
        let h = parse_header(elf);
        let entry = match executable_entry(h) {
            Some(e) => e,
            None => return None,
        };
        let h = h.unwrap();
        if !header_table_readable(h, elf.len()) {
            return None;
        }
        let segs = parse_segments(elf, h);
        let mut space = match AddressSpace::new(mem, portal) {
            Some(a) => a,
            None => return None,
        };
        let ghost mem1 = *mem;
        if !map_segments(&mut space, mem, elf, &segs) {
            let ghost mem_failed = *mem;
            mem.release_from(f0);
            assert forall|f: int| 0 <= f < f0 implies #[trigger] mem.frame(f) == old(mem).frame(f) by {
                assert(mem.frame(f) == mem_failed.frame(f));
                assert(mem_failed.frame(f) == mem1.frame(f));
            }
            return None;
        }
        let ghost mem2 = *mem;
        let stack = match mem.alloc_frames(2) {
            Some(f) => f,
            None => {
                mem.release_from(f0);
                assert forall|f: int| 0 <= f < f0 implies #[trigger] mem.frame(f) == old(mem).frame(
                    f,
                ) by {
                    assert(mem.frame(f) == mem2.frame(f));
                    assert(mem2.frame(f) == mem1.frame(f));
                }
                return None;
            },
        };
        proof {
            let e = space.entries_view();
            if space.overlaps(STACK_BOTTOM_VPN as int, USER_TOP_VPN as int) {
                let i = choose|i: int|
                    0 <= i < e.len() && STACK_BOTTOM_VPN <= (#[trigger] e[i]).vpn < USER_TOP_VPN;
                assert(in_some_seg(segs@, segs@.len() as int, e[i].vpn as int));
                let j = choose|j: int|
                    0 <= j < segs@.len() && seg_mapped(segs@[j]) && seg_start(segs@[j]) <= e[i].vpn
                        < seg_end(#[trigger] segs@[j]);
                assert(seg_valid(segs@[j], elf@.len() as int));
            }
        }
        let ghost before = space;
        let mapped = space.map_extern(mem.frame_count(), STACK_BOTTOM_VPN, USER_TOP_VPN, stack, STACK_FLAGS);
        assert(mapped);
        proof {
            let e = space.entries_view();
            let o = before.entries_view();
            let bound = mem2.frames() as int;
            assert forall|g: int| 0 <= g < bound implies #[trigger] mem.frame(g) == mem2.frame(g) by {}
            assert forall|i: int| 0 <= i < o.len() implies (#[trigger] o[i]).frame < bound by {}
            assert forall|i: int| 0 <= i < o.len() implies #[trigger] e[i] == o[i] by {}
            assert forall|j: int| 0 <= j < segs@.len() && seg_mapped(segs@[j]) implies seg_covered(
                &space,
                mem,
                elf@,
                #[trigger] segs@[j],
            ) by {
                let f = seg_flags(segs@[j].flags);
                assert forall|v: int| seg_start(segs@[j]) <= v < seg_end(segs@[j]) implies #[trigger] has_page(
                    &space,
                    mem,
                    v,
                    f,
                    seg_page(elf@, segs@[j], v - seg_start(segs@[j])),
                ) by {
                    let bytes = seg_page(elf@, segs@[j], v - seg_start(segs@[j]));
                    assert(seg_covered(&before, &mem2, elf@, segs@[j]));
                    assert(has_page(&before, &mem2, v, f, bytes));
                    lemma_has_page_keep(&before, &mem2, &space, mem, bound, v, f, bytes);
                }
            }
            assert forall|v: int| STACK_BOTTOM_VPN <= v < USER_TOP_VPN implies has_page(
                &space,
                mem,
                v,
                STACK_FLAGS,
                zero_page(),
            ) by {
                let idx = v - STACK_BOTTOM_VPN;
                let i = o.len() + idx;
                assert(e[i].vpn == v && e[i].flags == STACK_FLAGS && e[i].frame == stack + idx);
                mem.lemma_span_frame(stack as int, 2, idx);
                assert(mem.frame(stack + idx) =~= zero_page());
            }
            assert forall|f: int| 0 <= f < old(mem).frames() implies #[trigger] mem.frame(f)
                == old(mem).frame(f) by {
                assert(mem.frame(f) == mem2.frame(f));
                assert(mem2.frame(f) == mem1.frame(f));
            }
        }
        let mut context = LocalContext::user(entry);
        context.sp_set(USER_STACK_TOP);
        let satp = space.root_selector();
        Some(Process {
            pid: TaskId::generate(ids),
            parent: TaskId::from(NO_PARENT),
            children: Vec::new(),
            context: ForeignContext { context, satp },
            address_space: space,
        })
    }

    /// Creates a child: a fresh identity, a deep copy of this address space
    /// in fresh frames, and a verbatim copy of the saved context. The child
    /// is recorded among this process's children. `None`, with this process
    /// and the identities unchanged, when the arena cannot hold the copy.
    pub fn fork(&mut self, mem: &mut PhysMemory, ids: &mut TaskIdCounter) -> (r: Option<Process>)
        requires
            old(mem).wf(),
            old(self).wf(old(mem).frames()),
            old(ids).next_value() < usize::MAX,
        ensures
            final(mem).wf(),
            final(self).wf(final(mem).frames()),
            r is None <==> old(mem).frames() + 1 + old(self).address_space.entries_view().len() > MAX_FRAMES,
            r is None ==> *final(self) == *old(self) && *final(ids) == *old(ids),
            r is Some ==> {
                let c = r->0;
                let first = old(mem).frames() + 1;
                let parent = old(self).address_space.entries_view();
                &&& c.wf(final(mem).frames())
                &&& c.pid.val() == old(ids).next_value()
                &&& final(ids).next_value() == old(ids).next_value() + 1
                &&& c.parent == old(self).pid
                &&& c.children@.len() == 0
                &&& final(self).children@ == old(self).children@.push(c.pid)
                &&& final(self).pid == old(self).pid
                &&& final(self).parent == old(self).parent
                &&& final(self).context == old(self).context
                &&& final(self).address_space == old(self).address_space
                &&& c.context.context.regs() == old(self).context.context.regs()
                &&& c.context.context.pc_spec() == old(self).context.context.pc_spec()
                &&& c.context.context.is_user() == old(self).context.context.is_user()
                &&& c.address_space.portal_frame() == old(self).address_space.portal_frame()
                &&& c.address_space.root_frame() == old(mem).frames()
                &&& c.context.satp != final(self).context.satp
                &&& c.address_space.entries_view().len() == parent.len()
                &&& forall|i: int|
                    0 <= i < parent.len() ==> {
                        &&& (#[trigger] c.address_space.entries_view()[i]).vpn == parent[i].vpn
                        &&& c.address_space.entries_view()[i].flags == parent[i].flags
                        &&& c.address_space.entries_view()[i].frame == first + i
                        &&& final(mem).frame(first + i) == old(mem).frame(parent[i].frame as int)
                    }
                &&& forall|f: int|
                    0 <= f < old(mem).frames() ==> #[trigger] final(mem).frame(f) == old(mem).frame(f)
            },
    {
        let mut space = match AddressSpace::new(mem, self.address_space.portal()) {
            Some(a) => a,
            None => return None,
        };
        let ghost mem1 = *mem;
        if !self.address_space.clone_into(mem, &mut space) {
            return None;
        }
        proof {
            assert forall|f: int| 0 <= f < old(mem).frames() implies #[trigger] mem.frame(f)
                == old(mem).frame(f) by {
                assert(mem.frame(f) == mem1.frame(f));
            }
            let parent = self.address_space.entries_view();
            assert forall|i: int| 0 <= i < parent.len() implies mem.frame(old(mem).frames() + 1 + i)
                == old(mem).frame(parent[i].frame as int) by {
                assert(space.entries_view()[i].frame == old(mem).frames() + 1 + i);
                assert(parent[i].frame < old(mem).frames());
                assert(mem1.frame(parent[i].frame as int) == old(mem).frame(parent[i].frame as int));
            }
        }
        let context = self.context.context.duplicate();
        let satp = space.root_selector();
        let pid = TaskId::generate(ids);
        self.children.push(pid);
        Some(Process {
            pid,
            parent: self.pid,
            children: Vec::new(),
            context: ForeignContext { context, satp },
            address_space: space,
        })
    }

    /// Replaces this process's image with `elf`: a new address space (with
    /// this process's trampoline frame) and a fresh context at the image's
    /// entry. Identity, parent and children stay. All or nothing: when the
    /// image does not load, `false` and this process is unchanged.
    pub fn exec(&mut self, mem: &mut PhysMemory, ids: &mut TaskIdCounter, elf: &[u8]) -> (r: bool)
        requires
            old(mem).wf(),
            old(self).wf(old(mem).frames()),
            old(ids).next_value() < usize::MAX,
        ensures
            final(mem).wf(),
            final(self).wf(final(mem).frames()),
            r == image_loads(elf@, old(mem).frames()),
            !r ==> *final(self) == *old(self) && *final(ids) == *old(ids) && final(mem).frames()
                == old(mem).frames(),
            r ==> final(ids).next_value() == old(ids).next_value() + 1,
            forall|f: int|
                0 <= f < old(mem).frames() ==> #[trigger] final(mem).frame(f) == old(mem).frame(f),
            final(self).pid == old(self).pid,
            final(self).parent == old(self).parent,
            final(self).children == old(self).children,
            r ==> {
                &&& final(self).context.context.is_user()
                &&& final(self).context.context.pc_spec() == entry_of(elf_header_of(elf@))->0
                &&& final(self).context.context.reg(2) == USER_STACK_TOP
                &&& final(self).address_space.portal_frame() == old(self).address_space.portal_frame()
                &&& final(self).address_space.root_frame() == old(mem).frames()
                &&& image_space(&final(self).address_space, final(mem), elf@, old(mem).frames())
            },
    {
        let tramp = self.address_space.portal();
        let loaded = match Process::from_elf(mem, ids, tramp, elf) {
            Some(p) => p,
            None => return false,
        };
        let ghost fresh = loaded.address_space;
        self.address_space = loaded.address_space;
        self.address_space.map_portal(tramp);
        self.context = loaded.context;
        proof {
            assert(self.address_space.entries_view() == fresh.entries_view());
            let a = &self.address_space;
            let segs = elf_segments_of(elf@);
            assert forall|j: int| 0 <= j < segs.len() && seg_mapped(segs[j]) implies seg_covered(
                a,
                mem,
                elf@,
                #[trigger] segs[j],
            ) by {
                assert(seg_covered(&fresh, mem, elf@, segs[j]));
                let f = seg_flags(segs[j].flags);
                assert forall|v: int| seg_start(segs[j]) <= v < seg_end(segs[j]) implies #[trigger] has_page(
                    a,
                    mem,
                    v,
                    f,
                    seg_page(elf@, segs[j], v - seg_start(segs[j])),
                ) by {
                    assert(has_page(&fresh, mem, v, f, seg_page(elf@, segs[j], v - seg_start(segs[j]))));
                }
            }
            assert forall|v: int| STACK_BOTTOM_VPN <= v < USER_TOP_VPN implies #[trigger] has_page(
                a,
                mem,
                v,
                STACK_FLAGS,
                zero_page(),
            ) by {
                assert(has_page(&fresh, mem, v, STACK_FLAGS, zero_page()));
            }
        }
        true
    }
}

} // verus!
