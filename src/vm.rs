use vstd::prelude::*;
use crate::mm::{padded, PhysMemory, MAX_FRAMES, PAGE_SIZE};

verus! {

/// The virtual page that holds the trampoline in every address space.
pub const TRAMPOLINE_VPN: usize = 134217727;

/// First virtual page above user space (virtual address `1 << 38`).
pub const USER_TOP_VPN: usize = 67108864;

pub const FLAG_V: u8 = 1;
pub const FLAG_R: u8 = 2;
pub const FLAG_W: u8 = 4;
pub const FLAG_X: u8 = 8;
pub const FLAG_U: u8 = 16;

/// Flags of the trampoline page: kernel-only, readable, writable, executable.
pub const PORTAL_FLAGS: u8 = 15;

/// Mode bits of a page-table selector (Sv39 paging).
pub const SV39_MODE: u64 = 9223372036854775808;

/// Flags `f` carry the user-accessible bit `FLAG_U`.
pub open spec fn user_flag(f: u8) -> bool {
    (f / 16) % 2 == 1
}

/// One mapped user page.
#[derive(Clone, Copy, Debug, PartialEq, Eq, Structural)]
pub struct PageEntry {
    pub vpn: usize,
    pub frame: usize,
    pub flags: u8,
}

/// Page `i` of a run of `n` pages mapped from `vpn` onto frames from `frame`.
pub open spec fn run(vpn: int, frame: int, flags: u8, n: nat) -> Seq<PageEntry> {
    Seq::new(n, |i: int| PageEntry { vpn: (vpn + i) as usize, frame: (frame + i) as usize, flags })
}

/// A page table: its root frame, the shared trampoline frame, and the
/// user pages mapped in it.
pub struct AddressSpace {
    root: usize,
    portal: usize,
    entries: Vec<PageEntry>,
}

impl AddressSpace {
    pub closed spec fn entries_view(&self) -> Seq<PageEntry> {
        self.entries@
    }

    pub closed spec fn root_frame(&self) -> usize {
        self.root
    }

    pub closed spec fn portal_frame(&self) -> usize {
        self.portal
    }

    /// Well-formed over an arena that has handed out `frames` frames: all
    /// frames exist, user pages lie below `USER_TOP_VPN`, carry the user
    /// flag, and each is mapped once.
    pub open spec fn wf(&self, frames: nat) -> bool {
        &&& self.root_frame() < frames
        &&& self.portal_frame() < frames
        &&& forall|i: int|
            0 <= i < self.entries_view().len() ==> {
                &&& (#[trigger] self.entries_view()[i]).vpn < USER_TOP_VPN
                &&& self.entries_view()[i].frame < frames
                &&& user_flag(self.entries_view()[i].flags)
            }
        &&& forall|i: int, j: int|
            0 <= i < j < self.entries_view().len() ==> (#[trigger] self.entries_view()[i]).vpn
                != (#[trigger] self.entries_view()[j]).vpn
    }

    /// Whether a user page in `[start, end)` is mapped.
    pub open spec fn overlaps(&self, start: int, end: int) -> bool {
        exists|i: int|
            0 <= i < self.entries_view().len() && start <= (#[trigger] self.entries_view()[i]).vpn
                < end
    }

    /// Frame and flags that virtual page `vpn` resolves to.
    pub open spec fn resolve(&self, vpn: usize) -> Option<(usize, u8)> {
        if vpn == TRAMPOLINE_VPN {
            Some((self.portal_frame(), PORTAL_FLAGS))
        } else if exists|i: int|
            0 <= i < self.entries_view().len() && (#[trigger] self.entries_view()[i]).vpn == vpn {
            let i = choose|i: int|
                0 <= i < self.entries_view().len() && (#[trigger] self.entries_view()[i]).vpn
                    == vpn;
            Some((self.entries_view()[i].frame, self.entries_view()[i].flags))
        } else {
            None
        }
    }

    pub open spec fn selector(&self) -> u64 {
        (SV39_MODE + self.root_frame()) as u64
    }

    /// An address space with only the trampoline mapped, onto frame
    /// `portal`. Takes one frame for its root; `None` when the arena is full.
    pub fn new(mem: &mut PhysMemory, portal: usize) -> (r: Option<AddressSpace>)
        requires
            old(mem).wf(),
            portal < old(mem).frames(),
        ensures
            final(mem).wf(),
            r is None <==> old(mem).frames() + 1 > MAX_FRAMES,
            r is None ==> *final(mem) == *old(mem),
            r is Some ==> {
                let a = r->0;
                &&& a.wf(final(mem).frames())
                &&& a.entries_view().len() == 0
                &&& a.portal_frame() == portal
                &&& a.root_frame() == old(mem).frames()
                &&& final(mem).frames() == old(mem).frames() + 1
                &&& forall|f: int|
                    0 <= f < old(mem).frames() ==> #[trigger] final(mem).frame(f) == old(mem).frame(f)
            },
    {
        match mem.alloc_frames(1) {
            None => None,
            Some(root) => Some(AddressSpace { root, portal, entries: Vec::new() }),
        }
    }

    /// The value that selects this page table when installed.
    pub fn root_selector(&self) -> (r: u64)
        requires
            self.root_frame() < MAX_FRAMES,
        ensures
            r == self.selector(),
    {
        SV39_MODE + self.root as u64
    }

    pub fn portal(&self) -> (r: usize)
        ensures
            r == self.portal_frame(),
    {
        self.portal
    }

    /// Maps the trampoline onto frame `portal`.
    pub fn map_portal(&mut self, portal: usize)
        ensures
            final(self).portal_frame() == portal,
            final(self).root_frame() == old(self).root_frame(),
            final(self).entries_view() == old(self).entries_view(),
    {
        self.portal = portal;
    }

    pub fn entry_count(&self) -> (r: usize)
        ensures
            r == self.entries_view().len(),
    {
        self.entries.len()
    }

    pub fn entry(&self, i: usize) -> (r: PageEntry)
        requires
            i < self.entries_view().len(),
        ensures
            r == self.entries_view()[i as int],
    {
        self.entries[i]
    }

    /// Frame and flags of virtual page `vpn`, if it is mapped.
    pub fn translate(&self, vpn: usize) -> (r: Option<(usize, u8)>)
        requires
            self.wf(MAX_FRAMES as nat),
        ensures
            r == self.resolve(vpn),
    {
        if vpn == TRAMPOLINE_VPN {
            return Some((self.portal, PORTAL_FLAGS));
        }
        let mut i: usize = 0;
        while i < self.entries.len()
            invariant
                self.wf(MAX_FRAMES as nat),
                vpn != TRAMPOLINE_VPN,
                i <= self.entries@.len(),
                forall|k: int| 0 <= k < i ==> (#[trigger] self.entries@[k]).vpn != vpn,
            decreases self.entries@.len() - i,
        {
            if self.entries[i].vpn == vpn {
                let e = self.entries[i];
                proof {
                    let j = choose|j: int|
                        0 <= j < self.entries_view().len() && (#[trigger] self.entries_view()[j]).vpn
                            == vpn;
                    if j != i {
                        if j < i {
                            assert(self.entries@[j].vpn != vpn);
                        } else {
                            assert(self.entries_view()[i as int].vpn != self.entries_view()[j].vpn);
                        }
                    }
                    assert(j == i);
                }
                return Some((e.frame, e.flags));
            }
            i = i + 1;
        }
        None
    }

    /// Whether no user page in `[start, end)` is mapped yet.
    pub fn is_free(&self, start: usize, end: usize) -> (r: bool)
        ensures
            r == !self.overlaps(start as int, end as int),
    {
        let mut i: usize = 0;
        while i < self.entries.len()
            invariant
                i <= self.entries@.len(),
                forall|k: int|
                    0 <= k < i ==> !(start <= (#[trigger] self.entries@[k]).vpn < end),
            decreases self.entries@.len() - i,
        {
            let v = self.entries[i].vpn;
            if start <= v && v < end {
                assert(start <= self.entries_view()[i as int].vpn < end);
                return false;
            }
            i = i + 1;
        }
        true
    }

    /// Appends the run of `n` pages from `start` onto frames from `frame`.
    fn push_run(&mut self, start: usize, frame: usize, n: usize, flags: u8)
        requires
            start + n <= USER_TOP_VPN,
            frame + n <= MAX_FRAMES,
        ensures
            final(self).entries_view() == old(self).entries_view() + run(
                start as int,
                frame as int,
                flags,
                n as nat,
            ),
            final(self).root_frame() == old(self).root_frame(),
            final(self).portal_frame() == old(self).portal_frame(),
    {
        let mut i: usize = 0;
        while i < n
            invariant
                i <= n,
                start + n <= USER_TOP_VPN,
                frame + n <= MAX_FRAMES,
                self.root == old(self).root,
                self.portal == old(self).portal,
                self.entries@ == old(self).entries@ + run(start as int, frame as int, flags, i as nat),
            decreases n - i,
        {
            self.entries.push(PageEntry { vpn: start + i, frame: frame + i, flags });
            i = i + 1;
            assert(self.entries@ =~= old(self).entries@ + run(
                start as int,
                frame as int,
                flags,
                i as nat,
            ));
        }
    }

    proof fn lemma_push_run_wf(&self, old_self: &AddressSpace, start: int, frame: int, flags: u8, n: nat, frames: nat)
        requires
            old_self.wf(frames),
            user_flag(flags),
            !old_self.overlaps(start, start + n),
            0 <= start,
            start + n <= USER_TOP_VPN,
            0 <= frame,
            frame + n <= frames,
            self.root_frame() == old_self.root_frame(),
            self.portal_frame() == old_self.portal_frame(),
            self.entries_view() == old_self.entries_view() + run(start, frame, flags, n),
        ensures
            self.wf(frames),
    {
        let o = old_self.entries_view();
        let e = self.entries_view();
        assert forall|i: int, j: int| 0 <= i < j < e.len() implies (#[trigger] e[i]).vpn
            != (#[trigger] e[j]).vpn by {
            if j >= o.len() && i < o.len() {
                assert(e[i] == o[i]);
                if start <= o[i].vpn < start + n {
                    assert(old_self.overlaps(start, start + n));
                }
            }
            if i < o.len() && j < o.len() {
                assert(e[i] == o[i] && e[j] == o[j]);
            }
        }
        assert forall|i: int| 0 <= i < e.len() implies (#[trigger] e[i]).vpn < USER_TOP_VPN
            && e[i].frame < frames && user_flag(e[i].flags) by {
            if i < o.len() {
                assert(e[i] == o[i]);
            }
        }
    }

    /// Maps `[start, end)` onto fresh frames whose bytes are `data` placed at
    /// `offset` within the first page and zero elsewhere. Refused (`false`,
    /// nothing changed) when the range is empty, reaches above user space,
    /// overlaps a mapped page, cannot hold the data, or the arena is full.
    pub fn map(
        &mut self,
        mem: &mut PhysMemory,
        start: usize,
        end: usize,
        data: &[u8],
        offset: usize,
        flags: u8,
    ) -> (r: bool)
        requires
            old(mem).wf(),
            old(self).wf(old(mem).frames()),
            user_flag(flags),
        ensures
            final(mem).wf(),
            r == (start < end <= USER_TOP_VPN && !old(self).overlaps(start as int, end as int)
                && offset < PAGE_SIZE && offset + data@.len() <= (end - start) * PAGE_SIZE
                && old(mem).frames() + (end - start) <= MAX_FRAMES),
            !r ==> *final(mem) == *old(mem) && *final(self) == *old(self),
            r ==> {
                let n = (end - start) as nat;
                let first = old(mem).frames();
                &&& final(self).wf(final(mem).frames())
                &&& final(mem).frames() == first + n
                &&& final(self).entries_view() == old(self).entries_view() + run(
                    start as int,
                    first as int,
                    flags,
                    n,
                )
                &&& final(self).root_frame() == old(self).root_frame()
                &&& final(self).portal_frame() == old(self).portal_frame()
                &&& final(mem).span(first as int, n as int) == padded(
                    data@,
                    offset as int,
                    n * PAGE_SIZE,
                )
                &&& forall|f: int|
                    0 <= f < first ==> #[trigger] final(mem).frame(f) == old(mem).frame(f)
            },
    {
        if !(start < end && end <= USER_TOP_VPN && offset < PAGE_SIZE) {
            return false;
        }
        let n = end - start;
        if n > MAX_FRAMES {
            return false;
        }
        if data.len() > n * PAGE_SIZE - offset {
            return false;
        }
        if !self.is_free(start, end) {
            return false;
        }
        let first = match mem.alloc_frames(n) {
            None => {
                return false;
            },
            Some(f) => f,
        };
        let ghost zeroed = *mem;
        mem.fill(first, offset, data);
        proof {
            lemma_fill_span(&zeroed, mem, first as int, n as int, offset as int, data@);
            assert forall|f: int| 0 <= f < first implies #[trigger] mem.frame(f) == old(mem).frame(f) by {
                lemma_fill_keeps(&zeroed, mem, first as int, offset as int, data@, f);
            }
        }
        let ghost before = *self;
        self.push_run(start, first, n, flags);
        proof {
            self.lemma_push_run_wf(&before, start as int, first as int, flags, n as nat, mem.frames());
        }
        true
    }

    /// Maps `[start, end)` onto the caller's frames `first ..`. Refused
    /// (`false`, nothing changed) when the range is empty, reaches above user
    /// space, overlaps a mapped page, or the frames do not exist.
    pub fn map_extern(
        &mut self,
        frames: usize,
        start: usize,
        end: usize,
        first: usize,
        flags: u8,
    ) -> (r: bool)
        requires
            frames <= MAX_FRAMES,
            old(self).wf(frames as nat),
            user_flag(flags),
        ensures
            r == (start < end <= USER_TOP_VPN && !old(self).overlaps(start as int, end as int)
                && first + (end - start) <= frames),
            !r ==> *final(self) == *old(self),
            r ==> {
                &&& final(self).wf(frames as nat)
                &&& final(self).entries_view() == old(self).entries_view() + run(
                    start as int,
                    first as int,
                    flags,
                    (end - start) as nat,
                )
                &&& final(self).root_frame() == old(self).root_frame()
                &&& final(self).portal_frame() == old(self).portal_frame()
            },
    {
        if !(start < end && end <= USER_TOP_VPN) {
            return false;
        }
        let n = end - start;
        if first > frames || n > frames - first {
            return false;
        }
        if !self.is_free(start, end) {
            return false;
        }
        let ghost before = *self;
        self.push_run(start, first, n, flags);
        proof {
            self.lemma_push_run_wf(&before, start as int, first as int, flags, n as nat, frames as nat);
        }
        true
    }

    /// Copies every user page of this space into fresh frames mapped at the
    /// same pages with the same flags in `other` (which has no user pages
    /// yet), and maps `other`'s trampoline onto this space's trampoline frame.
    /// Refused (`false`, nothing changed) when the arena cannot hold the copies.
    pub fn clone_into(&self, mem: &mut PhysMemory, other: &mut AddressSpace) -> (r: bool)
        requires
            old(mem).wf(),
            self.wf(old(mem).frames()),
            old(other).wf(old(mem).frames()),
            old(other).entries_view().len() == 0,
        ensures
            final(mem).wf(),
            r == (old(mem).frames() + self.entries_view().len() <= MAX_FRAMES),
            !r ==> *final(mem) == *old(mem) && *final(other) == *old(other),
            r ==> {
                let first = old(mem).frames();
                let n = self.entries_view().len();
                &&& final(mem).frames() == first + n
                &&& final(other).wf(final(mem).frames())
                &&& final(other).root_frame() == old(other).root_frame()
                &&& final(other).portal_frame() == self.portal_frame()
                &&& final(other).entries_view().len() == n
                &&& forall|i: int|
                    0 <= i < n ==> {
                        &&& (#[trigger] final(other).entries_view()[i]).vpn
                            == self.entries_view()[i].vpn
                        &&& final(other).entries_view()[i].flags == self.entries_view()[i].flags
                        &&& final(other).entries_view()[i].frame == first + i
                        &&& final(mem).frame(first + i) == old(mem).frame(
                            self.entries_view()[i].frame as int,
                        )
                    }
                &&& forall|f: int|
                    0 <= f < first ==> #[trigger] final(mem).frame(f) == old(mem).frame(f)
            },
    {
        let n = self.entries.len();
        if n > MAX_FRAMES {
            return false;
        }
        let first = match mem.alloc_frames(n) {
            None => {
                return false;
            },
            Some(f) => f,
        };
        let ghost fresh = *mem;
        let mut i: usize = 0;
        while i < n
            invariant
                n == self.entries@.len(),
                self.wf(first as nat),
                first == old(mem).frames(),
                first + n <= MAX_FRAMES,
                mem.wf(),
                mem.frames() == first + n,
                i <= n,
                other.root == old(other).root,
                other.portal == old(other).portal,
                other.entries@.len() == i,
                forall|k: int|
                    0 <= k < i ==> {
                        &&& (#[trigger] other.entries@[k]).vpn == self.entries@[k].vpn
                        &&& other.entries@[k].flags == self.entries@[k].flags
                        &&& other.entries@[k].frame == first + k
                        &&& mem.frame(first + k) == old(mem).frame(self.entries@[k].frame as int)
                    },
                forall|f: int| 0 <= f < first ==> #[trigger] mem.frame(f) == old(mem).frame(f),
            decreases n - i,
        {
            let e = self.entries[i];
            assert(self.entries_view()[i as int] == e);
            let ghost prev = *mem;
            let ghost prev_entries = other.entries@;
            mem.copy_frame(e.frame, first + i);
            other.entries.push(PageEntry { vpn: e.vpn, frame: first + i, flags: e.flags });
            i = i + 1;
            assert forall|f: int| 0 <= f < first implies #[trigger] mem.frame(f) == old(mem).frame(f) by {
                assert(mem.frame(f) == prev.frame(f));
            }
            assert forall|k: int| 0 <= k < i implies mem.frame(first + k) == old(mem).frame(
                self.entries@[k].frame as int,
            ) by {
                if k < i - 1 {
                    assert(prev_entries[k].frame == first + k);
                    assert(mem.frame(first + k) == prev.frame(first + k));
                } else {
                    assert(prev.frame(e.frame as int) == old(mem).frame(e.frame as int));
                }
            }
        }
        other.portal = self.portal;
        proof {
            let e = other.entries_view();
            assert forall|a: int, b: int| 0 <= a < b < e.len() implies (#[trigger] e[a]).vpn
                != (#[trigger] e[b]).vpn by {
                assert(self.entries_view()[a].vpn != self.entries_view()[b].vpn);
            }
            assert forall|a: int| 0 <= a < e.len() implies (#[trigger] e[a]).vpn < USER_TOP_VPN
                && e[a].frame < mem.frames() && user_flag(e[a].flags) by {
                assert(self.entries_view()[a].vpn < USER_TOP_VPN);
                assert(user_flag(self.entries_view()[a].flags));
            }
        }
        true
    }
}

/// Every address space built over the same trampoline frame resolves the
/// trampoline page to that frame, with the same flags, whatever user pages
/// it maps.
pub proof fn lemma_trampoline_shared(a: &AddressSpace, b: &AddressSpace)
    requires
        a.portal_frame() == b.portal_frame(),
    ensures
        a.resolve(TRAMPOLINE_VPN) == b.resolve(TRAMPOLINE_VPN),
        a.resolve(TRAMPOLINE_VPN) == Some((a.portal_frame(), PORTAL_FLAGS)),
{
}

/// After `child` was cloned from `parent` into frames from `first` on,
/// writing a byte into a page of the child leaves every page of the parent
/// as it was.
pub proof fn lemma_clone_independent(
    parent: &AddressSpace,
    child: &AddressSpace,
    first: nat,
    mem: &PhysMemory,
    written: &PhysMemory,
    i: int,
    off: int,
    v: u8,
)
    requires
        mem.wf(),
        parent.wf(first),
        first <= mem.frames(),
        0 <= i < child.entries_view().len(),
        forall|k: int|
            0 <= k < child.entries_view().len() ==> (#[trigger] child.entries_view()[k]).frame
                >= first,
        0 <= off < PAGE_SIZE,
        child.entries_view()[i].frame < mem.frames(),
        written.frames() == mem.frames(),
        written.frame(child.entries_view()[i].frame as int) == mem.frame(
            child.entries_view()[i].frame as int,
        ).update(off, v),
        forall|g: int|
            0 <= g < mem.frames() && g != child.entries_view()[i].frame ==> #[trigger] written.frame(g)
                == mem.frame(g),
    ensures
        forall|j: int|
            0 <= j < parent.entries_view().len() ==> written.frame(
                (#[trigger] parent.entries_view()[j]).frame as int,
            ) == mem.frame(parent.entries_view()[j].frame as int),
{
    assert forall|j: int| 0 <= j < parent.entries_view().len() implies written.frame(
        (#[trigger] parent.entries_view()[j]).frame as int,
    ) == mem.frame(parent.entries_view()[j].frame as int) by {
        assert(parent.entries_view()[j].frame < first);
        assert(child.entries_view()[i].frame >= first);
    }
}

proof fn lemma_fill_span(a: &PhysMemory, b: &PhysMemory, first: int, n: int, offset: int, data: Seq<u8>)
    requires
        a.wf(),
        0 <= first,
        0 <= offset,
        first + n <= a.frames(),
        offset + data.len() <= n * PAGE_SIZE,
        a.span(first, n) == Seq::new((n * PAGE_SIZE) as nat, |k: int| 0u8),
        b.frames() == a.frames(),
        b.wf(),
        b.bytes_view() == a.bytes_view().update_subrange_with(first * PAGE_SIZE + offset, data),
    ensures
        b.span(first, n) == padded(data, offset, n * PAGE_SIZE),
{
    assert forall|k: int| 0 <= k < n * PAGE_SIZE implies #[trigger] b.span(first, n)[k]
        == padded(data, offset, n * PAGE_SIZE)[k] by {
        assert(b.span(first, n)[k] == b.bytes_view()[first * PAGE_SIZE + k]);
        assert(a.span(first, n)[k] == a.bytes_view()[first * PAGE_SIZE + k]);
    }
    assert(b.span(first, n) =~= padded(data, offset, n * PAGE_SIZE));
}

proof fn lemma_fill_keeps(a: &PhysMemory, b: &PhysMemory, first: int, offset: int, data: Seq<u8>, f: int)
    requires
        a.wf(),
        b.wf(),
        0 <= f < first,
        0 <= offset,
        first * PAGE_SIZE + offset + data.len() <= a.bytes_view().len(),
        b.bytes_view() == a.bytes_view().update_subrange_with(first * PAGE_SIZE + offset, data),
    ensures
        b.frame(f) == a.frame(f),
{
    assert forall|k: int| 0 <= k < PAGE_SIZE implies #[trigger] b.frame(f)[k] == a.frame(f)[k] by {
        assert(b.frame(f)[k] == b.bytes_view()[f * PAGE_SIZE + k]);
        assert(a.frame(f)[k] == a.bytes_view()[f * PAGE_SIZE + k]);
    }
    assert(b.frame(f) =~= a.frame(f));
}

} // verus!
