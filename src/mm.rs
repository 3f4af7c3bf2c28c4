use vstd::prelude::*;

verus! {

/// Bytes in one page (and one physical frame).
pub const PAGE_SIZE: usize = 4096;

/// Most frames the arena hands out.
pub const MAX_FRAMES: usize = 524288;

/// Zero-filled bytes with `data` placed at `offset`, `total` bytes long.
pub open spec fn padded(data: Seq<u8>, offset: int, total: int) -> Seq<u8> {
    Seq::new(
        total as nat,
        |k: int|
            if offset <= k < offset + data.len() {
                data[k - offset]
            } else {
                0u8
            },
    )
}

/// Physical memory: an arena of page-sized frames, numbered from 0 in the
/// order they were handed out.
pub struct PhysMemory {
    bytes: Vec<u8>,
    count: usize,
}

impl PhysMemory {
    pub open spec fn wf(&self) -> bool {
        &&& self.frames() <= MAX_FRAMES
        &&& self.bytes_view().len() == self.frames() * PAGE_SIZE
    }

    /// How many frames have been handed out.
    pub closed spec fn frames(&self) -> nat {
        self.count as nat
    }

    /// The contents of frame `f`.
    pub open spec fn frame(&self, f: int) -> Seq<u8> {
        self.bytes_view().subrange(f * PAGE_SIZE, f * PAGE_SIZE + PAGE_SIZE)
    }

    pub closed spec fn bytes_view(&self) -> Seq<u8> {
        self.bytes@
    }

    /// Contents of `n` consecutive frames starting at `f`.
    pub open spec fn span(&self, f: int, n: int) -> Seq<u8> {
        self.bytes_view().subrange(f * PAGE_SIZE, (f + n) * PAGE_SIZE)
    }

    pub proof fn lemma_span_frame(&self, f: int, n: int, i: int)
        requires
            self.wf(),
            0 <= f,
            0 <= i < n,
            f + n <= self.frames(),
        ensures
            self.frame(f + i) == self.span(f, n).subrange(i * PAGE_SIZE, i * PAGE_SIZE + PAGE_SIZE),
    {
        assert(self.frame(f + i) =~= self.span(f, n).subrange(
            i * PAGE_SIZE,
            i * PAGE_SIZE + PAGE_SIZE,
        ));
    }

    pub fn new() -> (r: PhysMemory)
        ensures
            r.wf(),
            r.frames() == 0,
    {
        PhysMemory { bytes: Vec::new(), count: 0 }
    }

    pub fn frame_count(&self) -> (r: usize)
        ensures
            r == self.frames(),
    {
        self.count
    }

    /// Hands out `n` fresh zero-filled frames, numbered consecutively; the
    /// first number is returned. `None`, with nothing changed, when the
    /// arena cannot hold them.
    pub fn alloc_frames(&mut self, n: usize) -> (r: Option<usize>)
        requires
            old(self).wf(),
        ensures
            final(self).wf(),
            r is None <==> old(self).frames() + n > MAX_FRAMES,
            r is None ==> *final(self) == *old(self),
            r is Some ==> {
                &&& r->0 == old(self).frames()
                &&& final(self).frames() == old(self).frames() + n
                &&& final(self).span(r->0 as int, n as int) == Seq::new(
                    (n * PAGE_SIZE) as nat,
                    |k: int| 0u8,
                )
                &&& forall|f: int|
                    0 <= f < old(self).frames() ==> #[trigger] final(self).frame(f) == old(
                        self,
                    ).frame(f)
            },
    {
        if n > MAX_FRAMES - self.count {
            return None;
        }
        let first = self.count;
        let total: usize = n * PAGE_SIZE;
        let ghost before = self.bytes@;
        let mut k: usize = 0;
        while k < total
            invariant
                k <= total,
                total == n * PAGE_SIZE,
                self.bytes@.len() == before.len() + k,
                self.bytes@.subrange(0, before.len() as int) == before,
                forall|j: int| before.len() <= j < before.len() + k ==> self.bytes@[j] == 0u8,
            decreases total - k,
        {
            self.bytes.push(0u8);
            k = k + 1;
            assert(self.bytes@.subrange(0, before.len() as int) =~= before);
        }
        self.count = first + n;
        assert(self.span(first as int, n as int) =~= Seq::new((n * PAGE_SIZE) as nat, |k: int| 0u8));
        assert forall|f: int| 0 <= f < first implies #[trigger] self.frame(f) == old(self).frame(f) by {
            assert(self.frame(f) =~= old(self).frame(f));
        }
        Some(first)
    }

    /// Gives every frame numbered `n` or above back to the arena; the
    /// frames below `n` keep their bytes.
    pub fn release_from(&mut self, n: usize)
        requires
            old(self).wf(),
            n <= old(self).frames(),
        ensures
            final(self).wf(),
            final(self).frames() == n,
            forall|f: int| 0 <= f < n ==> #[trigger] final(self).frame(f) == old(self).frame(f),
    {
        self.bytes.truncate(n * PAGE_SIZE);
        self.count = n;
        assert forall|f: int| 0 <= f < n implies #[trigger] self.frame(f) == old(self).frame(f) by {
            assert(self.frame(f) =~= old(self).frame(f));
        }
    }

    /// Byte `off` of frame `f`.
    pub fn read(&self, f: usize, off: usize) -> (r: u8)
        requires
            self.wf(),
            f < self.frames(),
            off < PAGE_SIZE,
        ensures
            r == self.frame(f as int)[off as int],
    {
        self.bytes[f * PAGE_SIZE + off]
    }

    /// Sets byte `off` of frame `f`; every other byte stays.
    pub fn write(&mut self, f: usize, off: usize, v: u8)
        requires
            old(self).wf(),
            f < old(self).frames(),
            off < PAGE_SIZE,
        ensures
            final(self).wf(),
            final(self).frames() == old(self).frames(),
            final(self).frame(f as int) == old(self).frame(f as int).update(off as int, v),
            forall|g: int|
                0 <= g < old(self).frames() && g != f ==> #[trigger] final(self).frame(g) == old(
                    self,
                ).frame(g),
    {
        self.bytes.set(f * PAGE_SIZE + off, v);
        assert(self.frame(f as int) =~= old(self).frame(f as int).update(off as int, v));
        assert forall|g: int| 0 <= g < old(self).frames() && g != f implies #[trigger] self.frame(g)
            == old(self).frame(g) by {
            assert(self.frame(g) =~= old(self).frame(g));
        }
    }

    /// Copies `data` into the frames starting at `f`, from byte `off` of
    /// frame `f` on.
    pub(crate) fn fill(&mut self, f: usize, off: usize, data: &[u8])
        requires
            old(self).wf(),
            f < old(self).frames(),
            off + data@.len() <= (old(self).frames() - f) * PAGE_SIZE,
        ensures
            final(self).wf(),
            final(self).frames() == old(self).frames(),
            final(self).bytes_view() == old(self).bytes_view().update_subrange_with(
                f * PAGE_SIZE + off,
                data@,
            ),
    {
        let base: usize = f * PAGE_SIZE + off;
        let mut j: usize = 0;
        while j < data.len()
            invariant
                self.wf(),
                self.count == old(self).count,
                base == f * PAGE_SIZE + off,
                base + data@.len() <= self.bytes@.len(),
                j <= data@.len(),
                self.bytes@ == old(self).bytes@.update_subrange_with(
                    base as int,
                    data@.subrange(0, j as int),
                ),
            decreases data@.len() - j,
        {
            self.bytes.set(base + j, data[j]);
            j = j + 1;
            assert(self.bytes@ =~= old(self).bytes@.update_subrange_with(
                base as int,
                data@.subrange(0, j as int),
            ));
        }
        assert(data@.subrange(0, data@.len() as int) =~= data@);
    }

    /// Copies the whole of frame `src` over frame `dst`.
    pub(crate) fn copy_frame(&mut self, src: usize, dst: usize)
        requires
            old(self).wf(),
            src < old(self).frames(),
            dst < old(self).frames(),
            src != dst,
        ensures
            final(self).wf(),
            final(self).frames() == old(self).frames(),
            final(self).frame(dst as int) == old(self).frame(src as int),
            forall|g: int|
                0 <= g < old(self).frames() && g != dst ==> #[trigger] final(self).frame(g)
                    == old(self).frame(g),
    {
        let s: usize = src * PAGE_SIZE;
        let d: usize = dst * PAGE_SIZE;
        let mut j: usize = 0;
        while j < PAGE_SIZE
            invariant
                self.wf(),
                self.count == old(self).count,
                s == src * PAGE_SIZE,
                d == dst * PAGE_SIZE,
                src < self.count,
                dst < self.count,
                src != dst,
                j <= PAGE_SIZE,
                forall|k: int| 0 <= k < j ==> #[trigger] self.bytes@[d + k] == old(self).bytes@[s + k],
                forall|k: int|
                    0 <= k < self.bytes@.len() && !(d <= k < d + j) ==> self.bytes@[k] == old(
                        self,
                    ).bytes@[k],
            decreases PAGE_SIZE - j,
        {
            let v = self.bytes[s + j];
            self.bytes.set(d + j, v);
            j = j + 1;
        }
        assert forall|k: int| 0 <= k < PAGE_SIZE implies #[trigger] self.frame(dst as int)[k]
            == old(self).frame(src as int)[k] by {
            assert(self.bytes@[d + k] == old(self).bytes@[s + k]);
        }
        assert(self.frame(dst as int) =~= old(self).frame(src as int));
        assert forall|g: int| 0 <= g < old(self).frames() && g != dst implies #[trigger] self.frame(g)
            == old(self).frame(g) by {
            assert(self.frame(g) =~= old(self).frame(g));
        }
    }
}

} // verus!
