use vstd::prelude::*;
use crate::address::InnerPhysPageNum;
use crate::config::PTE_PER_FRAME;
use crate::pte::{PageTableEntry, pte_flags_readable};

verus! {

/// Largest number of frames the page-table region may hold: page numbers must fit in the
/// 44-bit page-number field of an entry.
pub const MAX_PPN_EXCLUSIVE: u64 = 0x1000_0000_0000;

/// Abstract view of the physical memory region that holds page-table frames: frame `base + k`
/// holds the 512 entries `words[512 * k .. 512 * (k + 1)]`.
pub struct PhysMemView {
    pub base: usize,
    pub words: Seq<u64>,
}

impl PhysMemView {
    /// Number of frames in the region.
    pub open spec fn frames(self) -> int {
        self.words.len() as int / 512
    }

    /// Whether frame `ppn` lies in the region.
    pub open spec fn holds(self, ppn: usize) -> bool {
        self.base <= ppn && ppn - self.base < self.frames()
    }

    /// Position in `words` of entry `idx` of frame `ppn`.
    pub open spec fn slot(self, ppn: usize, idx: int) -> int {
        (ppn - self.base) * 512 + idx
    }

    /// Entry `idx` of frame `ppn`.
    pub open spec fn entry(self, ppn: usize, idx: int) -> u64 {
        self.words[self.slot(ppn, idx)]
    }

    /// The region is made of whole frames, its page numbers fit in an entry, and every entry
    /// has readable flags.
    pub open spec fn wf(self) -> bool {
        &&& self.words.len() % 512 == 0
        &&& self.base + self.frames() <= MAX_PPN_EXCLUSIVE
        &&& forall|k: int| 0 <= k < self.words.len() ==> pte_flags_readable(#[trigger] self.words[k])
    }

    /// The region after entry `idx` of frame `ppn` is set to `v`.
    pub open spec fn write(self, ppn: usize, idx: int, v: u64) -> PhysMemView {
        PhysMemView { words: self.words.update(self.slot(ppn, idx), v), ..self }
    }

    /// Whether every entry of frame `ppn` is zero.
    pub open spec fn frame_is_zero(self, ppn: usize) -> bool {
        forall|i: int| 0 <= i < 512 ==> #[trigger] self.entry(ppn, i) == 0
    }
}

/// Entries of distinct (frame, index) pairs sit at distinct positions, and every position of a
/// held frame lies inside the region.
pub proof fn lemma_slot(m: PhysMemView, p: usize, i: int, q: usize, j: int)
    requires
        m.wf(),
        m.holds(p),
        m.holds(q),
        0 <= i < 512,
        0 <= j < 512,
    ensures
        0 <= m.slot(p, i) < m.words.len(),
        0 <= m.slot(q, j) < m.words.len(),
        m.slot(p, i) == m.slot(q, j) <==> (p == q && i == j),
{
    let a = p - m.base;
    let b = q - m.base;
    let n = m.frames();
    assert(m.words.len() == n * 512);
    assert(0 <= a * 512 + i < n * 512) by (nonlinear_arith)
        requires
            0 <= a < n,
            0 <= i < 512,
    ;
    assert(0 <= b * 512 + j < n * 512) by (nonlinear_arith)
        requires
            0 <= b < n,
            0 <= j < 512,
    ;
    assert(a * 512 + i == b * 512 + j ==> a == b && i == j) by (nonlinear_arith)
        requires
            0 <= i < 512,
            0 <= j < 512,
    ;
}

/// Physical memory holding page-table frames: `words.len() / 512` consecutive frames from
/// page `base` on.
pub struct PhysMem {
    base: usize,
    words: Vec<u64>,
}

impl View for PhysMem {
    type V = PhysMemView;

    closed spec fn view(&self) -> PhysMemView {
        PhysMemView { base: self.base, words: self.words@ }
    }
}

impl PhysMem {
    /// A zeroed region of `frames` frames starting at page `base`.
    pub fn new(base: InnerPhysPageNum, frames: usize) -> (r: PhysMem)
        requires
            frames * 512 <= usize::MAX,
            base.0 + frames <= MAX_PPN_EXCLUSIVE,
        ensures
            r@.base == base.0,
            r@.frames() == frames,
            r@.wf(),
            forall|p: usize| r@.holds(p) ==> r@.frame_is_zero(p),
    {
        let n = frames * PTE_PER_FRAME;
        let mut words: Vec<u64> = Vec::new();
        let mut k: usize = 0;
        while k < n
            invariant
                k <= n,
                n == frames * 512,
                words@.len() == k,
                forall|j: int| 0 <= j < k ==> words@[j] == 0,
            decreases n - k,
        {
            words.push(0);
            k = k + 1;
        }
        let r = PhysMem { base: base.0, words };
        proof {
            assert(r@.frames() == frames) by (nonlinear_arith)
                requires
                    r@.words.len() == frames * 512,
            ;
            crate::bits::lemma_flag_constants();
            assert(r@.words.len() % 512 == 0) by (nonlinear_arith)
                requires
                    r@.words.len() == frames * 512,
            ;
            assert(r@.wf());
            assert forall|p: usize| r@.holds(p) implies r@.frame_is_zero(p) by {
                assert forall|i: int| 0 <= i < 512 implies #[trigger] r@.entry(p, i) == 0 by {
                    lemma_slot(r@, p, i, p, i);
                }
            }
        }
        r
    }

    /// First page of the region.
    pub fn base(&self) -> (r: InnerPhysPageNum)
        ensures
            r.0 == self@.base,
    {
        InnerPhysPageNum(self.base)
    }

    /// Number of frames of the region.
    pub fn frame_count(&self) -> (r: usize)
        ensures
            r == self@.frames(),
    {
        self.words.len() / PTE_PER_FRAME
    }

    /// Entry `idx` of frame `ppn`.
    pub fn read_entry(&self, ppn: InnerPhysPageNum, idx: usize) -> (r: PageTableEntry)
        requires
            self@.wf(),
            self@.holds(ppn.0),
            idx < 512,
        ensures
            r.bits == self@.entry(ppn.0, idx as int),
            pte_flags_readable(r.bits),
    {
        proof {
            lemma_slot(self@, ppn.0, idx as int, ppn.0, idx as int);
        }
        assert((ppn.0 - self.base) * 512 + idx < self.words.len());
        let k = (ppn.0 - self.base) * PTE_PER_FRAME + idx;
        PageTableEntry { bits: self.words[k] }
    }

    /// Sets entry `idx` of frame `ppn` to `pte`, whose flags must be readable.
    pub fn write_entry(&mut self, ppn: InnerPhysPageNum, idx: usize, pte: PageTableEntry)
        requires
            old(self)@.wf(),
            old(self)@.holds(ppn.0),
            idx < 512,
            pte_flags_readable(pte.bits),
        ensures
            final(self)@ == old(self)@.write(ppn.0, idx as int, pte.bits),
            final(self)@.wf(),
    {
        proof {
            lemma_slot(self@, ppn.0, idx as int, ppn.0, idx as int);
        }
        assert((ppn.0 - self.base) * 512 + idx < self.words.len());
        let k = (ppn.0 - self.base) * PTE_PER_FRAME + idx;
        self.words.set(k, pte.bits);
    }

    /// Sets every entry of frame `ppn` to zero.
    pub fn zero_frame(&mut self, ppn: InnerPhysPageNum)
        requires
            old(self)@.wf(),
            old(self)@.holds(ppn.0),
        ensures
            final(self)@.wf(),
            final(self)@.base == old(self)@.base,
            final(self)@.words.len() == old(self)@.words.len(),
            final(self)@.frame_is_zero(ppn.0),
            forall|q: usize, j: int|
                q != ppn.0 && old(self)@.holds(q) && 0 <= j < 512 ==> #[trigger] final(self)@.entry(q, j)
                    == old(self)@.entry(q, j),
    {
        let ghost pre = self@;
        proof {
            lemma_slot(self@, ppn.0, 0, ppn.0, 0);
            lemma_slot(self@, ppn.0, 511, ppn.0, 511);
        }
        assert((ppn.0 - self.base) * 512 + 511 < self.words.len());
        let start = (ppn.0 - self.base) * PTE_PER_FRAME;
        let mut i: usize = 0;
        while i < PTE_PER_FRAME
            invariant
                i <= 512,
                start == pre.slot(ppn.0, 0),
                start + 512 <= pre.words.len(),
                pre.wf(),
                pre.holds(ppn.0),
                self@.base == pre.base,
                self@.words.len() == pre.words.len(),
                forall|k: int| 0 <= k < self@.words.len() && !(start <= k < start + i) ==> #[trigger] self@.words[k] == pre.words[k],
                forall|k: int| start <= k < start + i ==> #[trigger] self@.words[k] == 0,
            decreases 512 - i,
        {
            self.words.set(start + i, 0);
            i = i + 1;
        }
        proof {
            assert(self@.wf()) by {
                assert forall|k: int| 0 <= k < self@.words.len() implies pte_flags_readable(#[trigger] self@.words[k]) by {
                    if !(start <= k < start + 512) {
                        assert(pte_flags_readable(pre.words[k]));
                    } else {
                        assert(self@.words[k] == 0);
                        crate::bits::lemma_flag_constants();
                    }
                }
            }
            assert forall|j: int| 0 <= j < 512 implies #[trigger] self@.entry(ppn.0, j) == 0 by {
                lemma_slot(pre, ppn.0, j, ppn.0, j);
            }
            assert forall|q: usize, j: int|
                q != ppn.0 && pre.holds(q) && 0 <= j < 512 implies #[trigger] self@.entry(q, j) == pre.entry(q, j) by {
                lemma_slot(pre, ppn.0, 0, q, j);
                lemma_slot(pre, ppn.0, 511, q, j);
                lemma_slot(pre, q, j, q, j);
                assert(!(start <= pre.slot(q, j) < start + 512)) by (nonlinear_arith)
                    requires
                        start == (ppn.0 - pre.base) * 512,
                        pre.slot(q, j) == (q - pre.base) * 512 + j,
                        q != ppn.0,
                        0 <= j < 512,
                ;
            }
        }
    }
}

} // verus!
