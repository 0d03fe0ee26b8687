use vstd::prelude::*;
use std::collections::BTreeMap;
use crate::address::InnerPhysPageNum;
use crate::phys_mem::{PhysMem, PhysMemView};

verus! {

/// Owners of a frame with the entries equal to `user` taken out.
pub open spec fn without_user(owners: Seq<u8>, user: u8) -> Seq<u8> {
    owners.filter(|x: u8| x != user)
}

/// A list of two owners headed by the fork marker 0 collapses to its second owner.
pub open spec fn collapse_owners(owners: Seq<u8>) -> Seq<u8> {
    if owners.len() == 2 && owners[0] == 0 {
        owners.subrange(1, 2)
    } else {
        owners
    }
}

/// Owners after `src` shares the frame with `dst`: only the first owner (or a frame already
/// marked as shared by a leading 0) can share; sharing marks the list with a leading 0.
pub open spec fn forked_owners(owners: Seq<u8>, src: u8, dst: u8) -> Seq<u8> {
    if owners[0] == 0 || owners[0] == src {
        if owners[0] != 0 {
            seq![0u8].add(owners).push(dst)
        } else {
            owners.push(dst)
        }
    } else {
        owners
    }
}

/// Abstract state of a frame allocator: the frames `[current, end)` never handed out, the
/// stack of recycled frames (top last), and the owner list of every frame in use.
pub struct FrameAllocState {
    pub current: usize,
    pub end: usize,
    pub recycled: Seq<usize>,
    pub refs: Map<usize, Seq<u8>>,
}

impl FrameAllocState {
    /// The frames that can still be handed out.
    pub open spec fn free_set(self) -> Set<usize> {
        self.recycled.to_set().union(Set::new(|p: usize| self.current <= p < self.end))
    }

    /// Number of frames that can still be handed out.
    pub open spec fn free_count(self) -> int {
        self.recycled.len() + self.end - self.current
    }

    /// Structural invariant: the fresh range is well ordered and no frame in use has an empty
    /// owner list.
    pub open spec fn wf(self) -> bool {
        &&& self.current <= self.end
        &&& forall|p: usize| #[trigger] self.refs.contains_key(p) ==> self.refs[p].len() > 0
    }

    /// No frame is free twice, and no free frame is in use.
    pub open spec fn sound(self) -> bool {
        &&& self.recycled.no_duplicates()
        &&& forall|i: int|
            0 <= i < self.recycled.len() ==> !(self.current <= #[trigger] self.recycled[i]
                < self.end)
        &&& forall|p: usize| #[trigger] self.free_set().contains(p) ==> !self.refs.contains_key(p)
    }

    /// State and result after `alloc_frame(owner)`.
    pub open spec fn alloc_step(self, owner: u8) -> (FrameAllocState, Option<usize>) {
        if self.recycled.len() > 0 {
            let p = self.recycled.last();
            (
                FrameAllocState {
                    recycled: self.recycled.drop_last(),
                    refs: self.refs.insert(p, seq![owner]),
                    ..self
                },
                Some(p),
            )
        } else if self.current == self.end {
            (self, None)
        } else {
            (
                FrameAllocState {
                    current: (self.current + 1) as usize,
                    refs: self.refs.insert(self.current, seq![owner]),
                    ..self
                },
                Some(self.current),
            )
        }
    }

    /// State after `dealloc(ppn, user)`.
    pub open spec fn dealloc_step(self, ppn: usize, user: u8) -> FrameAllocState {
        if self.refs.contains_key(ppn) {
            let kept = without_user(self.refs[ppn], user);
            if kept.len() == 0 {
                FrameAllocState {
                    recycled: self.recycled.push(ppn),
                    refs: self.refs.remove(ppn),
                    ..self
                }
            } else {
                FrameAllocState { refs: self.refs.insert(ppn, collapse_owners(kept)), ..self }
            }
        } else {
            self
        }
    }

    /// State after `fork(ppn, src, dst)`.
    pub open spec fn fork_step(self, ppn: usize, src: u8, dst: u8) -> FrameAllocState {
        if self.refs.contains_key(ppn) {
            FrameAllocState {
                refs: self.refs.insert(ppn, forked_owners(self.refs[ppn], src, dst)),
                ..self
            }
        } else {
            self
        }
    }
}

/// A frame allocator that hands out recycled frames first (last recycled first) and then the
/// frames of a fresh range in increasing order, and records the owners of every frame in use.
pub struct StackFrameAllocator {
    current: InnerPhysPageNum,
    end: InnerPhysPageNum,
    recycled: Vec<InnerPhysPageNum>,
    refcounter: BTreeMap<usize, Vec<u8>>,
}

impl View for StackFrameAllocator {
    type V = FrameAllocState;

    closed spec fn view(&self) -> FrameAllocState {
        FrameAllocState {
            current: self.current.0,
            end: self.end.0,
            recycled: self.recycled@.map_values(|p: InnerPhysPageNum| p.0),
            refs: Map::new(
                |k: usize| self.refcounter@.contains_key(k),
                |k: usize| self.refcounter@[k]@,
            ),
        }
    }
}

impl StackFrameAllocator {
    /// An allocator with an empty fresh range, no recycled frame and no frame in use.
    pub fn new() -> (r: StackFrameAllocator)
        ensures
            r@.current == 0,
            r@.end == 0,
            r@.recycled == Seq::<usize>::empty(),
            r@.refs == Map::<usize, Seq<u8>>::empty(),
            r@.wf(),
            r@.sound(),
    {
        let r = StackFrameAllocator {
            current: InnerPhysPageNum(0),
            end: InnerPhysPageNum(0),
            recycled: Vec::new(),
            refcounter: BTreeMap::new(),
        };
        proof {
            assert(r@.recycled =~= Seq::<usize>::empty());
            assert(r@.refs =~= Map::<usize, Seq<u8>>::empty());
            assert(r@.free_set() =~= Set::<usize>::empty());
        }
        r
    }

    /// First page of the fresh range; 0 while the allocator has not been given a range.
    pub fn fresh_start(&self) -> (r: InnerPhysPageNum)
        ensures
            r.0 == self@.current,
    {
        self.current
    }

    /// Sets the fresh range to `[l, r)`.
    pub fn init(&mut self, l: InnerPhysPageNum, r: InnerPhysPageNum)
        requires
            old(self)@.wf(),
            l.0 <= r.0,
        ensures
            final(self)@ == (FrameAllocState { current: l.0, end: r.0, ..old(self)@ }),
            final(self)@.wf(),
    {
        self.current = l;
        self.end = r;
    }

    /// Puts `ppn` on top of the recycled stack.
    pub fn add_free(&mut self, ppn: InnerPhysPageNum)
        requires
            old(self)@.wf(),
        ensures
            final(self)@ == (FrameAllocState { recycled: old(self)@.recycled.push(ppn.0), ..old(self)@ }),
            final(self)@.wf(),
    {
        self.recycled.push(ppn);
        proof {
            assert(self@.recycled =~= old(self)@.recycled.push(ppn.0));
            assert(self@.refs =~= old(self)@.refs);
        }
    }

    /// Whether frame `ppn` is in use, that is has owners.
    pub fn in_use(&self, ppn: InnerPhysPageNum) -> (r: bool)
        ensures
            r == self@.refs.contains_key(ppn.0),
    {
        self.refcounter.contains_key(&ppn.0)
    }

    /// Number of frames that can still be handed out.
    pub fn free_count(&self) -> (r: usize)
        requires
            self@.wf(),
            self@.free_count() <= usize::MAX,
        ensures
            r == self@.free_count(),
    {
        self.recycled.len() + (self.end.0 - self.current.0)
    }

    /// Hands out a frame to `owner`: the top of the recycled stack if there is one, else the
    /// next frame of the fresh range; `None` when both are exhausted.
    pub fn alloc_frame(&mut self, owner: u8) -> (r: Option<InnerPhysPageNum>)
        requires
            old(self)@.wf(),
        ensures
            final(self)@ == old(self)@.alloc_step(owner).0,
            r.is_some() == old(self)@.alloc_step(owner).1.is_some(),
            r.is_some() ==> r.unwrap().0 == old(self)@.alloc_step(owner).1.unwrap(),
            r.is_none() <==> old(self)@.free_count() == 0,
            final(self)@.wf(),
            old(self)@.sound() ==> final(self)@.sound(),
            old(self)@.sound() && r.is_some() ==> old(self)@.free_set().contains(r.unwrap().0)
                && !old(self)@.refs.contains_key(r.unwrap().0),
    {
        let ghost pre = self@;
        if let Some(ppn) = self.recycled.pop() {
            let owners = vec![owner];
            assert(owners@ =~= seq![owner]);
            self.refcounter.insert(ppn.0, owners);
            proof {
                let post = pre.alloc_step(owner).0;
                assert(self@.recycled =~= post.recycled);
                assert(self@.refs =~= post.refs);
                assert(pre.recycled[pre.recycled.len() - 1] == ppn.0);
                lemma_alloc_keeps_sound(pre, owner);
            }
            Some(ppn)
        } else {
            if self.current.0 == self.end.0 {
                proof {
                    assert(self@.recycled =~= pre.recycled);
                    assert(self@.refs =~= pre.refs);
                }
                None
            } else {
                let p = self.current;
                let owners = vec![owner];
                assert(owners@ =~= seq![owner]);
                self.refcounter.insert(p.0, owners);
                self.current.step();
                proof {
                    let post = pre.alloc_step(owner).0;
                    assert(self@.recycled =~= post.recycled);
                    assert(self@.refs =~= post.refs);
                    lemma_alloc_keeps_sound(pre, owner);
                }
                Some(p)
            }
        }
    }
}


impl StackFrameAllocator {
    /// Removes `user` from the owners of `ppn`; a frame left without owners goes on top of the
    /// recycled stack, and a shared frame left with one owner loses its shared mark.
    /// Frames not in use are left alone.
    pub fn dealloc(&mut self, ppn: InnerPhysPageNum, user: u8)
        requires
            old(self)@.wf(),
        ensures
            final(self)@ == old(self)@.dealloc_step(ppn.0, user),
            final(self)@.wf(),
            old(self)@.sound() ==> final(self)@.sound(),
    {
        let ghost pre = self@;
        if let Some(owners) = self.refcounter.remove(&ppn.0) {
            assert(pre.refs.contains_key(ppn.0));
            assert(owners@ == pre.refs[ppn.0]);
            let mut kept = owners_without(&owners, user);
            if kept.len() == 0 {
                self.recycled.push(ppn);
                proof {
                    let post = pre.dealloc_step(ppn.0, user);
                    assert(self@.recycled =~= post.recycled);
                    assert(self@.refs =~= post.refs);
                    lemma_dealloc_keeps_sound(pre, ppn.0, user);
                }
                return;
            }
            if kept[0] == 0 && kept.len() == 2 {
                kept.remove(0);
                assert(kept@ =~= collapse_owners(without_user(pre.refs[ppn.0], user)));
            }
            self.refcounter.insert(ppn.0, kept);
            proof {
                let post = pre.dealloc_step(ppn.0, user);
                assert(self@.recycled =~= post.recycled);
                assert(self@.refs =~= post.refs);
                lemma_dealloc_keeps_sound(pre, ppn.0, user);
            }
        } else {
            proof {
                assert(self@.recycled =~= pre.recycled);
                assert(self@.refs =~= pre.refs);
            }
        }
    }

    /// Lets `src` share the frame `ppn` with `dst`: allowed when `src` is the first owner or the
    /// frame is already marked shared; the first share puts the shared mark 0 in front.
    /// Frames not in use are left alone.
    pub fn fork(&mut self, ppn: InnerPhysPageNum, src: u8, dst: u8)
        requires
            old(self)@.wf(),
        ensures
            final(self)@ == old(self)@.fork_step(ppn.0, src, dst),
            final(self)@.wf(),
            old(self)@.sound() ==> final(self)@.sound(),
    {
        let ghost pre = self@;
        if let Some(owners) = self.refcounter.remove(&ppn.0) {
            let mut owners = owners;
            assert(pre.refs.contains_key(ppn.0));
            assert(owners@ == pre.refs[ppn.0]);
            if owners[0] == 0 || owners[0] == src {
                if owners[0] != 0 {
                    owners.insert(0, 0);
                }
                owners.push(dst);
            }
            assert(owners@ =~= forked_owners(pre.refs[ppn.0], src, dst));
            self.refcounter.insert(ppn.0, owners);
            proof {
                let post = pre.fork_step(ppn.0, src, dst);
                assert(self@.recycled =~= post.recycled);
                assert(self@.refs =~= post.refs);
                assert(self@.free_set() =~= pre.free_set());
            }
        } else {
            proof {
                assert(self@.recycled =~= pre.recycled);
                assert(self@.refs =~= pre.refs);
            }
        }
    }

    /// Adds `src` to the owners of the frame `ppn`, which must be in use.
    pub fn add_ref(&mut self, ppn: InnerPhysPageNum, src: u8)
        requires
            old(self)@.wf(),
            old(self)@.refs.contains_key(ppn.0),
        ensures
            final(self)@ == (FrameAllocState {
                refs: old(self)@.refs.insert(ppn.0, old(self)@.refs[ppn.0].push(src)),
                ..old(self)@
            }),
            final(self)@.wf(),
            old(self)@.sound() ==> final(self)@.sound(),
    {
        let ghost pre = self@;
        let owners = self.refcounter.remove(&ppn.0);
        let mut owners = owners.unwrap();
        owners.push(src);
        self.refcounter.insert(ppn.0, owners);
        proof {
            assert(self@.recycled =~= pre.recycled);
            assert(self@.refs =~= pre.refs.insert(ppn.0, pre.refs[ppn.0].push(src)));
            assert(self@.free_set() =~= pre.free_set());
        }
    }

    /// The owners of the frame `ppn` (empty if the frame is not in use); a shared frame with one
    /// owner left loses its shared mark first.
    pub fn enquire_ref(&mut self, ppn: InnerPhysPageNum) -> (r: Vec<u8>)
        requires
            old(self)@.wf(),
        ensures
            old(self)@.refs.contains_key(ppn.0) ==> {
                &&& r@ == collapse_owners(old(self)@.refs[ppn.0])
                &&& final(self)@ == (FrameAllocState {
                    refs: old(self)@.refs.insert(ppn.0, collapse_owners(old(self)@.refs[ppn.0])),
                    ..old(self)@
                })
            },
            !old(self)@.refs.contains_key(ppn.0) ==> r@ == Seq::<u8>::empty() && final(self)@
                == old(self)@,
            final(self)@.wf(),
            old(self)@.sound() ==> final(self)@.sound(),
    {
        let ghost pre = self@;
        if let Some(owners) = self.refcounter.remove(&ppn.0) {
            let mut owners = owners;
            assert(pre.refs.contains_key(ppn.0));
            assert(owners@ == pre.refs[ppn.0]);
            if owners[0] == 0 && owners.len() == 2 {
                owners.remove(0);
            }
            assert(owners@ =~= collapse_owners(pre.refs[ppn.0]));
            let out = owners.clone();
            assert(out@ =~= owners@);
            self.refcounter.insert(ppn.0, owners);
            proof {
                assert(self@.recycled =~= pre.recycled);
                assert(self@.refs =~= pre.refs.insert(ppn.0, collapse_owners(pre.refs[ppn.0])));
                assert(self@.free_set() =~= pre.free_set());
            }
            out
        } else {
            proof {
                assert(self@.recycled =~= pre.recycled);
                assert(self@.refs =~= pre.refs);
            }
            Vec::new()
        }
    }
}

/// The owners in `owners` that are not `user`, in order.
fn owners_without(owners: &Vec<u8>, user: u8) -> (r: Vec<u8>)
    ensures
        r@ == without_user(owners@, user),
{
    let mut kept: Vec<u8> = Vec::new();
    let mut i: usize = 0;
    while i < owners.len()
        invariant
            i <= owners.len(),
            kept@ == without_user(owners@.subrange(0, i as int), user),
        decreases owners.len() - i,
    {
        proof {
            reveal(Seq::filter);
            assert(owners@.subrange(0, i + 1).drop_last() =~= owners@.subrange(0, i as int));
        }
        if owners[i] != user {
            kept.push(owners[i]);
        }
        i = i + 1;
    }
    assert(owners@.subrange(0, owners.len() as int) =~= owners@);
    kept
}

/// Releasing a frame keeps the allocator sound.
pub proof fn lemma_dealloc_keeps_sound(s: FrameAllocState, ppn: usize, user: u8)
    requires
        s.wf(),
    ensures
        s.dealloc_step(ppn, user).wf(),
        s.sound() ==> s.dealloc_step(ppn, user).sound(),
{
    let t = s.dealloc_step(ppn, user);
    if s.refs.contains_key(ppn) {
        let kept = without_user(s.refs[ppn], user);
        if kept.len() == 0 {
            if s.sound() {
                assert(!s.free_set().contains(ppn));
                assert(!s.recycled.contains(ppn)) by {
                    if s.recycled.contains(ppn) {
                        let i = choose|i: int| 0 <= i < s.recycled.len() && s.recycled[i] == ppn;
                        assert(s.recycled.to_set().contains(ppn));
                    }
                }
                assert forall|i: int, j: int|
                    0 <= i < t.recycled.len() && 0 <= j < t.recycled.len() && i != j implies t.recycled[i]
                    != t.recycled[j] by {
                    if i < s.recycled.len() && j < s.recycled.len() {
                    } else if i == s.recycled.len() {
                        assert(t.recycled[j] == s.recycled[j]);
                    } else {
                        assert(t.recycled[i] == s.recycled[i]);
                    }
                }
                assert forall|i: int|
                    0 <= i < t.recycled.len() implies !(t.current <= #[trigger] t.recycled[i]
                    < t.end) by {
                    if i == s.recycled.len() {
                        assert(!(s.current <= ppn < s.end)) by {
                            if s.current <= ppn < s.end {
                                assert(s.free_set().contains(ppn));
                            }
                        }
                    } else {
                        assert(t.recycled[i] == s.recycled[i]);
                    }
                }
                assert forall|q: usize| #[trigger] t.free_set().contains(q) implies !t.refs.contains_key(q) by {
                    if q != ppn {
                        if t.recycled.to_set().contains(q) {
                            let i = choose|i: int| 0 <= i < t.recycled.len() && t.recycled[i] == q;
                            assert(s.recycled[i] == q);
                            assert(s.recycled.to_set().contains(q));
                        }
                        assert(s.free_set().contains(q));
                    }
                }
            }
        } else {
            if kept.len() == 2 && kept[0] == 0 {
                assert(collapse_owners(kept).len() == 1);
            }
            if s.sound() {
                assert(t.free_set() =~= s.free_set());
            }
        }
    }
}


/// State after `n` allocations for owner 0.
pub open spec fn alloc_times(s: FrameAllocState, n: nat) -> FrameAllocState
    decreases n,
{
    if n == 0 {
        s
    } else {
        alloc_times(s, (n - 1) as nat).alloc_step(0).0
    }
}

/// Every frame the allocator can hand out lies in the memory region `m`.
pub open spec fn backs(a: FrameAllocState, m: PhysMemView) -> bool {
    forall|p: usize| #[trigger] a.free_set().contains(p) ==> m.holds(p)
}

/// Hands out a frame for page tables (owner 0) and zeroes it; `None` when the allocator is
/// exhausted.
pub fn frame_alloc(allocator: &mut StackFrameAllocator, mem: &mut PhysMem) -> (r: Option<InnerPhysPageNum>)
    requires
        old(allocator)@.wf(),
        old(mem)@.wf(),
        old(allocator)@.alloc_step(0).1 matches Some(p) ==> old(mem)@.holds(p),
    ensures
        final(allocator)@ == old(allocator)@.alloc_step(0).0,
        r.is_some() == old(allocator)@.alloc_step(0).1.is_some(),
        r.is_some() ==> r.unwrap().0 == old(allocator)@.alloc_step(0).1.unwrap(),
        final(allocator)@.wf(),
        old(allocator)@.sound() ==> final(allocator)@.sound(),
        final(mem)@.wf(),
        final(mem)@.base == old(mem)@.base,
        final(mem)@.words.len() == old(mem)@.words.len(),
        r.is_none() ==> final(mem)@ == old(mem)@,
        r.is_some() ==> final(mem)@.frame_is_zero(r.unwrap().0),
        r.is_some() ==> forall|q: usize, j: int|
            q != r.unwrap().0 && old(mem)@.holds(q) && 0 <= j < 512 ==> #[trigger] final(mem)@.entry(q, j)
                == old(mem)@.entry(q, j),
{
    let pn = allocator.alloc_frame(0);
    if let Some(ppn) = pn {
        mem.zero_frame(ppn);
    }
    pn
}

/// The outer allocator as `outer_frame_alloc` finds it: an allocator that has not handed out
/// its first frame yet (fresh range starting at 0) first takes the range of whole pages inside
/// `[start, end)` as its fresh range.
pub open spec fn outer_ready(s: FrameAllocState, start: usize, end: usize) -> FrameAllocState {
    if s.current == 0 {
        FrameAllocState {
            current: crate::address::page_ceil(start as int) as usize,
            end: crate::address::page_floor(end as int) as usize,
            ..s
        }
    } else {
        s
    }
}

/// Takes a frame of the outer kernel's memory for `owner`, first giving an allocator whose
/// fresh range starts at 0 the range `[start, end)` configured for it; `None` when the
/// allocator is exhausted. Clearing the frame is left to the caller.
pub fn outer_frame_take(allocator: &mut StackFrameAllocator, owner: u8, start: usize, end: usize) -> (r: Option<
    InnerPhysPageNum,
>)
    requires
        old(allocator)@.wf(),
        old(allocator)@.current == 0 ==> 1 <= start <= usize::MAX - (crate::config::PAGE_SIZE - 1)
            && crate::address::page_ceil(start as int) <= crate::address::page_floor(end as int),
    ensures
        final(allocator)@ == outer_ready(old(allocator)@, start, end).alloc_step(owner).0,
        r.is_some() == outer_ready(old(allocator)@, start, end).alloc_step(owner).1.is_some(),
        r.is_some() ==> r.unwrap().0 == outer_ready(old(allocator)@, start, end).alloc_step(owner).1.unwrap(),
        final(allocator)@.wf(),
{
    if allocator.current.0 == 0 {
        let st = crate::address::PhysAddr(start).ceil();
        let ed = crate::address::PhysAddr(end).floor();
        allocator.init(InnerPhysPageNum::from_phys(st), InnerPhysPageNum::from_phys(ed));
    }
    allocator.alloc_frame(owner)
}

/// Hands out a zeroed frame of the outer kernel's memory to `owner`, first giving an
/// allocator whose fresh range starts at 0 the range `[start, end)` configured for it; `None`
/// when the allocator is exhausted.
pub fn outer_frame_alloc(
    allocator: &mut StackFrameAllocator,
    mem: &mut PhysMem,
    owner: u8,
    start: usize,
    end: usize,
) -> (r: Option<InnerPhysPageNum>)
    requires
        old(allocator)@.wf(),
        old(mem)@.wf(),
        old(allocator)@.current == 0 ==> 1 <= start <= usize::MAX - (crate::config::PAGE_SIZE - 1)
            && crate::address::page_ceil(start as int) <= crate::address::page_floor(end as int),
        outer_ready(old(allocator)@, start, end).alloc_step(owner).1 matches Some(p) ==> old(mem)@.holds(p),
    ensures
        final(allocator)@ == outer_ready(old(allocator)@, start, end).alloc_step(owner).0,
        r.is_some() == outer_ready(old(allocator)@, start, end).alloc_step(owner).1.is_some(),
        r.is_some() ==> r.unwrap().0 == outer_ready(old(allocator)@, start, end).alloc_step(owner).1.unwrap(),
        final(allocator)@.wf(),
        final(mem)@.wf(),
        final(mem)@.base == old(mem)@.base,
        final(mem)@.words.len() == old(mem)@.words.len(),
        r.is_none() ==> final(mem)@ == old(mem)@,
        r.is_some() ==> final(mem)@.frame_is_zero(r.unwrap().0),
        r.is_some() ==> forall|q: usize, j: int|
            q != r.unwrap().0 && old(mem)@.holds(q) && 0 <= j < 512 ==> #[trigger] final(mem)@.entry(q, j)
                == old(mem)@.entry(q, j),
{
    let pn = outer_frame_take(allocator, owner, start, end);
    if let Some(ppn) = pn {
        mem.zero_frame(ppn);
    }
    pn
}

/// Releases a page-table frame (owner 0).
pub fn frame_dealloc(allocator: &mut StackFrameAllocator, ppn: InnerPhysPageNum)
    requires
        old(allocator)@.wf(),
    ensures
        final(allocator)@ == old(allocator)@.dealloc_step(ppn.0, 0),
        final(allocator)@.wf(),
        old(allocator)@.sound() ==> final(allocator)@.sound(),
{
    allocator.dealloc(ppn, 0);
}

/// Allocation keeps the allocator sound, and hands out a free frame that is not in use.
pub proof fn lemma_alloc_keeps_sound(s: FrameAllocState, owner: u8)
    requires
        s.wf(),
    ensures
        s.alloc_step(owner).0.wf(),
        s.sound() ==> s.alloc_step(owner).0.sound(),
        s.sound() && s.alloc_step(owner).1.is_some() ==> s.free_set().contains(s.alloc_step(owner).1.unwrap())
            && !s.refs.contains_key(s.alloc_step(owner).1.unwrap()),
        s.alloc_step(owner).1.is_none() <==> s.free_count() == 0,
        forall|q: usize| #[trigger] s.alloc_step(owner).0.free_set().contains(q) ==> s.free_set().contains(q),
        s.alloc_step(owner).1.is_some() ==> s.alloc_step(owner).0.refs.contains_key(s.alloc_step(owner).1.unwrap()),
        forall|q: usize| s.refs.contains_key(q) ==> #[trigger] s.alloc_step(owner).0.refs.contains_key(q),
{
    let (t, r) = s.alloc_step(owner);
    assert forall|q: usize| #[trigger] t.free_set().contains(q) implies s.free_set().contains(q) by {
        if t.recycled.to_set().contains(q) {
            let i = choose|i: int| 0 <= i < t.recycled.len() && t.recycled[i] == q;
            assert(s.recycled[i] == q);
            assert(s.recycled.to_set().contains(q));
        }
    }
    if s.sound() {
        if s.recycled.len() > 0 {
            let p = s.recycled.last();
            assert(s.free_set().contains(p)) by {
                assert(s.recycled.to_set().contains(p)) by {
                    assert(s.recycled[s.recycled.len() - 1] == p);
                }
            }
            assert forall|q: usize| #[trigger] t.free_set().contains(q) implies !t.refs.contains_key(q) by {
                if t.recycled.to_set().contains(q) {
                    let i = choose|i: int| 0 <= i < t.recycled.len() && t.recycled[i] == q;
                    assert(s.recycled[i] == q);
                    assert(s.free_set().contains(q));
                    assert(q != p);
                } else {
                    assert(s.free_set().contains(q));
                    assert(q != p) by {
                        assert(!(s.current <= s.recycled[s.recycled.len() - 1] < s.end));
                    }
                }
            }
            assert(t.recycled.no_duplicates());
        } else if s.current != s.end {
            let p = s.current;
            assert(s.free_set().contains(p));
            assert forall|q: usize| #[trigger] t.free_set().contains(q) implies !t.refs.contains_key(q) by {
                assert(s.free_set().contains(q));
                if t.recycled.to_set().contains(q) {
                    let i = choose|i: int| 0 <= i < t.recycled.len() && t.recycled[i] == q;
                    assert(!(s.current <= s.recycled[i] < s.end));
                }
            }
        }
    }
}


/// Releasing a frame right after it was handed out, by the same owner, gives back the same
/// owner map and the same set of free frames.
pub proof fn lemma_alloc_then_dealloc_restores(s: FrameAllocState, owner: u8)
    requires
        s.wf(),
        s.sound(),
        s.alloc_step(owner).1.is_some(),
    ensures
        ({
            let p = s.alloc_step(owner).1.unwrap();
            let u = s.alloc_step(owner).0.dealloc_step(p, owner);
            &&& u.refs == s.refs
            &&& u.free_set() == s.free_set()
            &&& u.free_count() == s.free_count()
        }),
{
    let (t, r) = s.alloc_step(owner);
    let p = r.unwrap();
    lemma_alloc_keeps_sound(s, owner);
    assert(without_user(seq![owner], owner) =~= Seq::<u8>::empty()) by {
        reveal_with_fuel(Seq::filter, 2);
        assert(seq![owner].drop_last() =~= Seq::<u8>::empty());
    }
    let u = t.dealloc_step(p, owner);
    assert(u.refs =~= s.refs);
    if s.recycled.len() > 0 {
        assert(u.recycled =~= s.recycled);
    } else {
        assert(u.recycled =~= seq![p]);
        assert forall|q: usize| u.free_set().contains(q) <==> s.free_set().contains(q) by {
            if q == p {
                assert(u.recycled[0] == q);
            }
            if u.recycled.to_set().contains(q) {
                let i = choose|i: int| 0 <= i < u.recycled.len() && u.recycled[i] == q;
            }
            if s.recycled.to_set().contains(q) {
                let i = choose|i: int| 0 <= i < s.recycled.len() && s.recycled[i] == q;
            }
        }
        assert(u.free_set() =~= s.free_set());
    }
}

/// Frames are handed out last-released first: after the last owner releases a frame, the next
/// allocation hands out that same frame.
pub proof fn lemma_dealloc_then_alloc_same_frame(s: FrameAllocState, ppn: usize, user: u8, owner: u8)
    requires
        s.wf(),
        s.refs.contains_key(ppn),
        without_user(s.refs[ppn], user).len() == 0,
    ensures
        s.dealloc_step(ppn, user).alloc_step(owner).1 == Some(ppn),
        s.dealloc_step(ppn, user).alloc_step(owner).0.refs == s.refs.insert(ppn, seq![owner]),
        s.dealloc_step(ppn, user).alloc_step(owner).0.free_set() == s.free_set(),
{
    let t = s.dealloc_step(ppn, user);
    assert(t.recycled.last() == ppn);
    assert(t.recycled.drop_last() =~= s.recycled);
    assert(t.alloc_step(owner).0.refs =~= s.refs.insert(ppn, seq![owner]));
}

/// A successful allocation takes exactly one frame from the free count; releasing the last
/// owner of a frame gives exactly one back.
pub proof fn lemma_free_count_changes(s: FrameAllocState, owner: u8, ppn: usize, user: u8)
    requires
        s.wf(),
    ensures
        s.alloc_step(owner).1.is_some() ==> s.alloc_step(owner).0.free_count() == s.free_count() - 1,
        s.refs.contains_key(ppn) && without_user(s.refs[ppn], user).len() == 0
            ==> s.dealloc_step(ppn, user).free_count() == s.free_count() + 1,
        !(s.refs.contains_key(ppn) && without_user(s.refs[ppn], user).len() == 0)
            ==> s.dealloc_step(ppn, user).free_count() == s.free_count(),
{
}


/// While frames remain, `n` allocations leave `n` fewer free frames, hand out only frames that
/// were free, and keep the allocator well formed and sound.
pub proof fn lemma_alloc_times(s: FrameAllocState, n: nat)
    requires
        s.wf(),
        n <= s.free_count(),
    ensures
        alloc_times(s, n).wf(),
        alloc_times(s, n).free_count() == s.free_count() - n,
        s.sound() ==> alloc_times(s, n).sound(),
        forall|q: usize| #[trigger] alloc_times(s, n).free_set().contains(q) ==> s.free_set().contains(q),
    decreases n,
{
    if n > 0 {
        lemma_alloc_times(s, (n - 1) as nat);
        let t = alloc_times(s, (n - 1) as nat);
        lemma_alloc_keeps_sound(t, 0);
        lemma_free_count_changes(t, 0, 0, 0);
        assert forall|q: usize| #[trigger] alloc_times(s, n).free_set().contains(q) implies s.free_set().contains(q) by {
            assert(t.free_set().contains(q));
        }
    }
}


/// A sound allocator never hands out a frame in use: the frame of a second allocation differs
/// from that of the first, whatever the owners.
pub proof fn lemma_allocs_distinct(s: FrameAllocState, o1: u8, o2: u8)
    requires
        s.wf(),
        s.sound(),
        s.alloc_step(o1).1.is_some(),
        s.alloc_step(o1).0.alloc_step(o2).1.is_some(),
    ensures
        s.alloc_step(o1).0.alloc_step(o2).1.unwrap() != s.alloc_step(o1).1.unwrap(),
{
    let t = s.alloc_step(o1).0;
    lemma_alloc_keeps_sound(s, o1);
    lemma_alloc_keeps_sound(t, o2);
}

/// Taking `user` out of an owner list keeps exactly the other owners, in their order: no entry
/// of the result is `user`, an owner other than `user` is in the result exactly when it was in
/// the list, the result is no longer than the list, and a list without `user` is unchanged.
pub proof fn lemma_without_user(o: Seq<u8>, user: u8)
    ensures
        forall|i: int| 0 <= i < without_user(o, user).len() ==> #[trigger] without_user(o, user)[i] != user,
        forall|x: u8| x != user ==> (#[trigger] without_user(o, user).contains(x) <==> o.contains(x)),
        without_user(o, user).len() <= o.len(),
        !o.contains(user) ==> without_user(o, user) == o,
    decreases o.len(),
{
    if o.len() > 0 {
        let p = o.drop_last();
        let wp = without_user(p, user);
        lemma_without_user(p, user);
        let w = without_user(o, user);
        reveal(Seq::filter);
        assert(w == if o.last() != user { wp.push(o.last()) } else { wp });
        assert(o =~= p.push(o.last()));
        assert forall|x: u8| x != user implies (#[trigger] w.contains(x) <==> o.contains(x)) by {
            if o.contains(x) {
                let i = choose|i: int| 0 <= i < o.len() && o[i] == x;
                if i < o.len() - 1 {
                    assert(p[i] == x);
                    assert(wp.contains(x));
                    let j = choose|j: int| 0 <= j < wp.len() && wp[j] == x;
                    if o.last() != user {
                        assert(w[j] == x);
                    }
                } else {
                    assert(o.last() == x);
                    assert(w[w.len() - 1] == x);
                }
            }
            if w.contains(x) {
                let j = choose|j: int| 0 <= j < w.len() && w[j] == x;
                if j < wp.len() {
                    assert(wp[j] == x);
                    assert(wp.contains(x));
                    assert(p.contains(x));
                    let i = choose|i: int| 0 <= i < p.len() && p[i] == x;
                    assert(o[i] == x);
                } else {
                    assert(o[o.len() - 1] == x);
                }
            }
        }
        if !o.contains(user) {
            assert(!p.contains(user)) by {
                if p.contains(user) {
                    let i = choose|i: int| 0 <= i < p.len() && p[i] == user;
                    assert(o[i] == user);
                }
            }
            assert(o[o.len() - 1] == o.last());
        }
    }
}

/// Releasing `user`'s share of a frame: the frame's owners become its former owners other
/// than `user`, in order. When none is left the frame is no longer in use and goes on top of
/// the recycled stack. When exactly two are left and the first is the shared mark 0, the mark
/// is dropped and the other owner alone remains; otherwise the remaining list is kept as it
/// is, so a frame still shared by two or more owners keeps its leading mark. Other frames, and
/// frames not in use, are untouched.
pub proof fn lemma_dealloc_owners(s: FrameAllocState, ppn: usize, user: u8)
    requires
        s.wf(),
    ensures
        !s.refs.contains_key(ppn) ==> s.dealloc_step(ppn, user) == s,
        s.refs.contains_key(ppn) ==> ({
            let kept = without_user(s.refs[ppn], user);
            let t = s.dealloc_step(ppn, user);
            &&& t.current == s.current && t.end == s.end
            &&& kept.len() == 0 ==> !t.refs.contains_key(ppn) && t.recycled == s.recycled.push(ppn)
            &&& kept.len() > 0 ==> t.refs.contains_key(ppn) && t.recycled == s.recycled
            &&& kept.len() == 2 && kept[0] == 0 ==> t.refs[ppn] == seq![kept[1]]
            &&& kept.len() > 0 && !(kept.len() == 2 && kept[0] == 0) ==> t.refs[ppn] == kept
            &&& kept.len() >= 3 && kept[0] == 0 ==> t.refs[ppn][0] == 0 && t.refs[ppn].len() == kept.len()
            &&& forall|q: usize|
                q != ppn ==> (#[trigger] t.refs.contains_key(q) == s.refs.contains_key(q)) && (
                s.refs.contains_key(q) ==> t.refs[q] == s.refs[q])
        }),
{
    if s.refs.contains_key(ppn) {
        let kept = without_user(s.refs[ppn], user);
        if kept.len() == 2 && kept[0] == 0 {
            assert(kept.subrange(1, 2) =~= seq![kept[1]]);
        }
    }
}

/// Sharing a frame: on a frame already marked shared (first owner 0) `dst` is added at the
/// end; on an unshared frame whose first owner is `src`, the mark 0 is put in front and `dst`
/// added at the end; on an unshared frame whose first owner is not `src` the request is
/// refused and nothing changes. Other frames, the free frames and frames not in use are
/// untouched.
pub proof fn lemma_fork_owners(s: FrameAllocState, ppn: usize, src: u8, dst: u8)
    requires
        s.wf(),
    ensures
        !s.refs.contains_key(ppn) ==> s.fork_step(ppn, src, dst) == s,
        s.refs.contains_key(ppn) ==> ({
            let o = s.refs[ppn];
            let t = s.fork_step(ppn, src, dst);
            &&& t.current == s.current && t.end == s.end && t.recycled == s.recycled
            &&& t.refs.contains_key(ppn)
            &&& o[0] == 0 ==> t.refs[ppn] == o.push(dst)
            &&& o[0] != 0 && o[0] == src ==> t.refs[ppn] == seq![0u8] + o + seq![dst]
            &&& o[0] != 0 && o[0] != src ==> t.refs[ppn] == o
            &&& forall|q: usize|
                q != ppn ==> (#[trigger] t.refs.contains_key(q) == s.refs.contains_key(q)) && (
                s.refs.contains_key(q) ==> t.refs[q] == s.refs[q])
        }),
{
    if s.refs.contains_key(ppn) {
        let o = s.refs[ppn];
        if o[0] != 0 && o[0] == src {
            assert(seq![0u8].add(o).push(dst) =~= seq![0u8] + o + seq![dst]);
        }
    }
}

/// What an owner query reports: a list of exactly two owners headed by the shared mark 0 is
/// reported (and kept) as its second owner alone; any other list is reported as it is.
pub proof fn lemma_collapse_owners(o: Seq<u8>)
    ensures
        o.len() == 2 && o[0] == 0 ==> collapse_owners(o) == seq![o[1]],
        !(o.len() == 2 && o[0] == 0) ==> collapse_owners(o) == o,
{
    if o.len() == 2 && o[0] == 0 {
        assert(o.subrange(1, 2) =~= seq![o[1]]);
    }
}

/// Handing out a frame: the most recently recycled frame if there is one, else the first
/// frame of the fresh range, which then starts one frame later, else nothing when both are
/// empty. The frame handed out has `owner` as its only owner; every other frame keeps its
/// owners.
pub proof fn lemma_alloc_frame_choice(s: FrameAllocState, owner: u8)
    requires
        s.wf(),
    ensures
        s.recycled.len() > 0 ==> s.alloc_step(owner).1 == Some(s.recycled.last()) && s.alloc_step(owner).0.recycled
            == s.recycled.drop_last() && s.alloc_step(owner).0.current == s.current,
        s.recycled.len() == 0 && s.current < s.end ==> s.alloc_step(owner).1 == Some(s.current)
            && s.alloc_step(owner).0.current == s.current + 1 && s.alloc_step(owner).0.recycled == s.recycled,
        s.recycled.len() == 0 && s.current == s.end ==> s.alloc_step(owner).1 is None && s.alloc_step(owner).0
            == s,
        s.alloc_step(owner).0.end == s.end,
        s.alloc_step(owner).1 matches Some(p) ==> s.alloc_step(owner).0.refs == s.refs.insert(p, seq![owner]),
{
}

/// The outer allocator takes its range once: before its first frame (fresh range starting at
/// 0) it is given the whole pages inside `[start, end)`, keeping its recycled frames and
/// owners; afterwards the configured range is not looked at again.
pub proof fn lemma_outer_ready(s: FrameAllocState, start: usize, end: usize)
    ensures
        s.current == 0 ==> outer_ready(s, start, end).current == crate::address::page_ceil(start as int)
            && outer_ready(s, start, end).end == crate::address::page_floor(end as int) && outer_ready(s, start, end).recycled
            == s.recycled && outer_ready(s, start, end).refs == s.refs,
        s.current != 0 ==> outer_ready(s, start, end) == s,
{
}

} // verus!
