use vstd::prelude::*;
use crate::address::{vpn_index, InnerPhysPageNum, VirtPageNum};
use crate::flags::{PTEFlags, PTE_V};
use crate::frame_allocator::{
    FrameAllocState, StackFrameAllocator, alloc_times, backs, frame_alloc, lemma_alloc_keeps_sound,
};
use crate::phys_mem::{PhysMem, PhysMemView, MAX_PPN_EXCLUSIVE, lemma_slot};
use crate::pte::{PageTableEntry, pte_bits, pte_flags_readable, pte_has, pte_ppn, lemma_pte_new_roundtrip};

verus! {

/// Whether the entry bits `e` are valid.
pub open spec fn pte_valid(e: u64) -> bool {
    pte_has(e, PTE_V)
}

/// The frame an entry points at.
pub open spec fn child(e: u64) -> usize {
    pte_ppn(e) as usize
}

/// Index used at `level` (0 is the root) when translating `vpn`.
pub open spec fn idx(vpn: usize, level: int) -> int {
    vpn_index(vpn as int, level)
}

/// Frame visited at `level` when translating `vpn` from the root frame `root`.
pub open spec fn walk_frame(m: PhysMemView, root: usize, vpn: usize, level: int) -> usize {
    if level <= 0 {
        root
    } else if level == 1 {
        child(m.entry(root, idx(vpn, 0)))
    } else {
        child(m.entry(child(m.entry(root, idx(vpn, 0))), idx(vpn, 1)))
    }
}

/// Entry read at `level` when translating `vpn`.
pub open spec fn walk_entry(m: PhysMemView, root: usize, vpn: usize, level: int) -> u64 {
    m.entry(walk_frame(m, root, vpn, level), idx(vpn, level))
}

/// Whether the entries of the first `level` levels of the walk for `vpn` are valid.
pub open spec fn walk_ok(m: PhysMemView, root: usize, vpn: usize, level: int) -> bool {
    &&& (level <= 0 || pte_valid(walk_entry(m, root, vpn, 0)))
    &&& (level <= 1 || pte_valid(walk_entry(m, root, vpn, 1)))
    &&& (level <= 2 || pte_valid(walk_entry(m, root, vpn, 2)))
}

/// The valid leaf entry that maps `vpn`, if any.
pub open spec fn lookup(m: PhysMemView, root: usize, vpn: usize) -> Option<u64> {
    if walk_ok(m, root, vpn, 3) {
        Some(walk_entry(m, root, vpn, 2))
    } else {
        None
    }
}

/// The leaf entry for `vpn` once the directories on its path exist: the current leaf if they
/// exist already, else the zero entry of a fresh frame.
pub open spec fn leaf_or_zero(m: PhysMemView, root: usize, vpn: usize) -> u64 {
    if walk_ok(m, root, vpn, 2) {
        walk_entry(m, root, vpn, 2)
    } else {
        0
    }
}

/// Number of directory frames that must be created before `vpn` has a leaf slot.
pub open spec fn missing_dirs(m: PhysMemView, root: usize, vpn: usize) -> nat {
    if !walk_ok(m, root, vpn, 1) {
        2
    } else if !walk_ok(m, root, vpn, 2) {
        1
    } else {
        0
    }
}

/// Whether `a` and `b` use the same slot at every level.
pub open spec fn same_slot(a: usize, b: usize) -> bool {
    &&& idx(a, 0) == idx(b, 0)
    &&& idx(a, 1) == idx(b, 1)
    &&& idx(a, 2) == idx(b, 2)
}

/// Shape of the table rooted at `root`: `layout` gives each directory frame its level and the
/// indexes that lead to it; the root is at level 0, every valid root entry points at a level-1
/// frame of its index, and every valid entry of a level-1 frame points at a level-2 frame of
/// its two indexes. Since `layout` is a function, no frame serves two positions.
pub open spec fn table_inv(m: PhysMemView, root: usize, layout: Map<usize, (int, int, int)>) -> bool {
    &&& m.wf()
    &&& layout.contains_key(root)
    &&& layout[root] == (0int, 0int, 0int)
    &&& forall|f: usize| #[trigger] layout.contains_key(f) ==> m.holds(f)
    &&& forall|f: usize, i: int|
        layout.contains_key(f) && 0 <= i < 512 && layout[f].0 == 0 && pte_valid(
            #[trigger] m.entry(f, i),
        ) ==> layout.contains_key(child(m.entry(f, i))) && layout[child(m.entry(f, i))] == (
            1int,
            i,
            0int,
        )
    &&& forall|f: usize, i: int|
        layout.contains_key(f) && 0 <= i < 512 && layout[f].0 == 1 && pte_valid(
            #[trigger] m.entry(f, i),
        ) ==> layout.contains_key(child(m.entry(f, i))) && layout[child(m.entry(f, i))] == (
            2int,
            layout[f].1,
            i,
        )
}

/// Indexes are below 512.
pub proof fn lemma_idx_bounds(vpn: usize)
    ensures
        0 <= idx(vpn, 0) < 512,
        0 <= idx(vpn, 1) < 512,
        0 <= idx(vpn, 2) < 512,
{
}

/// The frames visited by a walk are directory frames of the table, at the level and position
/// the walk reaches them.
pub proof fn lemma_walk_layout(m: PhysMemView, root: usize, layout: Map<usize, (int, int, int)>, vpn: usize)
    requires
        table_inv(m, root, layout),
    ensures
        walk_frame(m, root, vpn, 0) == root,
        walk_ok(m, root, vpn, 1) ==> layout.contains_key(walk_frame(m, root, vpn, 1))
            && layout[walk_frame(m, root, vpn, 1)] == (1int, idx(vpn, 0), 0int),
        walk_ok(m, root, vpn, 2) ==> layout.contains_key(walk_frame(m, root, vpn, 2))
            && layout[walk_frame(m, root, vpn, 2)] == (2int, idx(vpn, 0), idx(vpn, 1)),
{
    lemma_idx_bounds(vpn);
    if walk_ok(m, root, vpn, 1) {
        let e0 = m.entry(root, idx(vpn, 0));
        assert(pte_valid(e0));
        let f1 = walk_frame(m, root, vpn, 1);
        assert(layout.contains_key(f1));
        if walk_ok(m, root, vpn, 2) {
            let e1 = m.entry(f1, idx(vpn, 1));
            assert(pte_valid(e1));
        }
    }
}

/// If two memories agree on every entry of the directory frames, the table has the same shape
/// in both and every translation is the same.
pub proof fn lemma_same_dirs(
    m: PhysMemView,
    m2: PhysMemView,
    root: usize,
    layout: Map<usize, (int, int, int)>,
)
    requires
        table_inv(m, root, layout),
        m2.wf(),
        m2.base == m.base,
        m2.words.len() == m.words.len(),
        forall|f: usize, i: int|
            layout.contains_key(f) && 0 <= i < 512 ==> #[trigger] m2.entry(f, i) == m.entry(f, i),
    ensures
        table_inv(m2, root, layout),
        forall|v: usize| #[trigger] lookup(m2, root, v) == lookup(m, root, v),
        forall|v: usize| #[trigger] leaf_or_zero(m2, root, v) == leaf_or_zero(m, root, v),
        forall|v: usize| #[trigger] missing_dirs(m2, root, v) == missing_dirs(m, root, v),
        forall|v: usize, l: int| 0 <= l <= 3 ==> #[trigger] walk_ok(m2, root, v, l) == walk_ok(m, root, v, l),
{
    assert forall|f: usize, i: int|
        layout.contains_key(f) && 0 <= i < 512 && layout[f].0 == 0 && pte_valid(#[trigger] m2.entry(f, i))
        implies layout.contains_key(child(m2.entry(f, i))) && layout[child(m2.entry(f, i))] == (1int, i, 0int) by {
        assert(m2.entry(f, i) == m.entry(f, i));
    }
    assert forall|f: usize, i: int|
        layout.contains_key(f) && 0 <= i < 512 && layout[f].0 == 1 && pte_valid(#[trigger] m2.entry(f, i))
        implies layout.contains_key(child(m2.entry(f, i))) && layout[child(m2.entry(f, i))] == (2int, layout[f].1, i) by {
        assert(m2.entry(f, i) == m.entry(f, i));
    }
    assert forall|v: usize| #[trigger] walk_ok(m2, root, v, 3) == walk_ok(m, root, v, 3) && walk_ok(m2, root, v, 2)
        == walk_ok(m, root, v, 2) && walk_ok(m2, root, v, 1) == walk_ok(m, root, v, 1)
        && (walk_ok(m, root, v, 2) ==> walk_entry(m2, root, v, 2) == walk_entry(m, root, v, 2)) by {
        lemma_walk_layout(m, root, layout, v);
        lemma_idx_bounds(v);
        assert(m2.entry(root, idx(v, 0)) == m.entry(root, idx(v, 0)));
        if walk_ok(m, root, v, 1) {
            let f1 = walk_frame(m, root, v, 1);
            assert(m2.entry(f1, idx(v, 1)) == m.entry(f1, idx(v, 1)));
            if walk_ok(m, root, v, 2) {
                let f2 = walk_frame(m, root, v, 2);
                assert(m2.entry(f2, idx(v, 2)) == m.entry(f2, idx(v, 2)));
            }
        }
    }
    assert forall|v: usize, l: int| 0 <= l <= 3 implies #[trigger] walk_ok(m2, root, v, l) == walk_ok(m, root, v, l) by {
        assert(walk_ok(m2, root, v, 3) == walk_ok(m, root, v, 3));
    }
    assert forall|v: usize| #[trigger] lookup(m2, root, v) == lookup(m, root, v) by {
        assert(walk_ok(m2, root, v, 3) == walk_ok(m, root, v, 3));
    }
    assert forall|v: usize| #[trigger] leaf_or_zero(m2, root, v) == leaf_or_zero(m, root, v) by {
        assert(walk_ok(m2, root, v, 3) == walk_ok(m, root, v, 3));
    }
    assert forall|v: usize| #[trigger] missing_dirs(m2, root, v) == missing_dirs(m, root, v) by {
        assert(walk_ok(m2, root, v, 3) == walk_ok(m, root, v, 3));
    }
}


/// Entries of a memory after one write: only the written entry changes.
pub proof fn lemma_write_entries(m: PhysMemView, p: usize, i: int, v: u64)
    requires
        m.wf(),
        m.holds(p),
        0 <= i < 512,
    ensures
        forall|q: usize, j: int|
            m.holds(q) && 0 <= j < 512 ==> #[trigger] m.write(p, i, v).entry(q, j) == if q == p && j
                == i {
                v
            } else {
                m.entry(q, j)
            },
        m.write(p, i, v).base == m.base,
        m.write(p, i, v).words.len() == m.words.len(),
        pte_flags_readable(v) ==> m.write(p, i, v).wf(),
{
    assert forall|q: usize, j: int| m.holds(q) && 0 <= j < 512 implies #[trigger] m.write(p, i, v).entry(q, j)
        == if q == p && j == i {
        v
    } else {
        m.entry(q, j)
    } by {
        lemma_slot(m, p, i, q, j);
    }
    let m2 = m.write(p, i, v);
    if pte_flags_readable(v) {
        lemma_slot(m, p, i, p, i);
        assert forall|k: int| 0 <= k < m2.words.len() implies pte_flags_readable(#[trigger] m2.words[k]) by {
            if k != m.slot(p, i) {
                assert(m2.words[k] == m.words[k]);
            }
        }
    }
}

/// Writing the leaf slot of `vpn` (whose directories exist) changes the translation of `vpn`
/// only: every page with another slot translates as before, and the table keeps its shape.
pub proof fn lemma_write_leaf(
    m: PhysMemView,
    root: usize,
    layout: Map<usize, (int, int, int)>,
    vpn: usize,
    v: u64,
)
    requires
        table_inv(m, root, layout),
        walk_ok(m, root, vpn, 2),
        pte_flags_readable(v),
    ensures
        ({
            let m2 = m.write(walk_frame(m, root, vpn, 2), idx(vpn, 2), v);
            &&& table_inv(m2, root, layout)
            &&& walk_ok(m2, root, vpn, 2)
            &&& walk_frame(m2, root, vpn, 2) == walk_frame(m, root, vpn, 2)
            &&& walk_entry(m2, root, vpn, 2) == v
            &&& lookup(m2, root, vpn) == if pte_valid(v) {
                Some(v)
            } else {
                None::<u64>
            }
            &&& forall|w: usize| !same_slot(w, vpn) ==> #[trigger] lookup(m2, root, w) == lookup(m, root, w)
            &&& forall|w: usize| !same_slot(w, vpn) ==> #[trigger] leaf_or_zero(m2, root, w) == leaf_or_zero(m, root, w)
        }),
{
    lemma_walk_layout(m, root, layout, vpn);
    lemma_idx_bounds(vpn);
    let f2 = walk_frame(m, root, vpn, 2);
    let i2 = idx(vpn, 2);
    let m2 = m.write(f2, i2, v);
    lemma_write_entries(m, f2, i2, v);
    assert forall|f: usize, i: int|
        layout.contains_key(f) && 0 <= i < 512 && layout[f].0 != 2 implies #[trigger] m2.entry(f, i) == m.entry(f, i) by {
    }
    assert forall|f: usize, i: int|
        layout.contains_key(f) && 0 <= i < 512 && layout[f].0 == 0 && pte_valid(#[trigger] m2.entry(f, i))
        implies layout.contains_key(child(m2.entry(f, i))) && layout[child(m2.entry(f, i))] == (1int, i, 0int) by {
        assert(m2.entry(f, i) == m.entry(f, i));
    }
    assert forall|f: usize, i: int|
        layout.contains_key(f) && 0 <= i < 512 && layout[f].0 == 1 && pte_valid(#[trigger] m2.entry(f, i))
        implies layout.contains_key(child(m2.entry(f, i))) && layout[child(m2.entry(f, i))] == (2int, layout[f].1, i) by {
        assert(m2.entry(f, i) == m.entry(f, i));
    }
    assert(table_inv(m2, root, layout));
    assert(m2.entry(root, idx(vpn, 0)) == m.entry(root, idx(vpn, 0)));
    let f1 = walk_frame(m, root, vpn, 1);
    assert(m2.entry(f1, idx(vpn, 1)) == m.entry(f1, idx(vpn, 1)));
    assert(walk_entry(m2, root, vpn, 2) == v);
    assert forall|w: usize| !same_slot(w, vpn) implies #[trigger] lookup(m2, root, w) == lookup(m, root, w)
        && leaf_or_zero(m2, root, w) == leaf_or_zero(m, root, w) by {
        lemma_walk_layout(m, root, layout, w);
        lemma_idx_bounds(w);
        assert(m2.entry(root, idx(w, 0)) == m.entry(root, idx(w, 0)));
        if walk_ok(m, root, w, 1) {
            let g1 = walk_frame(m, root, w, 1);
            assert(m2.entry(g1, idx(w, 1)) == m.entry(g1, idx(w, 1)));
            if walk_ok(m, root, w, 2) {
                let g2 = walk_frame(m, root, w, 2);
                assert(m2.entry(g2, idx(w, 2)) == m.entry(g2, idx(w, 2)));
            }
        }
    }
}

/// Entry bits that point at frame `f` of the region with only the valid flag: they are valid,
/// point at `f`, and have readable flags.
pub proof fn lemma_dir_entry(m: PhysMemView, f: usize)
    requires
        m.wf(),
        m.holds(f),
    ensures
        pte_valid(pte_bits(f, PTE_V)),
        child(pte_bits(f, PTE_V)) == f,
        pte_flags_readable(pte_bits(f, PTE_V)),
{
    assert(PTE_V & !crate::flags::PTE_ALL == 0) by (bit_vector);
    assert((f as u64) < MAX_PPN_EXCLUSIVE);
    lemma_pte_new_roundtrip(f, PTE_V);
    let p = f as u64;
    assert(((p << 10) | (PTE_V as u64)) & (PTE_V as u64) != 0) by (bit_vector);
}

/// Linking a fresh zeroed frame `f` below the invalid entry of `vpn`'s walk at `level` keeps the
/// shape of the table (with `f` as a new directory) and every translation, and makes the walk of
/// `vpn` reach `f`.
pub proof fn lemma_link_table(
    m: PhysMemView,
    m1: PhysMemView,
    root: usize,
    layout: Map<usize, (int, int, int)>,
    vpn: usize,
    level: int,
    f: usize,
)
    requires
        table_inv(m, root, layout),
        0 <= level <= 1,
        walk_ok(m, root, vpn, level),
        !pte_valid(walk_entry(m, root, vpn, level)),
        !layout.contains_key(f),
        m.holds(f),
        m1.wf(),
        m1.base == m.base,
        m1.words.len() == m.words.len(),
        m1.frame_is_zero(f),
        forall|q: usize, j: int|
            q != f && m.holds(q) && 0 <= j < 512 ==> #[trigger] m1.entry(q, j) == m.entry(q, j),
    ensures
        ({
            let p = walk_frame(m, root, vpn, level);
            let m2 = m1.write(p, idx(vpn, level), pte_bits(f, PTE_V));
            let layout2 = layout.insert(
                f,
                (level + 1, idx(vpn, 0), if level == 0 {
                    0int
                } else {
                    idx(vpn, 1)
                }),
            );
            &&& m1.holds(p)
            &&& table_inv(m2, root, layout2)
            &&& forall|w: usize| #[trigger] lookup(m2, root, w) == lookup(m, root, w)
            &&& forall|w: usize| #[trigger] leaf_or_zero(m2, root, w) == leaf_or_zero(m, root, w)
            &&& walk_ok(m2, root, vpn, level + 1)
            &&& walk_frame(m2, root, vpn, level + 1) == f
            &&& missing_dirs(m2, root, vpn) + 1 == missing_dirs(m, root, vpn)
        }),
{
    lemma_walk_layout(m, root, layout, vpn);
    lemma_idx_bounds(vpn);
    assert forall|q: usize, j: int| layout.contains_key(q) && 0 <= j < 512 implies #[trigger] m1.entry(q, j)
        == m.entry(q, j) by {
    }
    lemma_same_dirs(m, m1, root, layout);
    let p = walk_frame(m, root, vpn, level);
    let i = idx(vpn, level);
    let e = pte_bits(f, PTE_V);
    lemma_dir_entry(m, f);
    let m2 = m1.write(p, i, e);
    lemma_write_entries(m1, p, i, e);
    let layout2 = layout.insert(
        f,
        (level + 1, idx(vpn, 0), if level == 0 {
            0int
        } else {
            idx(vpn, 1)
        }),
    );
    assert(layout.contains_key(p));
    assert(p != f);
    // entries of m2 at frames of the old layout, other than the written one, are those of m
    assert forall|q: usize, j: int|
        layout.contains_key(q) && 0 <= j < 512 && !(q == p && j == i) implies #[trigger] m2.entry(q, j)
        == m.entry(q, j) by {
    }
    assert forall|j: int| 0 <= j < 512 implies #[trigger] m2.entry(f, j) == 0 by {
        assert(m1.entry(f, j) == 0);
    }
    // shape
    assert forall|g: usize| #[trigger] layout2.contains_key(g) implies m2.holds(g) by {
    }
    assert forall|g: usize, j: int|
        layout2.contains_key(g) && 0 <= j < 512 && layout2[g].0 == 0 && pte_valid(#[trigger] m2.entry(g, j))
        implies layout2.contains_key(child(m2.entry(g, j))) && layout2[child(m2.entry(g, j))] == (1int, j, 0int) by {
        if g == f {
            assert(m2.entry(f, j) == 0);
            assert(0u64 & (PTE_V as u64) == 0) by (bit_vector);
        } else if g == p && j == i {
        } else {
            assert(m2.entry(g, j) == m.entry(g, j));
        }
    }
    assert forall|g: usize, j: int|
        layout2.contains_key(g) && 0 <= j < 512 && layout2[g].0 == 1 && pte_valid(#[trigger] m2.entry(g, j))
        implies layout2.contains_key(child(m2.entry(g, j))) && layout2[child(m2.entry(g, j))] == (2int, layout2[g].1, j) by {
        if g == f {
            assert(m2.entry(f, j) == 0);
            assert(0u64 & (PTE_V as u64) == 0) by (bit_vector);
        } else if g == p && j == i {
        } else {
            assert(m2.entry(g, j) == m.entry(g, j));
        }
    }
    assert(table_inv(m2, root, layout2));
    // the walk of vpn now reaches f
    assert(m2.entry(p, i) == e);
    if level == 1 {
        assert(m2.entry(root, idx(vpn, 0)) == m.entry(root, idx(vpn, 0)));
    }
    assert(walk_frame(m2, root, vpn, level + 1) == f);
    assert(walk_ok(m2, root, vpn, level + 1));
    if level == 0 {
        assert(m2.entry(f, idx(vpn, 1)) == 0);
        assert(0u64 & (PTE_V as u64) == 0) by (bit_vector);
    }
    // every translation is unchanged
    assert forall|w: usize| #[trigger] lookup(m2, root, w) == lookup(m, root, w) && leaf_or_zero(m2, root, w)
        == leaf_or_zero(m, root, w) by {
        lemma_walk_layout(m, root, layout, w);
        lemma_idx_bounds(w);
        assert(0u64 & (PTE_V as u64) == 0) by (bit_vector);
        if level == 0 {
            if idx(w, 0) == i {
                assert(m2.entry(root, idx(w, 0)) == e);
                assert(walk_frame(m2, root, w, 1) == f);
                assert(m2.entry(f, idx(w, 1)) == 0);
            } else {
                assert(m2.entry(root, idx(w, 0)) == m.entry(root, idx(w, 0)));
                if walk_ok(m, root, w, 1) {
                    let g1 = walk_frame(m, root, w, 1);
                    assert(m2.entry(g1, idx(w, 1)) == m.entry(g1, idx(w, 1)));
                    if walk_ok(m, root, w, 2) {
                        let g2 = walk_frame(m, root, w, 2);
                        assert(m2.entry(g2, idx(w, 2)) == m.entry(g2, idx(w, 2)));
                    }
                }
            }
        } else {
            assert(m2.entry(root, idx(w, 0)) == m.entry(root, idx(w, 0)));
            if walk_ok(m, root, w, 1) {
                let g1 = walk_frame(m, root, w, 1);
                if g1 == p && idx(w, 1) == i {
                    assert(m2.entry(g1, idx(w, 1)) == e);
                    assert(walk_frame(m2, root, w, 2) == f);
                    assert(m2.entry(f, idx(w, 2)) == 0);
                } else {
                    assert(m2.entry(g1, idx(w, 1)) == m.entry(g1, idx(w, 1)));
                    if walk_ok(m, root, w, 2) {
                        let g2 = walk_frame(m, root, w, 2);
                        assert(m2.entry(g2, idx(w, 2)) == m.entry(g2, idx(w, 2)));
                    }
                }
            }
        }
    }
}


/// Entries of `m` after root entries `i1` and `i2` of table `r` are set to those of table `k`.
pub open spec fn shared_roots(m: PhysMemView, r: usize, k: usize, i1: int, i2: int) -> PhysMemView {
    m.write(r, i1, m.entry(k, i1)).write(r, i2, m.entry(k, i2))
}

/// After two root entries of table `r` are set to those of table `k` (which owns none of `r`'s
/// frames), `r` translates the pages under those entries as `k` does, translates every other
/// page as before, and `k` keeps its shape and translations.
pub proof fn lemma_shared_roots(
    m: PhysMemView,
    r: usize,
    ls: Map<usize, (int, int, int)>,
    k: usize,
    lk: Map<usize, (int, int, int)>,
    i1: int,
    i2: int,
)
    requires
        table_inv(m, r, ls),
        table_inv(m, k, lk),
        !lk.contains_key(r),
        0 <= i1 < 512,
        0 <= i2 < 512,
    ensures
        shared_roots(m, r, k, i1, i2).wf(),
        shared_roots(m, r, k, i1, i2).base == m.base,
        shared_roots(m, r, k, i1, i2).words.len() == m.words.len(),
        table_inv(shared_roots(m, r, k, i1, i2), k, lk),
        forall|w: usize| #[trigger] lookup(shared_roots(m, r, k, i1, i2), k, w) == lookup(m, k, w),
        forall|w: usize|
            (idx(w, 0) == i1 || idx(w, 0) == i2) ==> #[trigger] lookup(shared_roots(m, r, k, i1, i2), r, w)
                == lookup(m, k, w),
        forall|w: usize|
            !(idx(w, 0) == i1 || idx(w, 0) == i2) ==> #[trigger] lookup(shared_roots(m, r, k, i1, i2), r, w)
                == lookup(m, r, w),
{
    let e1 = m.entry(k, i1);
    let e2 = m.entry(k, i2);
    let m2 = m.write(r, i1, e1);
    let m3 = m2.write(r, i2, e2);
    assert(m.holds(r) && m.holds(k));
    lemma_slot(m, k, i1, k, i1);
    lemma_slot(m, k, i2, k, i2);
    assert(pte_flags_readable(e1));
    assert(pte_flags_readable(e2));
    lemma_write_entries(m, r, i1, e1);
    lemma_write_entries(m2, r, i2, e2);
    // entries of m3
    assert forall|q: usize, j: int| m.holds(q) && 0 <= j < 512 implies #[trigger] m3.entry(q, j) == if q == r
        && (j == i1 || j == i2) {
        m.entry(k, j)
    } else {
        m.entry(q, j)
    } by {}
    lemma_same_dirs(m, m3, k, lk);
    assert forall|w: usize| (idx(w, 0) == i1 || idx(w, 0) == i2) implies #[trigger] lookup(m3, r, w) == lookup(m, k, w) by {
        lemma_idx_bounds(w);
        lemma_walk_layout(m, k, lk, w);
        assert(m3.entry(r, idx(w, 0)) == m.entry(k, idx(w, 0)));
        if walk_ok(m, k, w, 1) {
            let f1 = walk_frame(m, k, w, 1);
            assert(f1 != r);
            assert(m3.entry(f1, idx(w, 1)) == m.entry(f1, idx(w, 1)));
            if walk_ok(m, k, w, 2) {
                let f2 = walk_frame(m, k, w, 2);
                assert(f2 != r);
                assert(m3.entry(f2, idx(w, 2)) == m.entry(f2, idx(w, 2)));
            }
        }
    }
    assert forall|w: usize| !(idx(w, 0) == i1 || idx(w, 0) == i2) implies #[trigger] lookup(m3, r, w) == lookup(m, r, w) by {
        lemma_idx_bounds(w);
        lemma_walk_layout(m, r, ls, w);
        assert(m3.entry(r, idx(w, 0)) == m.entry(r, idx(w, 0)));
        if walk_ok(m, r, w, 1) {
            let f1 = walk_frame(m, r, w, 1);
            assert(ls[f1].0 == 1);
            assert(f1 != r);
            assert(m3.entry(f1, idx(w, 1)) == m.entry(f1, idx(w, 1)));
            if walk_ok(m, r, w, 2) {
                let f2 = walk_frame(m, r, w, 2);
                assert(f2 != r);
                assert(m3.entry(f2, idx(w, 2)) == m.entry(f2, idx(w, 2)));
            }
        }
    }
}

/// A page table: its address-space id, its root frame, and the directory frames it created
/// below the root.
pub struct PageTableRecord {
    pub pt_id: usize,
    pub root_ppn: InnerPhysPageNum,
    frames: Vec<InnerPhysPageNum>,
    layout: Ghost<Map<usize, (int, int, int)>>,
}

impl PageTableRecord {
    /// The root frame of the table.
    pub closed spec fn root(&self) -> usize {
        self.root_ppn.0
    }

    /// The address-space id of the table.
    pub closed spec fn space_id(&self) -> usize {
        self.pt_id
    }

    /// The directory frames of the table: the root and the frames it created.
    pub closed spec fn dirs(&self) -> Set<usize> {
        self.layout@.dom()
    }

    /// The frames the table created below its root, in creation order.
    pub closed spec fn frame_list(&self) -> Seq<usize> {
        self.frames@.map_values(|p: InnerPhysPageNum| p.0)
    }

    /// The table has a well-formed shape in `m`, and its created frames are exactly its
    /// directories other than the root, each listed once.
    pub closed spec fn wf(&self, m: PhysMemView) -> bool {
        &&& table_inv(m, self.root_ppn.0, self.layout@)
        &&& self.frame_list().no_duplicates()
        &&& forall|q: usize| #[trigger] self.dirs().contains(q) <==> (q == self.root_ppn.0
            || self.frame_list().contains(q))
        &&& !self.frame_list().contains(self.root_ppn.0)
    }

    /// The allocator is sound, hands out only frames of `m`, and counts every directory of the
    /// table as in use.
    pub open spec fn backed_by(&self, a: FrameAllocState, m: PhysMemView) -> bool {
        &&& a.wf()
        &&& a.sound()
        &&& backs(a, m)
        &&& forall|q: usize| #[trigger] self.dirs().contains(q) ==> a.refs.contains_key(q)
    }

    /// The valid leaf entry that maps `vpn`, if any.
    pub open spec fn translation(&self, m: PhysMemView, vpn: usize) -> Option<u64> {
        lookup(m, self.root(), vpn)
    }

    /// Whether the directories on the path of `vpn` exist.
    pub open spec fn has_leaf_slot(&self, m: PhysMemView, vpn: usize) -> bool {
        walk_ok(m, self.root(), vpn, 2)
    }

    /// The leaf entry of `vpn`, or zero if its directories do not exist yet.
    pub open spec fn leaf(&self, m: PhysMemView, vpn: usize) -> u64 {
        leaf_or_zero(m, self.root(), vpn)
    }

    /// What a table operation that may create directories guarantees: the new table is well
    /// formed and backed, the allocator made exactly the needed allocations, every frame that is
    /// not a directory of the new table is untouched, and new directories were free frames.
    pub open spec fn grows_to(
        &self,
        m: PhysMemView,
        a: FrameAllocState,
        new: PageTableRecord,
        m2: PhysMemView,
        a2: FrameAllocState,
        vpn: usize,
    ) -> bool {
        &&& new.wf(m2)
        &&& new.backed_by(a2, m2)
        &&& new.space_id() == self.space_id()
        &&& new.root() == self.root()
        &&& a2 == alloc_times(a, missing_dirs(m, self.root(), vpn))
        &&& m2.base == m.base
        &&& m2.words.len() == m.words.len()
        &&& forall|q: usize| #[trigger] self.dirs().contains(q) ==> new.dirs().contains(q)
        &&& forall|q: usize| #[trigger] new.dirs().contains(q) && !self.dirs().contains(q) ==> a.free_set().contains(q)
        &&& forall|q: usize, j: int|
            m.holds(q) && !new.dirs().contains(q) && 0 <= j < 512 ==> #[trigger] m2.entry(q, j)
                == m.entry(q, j)
    }

    /// The address-space id of the table.
    pub fn id(&self) -> (r: usize)
        ensures
            r == self.space_id(),
    {
        self.pt_id
    }

    /// The satp value that activates this table: Sv39 mode, the id as ASID, the root frame.
    pub fn token(&self) -> (r: u64)
        ensures
            r == (8u64 << 60u64) | ((self.space_id() as u64) << 44u64) | (self.root() as u64),
    {
        (8u64 << 60) | ((self.pt_id as u64) << 44) | (self.root_ppn.0 as u64)
    }

    /// A table with id `id` whose root is a fresh zeroed frame; the allocator must have a frame
    /// to give.
    pub fn new(id: usize, allocator: &mut StackFrameAllocator, mem: &mut PhysMem) -> (r: PageTableRecord)
        requires
            old(allocator)@.wf(),
            old(allocator)@.sound(),
            old(mem)@.wf(),
            backs(old(allocator)@, old(mem)@),
            old(allocator)@.free_count() > 0,
        ensures
            r.space_id() == id,
            r.root() == old(allocator)@.alloc_step(0).1.unwrap(),
            r.wf(final(mem)@),
            r.backed_by(final(allocator)@, final(mem)@),
            r.dirs() == set![r.root()],
            final(allocator)@ == old(allocator)@.alloc_step(0).0,
            forall|v: usize| #[trigger] r.translation(final(mem)@, v) == None::<u64>,
            final(mem)@.base == old(mem)@.base,
            final(mem)@.words.len() == old(mem)@.words.len(),
            forall|q: usize, j: int|
                q != r.root() && old(mem)@.holds(q) && 0 <= j < 512 ==> #[trigger] final(mem)@.entry(q, j)
                    == old(mem)@.entry(q, j),
    {
        proof {
            lemma_alloc_keeps_sound(allocator@, 0);
        }
        let ppn = frame_alloc(allocator, mem).unwrap();
        let r = PageTableRecord {
            pt_id: id,
            root_ppn: ppn,
            frames: Vec::new(),
            layout: Ghost(Map::empty().insert(ppn.0, (0int, 0int, 0int))),
        };
        proof {
            let m = mem@;
            assert(0u64 & (PTE_V as u64) == 0) by (bit_vector);
            assert forall|f: usize, i: int|
                r.layout@.contains_key(f) && 0 <= i < 512 && pte_valid(#[trigger] m.entry(f, i)) implies false by {
                assert(m.entry(f, i) == 0);
            }
            assert(table_inv(m, ppn.0, r.layout@));
            assert(r.frame_list() =~= Seq::<usize>::empty());
            assert(r.dirs() =~= set![ppn.0]);
            assert forall|v: usize| #[trigger] r.translation(m, v) == None::<u64> by {
                lemma_idx_bounds(v);
                assert(m.entry(ppn.0, idx(v, 0)) == 0);
            }
            assert forall|p: usize| #[trigger] allocator@.free_set().contains(p) implies m.holds(p) by {
                assert(old(allocator)@.free_set().contains(p));
            }
        }
        r
    }

    /// Makes sure the entry of `vpn`'s walk at `level` is valid, linking a fresh zeroed frame
    /// when it is not; returns the frame the entry points at.
    fn ensure_dir(
        &mut self,
        mem: &mut PhysMem,
        allocator: &mut StackFrameAllocator,
        vpn: usize,
        level: usize,
        table: InnerPhysPageNum,
        index: usize,
    ) -> (r: InnerPhysPageNum)
        requires
            old(self).wf(old(mem)@),
            old(self).backed_by(old(allocator)@, old(mem)@),
            level <= 1,
            walk_ok(old(mem)@, old(self).root_ppn.0, vpn, level as int),
            table.0 == walk_frame(old(mem)@, old(self).root_ppn.0, vpn, level as int),
            index == idx(vpn, level as int),
            !pte_valid(walk_entry(old(mem)@, old(self).root_ppn.0, vpn, level as int)) ==> old(allocator)@.free_count() > 0,
        ensures
            final(self).wf(final(mem)@),
            final(self).backed_by(final(allocator)@, final(mem)@),
            final(self).pt_id == old(self).pt_id,
            final(self).root_ppn == old(self).root_ppn,
            walk_ok(final(mem)@, old(self).root_ppn.0, vpn, level + 1),
            r.0 == walk_frame(final(mem)@, old(self).root_ppn.0, vpn, level + 1),
            forall|w: usize| #[trigger] lookup(final(mem)@, old(self).root_ppn.0, w) == lookup(old(mem)@, old(self).root_ppn.0, w),
            forall|w: usize| #[trigger] leaf_or_zero(final(mem)@, old(self).root_ppn.0, w) == leaf_or_zero(old(mem)@, old(self).root_ppn.0, w),
            pte_valid(walk_entry(old(mem)@, old(self).root_ppn.0, vpn, level as int)) ==> final(allocator)@
                == old(allocator)@ && final(mem)@ == old(mem)@ && final(self).dirs() == old(self).dirs(),
            !pte_valid(walk_entry(old(mem)@, old(self).root_ppn.0, vpn, level as int)) ==> final(allocator)@ == old(allocator)@.alloc_step(0).0,
            missing_dirs(final(mem)@, old(self).root_ppn.0, vpn) + (if pte_valid(walk_entry(old(mem)@, old(self).root_ppn.0, vpn, level as int)) { 0int } else { 1int })
                == missing_dirs(old(mem)@, old(self).root_ppn.0, vpn),
            final(mem)@.base == old(mem)@.base,
            final(mem)@.words.len() == old(mem)@.words.len(),
            forall|q: usize| #[trigger] old(self).dirs().contains(q) ==> final(self).dirs().contains(q),
            forall|q: usize| #[trigger] final(self).dirs().contains(q) && !old(self).dirs().contains(q) ==> old(allocator)@.free_set().contains(q),
            forall|q: usize, j: int|
                old(mem)@.holds(q) && !final(self).dirs().contains(q) && 0 <= j < 512 ==> #[trigger] final(mem)@.entry(q, j)
                    == old(mem)@.entry(q, j),
    {
        let ghost m0 = mem@;
        let ghost a0 = allocator@;
        let ghost root = self.root_ppn.0;
        proof {
            lemma_walk_layout(m0, root, self.layout@, vpn);
            lemma_idx_bounds(vpn);
        }
        let pte = mem.read_entry(table, index);
        if pte.is_valid() {
            proof {
                if level == 0 {
                    assert(walk_frame(m0, root, vpn, 1) == child(pte.bits));
                } else {
                    assert(walk_frame(m0, root, vpn, 2) == child(pte.bits));
                }
            }
            return pte.ppn();
        }
        proof {
            lemma_alloc_keeps_sound(a0, 0);
            let p = a0.alloc_step(0).1.unwrap();
            assert(a0.free_set().contains(p));
        }
        let f = frame_alloc(allocator, mem).unwrap();
        let ghost m1 = mem@;
        proof {
            assert(!self.layout@.contains_key(f.0)) by {
                if self.layout@.contains_key(f.0) {
                    assert(self.dirs().contains(f.0));
                }
            }
            lemma_link_table(m0, m1, root, self.layout@, vpn, level as int, f.0);
            lemma_dir_entry(m0, f.0);
        }
        assert(PTE_V & crate::flags::PTE_ALL == PTE_V) by (bit_vector);
        mem.write_entry(table, index, PageTableEntry::new(f, PTEFlags::from_bits_truncate(PTE_V)));
        let ghost old_frames = self.frame_list();
        assert(!self.dirs().contains(f.0));
        assert(!old_frames.contains(f.0));
        self.frames.push(f);
        self.layout = Ghost(
            self.layout@.insert(
                f.0,
                (level + 1, idx(vpn, 0), if level == 0 {
                    0int
                } else {
                    idx(vpn, 1)
                }),
            ),
        );
        proof {
            let m2 = mem@;
            assert(PTE_V & crate::flags::PTE_ALL == PTE_V) by (bit_vector);
            assert(self.frame_list() =~= old_frames.push(f.0));
            assert(!old_frames.contains(f.0));
            assert(self.frame_list().no_duplicates()) by {
                assert forall|i: int, j: int|
                    0 <= i < self.frame_list().len() && 0 <= j < self.frame_list().len() && i != j implies self.frame_list()[i]
                    != self.frame_list()[j] by {
                    if i < old_frames.len() && j < old_frames.len() {
                    } else if i == old_frames.len() {
                        assert(self.frame_list()[j] == old_frames[j]);
                    } else {
                        assert(self.frame_list()[i] == old_frames[i]);
                    }
                }
            }
            assert forall|q: usize| #[trigger] self.dirs().contains(q) <==> (q == self.root_ppn.0
                || self.frame_list().contains(q)) by {
                if q == f.0 {
                    assert(self.frame_list()[old_frames.len() as int] == f.0);
                } else {
                    if self.frame_list().contains(q) {
                        let i = choose|i: int| 0 <= i < self.frame_list().len() && self.frame_list()[i] == q;
                        assert(old_frames[i] == q);
                    }
                    if old_frames.contains(q) {
                        let i = choose|i: int| 0 <= i < old_frames.len() && old_frames[i] == q;
                        assert(self.frame_list()[i] == q);
                    }
                }
            }
            assert(!self.frame_list().contains(self.root_ppn.0)) by {
                if self.frame_list().contains(self.root_ppn.0) {
                    let i = choose|i: int| 0 <= i < self.frame_list().len() && self.frame_list()[i] == self.root_ppn.0;
                    if i < old_frames.len() {
                        assert(old_frames[i] == self.root_ppn.0);
                    }
                }
            }
            assert forall|p: usize| #[trigger] allocator@.free_set().contains(p) implies m2.holds(p) by {
                assert(a0.free_set().contains(p));
            }
            assert forall|q: usize| #[trigger] self.dirs().contains(q) implies allocator@.refs.contains_key(q) by {
                if q != f.0 {
                    assert(a0.refs.contains_key(q));
                }
            }
            assert forall|q: usize, j: int|
                m0.holds(q) && !self.dirs().contains(q) && 0 <= j < 512 implies #[trigger] m2.entry(q, j)
                == m0.entry(q, j) by {
                lemma_write_entries(m1, table.0, index as int, pte_bits(f.0, PTE_V));
            }
        }
        f
    }

    /// The leaf slot of `vpn`, creating the missing directories on its path; every translation
    /// stays as it was.
    fn find_pte_create(
        &mut self,
        mem: &mut PhysMem,
        allocator: &mut StackFrameAllocator,
        vpn: VirtPageNum,
    ) -> (r: (InnerPhysPageNum, usize))
        requires
            old(self).wf(old(mem)@),
            old(self).backed_by(old(allocator)@, old(mem)@),
            missing_dirs(old(mem)@, old(self).root_ppn.0, vpn.0) <= old(allocator)@.free_count(),
        ensures
            old(self).grows_to(old(mem)@, old(allocator)@, *final(self), final(mem)@, final(allocator)@, vpn.0),
            final(self).has_leaf_slot(final(mem)@, vpn.0),
            r.0.0 == walk_frame(final(mem)@, final(self).root_ppn.0, vpn.0, 2),
            r.1 == idx(vpn.0, 2),
            forall|w: usize| #[trigger] final(self).translation(final(mem)@, w) == old(self).translation(old(mem)@, w),
            forall|w: usize| #[trigger] final(self).leaf(final(mem)@, w) == old(self).leaf(old(mem)@, w),
    {
        let ghost m0 = mem@;
        let ghost a0 = allocator@;
        let ghost s0 = *self;
        let ghost root = self.root_ppn.0;
        let idxs = vpn.indexes();
        let root_ppn = self.root_ppn;
        proof {
            lemma_alloc_keeps_sound(a0, 0);
        }
        let p1 = self.ensure_dir(mem, allocator, vpn.0, 0, root_ppn, idxs[0]);
        let ghost m1 = mem@;
        let ghost a1 = allocator@;
        let ghost s1 = *self;
        proof {
            if !pte_valid(walk_entry(m0, root, vpn.0, 0)) {
                assert(a1.free_count() == a0.free_count() - 1);
            }
            lemma_alloc_keeps_sound(a1, 0);
        }
        let p2 = self.ensure_dir(mem, allocator, vpn.0, 1, p1, idxs[1]);
        proof {
            let m2 = mem@;
            let a2 = allocator@;
            if pte_valid(walk_entry(m0, root, vpn.0, 0)) {
                if pte_valid(walk_entry(m1, root, vpn.0, 1)) {
                    assert(a2 == alloc_times(a0, 0));
                } else {
                    assert(a2 == alloc_times(a0, 1));
                }
            } else {
                assert(missing_dirs(m0, root, vpn.0) == 2);
                assert(a2 == alloc_times(a0, 2)) by {
                    reveal_with_fuel(alloc_times, 3);
                }
            }
            assert forall|q: usize| #[trigger] self.dirs().contains(q) && !s0.dirs().contains(q) implies a0.free_set().contains(q) by {
                if !s1.dirs().contains(q) {
                    assert(a1.free_set().contains(q));
                }
            }
            assert forall|q: usize, j: int|
                m0.holds(q) && !self.dirs().contains(q) && 0 <= j < 512 implies #[trigger] m2.entry(q, j)
                == m0.entry(q, j) by {
                assert(m1.entry(q, j) == m0.entry(q, j));
            }
        }
        (p2, idxs[2])
    }
}


/// Leaf entry after mapping: a page that was mapped keeps its frame and gets the new flags in
/// its low eight bits; an unmapped page gets `ppn` with the new flags.
pub open spec fn map_leaf(old_leaf: Option<u64>, ppn: usize, flags: u16) -> u64 {
    match old_leaf {
        Some(e) => (e & 0xffff_ffff_ffff_ff00) | (flags as u64),
        None => pte_bits(ppn, flags),
    }
}

/// Flags that `map` stores: the requested flags plus valid, accessed and dirty.
pub open spec fn map_flags(flags: u16) -> u16 {
    flags | 0xc1
}

/// What a mapping translates to: a page mapped where nothing was mapped goes to the requested
/// frame, and a page mapped again keeps its frame (only its flags change).
pub proof fn lemma_mapped_frame(old_leaf: Option<u64>, ppn: usize, flags: u16)
    requires
        (ppn as u64) <= crate::pte::PPN_MASK,
        flags & !crate::flags::PTE_ALL == 0,
    ensures
        child(map_leaf(old_leaf, ppn, map_flags(flags))) == match old_leaf {
            None => ppn,
            Some(e) => child(e),
        },
{
    crate::bits::lemma_flag_update_bits(0, flags);
    let f = map_flags(flags);
    lemma_pte_new_roundtrip(ppn, f);
    if let Some(e) = old_leaf {
        crate::bits::lemma_flag_update_bits(e, f);
    }
}

/// Mapping a page that was not mapped, then translating an address of it, gives the address
/// at the same offset in the requested frame; an identical mapping gives the address back.
pub proof fn lemma_map_then_translate_va(
    before: PageTableRecord,
    m: PhysMemView,
    after: PageTableRecord,
    m2: PhysMemView,
    va: usize,
    ppn: usize,
    flags: u16,
)
    requires
        before.translation(m, va / 4096) == None::<u64>,
        after.translation(m2, va / 4096) == Some(map_leaf(before.translation(m, va / 4096), ppn, map_flags(flags))),
        (ppn as u64) <= crate::pte::PPN_MASK,
        flags & !crate::flags::PTE_ALL == 0,
    ensures
        after.translation(m2, va / 4096).is_some(),
        child(after.translation(m2, va / 4096).unwrap()) * 4096 + va % 4096 == ppn * 4096 + va % 4096,
        ppn == va / 4096 ==> child(after.translation(m2, va / 4096).unwrap()) * 4096 + va % 4096 == va,
{
    lemma_mapped_frame(None, ppn, flags);
    crate::address::lemma_page_parts(va, 0);
}

/// Result of a walk that stops at `level` (1 to 3): the entry read at that level if every
/// entry on the way is valid.
pub open spec fn level_lookup(m: PhysMemView, root: usize, vpn: usize, level: int) -> Option<u64> {
    if level >= 1 && walk_ok(m, root, vpn, level) {
        Some(walk_entry(m, root, vpn, level - 1))
    } else {
        None
    }
}

/// Allocator state after releasing `frames` one after the other, as page-table frames.
pub open spec fn dealloc_all(s: FrameAllocState, frames: Seq<usize>) -> FrameAllocState
    decreases frames.len(),
{
    if frames.len() == 0 {
        s
    } else {
        dealloc_all(s, frames.drop_last()).dealloc_step(frames.last(), 0)
    }
}

impl PageTableRecord {

    /// After the leaf slot of `vpn` was made to exist (from `self` to `s1`) and then written
    /// with `bits`, the table grew from `self` to `s1` as a whole, `vpn`'s leaf is `bits`, and
    /// every page with another slot translates as before.
    proof fn lemma_grows_then_write(
        &self,
        m0: PhysMemView,
        a0: FrameAllocState,
        s1: PageTableRecord,
        m1: PhysMemView,
        a1: FrameAllocState,
        vpn: usize,
        bits: u64,
    )
        requires
            self.grows_to(m0, a0, s1, m1, a1, vpn),
            s1.has_leaf_slot(m1, vpn),
            forall|w: usize| #[trigger] s1.translation(m1, w) == self.translation(m0, w),
            forall|w: usize| #[trigger] s1.leaf(m1, w) == self.leaf(m0, w),
            pte_flags_readable(bits),
        ensures
            ({
                let m2 = m1.write(walk_frame(m1, s1.root(), vpn, 2), idx(vpn, 2), bits);
                &&& self.grows_to(m0, a0, s1, m2, a1, vpn)
                &&& s1.has_leaf_slot(m2, vpn)
                &&& s1.leaf(m2, vpn) == bits
                &&& s1.translation(m2, vpn) == if pte_valid(bits) {
                    Some(bits)
                } else {
                    None::<u64>
                }
                &&& forall|w: usize| !same_slot(w, vpn) ==> #[trigger] s1.translation(m2, w)
                    == self.translation(m0, w)
                &&& forall|w: usize| !same_slot(w, vpn) ==> #[trigger] s1.leaf(m2, w)
                    == self.leaf(m0, w)
            }),
    {
        let root = s1.root();
        let f = walk_frame(m1, root, vpn, 2);
        let m2 = m1.write(f, idx(vpn, 2), bits);
        lemma_write_leaf(m1, root, s1.layout@, vpn, bits);
        lemma_walk_layout(m1, root, s1.layout@, vpn);
        lemma_idx_bounds(vpn);
        lemma_write_entries(m1, f, idx(vpn, 2), bits);
        assert(s1.dirs().contains(f));
        assert forall|q: usize, j: int|
            m0.holds(q) && !s1.dirs().contains(q) && 0 <= j < 512 implies #[trigger] m2.entry(q, j)
            == m0.entry(q, j) by {
            assert(m1.entry(q, j) == m0.entry(q, j));
        }
        assert forall|p: usize| #[trigger] a1.free_set().contains(p) implies m2.holds(p) by {
            assert(m1.holds(p));
        }
        assert forall|w: usize| !same_slot(w, vpn) implies #[trigger] s1.translation(m2, w) == self.translation(m0, w) by {
            assert(s1.translation(m1, w) == self.translation(m0, w));
        }
        assert forall|w: usize| !same_slot(w, vpn) implies #[trigger] s1.leaf(m2, w) == self.leaf(m0, w) by {
            assert(s1.leaf(m1, w) == self.leaf(m0, w));
        }
        if !pte_valid(bits) {
            assert(s1.translation(m2, vpn) == None::<u64>);
        }
    }

    /// Writes `bits` into the leaf slot `(f, i)` of `vpn`, which the table has.
    fn write_leaf(&mut self, mem: &mut PhysMem, vpn: usize, f: InnerPhysPageNum, i: usize, bits: u64)
        requires
            old(self).wf(old(mem)@),
            walk_ok(old(mem)@, old(self).root_ppn.0, vpn, 2),
            f.0 == walk_frame(old(mem)@, old(self).root_ppn.0, vpn, 2),
            i == idx(vpn, 2),
            pte_flags_readable(bits),
        ensures
            *final(self) == *old(self),
            final(self).wf(final(mem)@),
            final(mem)@ == old(mem)@.write(f.0, i as int, bits),
            walk_ok(final(mem)@, old(self).root_ppn.0, vpn, 2),
            walk_entry(final(mem)@, old(self).root_ppn.0, vpn, 2) == bits,
            forall|w: usize| !same_slot(w, vpn) ==> #[trigger] lookup(final(mem)@, old(self).root_ppn.0, w)
                == lookup(old(mem)@, old(self).root_ppn.0, w),
            forall|w: usize| !same_slot(w, vpn) ==> #[trigger] leaf_or_zero(final(mem)@, old(self).root_ppn.0, w)
                == leaf_or_zero(old(mem)@, old(self).root_ppn.0, w),
    {
        proof {
            lemma_write_leaf(mem@, self.root_ppn.0, self.layout@, vpn, bits);
            lemma_walk_layout(mem@, self.root_ppn.0, self.layout@, vpn);
            lemma_idx_bounds(vpn);
        }
        mem.write_entry(f, i, PageTableEntry { bits });
    }

    /// The valid leaf entry that maps `vpn`, if any.
    pub fn find_pte(&self, mem: &PhysMem, vpn: VirtPageNum) -> (r: Option<PageTableEntry>)
        requires
            self.wf(mem@),
        ensures
            r.is_some() == self.translation(mem@, vpn.0).is_some(),
            r.is_some() ==> r.unwrap().bits == self.translation(mem@, vpn.0).unwrap(),
    {
        let ghost m = mem@;
        let ghost root = self.root_ppn.0;
        proof {
            lemma_walk_layout(m, root, self.layout@, vpn.0);
            lemma_idx_bounds(vpn.0);
        }
        let idxs = vpn.indexes();
        let pte0 = mem.read_entry(self.root_ppn, idxs[0]);
        if !pte0.is_valid() {
            return None;
        }
        let pte1 = mem.read_entry(pte0.ppn(), idxs[1]);
        if !pte1.is_valid() {
            return None;
        }
        let pte2 = mem.read_entry(pte1.ppn(), idxs[2]);
        if !pte2.is_valid() {
            return None;
        }
        Some(pte2)
    }

    /// Shares the kernel table's mappings of the 1 GiB regions that hold the addresses
    /// `nkspace_end` and `trampoline`: this table's root entries for those regions are set to
    /// the kernel table's, which must be valid. This table then reaches into the kernel table's
    /// directories: it translates every page of those regions as the kernel table does and every
    /// other page as before, and the kernel table is unchanged. Its own record does not change
    /// (the shared directories are not its own).
    pub fn map_kernel_shared(
        &mut self,
        mem: &mut PhysMem,
        kernel: &PageTableRecord,
        nkspace_end: usize,
        trampoline: usize,
    )
        requires
            old(self).wf(old(mem)@),
            kernel.wf(old(mem)@),
            !kernel.dirs().contains(old(self).root()),
            level_lookup(old(mem)@, kernel.root(), nkspace_end / 4096, 1) is Some,
            level_lookup(old(mem)@, kernel.root(), trampoline / 4096, 1) is Some,
        ensures
            *final(self) == *old(self),
            final(mem)@ == shared_roots(
                old(mem)@,
                old(self).root(),
                kernel.root(),
                idx(nkspace_end / 4096, 0),
                idx(trampoline / 4096, 0),
            ),
            kernel.wf(final(mem)@),
            forall|w: usize| #[trigger] kernel.translation(final(mem)@, w) == kernel.translation(old(mem)@, w),
            forall|w: usize|
                (idx(w, 0) == idx(nkspace_end / 4096, 0) || idx(w, 0) == idx(trampoline / 4096, 0))
                    ==> #[trigger] final(self).translation(final(mem)@, w) == kernel.translation(old(mem)@, w),
            forall|w: usize|
                !(idx(w, 0) == idx(nkspace_end / 4096, 0) || idx(w, 0) == idx(trampoline / 4096, 0))
                    ==> #[trigger] final(self).translation(final(mem)@, w) == old(self).translation(old(mem)@, w),
    {
        let ghost m = mem@;
        let ghost (r, k) = (self.root_ppn.0, kernel.root_ppn.0);
        let v1 = VirtPageNum(nkspace_end / 4096);
        let v2 = VirtPageNum(trampoline / 4096);
        proof {
            lemma_walk_layout(m, r, self.layout@, v1.0);
            lemma_idx_bounds(v1.0);
            lemma_idx_bounds(v2.0);
            lemma_shared_roots(m, r, self.layout@, k, kernel.layout@, idx(v1.0, 0), idx(v2.0, 0));
        }
        let idxs1 = v1.indexes();
        let pte1 = kernel.find_pte_level(mem, v1, 1).unwrap();
        mem.write_entry(self.root_ppn, idxs1[0], pte1);
        let ghost m2 = mem@;
        proof {
            lemma_write_entries(m, r, idx(v1.0, 0), pte1.bits);
            lemma_same_dirs(m, m2, k, kernel.layout@);
        }
        let idxs2 = v2.indexes();
        let pte2 = kernel.find_pte_level(mem, v2, 1).unwrap();
        proof {
            assert(m2.entry(k, idx(v2.0, 0)) == m.entry(k, idx(v2.0, 0)));
        }
        mem.write_entry(self.root_ppn, idxs2[0], pte2);
    }

    /// The entry at `level` (1 to 3) of the walk for `vpn`, if every entry on the way is valid.
    /// A level above 3 is out of range once the walk gets that far.
    pub fn find_pte_level(&self, mem: &PhysMem, vpn: VirtPageNum, level: usize) -> (r: Option<PageTableEntry>)
        requires
            self.wf(mem@),
            level <= 3 || !walk_ok(mem@, self.root(), vpn.0, 3),
        ensures
            r.is_some() == level_lookup(mem@, self.root(), vpn.0, level as int).is_some(),
            r.is_some() ==> r.unwrap().bits == level_lookup(mem@, self.root(), vpn.0, level as int).unwrap(),
    {
        let ghost m = mem@;
        let ghost root = self.root_ppn.0;
        proof {
            lemma_walk_layout(m, root, self.layout@, vpn.0);
            lemma_idx_bounds(vpn.0);
        }
        let idxs = vpn.indexes();
        let mut ppn = self.root_ppn;
        let mut i: usize = 0;
        while i < level
            invariant
                self.wf(m),
                m == mem@,
                root == self.root_ppn.0,
                level <= 3 || !walk_ok(m, root, vpn.0, 3),
                i <= level,
                level == 0 || i < level,
                i <= 3,
                walk_ok(m, root, vpn.0, i as int),
                ppn.0 == walk_frame(m, root, vpn.0, i as int),
                idxs@.len() == 3,
                forall|l: int| 0 <= l < 3 ==> idxs@[l] == idx(vpn.0, l),
                forall|l: int| 0 <= l < 3 ==> idxs@[l] < 512,
                walk_ok(m, root, vpn.0, 1) ==> m.holds(walk_frame(m, root, vpn.0, 1)),
                walk_ok(m, root, vpn.0, 2) ==> m.holds(walk_frame(m, root, vpn.0, 2)),
                m.holds(root),
            decreases level - i,
        {
            let pte = mem.read_entry(ppn, idxs[i]);
            if !pte.is_valid() {
                return None;
            }
            if i == level - 1 {
                return Some(pte);
            }
            ppn = pte.ppn();
            i = i + 1;
        }
        None
    }

    /// Where the walk for `va` ends: the frame its page is mapped to, or `None` when an entry
    /// on the way is invalid (the caller prints the one or the other).
    pub fn trace_address(&self, mem: &PhysMem, va: crate::address::VirtAddr) -> (r: Option<InnerPhysPageNum>)
        requires
            self.wf(mem@),
        ensures
            r.is_some() == self.translation(mem@, va.0 / 4096).is_some(),
            r.is_some() ==> r.unwrap().0 == child(self.translation(mem@, va.0 / 4096).unwrap()),
    {
        let vpn = va.floor();
        match self.find_pte(mem, vpn) {
            Some(pte) => Some(pte.ppn()),
            None => None,
        }
    }

    /// The valid leaf entry that maps `vpn`, if any.
    pub fn translate(&self, mem: &PhysMem, vpn: VirtPageNum) -> (r: Option<PageTableEntry>)
        requires
            self.wf(mem@),
        ensures
            r.is_some() == self.translation(mem@, vpn.0).is_some(),
            r.is_some() ==> r.unwrap().bits == self.translation(mem@, vpn.0).unwrap(),
    {
        self.find_pte(mem, vpn)
    }

    /// The physical address `va` maps to, if its page is mapped.
    pub fn translate_va(&self, mem: &PhysMem, va: crate::address::VirtAddr) -> (r: Option<crate::address::InnerPhysAddr>)
        requires
            self.wf(mem@),
            self.translation(mem@, va.0 / 4096) matches Some(e) ==> child(e) * 4096 + va.0 % 4096
                <= usize::MAX,
        ensures
            r.is_some() == self.translation(mem@, va.0 / 4096).is_some(),
            r.is_some() ==> r.unwrap().0 == child(self.translation(mem@, va.0 / 4096).unwrap()) * 4096
                + va.0 % 4096,
    {
        if let Some(pte) = self.find_pte(mem, va.floor()) {
            if pte.is_valid() {
                let pa = crate::address::InnerPhysAddr(pte.ppn().0 * crate::config::PAGE_SIZE + va.page_offset());
                return Some(pa);
            }
        }
        None
    }

    /// Maps `vpn` to `ppn` with `flags` plus valid, accessed and dirty, creating the missing
    /// directories; a page that is already mapped keeps its frame and only takes the new flags.
    /// Every page with another slot keeps its translation.
    pub fn map(
        &mut self,
        mem: &mut PhysMem,
        allocator: &mut StackFrameAllocator,
        vpn: VirtPageNum,
        ppn: InnerPhysPageNum,
        flags: PTEFlags,
    )
        requires
            old(self).wf(old(mem)@),
            old(self).backed_by(old(allocator)@, old(mem)@),
            missing_dirs(old(mem)@, old(self).root(), vpn.0) <= old(allocator)@.free_count(),
        ensures
            old(self).grows_to(old(mem)@, old(allocator)@, *final(self), final(mem)@, final(allocator)@, vpn.0),
            final(self).translation(final(mem)@, vpn.0) == Some(
                map_leaf(old(self).translation(old(mem)@, vpn.0), ppn.0, map_flags(flags.view_bits())),
            ),
            forall|w: usize| !same_slot(w, vpn.0) ==> #[trigger] final(self).translation(final(mem)@, w)
                == old(self).translation(old(mem)@, w),
    {
        let ghost (s0, m0, a0) = (*self, mem@, allocator@);
        let (f, i) = self.find_pte_create(mem, allocator, vpn);
        let ghost (s1, m1, a1) = (*self, mem@, allocator@);
        proof {
            lemma_walk_layout(m1, s1.root(), s1.layout@, vpn.0);
            lemma_idx_bounds(vpn.0);
        }
        let pte = mem.read_entry(f, i);
        assert(pte.bits == s1.leaf(m1, vpn.0));
        let fl = flags.union(PTEFlags::from_bits_truncate(0xc1));
        let fb = fl.bits();
        let ghost vb = flags.view_bits();
        assert(0xc1u16 & crate::flags::PTE_ALL == 0xc1) by (bit_vector);
        assert(fb == vb | 0xc1u16);
        assert(fb & 1 != 0) by (bit_vector)
            requires
                fb == vb | 0xc1u16,
        ;
        let nb;
        if pte.is_valid() {
            let mut p = pte;
            p.set_flags(fl);
            let e = pte.bits;
            nb = p.bits;
            assert(e & 0x100 == 0 && fb & !crate::flags::PTE_ALL == 0 && fb & 1 != 0 && nb == (e
                & 0xffff_ffff_ffff_ff00) | (fb as u64) ==> nb & 0x100 == 0 && nb & (PTE_V as u64)
                != 0) by (bit_vector);
            assert(s0.translation(m0, vpn.0) == Some(e)) by {
                assert(s1.translation(m1, vpn.0) == s0.translation(m0, vpn.0));
            }
        } else {
            let p = PageTableEntry::new(ppn, fl);
            nb = p.bits;
            let pp = ppn.0 as u64;
            assert(fb & !crate::flags::PTE_ALL == 0 && fb & 1 != 0 && nb == (pp << 10) | (fb as u64)
                ==> nb & 0x100 == 0 && nb & (PTE_V as u64) != 0) by (bit_vector);
            assert(s0.translation(m0, vpn.0) == None::<u64>) by {
                assert(s1.translation(m1, vpn.0) == s0.translation(m0, vpn.0));
            }
        }
        self.write_leaf(mem, vpn.0, f, i, nb);
        proof {
            s0.lemma_grows_then_write(m0, a0, s1, m1, a1, vpn.0, nb);
        }
    }

    /// Clears the leaf entry of `vpn`, which must be mapped. Every page with another slot keeps
    /// its translation.
    pub fn unmap(&mut self, mem: &mut PhysMem, allocator: &mut StackFrameAllocator, vpn: VirtPageNum)
        requires
            old(self).wf(old(mem)@),
            old(self).backed_by(old(allocator)@, old(mem)@),
            old(self).translation(old(mem)@, vpn.0).is_some(),
        ensures
            old(self).grows_to(old(mem)@, old(allocator)@, *final(self), final(mem)@, final(allocator)@, vpn.0),
            final(allocator)@ == old(allocator)@,
            final(self).translation(final(mem)@, vpn.0) == None::<u64>,
            forall|w: usize| !same_slot(w, vpn.0) ==> #[trigger] final(self).translation(final(mem)@, w)
                == old(self).translation(old(mem)@, w),
    {
        let ghost (s0, m0, a0) = (*self, mem@, allocator@);
        let (f, i) = self.find_pte_create(mem, allocator, vpn);
        let ghost (s1, m1, a1) = (*self, mem@, allocator@);
        proof {
            lemma_walk_layout(m1, s1.root(), s1.layout@, vpn.0);
            lemma_idx_bounds(vpn.0);
            assert(s1.translation(m1, vpn.0) == s0.translation(m0, vpn.0));
            assert(s1.leaf(m1, vpn.0) == s0.leaf(m0, vpn.0));
        }
        let pte = mem.read_entry(f, i);
        let valid = pte.is_valid();
        assert(valid);
        let e = PageTableEntry::empty();
        assert(0u64 & 0x100 == 0 && 0u64 & (PTE_V as u64) == 0) by (bit_vector);
        let nbits = e.bits;
        self.write_leaf(mem, vpn.0, f, i, nbits);
        proof {
            s0.lemma_grows_then_write(m0, a0, s1, m1, a1, vpn.0, nbits);
        }
    }

    /// Marks the leaf entry of `vpn` copy-on-write, creating the missing directories.
    pub fn set_cow(&mut self, mem: &mut PhysMem, allocator: &mut StackFrameAllocator, vpn: VirtPageNum)
        requires
            old(self).wf(old(mem)@),
            old(self).backed_by(old(allocator)@, old(mem)@),
            missing_dirs(old(mem)@, old(self).root(), vpn.0) <= old(allocator)@.free_count(),
        ensures
            old(self).grows_to(old(mem)@, old(allocator)@, *final(self), final(mem)@, final(allocator)@, vpn.0),
            final(self).has_leaf_slot(final(mem)@, vpn.0),
            final(self).leaf(final(mem)@, vpn.0) == old(self).leaf(old(mem)@, vpn.0) | 0x200,
            forall|w: usize| !same_slot(w, vpn.0) ==> #[trigger] final(self).translation(final(mem)@, w)
                == old(self).translation(old(mem)@, w),
    {
        let ghost (s0, m0, a0) = (*self, mem@, allocator@);
        let (f, i) = self.find_pte_create(mem, allocator, vpn);
        let ghost (s1, m1, a1) = (*self, mem@, allocator@);
        proof {
            lemma_walk_layout(m1, s1.root(), s1.layout@, vpn.0);
            lemma_idx_bounds(vpn.0);
            assert(s1.translation(m1, vpn.0) == s0.translation(m0, vpn.0));
            assert(s1.leaf(m1, vpn.0) == s0.leaf(m0, vpn.0));
        }
        let mut pte = mem.read_entry(f, i);
        pte.set_cow();
        proof {
            crate::pte::lemma_pte_cow(pte.bits & !0x200u64);
            let b = pte.bits;
        }
        let ghost ob = mem@.entry(f.0, i as int);
        assert(ob & 0x100 == 0 ==> (ob | 0x200) & 0x100 == 0) by (bit_vector);
        let nbits = pte.bits;
        self.write_leaf(mem, vpn.0, f, i, nbits);
        proof {
            s0.lemma_grows_then_write(m0, a0, s1, m1, a1, vpn.0, nbits);
        }
    }

    /// Clears the copy-on-write mark of the leaf entry of `vpn`, creating the missing
    /// directories.
    pub fn reset_cow(&mut self, mem: &mut PhysMem, allocator: &mut StackFrameAllocator, vpn: VirtPageNum)
        requires
            old(self).wf(old(mem)@),
            old(self).backed_by(old(allocator)@, old(mem)@),
            missing_dirs(old(mem)@, old(self).root(), vpn.0) <= old(allocator)@.free_count(),
        ensures
            old(self).grows_to(old(mem)@, old(allocator)@, *final(self), final(mem)@, final(allocator)@, vpn.0),
            final(self).has_leaf_slot(final(mem)@, vpn.0),
            final(self).leaf(final(mem)@, vpn.0) == old(self).leaf(old(mem)@, vpn.0) & !0x200u64,
            forall|w: usize| !same_slot(w, vpn.0) ==> #[trigger] final(self).translation(final(mem)@, w)
                == old(self).translation(old(mem)@, w),
    {
        let ghost (s0, m0, a0) = (*self, mem@, allocator@);
        let (f, i) = self.find_pte_create(mem, allocator, vpn);
        let ghost (s1, m1, a1) = (*self, mem@, allocator@);
        proof {
            lemma_walk_layout(m1, s1.root(), s1.layout@, vpn.0);
            lemma_idx_bounds(vpn.0);
            assert(s1.translation(m1, vpn.0) == s0.translation(m0, vpn.0));
            assert(s1.leaf(m1, vpn.0) == s0.leaf(m0, vpn.0));
        }
        let mut pte = mem.read_entry(f, i);
        pte.reset_cow();
        let ghost ob = mem@.entry(f.0, i as int);
        assert(ob & 0x100 == 0 ==> (ob & !0x200u64) & 0x100 == 0) by (bit_vector);
        let nbits = pte.bits;
        self.write_leaf(mem, vpn.0, f, i, nbits);
        proof {
            s0.lemma_grows_then_write(m0, a0, s1, m1, a1, vpn.0, nbits);
        }
    }

    /// Replaces the low eight flag bits of the leaf entry of `vpn` by `flags`, creating the
    /// missing directories.
    pub fn set_flags(
        &mut self,
        mem: &mut PhysMem,
        allocator: &mut StackFrameAllocator,
        vpn: VirtPageNum,
        flags: PTEFlags,
    )
        requires
            old(self).wf(old(mem)@),
            old(self).backed_by(old(allocator)@, old(mem)@),
            missing_dirs(old(mem)@, old(self).root(), vpn.0) <= old(allocator)@.free_count(),
        ensures
            old(self).grows_to(old(mem)@, old(allocator)@, *final(self), final(mem)@, final(allocator)@, vpn.0),
            final(self).has_leaf_slot(final(mem)@, vpn.0),
            final(self).leaf(final(mem)@, vpn.0) == (old(self).leaf(old(mem)@, vpn.0) & 0xffff_ffff_ffff_ff00)
                | (flags.view_bits() as u64),
            forall|w: usize| !same_slot(w, vpn.0) ==> #[trigger] final(self).translation(final(mem)@, w)
                == old(self).translation(old(mem)@, w),
    {
        let ghost (s0, m0, a0) = (*self, mem@, allocator@);
        let (f, i) = self.find_pte_create(mem, allocator, vpn);
        let ghost (s1, m1, a1) = (*self, mem@, allocator@);
        proof {
            lemma_walk_layout(m1, s1.root(), s1.layout@, vpn.0);
            lemma_idx_bounds(vpn.0);
            assert(s1.translation(m1, vpn.0) == s0.translation(m0, vpn.0));
            assert(s1.leaf(m1, vpn.0) == s0.leaf(m0, vpn.0));
        }
        let mut pte = mem.read_entry(f, i);
        let fb = flags.bits();
        pte.set_flags(flags);
        let ghost ob = mem@.entry(f.0, i as int);
        let nb = pte.bits;
        assert(ob & 0x100 == 0 && fb & !crate::flags::PTE_ALL == 0 && nb == (ob & 0xffff_ffff_ffff_ff00)
            | (fb as u64) ==> nb & 0x100 == 0) by (bit_vector);
        let nbits = pte.bits;
        self.write_leaf(mem, vpn.0, f, i, nbits);
        proof {
            s0.lemma_grows_then_write(m0, a0, s1, m1, a1, vpn.0, nbits);
        }
    }

    /// Replaces the R, W and X bits of the leaf entry of `vpn` by those of `flags` and returns 0;
    /// returns -1 and changes nothing when a directory on the path is missing.
    pub fn set_pte_flags(&mut self, mem: &mut PhysMem, vpn: VirtPageNum, flags: usize) -> (r: isize)
        requires
            old(self).wf(old(mem)@),
        ensures
            *final(self) == *old(self),
            final(self).wf(final(mem)@),
            r == 0 <==> old(self).has_leaf_slot(old(mem)@, vpn.0),
            r == 0 || r == -1,
            r == -1 ==> final(mem)@ == old(mem)@,
            r == 0 ==> final(self).has_leaf_slot(final(mem)@, vpn.0) && final(self).leaf(final(mem)@, vpn.0)
                == (old(self).leaf(old(mem)@, vpn.0) & !0b1110u64) | ((flags as u64) & 0b1110u64),
            forall|w: usize| !same_slot(w, vpn.0) ==> #[trigger] final(self).translation(final(mem)@, w)
                == old(self).translation(old(mem)@, w),
    {
        let ghost m = mem@;
        let ghost root = self.root_ppn.0;
        proof {
            lemma_walk_layout(m, root, self.layout@, vpn.0);
            lemma_idx_bounds(vpn.0);
        }
        let idxs = vpn.indexes();
        let pte0 = mem.read_entry(self.root_ppn, idxs[0]);
        if !pte0.is_valid() {
            return -1;
        }
        let f1 = pte0.ppn();
        let pte1 = mem.read_entry(f1, idxs[1]);
        if !pte1.is_valid() {
            return -1;
        }
        let f2 = pte1.ppn();
        let mut pte = mem.read_entry(f2, idxs[2]);
        pte.set_pte_flags(flags);
        proof {
            crate::pte::lemma_pte_set_pte_flags(m.entry(f2.0, idx(vpn.0, 2)), flags as u64);
        }
        self.write_leaf(mem, vpn.0, f2, idxs[2], pte.bits);
        0
    }

    /// Points the leaf entry of `vpn` at `ppn`, keeping its flags but the copy-on-write mark
    /// and adding write permission; creates the missing directories. (Copying the contents of
    /// the former frame is left to the caller.)
    pub fn remap_cow(
        &mut self,
        mem: &mut PhysMem,
        allocator: &mut StackFrameAllocator,
        vpn: VirtPageNum,
        ppn: InnerPhysPageNum,
    )
        requires
            old(self).wf(old(mem)@),
            old(self).backed_by(old(allocator)@, old(mem)@),
            missing_dirs(old(mem)@, old(self).root(), vpn.0) <= old(allocator)@.free_count(),
        ensures
            old(self).grows_to(old(mem)@, old(allocator)@, *final(self), final(mem)@, final(allocator)@, vpn.0),
            final(self).has_leaf_slot(final(mem)@, vpn.0),
            final(self).leaf(final(mem)@, vpn.0) == pte_bits(
                ppn.0,
                (((old(self).leaf(old(mem)@, vpn.0) & 0x3ff) as u16) & !0x200u16) | 0x4u16,
            ),
            forall|w: usize| !same_slot(w, vpn.0) ==> #[trigger] final(self).translation(final(mem)@, w)
                == old(self).translation(old(mem)@, w),
    {
        let ghost (s0, m0, a0) = (*self, mem@, allocator@);
        let (f, i) = self.find_pte_create(mem, allocator, vpn);
        let ghost (s1, m1, a1) = (*self, mem@, allocator@);
        proof {
            lemma_walk_layout(m1, s1.root(), s1.layout@, vpn.0);
            lemma_idx_bounds(vpn.0);
            assert(s1.translation(m1, vpn.0) == s0.translation(m0, vpn.0));
            assert(s1.leaf(m1, vpn.0) == s0.leaf(m0, vpn.0));
        }
        let pte = mem.read_entry(f, i);
        let o = PTEFlags::from_bits_truncate(crate::flags::PTE_O);
        let w = PTEFlags::from_bits_truncate(crate::flags::PTE_W);
        let fl = pte.flags().difference(o).union(w);
        let fb = fl.bits();
        assert(crate::flags::PTE_O & crate::flags::PTE_ALL == 0x200 && crate::flags::PTE_W
            & crate::flags::PTE_ALL == 0x4) by (bit_vector);
        let p = PageTableEntry::new(ppn, fl);
        let nb = p.bits;
        let pp = ppn.0 as u64;
        assert(fb & !crate::flags::PTE_ALL == 0 && nb == (pp << 10) | (fb as u64) ==> nb & 0x100 == 0)
            by (bit_vector);
        let nbits = p.bits;
        self.write_leaf(mem, vpn.0, f, i, nbits);
        proof {
            s0.lemma_grows_then_write(m0, a0, s1, m1, a1, vpn.0, nbits);
        }
    }

    /// Releases every frame the table created below its root (the root frame is not released).
    pub fn destroy(self, allocator: &mut StackFrameAllocator)
        requires
            old(allocator)@.wf(),
        ensures
            final(allocator)@ == dealloc_all(old(allocator)@, self.frame_list()),
            final(allocator)@.wf(),
    {
        let ghost a0 = allocator@;
        let mut k: usize = 0;
        while k < self.frames.len()
            invariant
                k <= self.frames.len(),
                allocator@.wf(),
                allocator@ == dealloc_all(a0, self.frame_list().subrange(0, k as int)),
            decreases self.frames.len() - k,
        {
            let fr = self.frames[k];
            proof {
                let sub = self.frame_list().subrange(0, k + 1);
                assert(sub.drop_last() =~= self.frame_list().subrange(0, k as int));
                assert(sub.last() == fr.0);
            }
            crate::frame_allocator::frame_dealloc(allocator, fr);
            k = k + 1;
        }
        assert(self.frame_list().subrange(0, self.frames.len() as int) =~= self.frame_list());
    }

    /// Page numbers with the same table indexes translate alike.
    pub proof fn lemma_translation_same_slot(&self, m: PhysMemView, a: usize, b: usize)
        requires
            same_slot(a, b),
        ensures
            self.translation(m, a) == self.translation(m, b),
    {
    }

    /// A table is well formed only over well-formed memory.
    pub proof fn lemma_wf_mem(&self, m: PhysMemView)
        requires
            self.wf(m),
        ensures
            m.wf(),
    {
    }

    /// Handing out a page-table frame and zeroing it leaves a backed table as it was: the
    /// frame is none of its directories, every translation and every count of missing
    /// directories is unchanged, and the allocator has one free frame less.
    pub proof fn lemma_alloc_keeps_table(
        &self,
        a: FrameAllocState,
        m: PhysMemView,
        a2: FrameAllocState,
        m2: PhysMemView,
        p: usize,
    )
        requires
            self.wf(m),
            self.backed_by(a, m),
            a.alloc_step(0).1 == Some(p),
            a2 == a.alloc_step(0).0,
            m2.wf(),
            m2.base == m.base,
            m2.words.len() == m.words.len(),
            forall|q: usize, j: int|
                q != p && m.holds(q) && 0 <= j < 512 ==> #[trigger] m2.entry(q, j) == m.entry(q, j),
        ensures
            self.wf(m2),
            self.backed_by(a2, m2),
            !self.dirs().contains(p),
            m.holds(p),
            a2.free_count() == a.free_count() - 1,
            forall|v: usize| #[trigger] self.translation(m2, v) == self.translation(m, v),
            forall|v: usize| #[trigger] missing_dirs(m2, self.root(), v) == missing_dirs(m, self.root(), v),
    {
        lemma_alloc_keeps_sound(a, 0);
        crate::frame_allocator::lemma_free_count_changes(a, 0, 0, 0);
        assert(!self.dirs().contains(p));
        assert(m.holds(p));
        lemma_same_dirs(m, m2, self.root_ppn.0, self.layout@);
        assert forall|q: usize| #[trigger] a2.free_set().contains(q) implies m2.holds(q) by {
            assert(a.free_set().contains(q));
            assert(m.holds(q));
        }
    }
}

/// A copyable handle on a page table: its id and root frame.
#[derive(Copy, Clone)]
pub struct PageTable {
    pt_id: usize,
    root_ppn: InnerPhysPageNum,
}

impl PageTable {
    /// The handle of `pt`.
    pub fn from_record(pt: &PageTableRecord) -> (r: PageTable)
        ensures
            r.space_id() == pt.space_id(),
            r.root() == pt.root(),
    {
        PageTable { pt_id: pt.pt_id, root_ppn: pt.root_ppn }
    }

    /// The address-space id.
    pub closed spec fn space_id(&self) -> usize {
        self.pt_id
    }

    /// The root frame.
    pub closed spec fn root(&self) -> usize {
        self.root_ppn.0
    }

    /// The address-space id.
    pub fn id(&self) -> (r: usize)
        ensures
            r == self.space_id(),
    {
        self.pt_id
    }

    /// The satp value that activates the table: Sv39 mode and the root frame.
    pub fn token(&self) -> (r: u64)
        ensures
            r == (8u64 << 60u64) | (self.root() as u64),
    {
        (8u64 << 60) | (self.root_ppn.0 as u64)
    }
}

} // verus!
