use vstd::prelude::*;
use vstd::slice::SliceAdditionalExecFns;

verus! {

/// The bytes of `bs`, one buffer after the other.
pub open spec fn flatten(bs: Seq<Seq<u8>>) -> Seq<u8>
    decreases bs.len(),
{
    if bs.len() == 0 {
        Seq::empty()
    } else {
        flatten(bs.drop_last()) + bs.last()
    }
}

/// Number of bytes in the first `k` buffers of `bs`.
pub open spec fn offset(bs: Seq<Seq<u8>>, k: int) -> int
    decreases k,
{
    if k <= 0 {
        0
    } else {
        offset(bs, k - 1) + bs[k - 1].len()
    }
}

/// Whether `a` and `b` have the same number of buffers with the same lengths.
pub open spec fn same_shape(a: Seq<Seq<u8>>, b: Seq<Seq<u8>>) -> bool {
    &&& a.len() == b.len()
    &&& forall|i: int| 0 <= i < a.len() ==> #[trigger] a[i].len() == b[i].len()
}

/// Offsets only depend on the buffers before, and grow with `k`.
pub proof fn lemma_offset(bs: Seq<Seq<u8>>, cs: Seq<Seq<u8>>, k: int)
    requires
        0 <= k <= bs.len(),
        k <= cs.len(),
        forall|i: int| 0 <= i < k ==> #[trigger] bs[i].len() == cs[i].len(),
    ensures
        offset(bs, k) == offset(cs, k),
        offset(bs, k) >= 0,
        forall|l: int| 0 <= l <= k ==> #[trigger] offset(bs, l) <= offset(bs, k),
    decreases k,
{
    if k > 0 {
        lemma_offset(bs, cs, k - 1);
        assert forall|l: int| 0 <= l <= k implies #[trigger] offset(bs, l) <= offset(bs, k) by {
            if l < k {
                assert(offset(bs, l) <= offset(bs, k - 1));
            }
        }
    }
}

/// The flattened bytes have as many bytes as all buffers together, and byte `j` of buffer
/// `i` sits at position `offset(bs, i) + j`.
pub proof fn lemma_flatten(bs: Seq<Seq<u8>>)
    ensures
        flatten(bs).len() == offset(bs, bs.len() as int),
        forall|i: int, j: int|
            #![trigger bs[i][j]]
            0 <= i < bs.len() && 0 <= j < bs[i].len() ==> flatten(bs)[offset(bs, i) + j] == bs[i][j],
    decreases bs.len(),
{
    if bs.len() > 0 {
        let d = bs.drop_last();
        lemma_flatten(d);
        lemma_offset(d, bs, d.len() as int);
        lemma_offset(bs, bs, bs.len() as int);
        lemma_offset(bs, bs, d.len() as int);
        assert forall|i: int, j: int|
            #![trigger bs[i][j]]
            0 <= i < bs.len() && 0 <= j < bs[i].len() implies flatten(bs)[offset(bs, i) + j] == bs[i][j] by {
            if i < d.len() {
                lemma_offset(d, bs, i);
                assert(d[i] == bs[i]);
                assert(offset(bs, i + 1) <= offset(bs, d.len() as int));
                assert(flatten(bs)[offset(bs, i) + j] == flatten(d)[offset(d, i) + j]);
                assert(offset(bs, i) + j < offset(bs, i + 1));
                assert(offset(bs, bs.len() as int) == offset(bs, d.len() as int) + bs[d.len() as int].len());
            } else {
                assert(bs.last() == bs[i]);
                assert(offset(bs, i) == flatten(d).len());
                assert(offset(bs, bs.len() as int) == offset(bs, i) + bs[i].len());
                assert(flatten(bs)[offset(bs, i) + j] == bs.last()[j]);
            }
        }
    }
}

/// Setting byte `j` of buffer `i` sets byte `offset(bs, i) + j` of the flattened bytes.
pub proof fn lemma_flatten_update(bs: Seq<Seq<u8>>, i: int, j: int, x: u8)
    requires
        0 <= i < bs.len(),
        0 <= j < bs[i].len(),
    ensures
        flatten(bs.update(i, bs[i].update(j, x))) == flatten(bs).update(offset(bs, i) + j, x),
    decreases bs.len(),
{
    let b2 = bs.update(i, bs[i].update(j, x));
    let d = bs.drop_last();
    lemma_flatten(d);
    lemma_offset(d, bs, d.len() as int);
    if i == bs.len() - 1 {
        assert(b2.drop_last() =~= d);
        lemma_offset(bs, bs, i);
        assert(flatten(b2) =~= flatten(bs).update(offset(bs, i) + j, x));
    } else {
        lemma_flatten_update(d, i, j, x);
        assert(b2.drop_last() =~= d.update(i, d[i].update(j, x)));
        lemma_offset(d, bs, i);
        lemma_offset(d, d, d.len() as int);
        lemma_offset(bs, bs, d.len() as int);
        assert(offset(bs, i + 1) <= offset(bs, d.len() as int));
        assert(flatten(b2) =~= flatten(bs).update(offset(bs, i) + j, x));
    }
}

/// Buffers of the same shape flatten to the same number of bytes.
pub proof fn lemma_same_shape_len(a: Seq<Seq<u8>>, b: Seq<Seq<u8>>)
    requires
        same_shape(a, b),
    ensures
        flatten(a).len() == flatten(b).len(),
        forall|k: int| 0 <= k <= a.len() ==> #[trigger] offset(a, k) == offset(b, k),
{
    lemma_flatten(a);
    lemma_flatten(b);
    assert forall|k: int| 0 <= k <= a.len() implies #[trigger] offset(a, k) == offset(b, k) by {
        lemma_offset(a, b, k);
    }
}

/// A user buffer: a list of byte buffers read and written as one run of bytes.
pub struct UserBuffer {
    pub buffers: Vec<Vec<u8>>,
}

impl UserBuffer {
    /// The byte buffers.
    pub open spec fn bufs(&self) -> Seq<Seq<u8>> {
        self.buffers@.map_values(|b: Vec<u8>| b@)
    }

    /// All bytes, one buffer after the other.
    pub open spec fn bytes(&self) -> Seq<u8> {
        flatten(self.bufs())
    }

    /// A user buffer over `buffers`.
    pub fn new(buffers: Vec<Vec<u8>>) -> (r: UserBuffer)
        ensures
            r.buffers@ == buffers@,
    {
        UserBuffer { buffers }
    }

    /// A user buffer with no byte buffer.
    pub fn empty() -> (r: UserBuffer)
        ensures
            r.buffers@.len() == 0,
            r.bytes() == Seq::<u8>::empty(),
    {
        let r = UserBuffer { buffers: Vec::new() };
        assert(r.bufs() =~= Seq::<Seq<u8>>::empty());
        r
    }

    /// Total number of bytes.
    pub fn len(&self) -> (r: usize)
        requires
            self.bytes().len() <= usize::MAX,
        ensures
            r == self.bytes().len(),
    {
        let ghost bs = self.bufs();
        proof {
            lemma_flatten(bs);
            lemma_offset(bs, bs, bs.len() as int);
        }
        let mut total: usize = 0;
        let mut i: usize = 0;
        while i < self.buffers.len()
            invariant
                bs == self.bufs(),
                i <= bs.len(),
                total == offset(bs, i as int),
                offset(bs, bs.len() as int) <= usize::MAX,
                forall|l: int| 0 <= l <= bs.len() ==> #[trigger] offset(bs, l) <= offset(bs, bs.len() as int),
            decreases bs.len() - i,
        {
            assert(offset(bs, i + 1) <= offset(bs, bs.len() as int));
            total = total + self.buffers[i].len();
            i = i + 1;
        }
        total
    }
}


impl UserBuffer {
    /// Sets byte `j` of buffer `i` to `v`, which sets byte `offset(i) + j` of the whole run.
    fn set_byte(&mut self, i: usize, j: usize, v: u8)
        requires
            i < old(self).bufs().len(),
            j < old(self).bufs()[i as int].len(),
        ensures
            final(self).bufs() == old(self).bufs().update(i as int, old(self).bufs()[i as int].update(j as int, v)),
            same_shape(final(self).bufs(), old(self).bufs()),
            final(self).bytes() == old(self).bytes().update(offset(old(self).bufs(), i as int) + j, v),
    {
        let ghost bs = self.bufs();
        self.buffers[i].set(j, v);
        proof {
            assert(self.bufs() =~= bs.update(i as int, bs[i as int].update(j as int, v)));
            lemma_flatten_update(bs, i as int, j as int, v);
        }
    }

    /// Copies the first bytes of `buff` over the first bytes of the buffer, as many as both
    /// have, and returns how many were copied. When `buff` is empty, the buffer must hold no
    /// byte.
    pub fn write(&mut self, buff: &[u8]) -> (r: usize)
        requires
            old(self).bytes().len() <= usize::MAX,
            buff@.len() > 0 || old(self).bytes().len() == 0,
        ensures
            r == if old(self).bytes().len() <= buff@.len() {
                old(self).bytes().len() as int
            } else {
                buff@.len() as int
            },
            same_shape(final(self).bufs(), old(self).bufs()),
            final(self).bytes() == buff@.subrange(0, r as int) + old(self).bytes().subrange(
                r as int,
                old(self).bytes().len() as int,
            ),
    {
        let ghost bs0 = self.bufs();
        let ghost flat0 = self.bytes();
        let total = self.len();
        let len = if total <= buff.len() { total } else { buff.len() };
        let mut current: usize = 0;
        let mut i: usize = 0;
        proof {
            lemma_flatten(bs0);
            assert(self.bytes() =~= buff@.subrange(0, 0) + flat0.subrange(0, total as int));
        }
        while i < self.buffers.len()
            invariant
                i <= self.bufs().len(),
                same_shape(self.bufs(), bs0),
                bs0 == old(self).bufs(),
                flat0 == flatten(bs0),
                total == flat0.len(),
                flat0.len() == offset(bs0, bs0.len() as int),
                len <= total,
                len <= buff@.len(),
                len == 0 ==> total == 0,
                len > 0 ==> current < len,
                current == offset(bs0, i as int),
                self.bytes() == buff@.subrange(0, current as int) + flat0.subrange(current as int, total as int),
                len == if total <= buff@.len() { total as int } else { buff@.len() as int },
            decreases bs0.len() - i,
        {
            let sblen = self.buffers[i].len();
            let mut j: usize = 0;
            proof {
                lemma_offset(bs0, bs0, bs0.len() as int);
                assert(offset(bs0, i + 1) == offset(bs0, i as int) + bs0[i as int].len());
                assert(offset(bs0, i + 1) <= offset(bs0, bs0.len() as int));
                assert(self.bufs()[i as int].len() == bs0[i as int].len());
                lemma_offset(bs0, bs0, i as int);
            }
            while j < sblen
                invariant
                    i < self.bufs().len(),
                    sblen == self.bufs()[i as int].len(),
                    same_shape(self.bufs(), bs0),
                    bs0 == old(self).bufs(),
                    flat0 == flatten(bs0),
                    total == flat0.len(),
                    len <= total,
                    len <= buff@.len(),
                    len == 0 ==> total == 0,
                    len > 0 ==> current < len,
                    j <= sblen,
                    current == offset(bs0, i as int) + j,
                    offset(bs0, i as int) + sblen <= total,
                    self.bytes() == buff@.subrange(0, current as int) + flat0.subrange(current as int, total as int),
                    len == if total <= buff@.len() { total as int } else { buff@.len() as int },
                decreases sblen - j,
            {
                let ghost before = self.bytes();
                let ghost bsb = self.bufs();
                proof {
                    lemma_same_shape_len(bsb, bs0);
                    assert(offset(bsb, i as int) == offset(bs0, i as int));
                    assert(bsb[i as int].len() == bs0[i as int].len());
                }
                self.set_byte(i, j, buff[current]);
                proof {
                    assert(self.bytes() =~= buff@.subrange(0, current + 1) + flat0.subrange(current + 1, total as int));
                }
                current = current + 1;
                if current == len {
                    return len;
                }
                j = j + 1;
            }
            i = i + 1;
        }
        proof {
            lemma_same_shape_len(self.bufs(), bs0);
        }
        len
    }

    /// Sets every byte to zero.
    pub fn clear(&mut self)
        requires
            old(self).bytes().len() <= usize::MAX,
        ensures
            same_shape(final(self).bufs(), old(self).bufs()),
            final(self).bytes() == Seq::new(old(self).bytes().len(), |k: int| 0u8),
    {
        let ghost bs0 = self.bufs();
        let ghost flat0 = self.bytes();
        let ghost total = flat0.len();
        proof {
            lemma_flatten(bs0);
        }
        let mut i: usize = 0;
        while i < self.buffers.len()
            invariant
                i <= self.bufs().len(),
                same_shape(self.bufs(), bs0),
                bs0 == old(self).bufs(),
                total == flat0.len(),
                flat0.len() == offset(bs0, bs0.len() as int),
                self.bytes().len() == total,
                forall|k: int| 0 <= k < offset(bs0, i as int) ==> self.bytes()[k] == 0,
                forall|k: int| offset(bs0, i as int) <= k < total ==> self.bytes()[k] == flat0[k],
            decreases bs0.len() - i,
        {
            let sblen = self.buffers[i].len();
            let mut j: usize = 0;
            proof {
                lemma_offset(bs0, bs0, bs0.len() as int);
                assert(offset(bs0, i + 1) == offset(bs0, i as int) + bs0[i as int].len());
                assert(offset(bs0, i + 1) <= offset(bs0, bs0.len() as int));
                assert(self.bufs()[i as int].len() == bs0[i as int].len());
                lemma_offset(bs0, bs0, i as int);
            }
            while j < sblen
                invariant
                    i < self.bufs().len(),
                    sblen == self.bufs()[i as int].len(),
                    same_shape(self.bufs(), bs0),
                    bs0 == old(self).bufs(),
                    total == flat0.len(),
                    j <= sblen,
                    offset(bs0, i as int) >= 0,
                    offset(bs0, i as int) + sblen <= total,
                    self.bytes().len() == total,
                    forall|k: int| 0 <= k < offset(bs0, i as int) + j ==> self.bytes()[k] == 0,
                    forall|k: int| offset(bs0, i as int) + j <= k < total ==> self.bytes()[k] == flat0[k],
                decreases sblen - j,
            {
                let ghost bsb = self.bufs();
                proof {
                    lemma_same_shape_len(bsb, bs0);
                    assert(offset(bsb, i as int) == offset(bs0, i as int));
                    assert(bsb[i as int].len() == bs0[i as int].len());
                }
                let ghost pre = self.bytes();
                self.set_byte(i, j, 0);
                proof {
                    assert(pre.len() == total);
                    assert(offset(bs0, i as int) + j < total);
                    assert(self.bytes() == pre.update(offset(bs0, i as int) + j, 0u8));
                    assert(self.bytes().len() == total);
                }
                j = j + 1;
            }
            proof {
                assert(offset(bs0, i + 1) == offset(bs0, i as int) + sblen);
            }
            i = i + 1;
        }
        assert(self.bytes() =~= Seq::new(total, |k: int| 0u8));
    }

    /// Copies the first bytes of the buffer into `buff`, as many as both have, and returns how
    /// many were copied. When `buff` is empty, the buffer must hold no byte.
    pub fn read(&self, buff: &mut [u8]) -> (r: usize)
        requires
            self.bytes().len() <= usize::MAX,
            old(buff)@.len() > 0 || self.bytes().len() == 0,
        ensures
            r == if self.bytes().len() <= old(buff)@.len() {
                self.bytes().len() as int
            } else {
                old(buff)@.len() as int
            },
            final(buff)@ == self.bytes().subrange(0, r as int) + old(buff)@.subrange(r as int, old(buff)@.len() as int),
    {
        let ghost bs0 = self.bufs();
        let ghost flat0 = self.bytes();
        let ghost b0 = buff@;
        let total = self.len();
        let len = if total <= buff.len() { total } else { buff.len() };
        let mut current: usize = 0;
        let mut i: usize = 0;
        proof {
            lemma_flatten(bs0);
            assert(buff@ =~= flat0.subrange(0, 0) + b0.subrange(0, b0.len() as int));
        }
        while i < self.buffers.len()
            invariant
                bs0 == self.bufs(),
                flat0 == flatten(bs0),
                i <= bs0.len(),
                total == flat0.len(),
                flat0.len() == offset(bs0, bs0.len() as int),
                forall|a: int, b: int| #![trigger bs0[a][b]] 0 <= a < bs0.len() && 0 <= b < bs0[a].len() ==> flat0[offset(bs0, a) + b] == bs0[a][b],
                len <= total,
                len <= b0.len(),
                buff@.len() == b0.len(),
                b0 == old(buff)@,
                len == 0 ==> total == 0,
                len > 0 ==> current < len,
                current == offset(bs0, i as int),
                buff@ == flat0.subrange(0, current as int) + b0.subrange(current as int, b0.len() as int),
                len == if total <= b0.len() { total as int } else { b0.len() as int },
            decreases bs0.len() - i,
        {
            let sblen = self.buffers[i].len();
            let mut j: usize = 0;
            proof {
                lemma_offset(bs0, bs0, bs0.len() as int);
                assert(offset(bs0, i + 1) == offset(bs0, i as int) + bs0[i as int].len());
                assert(offset(bs0, i + 1) <= offset(bs0, bs0.len() as int));
                assert(self.bufs()[i as int].len() == bs0[i as int].len());
                lemma_offset(bs0, bs0, i as int);
            }
            while j < sblen
                invariant
                    bs0 == self.bufs(),
                    flat0 == flatten(bs0),
                    i < bs0.len(),
                    sblen == bs0[i as int].len(),
                    forall|a: int, b: int| #![trigger bs0[a][b]] 0 <= a < bs0.len() && 0 <= b < bs0[a].len() ==> flat0[offset(bs0, a) + b] == bs0[a][b],
                    total == flat0.len(),
                    len <= total,
                    len <= b0.len(),
                    buff@.len() == b0.len(),
                    b0 == old(buff)@,
                    len == 0 ==> total == 0,
                    len > 0 ==> current < len,
                    j <= sblen,
                    current == offset(bs0, i as int) + j,
                    offset(bs0, i as int) + sblen <= total,
                    buff@ == flat0.subrange(0, current as int) + b0.subrange(current as int, b0.len() as int),
                    len == if total <= b0.len() { total as int } else { b0.len() as int },
                decreases sblen - j,
            {
                let x = self.buffers[i][j];
                assert(x == flat0[current as int]) by {
                    assert(bs0[i as int][j as int] == x);
                }
                buff[current] = x;
                proof {
                    assert(buff@ =~= flat0.subrange(0, current + 1) + b0.subrange(current + 1, b0.len() as int));
                }
                current = current + 1;
                if current == len {
                    return len;
                }
                j = j + 1;
            }
            i = i + 1;
        }
        len
    }

    /// Appends every byte of the buffer to `vec` and returns how many there are; `vlen` is not
    /// used.
    pub fn read_as_vec(&self, vec: &mut Vec<u8>, vlen: usize) -> (r: usize)
        requires
            self.bytes().len() <= usize::MAX,
        ensures
            r == self.bytes().len(),
            final(vec)@ == old(vec)@ + self.bytes(),
    {
        let ghost bs0 = self.bufs();
        let ghost flat0 = self.bytes();
        let ghost v0 = vec@;
        let len = self.len();
        let mut current: usize = 0;
        let mut i: usize = 0;
        proof {
            lemma_flatten(bs0);
            assert(vec@ =~= v0 + flat0.subrange(0, 0));
        }
        while i < self.buffers.len()
            invariant
                bs0 == self.bufs(),
                flat0 == flatten(bs0),
                i <= bs0.len(),
                len == flat0.len(),
                flat0.len() == offset(bs0, bs0.len() as int),
                forall|a: int, b: int| #![trigger bs0[a][b]] 0 <= a < bs0.len() && 0 <= b < bs0[a].len() ==> flat0[offset(bs0, a) + b] == bs0[a][b],
                current == offset(bs0, i as int),
                current <= len,
                v0 == old(vec)@,
                vec@ == v0 + flat0.subrange(0, current as int),
            decreases bs0.len() - i,
        {
            let sblen = self.buffers[i].len();
            let mut j: usize = 0;
            proof {
                lemma_offset(bs0, bs0, bs0.len() as int);
                assert(offset(bs0, i + 1) == offset(bs0, i as int) + bs0[i as int].len());
                assert(offset(bs0, i + 1) <= offset(bs0, bs0.len() as int));
                assert(self.bufs()[i as int].len() == bs0[i as int].len());
                lemma_offset(bs0, bs0, i as int);
            }
            while j < sblen
                invariant
                    bs0 == self.bufs(),
                    flat0 == flatten(bs0),
                    i < bs0.len(),
                    sblen == bs0[i as int].len(),
                    forall|a: int, b: int| #![trigger bs0[a][b]] 0 <= a < bs0.len() && 0 <= b < bs0[a].len() ==> flat0[offset(bs0, a) + b] == bs0[a][b],
                    len == flat0.len(),
                    j <= sblen,
                    current == offset(bs0, i as int) + j,
                    offset(bs0, i as int) + sblen <= len,
                    v0 == old(vec)@,
                    vec@ == v0 + flat0.subrange(0, current as int),
                decreases sblen - j,
            {
                let x = self.buffers[i][j];
                assert(x == flat0[current as int]) by {
                    assert(bs0[i as int][j as int] == x);
                }
                vec.push(x);
                proof {
                    assert(vec@ =~= v0 + flat0.subrange(0, current + 1));
                }
                current = current + 1;
                if current == len {
                    assert(flat0.subrange(0, len as int) =~= flat0);
                    return len;
                }
                j = j + 1;
            }
            i = i + 1;
        }
        assert(flat0.subrange(0, current as int) =~= flat0);
        len
    }
}


/// Index of the first buffer at or after `from` that holds at least `off` bytes, or the number
/// of buffers if there is none.
pub open spec fn first_fit(bs: Seq<Seq<u8>>, off: int, from: int) -> int
    decreases bs.len() - from,
{
    if from >= bs.len() || from < 0 {
        bs.len() as int
    } else if bs[from].len() >= off {
        from
    } else {
        first_fit(bs, off, from + 1)
    }
}

/// Properties of `first_fit`: it lies between `from` and the number of buffers, every buffer
/// before it is shorter than `off`, and the buffer it names holds at least `off` bytes.
pub proof fn lemma_first_fit(bs: Seq<Seq<u8>>, off: int, from: int)
    requires
        0 <= from <= bs.len(),
    ensures
        from <= first_fit(bs, off, from) <= bs.len(),
        forall|i: int| from <= i < first_fit(bs, off, from) ==> #[trigger] bs[i].len() < off,
        first_fit(bs, off, from) < bs.len() ==> bs[first_fit(bs, off, from)].len() >= off,
    decreases bs.len() - from,
{
    if from < bs.len() && bs[from].len() < off {
        lemma_first_fit(bs, off, from + 1);
    }
}

/// Position in the whole run where `write_at(off, ..)` starts writing: `off` bytes into the
/// first buffer that holds at least `off` bytes (the buffers before it are skipped without
/// counting their bytes); `None` if no buffer is that long.
pub open spec fn write_at_start(bs: Seq<Seq<u8>>, off: int) -> Option<int> {
    let k = first_fit(bs, off, 0);
    if k < bs.len() {
        Some(offset(bs, k) + off)
    } else {
        None
    }
}

impl UserBuffer {
    /// Writes `buff` from offset `off`; returns -1 and writes nothing when `off` plus the length
    /// of `buff` is beyond the buffer's length. Otherwise writing starts `off` bytes into the
    /// first byte buffer that holds at least `off` bytes (the shorter buffers before it are
    /// skipped and their bytes not counted) and goes on through the following buffers; it
    /// returns the length of `buff` if all of it was written, else 0. An empty `buff` must not
    /// meet a byte to write.
    pub fn write_at(&mut self, off: usize, buff: &[u8]) -> (r: isize)
        requires
            old(self).bytes().len() <= usize::MAX,
            off + buff@.len() <= usize::MAX,
            buff@.len() == 0 ==> (write_at_start(old(self).bufs(), off as int) matches Some(s) ==> s
                >= old(self).bytes().len()),
        ensures
            same_shape(final(self).bufs(), old(self).bufs()),
            off + buff@.len() > old(self).bytes().len() ==> r == -1 && final(self).bytes() == old(self).bytes(),
            off + buff@.len() <= old(self).bytes().len() ==> match write_at_start(old(self).bufs(), off as int) {
                None => r == 0 && final(self).bytes() == old(self).bytes(),
                Some(s) => {
                    let t = old(self).bytes().len() as int;
                    let n = if s + buff@.len() <= t {
                        buff@.len() as int
                    } else {
                        t - s
                    };
                    &&& final(self).bytes() == old(self).bytes().subrange(0, s) + buff@.subrange(0, n)
                        + old(self).bytes().subrange(s + n, t)
                    &&& r == if s + buff@.len() <= t {
                        buff@.len() as isize
                    } else {
                        0isize
                    }
                },
            },
    {
        let ghost bs0 = self.bufs();
        let ghost flat0 = self.bytes();
        let len = buff.len();
        let total = self.len();
        proof {
            lemma_flatten(bs0);
            lemma_first_fit(bs0, off as int, 0);
            lemma_offset(bs0, bs0, bs0.len() as int);
        }
        if off + len > total {
            return -1;
        }
        let ghost k = first_fit(bs0, off as int, 0);
        let ghost s = offset(bs0, k) + off;
        proof {
            if k < bs0.len() {
                lemma_offset(bs0, bs0, k);
                assert(offset(bs0, k + 1) == offset(bs0, k) + bs0[k].len());
                assert(offset(bs0, k + 1) <= offset(bs0, bs0.len() as int));
            }
        }
        let mut head: usize = 0;
        let mut current: usize = 0;
        let mut i: usize = 0;
        while i < self.buffers.len()
            invariant
                bs0 == old(self).bufs(),
                flat0 == flatten(bs0),
                flat0 == old(self).bytes(),
                total == flat0.len(),
                total == offset(bs0, bs0.len() as int),
                forall|l: int| 0 <= l <= bs0.len() ==> #[trigger] offset(bs0, l) <= offset(bs0, bs0.len() as int),
                len == buff@.len(),
                off + len <= total,
                len == 0 ==> (k < bs0.len() ==> s >= total),
                k == first_fit(bs0, off as int, 0),
                0 <= k <= bs0.len(),
                forall|a: int| 0 <= a < k ==> #[trigger] bs0[a].len() < off,
                k < bs0.len() ==> bs0[k].len() >= off,
                k < bs0.len() ==> s == offset(bs0, k) + off && s <= total,
                i <= bs0.len(),
                same_shape(self.bufs(), bs0),
                head <= offset(bs0, i as int),
                i <= k ==> head == 0 && current == 0 && self.bytes() == flat0,
                i > k ==> k < bs0.len() && head == offset(bs0, i as int) - offset(bs0, k) && head >= off
                    && current == offset(bs0, i as int) - s && (len > 0 ==> current < len) && current + s <= total
                    && self.bytes() == flat0.subrange(0, s) + buff@.subrange(0, current as int)
                    + flat0.subrange(s + current, total as int),
            decreases bs0.len() - i,
        {
            let sblen = self.buffers[i].len();
            proof {
                lemma_offset(bs0, bs0, i as int);
                assert(self.bufs()[i as int].len() == bs0[i as int].len());
                assert(offset(bs0, i + 1) == offset(bs0, i as int) + bs0[i as int].len());
                assert(offset(bs0, i + 1) <= offset(bs0, bs0.len() as int));
            }
            if head + sblen < off {
                assert(i < k) by {
                    if i == k {
                        assert(bs0[k].len() >= off);
                    }
                }
            } else {
                let ghost c0 = current;
                let mut j: usize = if head < off { off - head } else { 0 };
                proof {
                    if i <= k {
                        assert(i == k) by {
                            if i < k {
                                assert(bs0[i as int].len() < off);
                            }
                        }
                        assert(j == off);
                        assert(current + s == offset(bs0, i as int) + j);
                        assert(self.bytes() =~= flat0.subrange(0, s) + buff@.subrange(0, 0) + flat0.subrange(s, total as int));
                    } else {
                        assert(j == 0);
                    }
                }
                while j < sblen
                    invariant
                        bs0 == old(self).bufs(),
                        flat0 == flatten(bs0),
                        flat0 == old(self).bytes(),
                        off + len <= total,
                        k == first_fit(bs0, off as int, 0),
                        total == flat0.len(),
                        len == buff@.len(),
                        i < bs0.len(),
                        i >= k,
                        k < bs0.len(),
                        sblen == bs0[i as int].len(),
                        same_shape(self.bufs(), bs0),
                        j <= sblen,
                        offset(bs0, i as int) >= 0,
                        offset(bs0, i as int) + sblen <= total,
                        s == offset(bs0, k) + off,
                        s <= total,
                        current + s == offset(bs0, i as int) + j,
                        len == 0 ==> s >= total,
                        len > 0 ==> current < len,
                        self.bytes() == flat0.subrange(0, s) + buff@.subrange(0, current as int)
                            + flat0.subrange(s + current, total as int),
                    decreases sblen - j,
                {
                    let ghost bsb = self.bufs();
                    proof {
                        lemma_same_shape_len(bsb, bs0);
                        assert(offset(bsb, i as int) == offset(bs0, i as int));
                        assert(bsb[i as int].len() == bs0[i as int].len());
                    }
                    self.set_byte(i, j, buff[current]);
                    proof {
                        assert(self.bytes() =~= flat0.subrange(0, s) + buff@.subrange(0, current + 1)
                            + flat0.subrange(s + current + 1, total as int));
                    }
                    current = current + 1;
                    if current == len {
                        return len as isize;
                    }
                    j = j + 1;
                }
                head = head + sblen;
            }
            i = i + 1;
        }
        proof {
            lemma_same_shape_len(self.bufs(), bs0);
            if k < bs0.len() {
                assert(current + s == total);
                assert(self.bytes() =~= flat0.subrange(0, s) + buff@.subrange(0, total - s)
                    + flat0.subrange(total as int, total as int));
            }
        }
        0
    }
}


/// Reading after a write gives back what was written: once `write(buff)` has copied `n` bytes
/// (the smaller of the two lengths), the first `n` bytes of the buffer are those of `buff`,
/// the rest are as before, and the length is unchanged.
pub proof fn lemma_write_then_read(before: UserBuffer, after: UserBuffer, buff: Seq<u8>, n: int)
    requires
        n == if before.bytes().len() <= buff.len() {
            before.bytes().len() as int
        } else {
            buff.len() as int
        },
        same_shape(after.bufs(), before.bufs()),
        after.bytes() == buff.subrange(0, n) + before.bytes().subrange(n, before.bytes().len() as int),
    ensures
        after.bytes().len() == before.bytes().len(),
        after.bytes().subrange(0, n) == buff.subrange(0, n),
        after.bytes().subrange(n, after.bytes().len() as int) == before.bytes().subrange(
            n,
            before.bytes().len() as int,
        ),
{
    lemma_same_shape_len(after.bufs(), before.bufs());
    assert(after.bytes().subrange(0, n) =~= buff.subrange(0, n));
    assert(after.bytes().subrange(n, after.bytes().len() as int) =~= before.bytes().subrange(
        n,
        before.bytes().len() as int,
    ));
}

/// Walks the bytes of a user buffer one by one, giving the position of each: the index of
/// its byte buffer and its index there.
pub struct UserBufferIterator {
    buffers: Vec<Vec<u8>>,
    current_buffer: usize,
    current_idx: usize,
}

impl UserBuffer {
    /// An iterator over the bytes of the buffer, starting at the first.
    pub fn into_iter(self) -> (r: UserBufferIterator)
        ensures
            r.bufs() == self.bufs(),
            r.cursor() == (0int, 0int),
    {
        UserBufferIterator { buffers: self.buffers, current_buffer: 0, current_idx: 0 }
    }
}

impl UserBufferIterator {
    /// The byte buffers walked.
    pub closed spec fn bufs(&self) -> Seq<Seq<u8>> {
        self.buffers@.map_values(|b: Vec<u8>| b@)
    }

    /// The position of the next byte: buffer index and index in that buffer.
    pub closed spec fn cursor(&self) -> (int, int) {
        (self.current_buffer as int, self.current_idx as int)
    }

    /// The position of the next byte, if any, and a step past it: to the next byte of the
    /// same buffer, or to the start of the next buffer after its last byte. The buffer under
    /// the cursor must hold the byte the cursor names.
    pub fn next(&mut self) -> (r: Option<(usize, usize)>)
        requires
            old(self).cursor().0 < old(self).bufs().len() ==> old(self).cursor().1 < old(
                self,
            ).bufs()[old(self).cursor().0].len(),
        ensures
            final(self).bufs() == old(self).bufs(),
            ({
                let (b, i) = old(self).cursor();
                if b >= old(self).bufs().len() {
                    r == None::<(usize, usize)> && final(self).cursor() == old(self).cursor()
                } else {
                    &&& r == Some((b as usize, i as usize))
                    &&& final(self).cursor() == if i + 1 == old(self).bufs()[b].len() {
                        (b + 1, 0int)
                    } else {
                        (b, i + 1)
                    }
                }
            }),
    {
        if self.current_buffer >= self.buffers.len() {
            None
        } else {
            let r = (self.current_buffer, self.current_idx);
            assert(self.buffers@[self.current_buffer as int]@ == self.bufs()[self.current_buffer as int]);
            assert(self.current_idx < self.buffers@[self.current_buffer as int]@.len());
            let blen = self.buffers[self.current_buffer].len();
            if self.current_idx + 1 == blen {
                self.current_idx = 0;
                self.current_buffer = self.current_buffer + 1;
            } else {
                self.current_idx = self.current_idx + 1;
            }
            Some(r)
        }
    }
}


/// The pieces, one per page, of the user range `[start, end)`: each is (address, length) and
/// runs to the end of its page or to `end`, whichever comes first.
pub open spec fn page_pieces(start: int, end: int) -> Seq<(int, int)>
    decreases end - start,
{
    if start >= end || start < 0 {
        Seq::empty()
    } else {
        let next = (start / 4096 + 1) * 4096;
        let stop = if next < end {
            next
        } else {
            end
        };
        seq![(start, stop - start)] + page_pieces(stop, end)
    }
}

/// Splits the user range of `len` bytes at `start` at page boundaries, as the pieces to
/// translate one page at a time. The last page touched must not be the last page of the
/// address space.
pub fn split_user_range(start: usize, len: usize) -> (r: Vec<(usize, usize)>)
    requires
        len == 0 || start + len <= usize::MAX - (crate::config::PAGE_SIZE - 1),
    ensures
        r@.map_values(|p: (usize, usize)| (p.0 as int, p.1 as int)) == page_pieces(start as int, start + len),
{
    let ghost whole = page_pieces(start as int, start + len);
    let mut v: Vec<(usize, usize)> = Vec::new();
    if len == 0 {
        assert(v@.map_values(|p: (usize, usize)| (p.0 as int, p.1 as int)) =~= whole);
        return v;
    }
    let end = start + len;
    let mut cur = start;
    proof {
        assert(v@.map_values(|p: (usize, usize)| (p.0 as int, p.1 as int)) + page_pieces(cur as int, end as int) =~= whole);
    }
    while cur < end
        invariant
            start <= cur <= end,
            end == start + len,
            end <= usize::MAX - (crate::config::PAGE_SIZE - 1),
            v@.map_values(|p: (usize, usize)| (p.0 as int, p.1 as int)) + page_pieces(cur as int, end as int) == whole,
        decreases end - cur,
    {
        let ghost before = v@.map_values(|p: (usize, usize)| (p.0 as int, p.1 as int));
        let vpn = cur / 4096;
        let next = (vpn + 1) * 4096;
        let stop = if next < end {
            next
        } else {
            end
        };
        v.push((cur, stop - cur));
        proof {
            assert(v@.map_values(|p: (usize, usize)| (p.0 as int, p.1 as int)) =~= before.push((cur as int, stop - cur)));
            assert(page_pieces(cur as int, end as int) == seq![(cur as int, stop - cur)] + page_pieces(stop as int, end as int));
            assert(before + page_pieces(cur as int, end as int) =~= before.push((cur as int, stop - cur)) + page_pieces(
                stop as int,
                end as int,
            ));
        }
        cur = stop;
    }
    proof {
        assert(page_pieces(cur as int, end as int) =~= Seq::<(int, int)>::empty());
        assert(v@.map_values(|p: (usize, usize)| (p.0 as int, p.1 as int)) =~= whole);
    }
    v
}

/// The pieces of a range lie one after the other from its start, each inside one page and
/// not empty, and together they cover the range.
pub proof fn lemma_page_pieces(start: int, end: int)
    requires
        0 <= start,
    ensures
        ({
            let ps = page_pieces(start, end);
            &&& forall|i: int| 0 <= i < ps.len() ==> 0 < (#[trigger] ps[i]).1 <= 4096 - ps[i].0 % 4096
            &&& ps.len() > 0 ==> ps[0].0 == start
            &&& forall|i: int| 1 <= i < ps.len() ==> #[trigger] ps[i].0 == ps[i - 1].0 + ps[i - 1].1
            &&& ps.len() > 0 ==> ps.last().0 + ps.last().1 == end
            &&& start >= end ==> ps.len() == 0
        }),
    decreases end - start,
{
    if start < end {
        let next = (start / 4096 + 1) * 4096;
        let stop = if next < end {
            next
        } else {
            end
        };
        lemma_page_pieces(stop, end);
        let rest = page_pieces(stop, end);
        let ps = page_pieces(start, end);
        assert(ps == seq![(start, stop - start)] + rest);
        assert forall|i: int| 1 <= i < ps.len() implies #[trigger] ps[i].0 == ps[i - 1].0 + ps[i - 1].1 by {
            assert(ps[i] == rest[i - 1]);
            if i > 1 {
                assert(ps[i - 1] == rest[i - 2]);
                assert(rest[i - 1].0 == rest[i - 2].0 + rest[i - 2].1);
            }
        }
        assert forall|i: int| 0 <= i < ps.len() implies 0 < (#[trigger] ps[i]).1 <= 4096 - ps[i].0 % 4096 by {
            if i > 0 {
                assert(ps[i] == rest[i - 1]);
            }
        }
    }
}

} // verus!
