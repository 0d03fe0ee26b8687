//! The kernel's log: one page whose first word counts the bytes in use (the count starts at 4),
//! followed by the logged bytes, and the three log services offered to the outer kernel.

use vstd::prelude::*;
use crate::config::PAGE_SIZE;
use crate::pkcs::primitives::{sha3_256, sha3_256_digest, words_text, words_text_bytes};

verus! {

/// The `n` low bytes of `c`, least significant first: how a word is laid out in memory.
pub open spec fn le_bytes(c: nat, n: nat) -> Seq<u8>
    decreases n,
{
    if n == 0 {
        Seq::empty()
    } else {
        seq![(c % 256) as u8] + le_bytes(c / 256, (n - 1) as nat)
    }
}

/// A word laid out in `n` bytes takes `n` bytes.
pub proof fn lemma_le_bytes_len(c: nat, n: nat)
    ensures
        le_bytes(c, n).len() == n,
    decreases n,
{
    if n > 0 {
        lemma_le_bytes_len(c / 256, (n - 1) as nat);
    }
}

/// The page after `data` was copied to offset `cur` and the count word was set to the new end.
/// The count word overlaps offsets 0 to 7, so it covers any logged byte that was placed there.
pub open spec fn appended(page: Seq<u8>, cur: nat, data: Seq<u8>) -> Seq<u8> {
    let written = page.subrange(0, cur as int) + data + page.subrange((cur + data.len()) as int, page.len() as int);
    le_bytes(cur + data.len(), 8) + written.subrange(8, page.len() as int)
}

/// What `append` does with a request.
#[derive(Clone, Copy, PartialEq, Eq, Structural, Debug)]
pub enum AppendVerdict {
    /// The source address lies inside the kernel's own space: nothing is done.
    Ignored,
    /// The bytes would not fit in the page: nothing is logged, a warning is due.
    Full,
    /// The bytes are logged.
    Accepted,
}

/// The verdict on logging `len` bytes from `ptr` when `cur` bytes of the page are in use.
pub open spec fn append_verdict_of(cur: nat, ptr: usize, len: usize, space_end: usize) -> AppendVerdict {
    if ptr < space_end {
        AppendVerdict::Ignored
    } else if cur + len >= PAGE_SIZE {
        AppendVerdict::Full
    } else {
        AppendVerdict::Accepted
    }
}

/// The log page.
pub struct LogFrame {
    page: Vec<u8>,
    current: usize,
}

impl LogFrame {
    /// The bytes of the page.
    pub closed spec fn page(&self) -> Seq<u8> {
        self.page@
    }

    /// The count held in the page's first word.
    pub closed spec fn current(&self) -> nat {
        self.current as nat
    }

    /// The page has its full size, its first word holds the count, and the count lies
    /// between 4 and the page size.
    pub closed spec fn wf(&self) -> bool {
        &&& self.page@.len() == PAGE_SIZE
        &&& self.page@.subrange(0, 8) == le_bytes(self.current as nat, 8)
        &&& 4 <= self.current < PAGE_SIZE
    }

    /// Sets the page's first word to `c`.
    fn write_count(&mut self, c: usize)
        requires
            old(self).page@.len() == PAGE_SIZE,
        ensures
            final(self).page@ == le_bytes(c as nat, 8) + old(self).page@.subrange(8, PAGE_SIZE as int),
            final(self).current == old(self).current,
    {
        let ghost p0 = self.page@;
        let mut v: usize = c;
        let mut i: usize = 0;
        proof {
            assert(self.page@.subrange(0, 0) + le_bytes(v as nat, 8) =~= le_bytes(c as nat, 8));
        }
        while i < 8
            invariant
                i <= 8,
                self.page@.len() == PAGE_SIZE,
                self.current == old(self).current,
                self.page@.subrange(0, i as int) + le_bytes(v as nat, (8 - i) as nat) == le_bytes(c as nat, 8),
                self.page@.subrange(8, PAGE_SIZE as int) == p0.subrange(8, PAGE_SIZE as int),
            decreases 8 - i,
        {
            let ghost before = self.page@;
            let b = (v % 256) as u8;
            self.page.set(i, b);
            proof {
                assert(self.page@.subrange(0, i + 1) =~= before.subrange(0, i as int).push(b));
                assert(le_bytes(v as nat, (8 - i) as nat) == seq![b] + le_bytes((v / 256) as nat, (8 - i - 1) as nat));
                assert(self.page@.subrange(0, i + 1) + le_bytes((v / 256) as nat, (8 - i - 1) as nat)
                    =~= before.subrange(0, i as int) + le_bytes(v as nat, (8 - i) as nat));
                assert(self.page@.subrange(8, PAGE_SIZE as int) =~= before.subrange(8, PAGE_SIZE as int));
            }
            v = v / 256;
            i = i + 1;
        }
        assert(le_bytes(v as nat, 0) =~= Seq::<u8>::empty());
        assert(self.page@.subrange(0, 8) + Seq::<u8>::empty() =~= self.page@.subrange(0, 8));
        assert(self.page@ =~= self.page@.subrange(0, 8) + self.page@.subrange(8, PAGE_SIZE as int));
    }

    /// Takes `page` as the log page and sets its count to 4.
    pub fn init(page: Vec<u8>) -> (r: LogFrame)
        requires
            page@.len() == PAGE_SIZE,
        ensures
            r.wf(),
            r.current() == 4,
            r.page() == le_bytes(4, 8) + page@.subrange(8, PAGE_SIZE as int),
    {
        let mut f = LogFrame { page, current: 4 };
        f.write_count(4);
        proof {
            lemma_le_bytes_len(4, 8);
            assert(f.page@.subrange(0, 8) =~= le_bytes(4, 8));
        }
        f
    }

    /// The bytes of the page.
    pub fn bytes(&self) -> (r: &Vec<u8>)
        ensures
            r@ == self.page(),
    {
        &self.page
    }

    /// Number of bytes of the page in use, count word included.
    pub fn current_len(&self) -> (r: usize)
        requires
            self.wf(),
        ensures
            r == self.current(),
    {
        self.current
    }

    /// What logging `len` bytes from address `ptr` would do; addresses below `space_end` belong
    /// to the kernel itself.
    pub fn append_verdict(&self, ptr: usize, len: usize, space_end: usize) -> (r: AppendVerdict)
        requires
            self.wf(),
        ensures
            r == append_verdict_of(self.current(), ptr, len, space_end),
    {
        if ptr < space_end {
            AppendVerdict::Ignored
        } else if len >= PAGE_SIZE - self.current {
            AppendVerdict::Full
        } else {
            AppendVerdict::Accepted
        }
    }

    /// Logs `data`, read from address `ptr`, after the bytes in use, when the verdict allows
    /// it, and returns the verdict.
    pub fn append(&mut self, ptr: usize, data: &[u8], space_end: usize) -> (r: AppendVerdict)
        requires
            old(self).wf(),
        ensures
            final(self).wf(),
            r == append_verdict_of(old(self).current(), ptr, data@.len() as usize, space_end),
            r == AppendVerdict::Accepted ==> final(self).current() == old(self).current() + data@.len()
                && final(self).page() == appended(old(self).page(), old(self).current(), data@),
            r != AppendVerdict::Accepted ==> final(self).current() == old(self).current()
                && final(self).page() == old(self).page(),
    {
        let verdict = self.append_verdict(ptr, data.len(), space_end);
        if verdict != AppendVerdict::Accepted {
            return verdict;
        }
        let ghost p0 = self.page@;
        let ghost cur = self.current as int;
        let n = data.len();
        let mut a: usize = 0;
        while a < n
            invariant
                a <= n,
                n == data@.len(),
                cur + n < PAGE_SIZE,
                cur == self.current,
                4 <= cur,
                p0.len() == PAGE_SIZE,
                self.page@.len() == PAGE_SIZE,
                self.page@ == p0.subrange(0, cur) + data@.subrange(0, a as int) + p0.subrange(cur + a, PAGE_SIZE as int),
            decreases n - a,
        {
            let ghost before = self.page@;
            self.page.set(self.current + a, data[a]);
            proof {
                assert(self.page@ =~= p0.subrange(0, cur) + data@.subrange(0, a + 1) + p0.subrange(
                    cur + a + 1,
                    PAGE_SIZE as int,
                ));
            }
            a = a + 1;
        }
        let ghost written = self.page@;
        assert(data@.subrange(0, n as int) =~= data@);
        let c = self.current + n;
        self.write_count(c);
        self.current = c;
        proof {
            lemma_le_bytes_len(c as nat, 8);
            assert(self.page@.subrange(0, 8) =~= le_bytes(c as nat, 8));
        }
        verdict
    }

    /// The logged bytes: those from offset 4 up to the count.
    pub fn printall(&self) -> (r: Vec<u8>)
        requires
            self.wf(),
        ensures
            r@ == self.page().subrange(4, self.current() as int),
    {
        let mut out: Vec<u8> = Vec::new();
        let mut a: usize = 4;
        while a < self.current
            invariant
                self.wf(),
                4 <= a <= self.current,
                out@ == self.page@.subrange(4, a as int),
            decreases self.current - a,
        {
            out.push(self.page[a]);
            a = a + 1;
            assert(out@ =~= self.page@.subrange(4, a as int));
        }
        out
    }

    /// The digest served to a reader at `out_ptr`, whose first byte is `out_byte`: `None` when
    /// the address belongs to the kernel itself (below `space_end`), else the SHA3-256 digest of
    /// the decimal text of `out_byte` written once per logged byte.
    pub fn gethash(&self, out_ptr: usize, out_byte: u8, space_end: usize) -> (r: Option<[u8; 32]>)
        requires
            self.wf(),
        ensures
            out_ptr < space_end ==> r.is_none(),
            out_ptr >= space_end ==> r.is_some() && r.unwrap()@ == sha3_256_digest(
                words_text(Seq::new((self.current() - 4) as nat, |i: int| out_byte as usize)),
            ),
    {
        if out_ptr < space_end {
            return None;
        }
        let n = self.current - 4;
        let mut ws: Vec<usize> = Vec::new();
        let mut a: usize = 0;
        while a < n
            invariant
                a <= n,
                ws@ == Seq::new(a as nat, |i: int| out_byte as usize),
            decreases n - a,
        {
            ws.push(out_byte as usize);
            a = a + 1;
            assert(ws@ =~= Seq::new(a as nat, |i: int| out_byte as usize));
        }
        let text = words_text_bytes(&ws);
        Some(sha3_256(text.as_slice()))
    }
}

/// A request of the outer kernel to the log.
#[derive(Clone, Copy, PartialEq, Eq, Structural, Debug)]
pub enum LogRequest {
    /// Log `data_len` bytes read from `data_ptr`.
    Append { data_ptr: usize, data_len: usize },
    /// Write the log digest to `out_ptr`.
    GetHash { out_ptr: usize },
    /// Print the log.
    PrintAll,
    /// An unknown request: a warning is due.
    Unsupported,
}

/// The request that service number `id` with arguments `para1` and `para2` makes.
pub open spec fn log_request_of(id: usize, para1: usize, para2: usize) -> LogRequest {
    if id == 1 {
        LogRequest::Append { data_ptr: para1, data_len: para2 }
    } else if id == 2 {
        LogRequest::GetHash { out_ptr: para1 }
    } else if id == 3 {
        LogRequest::PrintAll
    } else {
        LogRequest::Unsupported
    }
}

/// Decodes a log service call: 1 appends, 2 hashes, 3 prints, anything else is unsupported.
pub fn logging_handler(id: usize, para1: usize, para2: usize) -> (r: LogRequest)
    ensures
        r == log_request_of(id, para1, para2),
{
    match id {
        1 => LogRequest::Append { data_ptr: para1, data_len: para2 },
        2 => LogRequest::GetHash { out_ptr: para1 },
        3 => LogRequest::PrintAll,
        _ => LogRequest::Unsupported,
    }
}


/// A count below the page size takes its two low bytes; the other six are zero.
proof fn lemma_small_count_bytes(c: nat)
    requires
        c < PAGE_SIZE,
    ensures
        le_bytes(c, 8) == seq![(c % 256) as u8, (c / 256) as u8, 0u8, 0u8, 0u8, 0u8, 0u8, 0u8],
{
    reveal_with_fuel(le_bytes, 9);
    assert(c / 256 < 16);
    assert((c / 256) % 256 == c / 256);
    assert(le_bytes(c, 8) =~= seq![(c % 256) as u8, (c / 256) as u8, 0u8, 0u8, 0u8, 0u8, 0u8, 0u8]);
}

/// Once the log holds bytes past the count word (count at least 8), an accepted append adds
/// exactly its bytes to what `printall` gives.
pub proof fn lemma_append_then_printall(before: LogFrame, after: LogFrame, data: Seq<u8>)
    requires
        before.wf(),
        8 <= before.current(),
        before.current() + data.len() < PAGE_SIZE,
        after.current() == before.current() + data.len(),
        after.page() == appended(before.page(), before.current(), data),
    ensures
        after.page().subrange(4, after.current() as int) == before.page().subrange(4, before.current() as int)
            + data,
{
    let p = before.page();
    let cur = before.current();
    let n = data.len();
    reveal(LogFrame::wf);
    lemma_small_count_bytes(cur);
    lemma_small_count_bytes(cur + n);
    lemma_le_bytes_len(cur + n, 8);
    let written = p.subrange(0, cur as int) + data + p.subrange((cur + n) as int, p.len() as int);
    assert(p.subrange(0, 8) == le_bytes(cur, 8));
    assert(p[4] == 0 && p[5] == 0 && p[6] == 0 && p[7] == 0) by {
        assert(p[4] == p.subrange(0, 8)[4]);
        assert(p[5] == p.subrange(0, 8)[5]);
        assert(p[6] == p.subrange(0, 8)[6]);
        assert(p[7] == p.subrange(0, 8)[7]);
    }
    assert(after.page().subrange(4, (cur + n) as int) =~= p.subrange(4, cur as int) + data);
}

/// Log service numbers: 1 appends `para2` bytes from address `para1`, 2 writes the digest to
/// address `para1`, 3 prints the log, and every other number is unsupported.
pub proof fn lemma_log_requests(id: usize, para1: usize, para2: usize)
    ensures
        id == 1 ==> log_request_of(id, para1, para2) == (LogRequest::Append { data_ptr: para1, data_len: para2 }),
        id == 2 ==> log_request_of(id, para1, para2) == (LogRequest::GetHash { out_ptr: para1 }),
        id == 3 ==> log_request_of(id, para1, para2) == LogRequest::PrintAll,
        !(1 <= id <= 3) ==> log_request_of(id, para1, para2) == LogRequest::Unsupported,
{
}

/// An append request from inside the kernel's own space is ignored whatever its length; one
/// from outside is accepted exactly when the page, `cur` bytes of which are in use, keeps at
/// least one byte free after it, and is refused as full otherwise.
pub proof fn lemma_append_verdicts(cur: nat, ptr: usize, len: usize, space_end: usize)
    ensures
        ptr < space_end ==> append_verdict_of(cur, ptr, len, space_end) == AppendVerdict::Ignored,
        ptr >= space_end && cur + len < PAGE_SIZE ==> append_verdict_of(cur, ptr, len, space_end)
            == AppendVerdict::Accepted,
        ptr >= space_end && cur + len >= PAGE_SIZE ==> append_verdict_of(cur, ptr, len, space_end)
            == AppendVerdict::Full,
{
}

} // verus!
