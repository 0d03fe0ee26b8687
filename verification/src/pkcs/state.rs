use vstd::prelude::*;
use crate::pkcs::cryptoconfig::{CkMechanism, CkObjectHandle, CkSessionHandle};

verus! {

/// Hands out the numbers 1, 2, 3, ... used as session and object handles.
pub struct Counter {
    cnt: u32,
}

impl Counter {
    /// The last number handed out (0 before the first).
    pub closed spec fn last(&self) -> u32 {
        self.cnt
    }

    /// A counter that has handed out nothing.
    pub fn new() -> (r: Counter)
        ensures
            r.last() == 0,
    {
        Counter { cnt: 0 }
    }

    /// The last number handed out.
    pub fn current(&self) -> (r: u32)
        ensures
            r == self.last(),
    {
        self.cnt
    }

    /// Hands out the next number.
    pub fn get_next(&mut self) -> (r: u32)
        requires
            old(self).last() < u32::MAX,
        ensures
            r == old(self).last() + 1,
            final(self).last() == r,
    {
        self.cnt = self.cnt + 1;
        self.cnt
    }
}

/// An encryption or decryption context: whether it is started, its key object and mechanism.
#[derive(Clone, Copy)]
pub struct CkContext {
    pub valid: bool,
    pub key: CkObjectHandle,
    pub mech: CkMechanism,
}

/// The context of a fresh session: not started, no key, mechanism 0.
pub open spec fn empty_context() -> CkContext {
    CkContext {
        valid: false,
        key: 0,
        mech: CkMechanism { mechanism: 0, p_parameter: 0, ul_parameter_len: 0 },
    }
}

impl CkContext {
    /// A context that is not started, with no key and mechanism 0.
    pub fn new() -> (r: CkContext)
        ensures
            r == empty_context(),
    {
        CkContext { valid: false, key: 0, mech: CkMechanism { mechanism: 0, p_parameter: 0, ul_parameter_len: 0 } }
    }
}

/// A session: its handle and its encryption and decryption contexts.
#[derive(Clone, Copy)]
pub struct Session {
    pub handle: CkSessionHandle,
    pub enc: CkContext,
    pub dec: CkContext,
}

/// A fresh session with handle `h`.
pub open spec fn fresh_session(h: u32) -> Session {
    Session { handle: h, enc: empty_context(), dec: empty_context() }
}

impl Session {
    /// A fresh session whose handle is the next number of `counter`.
    pub fn new(counter: &mut Counter) -> (r: Session)
        requires
            old(counter).last() < u32::MAX,
        ensures
            r == fresh_session((old(counter).last() + 1) as u32),
            final(counter).last() == old(counter).last() + 1,
    {
        Session { handle: counter.get_next(), enc: CkContext::new(), dec: CkContext::new() }
    }
}

/// A stored object: its handle and up to 256 bytes of content.
#[derive(Clone, Copy)]
pub struct CkObject {
    pub handle: CkObjectHandle,
    pub content: [u8; 256],
    pub content_size: u8,
}

impl CkObject {
    /// An object holding `data` (at most 256 bytes), zero-padded, whose handle is the next
    /// number of `counter`; its size is the length of `data` taken modulo 256.
    pub fn new(data: Vec<u8>, counter: &mut Counter) -> (r: CkObject)
        requires
            data@.len() <= 256,
            old(counter).last() < u32::MAX,
        ensures
            r.handle == old(counter).last() + 1,
            final(counter).last() == old(counter).last() + 1,
            r.content_size == data@.len() as u8,
            r.content@ == data@ + Seq::new((256 - data@.len()) as nat, |i: int| 0u8),
    {
        let mut cko = CkObject { handle: counter.get_next(), content: [0; 256], content_size: data.len() as u8 };
        let mut i: usize = 0;
        while i < data.len()
            invariant
                i <= data@.len(),
                data@.len() <= 256,
                cko.content@.len() == 256,
                cko.handle == old(counter).last() + 1,
                cko.content_size == data@.len() as u8,
                forall|k: int| 0 <= k < i ==> cko.content@[k] == data@[k],
                forall|k: int| i <= k < 256 ==> cko.content@[k] == 0,
            decreases data@.len() - i,
        {
            cko.content[i] = data[i];
            i = i + 1;
        }
        assert(cko.content@ =~= data@ + Seq::new((256 - data@.len()) as nat, |i: int| 0u8));
        cko
    }
}

/// The first session with handle `h` in `s`, if any.
pub open spec fn first_session(s: Seq<Session>, h: u32) -> Option<Session>
    decreases s.len(),
{
    if s.len() == 0 {
        None
    } else if s[0].handle == h {
        Some(s[0])
    } else {
        first_session(s.drop_first(), h)
    }
}

/// The first object with handle `h` in `s`, if any.
pub open spec fn first_object(s: Seq<CkObject>, h: u32) -> Option<CkObject>
    decreases s.len(),
{
    if s.len() == 0 {
        None
    } else if s[0].handle == h {
        Some(s[0])
    } else {
        first_object(s.drop_first(), h)
    }
}

/// The sessions of `s` whose handle is not `h`, in order.
pub open spec fn sessions_without(s: Seq<Session>, h: u32) -> Seq<Session> {
    s.filter(|x: Session| x.handle != h)
}

/// The objects of `s` whose handle is not `h`, in order.
pub open spec fn objects_without(s: Seq<CkObject>, h: u32) -> Seq<CkObject> {
    s.filter(|x: CkObject| x.handle != h)
}

/// The token's state: the handle counter shared by sessions and objects, the open sessions
/// and the stored objects.
pub struct CryptoState {
    pub counter: Counter,
    pub sessions: Vec<Session>,
    pub objects: Vec<CkObject>,
}

impl CryptoState {
    /// Every session and object handle was handed out by the counter.
    pub open spec fn wf(&self) -> bool {
        &&& forall|i: int| 0 <= i < self.sessions@.len() ==> #[trigger] self.sessions@[i].handle <= self.counter.last()
        &&& forall|i: int| 0 <= i < self.objects@.len() ==> #[trigger] self.objects@[i].handle <= self.counter.last()
    }

    /// A state with no session, no object and a fresh counter.
    pub fn new() -> (r: CryptoState)
        ensures
            r.counter.last() == 0,
            r.sessions@ == Seq::<Session>::empty(),
            r.objects@ == Seq::<CkObject>::empty(),
            r.wf(),
    {
        CryptoState { counter: Counter::new(), sessions: Vec::new(), objects: Vec::new() }
    }
}

/// Walking the sequence from index `i` finds the same first match as from the start, when
/// nothing before `i` matches.
proof fn lemma_first_session_from(s: Seq<Session>, h: u32, i: int)
    requires
        0 <= i < s.len(),
    ensures
        first_session(s.subrange(i, s.len() as int), h) == if s[i].handle == h {
            Some(s[i])
        } else {
            first_session(s.subrange(i + 1, s.len() as int), h)
        },
{
    assert(s.subrange(i, s.len() as int).drop_first() =~= s.subrange(i + 1, s.len() as int));
}

proof fn lemma_first_object_from(s: Seq<CkObject>, h: u32, i: int)
    requires
        0 <= i < s.len(),
    ensures
        first_object(s.subrange(i, s.len() as int), h) == if s[i].handle == h {
            Some(s[i])
        } else {
            first_object(s.subrange(i + 1, s.len() as int), h)
        },
{
    assert(s.subrange(i, s.len() as int).drop_first() =~= s.subrange(i + 1, s.len() as int));
}

/// Opens a fresh session under the next handle and returns the handle.
pub fn new_session(st: &mut CryptoState) -> (r: CkSessionHandle)
    requires
        old(st).counter.last() < u32::MAX,
    ensures
        r == old(st).counter.last() + 1,
        final(st).counter.last() == r,
        final(st).sessions@ == old(st).sessions@.push(fresh_session(r)),
        final(st).objects@ == old(st).objects@,
        old(st).wf() ==> final(st).wf(),
{
    let ses = Session::new(&mut st.counter);
    st.sessions.push(ses);
    ses.handle
}

/// The first session with handle `handle`, if any.
pub fn get_session(st: &CryptoState, handle: CkSessionHandle) -> (r: Option<Session>)
    ensures
        r == first_session(st.sessions@, handle),
{
    let mut i: usize = 0;
    proof {
        assert(st.sessions@.subrange(0, st.sessions@.len() as int) =~= st.sessions@);
    }
    while i < st.sessions.len()
        invariant
            i <= st.sessions@.len(),
            first_session(st.sessions@, handle) == first_session(st.sessions@.subrange(i as int, st.sessions@.len() as int), handle),
        decreases st.sessions@.len() - i,
    {
        proof {
            lemma_first_session_from(st.sessions@, handle, i as int);
        }
        if st.sessions[i].handle == handle {
            return Some(st.sessions[i]);
        }
        i = i + 1;
    }
    None
}

/// Closes every session with handle `handle`.
pub fn del_session(st: &mut CryptoState, handle: CkSessionHandle)
    ensures
        final(st).sessions@ == sessions_without(old(st).sessions@, handle),
        final(st).objects@ == old(st).objects@,
        final(st).counter == old(st).counter,
        old(st).wf() ==> final(st).wf(),
{
    let ghost s0 = st.sessions@;
    let mut kept: Vec<Session> = Vec::new();
    let mut i: usize = 0;
    while i < st.sessions.len()
        invariant
            i <= st.sessions@.len(),
            st.sessions@ == s0,
            kept@ == sessions_without(s0.subrange(0, i as int), handle),
        decreases st.sessions@.len() - i,
    {
        proof {
            reveal(Seq::filter);
            assert(s0.subrange(0, i + 1).drop_last() =~= s0.subrange(0, i as int));
        }
        if st.sessions[i].handle != handle {
            kept.push(st.sessions[i]);
        }
        i = i + 1;
    }
    assert(s0.subrange(0, s0.len() as int) =~= s0);
    st.sessions = kept;
    proof {
        let w = sessions_without(s0, handle);
        if old(st).wf() {
            assert forall|k: int| 0 <= k < w.len() implies #[trigger] w[k].handle <= st.counter.last() by {
                s0.lemma_filter_contains_rev(|x: Session| x.handle != handle, w[k]);
                assert(w.contains(w[k]));
                let j = choose|j: int| 0 <= j < s0.len() && s0[j] == w[k];
                assert(s0[j].handle <= st.counter.last());
            }
        }
    }
}

/// Replaces every session with the handle of `session` by `session`, which goes last.
pub fn update_session(st: &mut CryptoState, session: Session)
    ensures
        final(st).sessions@ == sessions_without(old(st).sessions@, session.handle).push(session),
        final(st).objects@ == old(st).objects@,
        final(st).counter == old(st).counter,
        old(st).wf() && session.handle <= old(st).counter.last() ==> final(st).wf(),
{
    del_session(st, session.handle);
    st.sessions.push(session);
}

/// Stores an object holding `data` under the next handle and returns the handle.
pub fn new_object(st: &mut CryptoState, data: Vec<u8>) -> (r: CkObjectHandle)
    requires
        old(st).counter.last() < u32::MAX,
        data@.len() <= 256,
    ensures
        r == old(st).counter.last() + 1,
        final(st).counter.last() == r,
        final(st).objects@.len() == old(st).objects@.len() + 1,
        final(st).objects@.drop_last() == old(st).objects@,
        final(st).objects@.last().handle == r,
        final(st).objects@.last().content_size == data@.len() as u8,
        final(st).objects@.last().content@ == data@ + Seq::new((256 - data@.len()) as nat, |i: int| 0u8),
        final(st).sessions@ == old(st).sessions@,
        old(st).wf() ==> final(st).wf(),
{
    let obj = CkObject::new(data, &mut st.counter);
    st.objects.push(obj);
    assert(st.objects@.drop_last() =~= old(st).objects@);
    obj.handle
}

/// The first object with handle `handle`, if any.
pub fn get_object(st: &CryptoState, handle: CkObjectHandle) -> (r: Option<CkObject>)
    ensures
        r == first_object(st.objects@, handle),
{
    let mut i: usize = 0;
    proof {
        assert(st.objects@.subrange(0, st.objects@.len() as int) =~= st.objects@);
    }
    while i < st.objects.len()
        invariant
            i <= st.objects@.len(),
            first_object(st.objects@, handle) == first_object(st.objects@.subrange(i as int, st.objects@.len() as int), handle),
        decreases st.objects@.len() - i,
    {
        proof {
            lemma_first_object_from(st.objects@, handle, i as int);
        }
        if st.objects[i].handle == handle {
            return Some(st.objects[i]);
        }
        i = i + 1;
    }
    None
}

/// Deletes every object with handle `handle`.
pub fn del_object(st: &mut CryptoState, handle: CkObjectHandle)
    ensures
        final(st).objects@ == objects_without(old(st).objects@, handle),
        final(st).sessions@ == old(st).sessions@,
        final(st).counter == old(st).counter,
        old(st).wf() ==> final(st).wf(),
{
    let ghost s0 = st.objects@;
    let mut kept: Vec<CkObject> = Vec::new();
    let mut i: usize = 0;
    while i < st.objects.len()
        invariant
            i <= st.objects@.len(),
            st.objects@ == s0,
            kept@ == objects_without(s0.subrange(0, i as int), handle),
        decreases st.objects@.len() - i,
    {
        proof {
            reveal(Seq::filter);
            assert(s0.subrange(0, i + 1).drop_last() =~= s0.subrange(0, i as int));
        }
        if st.objects[i].handle != handle {
            kept.push(st.objects[i]);
        }
        i = i + 1;
    }
    assert(s0.subrange(0, s0.len() as int) =~= s0);
    st.objects = kept;
    proof {
        let w = objects_without(s0, handle);
        if old(st).wf() {
            assert forall|k: int| 0 <= k < w.len() implies #[trigger] w[k].handle <= st.counter.last() by {
                s0.lemma_filter_contains_rev(|x: CkObject| x.handle != handle, w[k]);
                assert(w.contains(w[k]));
                let j = choose|j: int| 0 <= j < s0.len() && s0[j] == w[k];
                assert(s0[j].handle <= st.counter.last());
            }
        }
    }
}


/// Looking a handle up after an append finds what was there before, or else the appended
/// session when it carries that handle.
pub proof fn lemma_first_session_push(s: Seq<Session>, x: Session, h: u32)
    ensures
        first_session(s.push(x), h) == match first_session(s, h) {
            Some(y) => Some(y),
            None => if x.handle == h { Some(x) } else { None },
        },
    decreases s.len(),
{
    let t = s.push(x);
    if s.len() > 0 {
        assert(t[0] == s[0]);
        assert(t.drop_first() =~= s.drop_first().push(x));
        lemma_first_session_push(s.drop_first(), x, h);
    } else {
        assert(t[0] == x);
        assert(t.drop_first() =~= Seq::<Session>::empty());
        assert(first_session(t.drop_first(), h) == None::<Session>);
    }
}

/// A lookup finds nothing when no session carries the handle.
pub proof fn lemma_first_session_absent(s: Seq<Session>, h: u32)
    requires
        forall|i: int| 0 <= i < s.len() ==> #[trigger] s[i].handle != h,
    ensures
        first_session(s, h) == None::<Session>,
    decreases s.len(),
{
    if s.len() > 0 {
        assert forall|i: int| 0 <= i < s.drop_first().len() implies #[trigger] s.drop_first()[i].handle != h by {
            assert(s.drop_first()[i] == s[i + 1]);
        }
        lemma_first_session_absent(s.drop_first(), h);
    }
}

/// Closing the sessions of handle `h` makes `h` unknown and leaves the lookup of every
/// other handle unchanged.
pub proof fn lemma_first_session_without(s: Seq<Session>, h: u32, g: u32)
    ensures
        first_session(sessions_without(s, h), g) == if g == h {
            None::<Session>
        } else {
            first_session(s, g)
        },
    decreases s.len(),
{
    reveal(Seq::filter);
    if s.len() > 0 {
        let f = |x: Session| x.handle != h;
        lemma_first_session_without(s.drop_last(), h, g);
        lemma_first_session_push(s.drop_last(), s.last(), g);
        assert(s.drop_last().push(s.last()) =~= s);
        if f(s.last()) {
            assert(sessions_without(s, h) =~= sessions_without(s.drop_last(), h).push(s.last()));
            lemma_first_session_push(sessions_without(s.drop_last(), h), s.last(), g);
        } else {
            assert(sessions_without(s, h) =~= sessions_without(s.drop_last(), h));
        }
    }
}

/// Looking an object handle up after an append finds what was there before, or else the
/// appended object when it carries that handle.
pub proof fn lemma_first_object_push(s: Seq<CkObject>, x: CkObject, h: u32)
    ensures
        first_object(s.push(x), h) == match first_object(s, h) {
            Some(y) => Some(y),
            None => if x.handle == h { Some(x) } else { None },
        },
    decreases s.len(),
{
    let t = s.push(x);
    if s.len() > 0 {
        assert(t[0] == s[0]);
        assert(t.drop_first() =~= s.drop_first().push(x));
        lemma_first_object_push(s.drop_first(), x, h);
    } else {
        assert(t[0] == x);
        assert(t.drop_first() =~= Seq::<CkObject>::empty());
        assert(first_object(t.drop_first(), h) == None::<CkObject>);
    }
}

/// A lookup finds nothing when no object carries the handle.
pub proof fn lemma_first_object_absent(s: Seq<CkObject>, h: u32)
    requires
        forall|i: int| 0 <= i < s.len() ==> #[trigger] s[i].handle != h,
    ensures
        first_object(s, h) == None::<CkObject>,
    decreases s.len(),
{
    if s.len() > 0 {
        assert forall|i: int| 0 <= i < s.drop_first().len() implies #[trigger] s.drop_first()[i].handle != h by {
            assert(s.drop_first()[i] == s[i + 1]);
        }
        lemma_first_object_absent(s.drop_first(), h);
    }
}

/// Deleting the objects of handle `h` makes `h` unknown and leaves the lookup of every
/// other handle unchanged.
pub proof fn lemma_first_object_without(s: Seq<CkObject>, h: u32, g: u32)
    ensures
        first_object(objects_without(s, h), g) == if g == h {
            None::<CkObject>
        } else {
            first_object(s, g)
        },
    decreases s.len(),
{
    reveal(Seq::filter);
    if s.len() > 0 {
        let f = |x: CkObject| x.handle != h;
        lemma_first_object_without(s.drop_last(), h, g);
        lemma_first_object_push(s.drop_last(), s.last(), g);
        assert(s.drop_last().push(s.last()) =~= s);
        if f(s.last()) {
            assert(objects_without(s, h) =~= objects_without(s.drop_last(), h).push(s.last()));
            lemma_first_object_push(objects_without(s.drop_last(), h), s.last(), g);
        } else {
            assert(objects_without(s, h) =~= objects_without(s.drop_last(), h));
        }
    }
}

/// A session opened under a handle that no open session carries is found under that handle,
/// and opening it changes the lookup of no other handle. On a well-formed state every new
/// handle is such a handle (see `lemma_new_handle_unused`).
pub proof fn lemma_new_session_then_get(before: CryptoState, after: CryptoState, h: u32, g: u32)
    requires
        forall|i: int| 0 <= i < before.sessions@.len() ==> #[trigger] before.sessions@[i].handle != h,
        after.sessions@ == before.sessions@.push(fresh_session(h)),
    ensures
        first_session(after.sessions@, h) == Some(fresh_session(h)),
        g != h ==> first_session(after.sessions@, g) == first_session(before.sessions@, g),
{
    let s = before.sessions@;
    lemma_first_session_absent(s, h);
    lemma_first_session_push(s, fresh_session(h), h);
    lemma_first_session_push(s, fresh_session(h), g);
}

/// After a session is closed its handle is unknown; other handles are found as before.
pub proof fn lemma_del_session_then_get(before: CryptoState, after: CryptoState, h: u32, g: u32)
    requires
        after.sessions@ == sessions_without(before.sessions@, h),
    ensures
        first_session(after.sessions@, h) == None::<Session>,
        g != h ==> first_session(after.sessions@, g) == first_session(before.sessions@, g),
{
    lemma_first_session_without(before.sessions@, h, h);
    lemma_first_session_without(before.sessions@, h, g);
}

/// After an update the session is found as written; other handles are found as before.
pub proof fn lemma_update_session_then_get(before: CryptoState, after: CryptoState, x: Session, g: u32)
    requires
        after.sessions@ == sessions_without(before.sessions@, x.handle).push(x),
    ensures
        first_session(after.sessions@, x.handle) == Some(x),
        g != x.handle ==> first_session(after.sessions@, g) == first_session(before.sessions@, g),
{
    let w = sessions_without(before.sessions@, x.handle);
    lemma_first_session_without(before.sessions@, x.handle, x.handle);
    lemma_first_session_without(before.sessions@, x.handle, g);
    lemma_first_session_push(w, x, x.handle);
    lemma_first_session_push(w, x, g);
}

/// An object holding `data` stored under a handle that no stored object carries is found
/// under that handle, holding `data` zero-padded with its length as size, and storing it
/// changes the lookup of no other handle. On a well-formed state every new handle is such a
/// handle (see `lemma_new_handle_unused`).
pub proof fn lemma_new_object_then_get(before: CryptoState, after: CryptoState, h: u32, g: u32, data: Seq<u8>)
    requires
        forall|i: int| 0 <= i < before.objects@.len() ==> #[trigger] before.objects@[i].handle != h,
        after.objects@.len() == before.objects@.len() + 1,
        after.objects@.drop_last() == before.objects@,
        after.objects@.last().handle == h,
        after.objects@.last().content_size == data.len() as u8,
        after.objects@.last().content@ == data + Seq::new((256 - data.len()) as nat, |i: int| 0u8),
        data.len() <= 256,
    ensures
        first_object(after.objects@, h) is Some,
        first_object(after.objects@, h).unwrap().handle == h,
        first_object(after.objects@, h).unwrap().content_size == data.len() as u8,
        first_object(after.objects@, h).unwrap().content@.subrange(0, data.len() as int) == data,
        first_object(after.objects@, h).unwrap().content@.subrange(data.len() as int, 256) == Seq::new(
            (256 - data.len()) as nat,
            |i: int| 0u8,
        ),
        g != h ==> first_object(after.objects@, g) == first_object(before.objects@, g),
{
    let s = before.objects@;
    let o = after.objects@.last();
    assert(o.content@.subrange(0, data.len() as int) =~= data);
    assert(o.content@.subrange(data.len() as int, 256) =~= Seq::new((256 - data.len()) as nat, |i: int| 0u8));
    assert(s.push(after.objects@.last()) =~= after.objects@);
    lemma_first_object_absent(s, h);
    lemma_first_object_push(s, after.objects@.last(), h);
    lemma_first_object_push(s, after.objects@.last(), g);
}

/// After an object is deleted its handle is unknown; other handles are found as before.
pub proof fn lemma_del_object_then_get(before: CryptoState, after: CryptoState, h: u32, g: u32)
    requires
        after.objects@ == objects_without(before.objects@, h),
    ensures
        first_object(after.objects@, h) == None::<CkObject>,
        g != h ==> first_object(after.objects@, g) == first_object(before.objects@, g),
{
    lemma_first_object_without(before.objects@, h, h);
    lemma_first_object_without(before.objects@, h, g);
}


/// On a well-formed state the next handle is carried by no open session and no stored object.
pub proof fn lemma_new_handle_unused(st: CryptoState)
    requires
        st.wf(),
    ensures
        forall|i: int| 0 <= i < st.sessions@.len() ==> #[trigger] st.sessions@[i].handle != st.counter.last() + 1,
        forall|i: int| 0 <= i < st.objects@.len() ==> #[trigger] st.objects@[i].handle != st.counter.last() + 1,
{
}


/// Storing an object under an unused handle and deleting it again: in between the object is
/// found under its handle with its data, afterwards the handle is unknown, and every other
/// handle is found as it was before the object was stored.
pub proof fn lemma_object_round_trip(
    before: CryptoState,
    mid: CryptoState,
    after: CryptoState,
    h: u32,
    data: Seq<u8>,
)
    requires
        forall|i: int| 0 <= i < before.objects@.len() ==> #[trigger] before.objects@[i].handle != h,
        mid.objects@.len() == before.objects@.len() + 1,
        mid.objects@.drop_last() == before.objects@,
        mid.objects@.last().handle == h,
        mid.objects@.last().content_size == data.len() as u8,
        mid.objects@.last().content@ == data + Seq::new((256 - data.len()) as nat, |i: int| 0u8),
        data.len() <= 256,
        after.objects@ == objects_without(mid.objects@, h),
    ensures
        first_object(mid.objects@, h) is Some,
        first_object(mid.objects@, h).unwrap().content@.subrange(0, data.len() as int) == data,
        first_object(mid.objects@, h).unwrap().content_size == data.len() as u8,
        first_object(after.objects@, h) == None::<CkObject>,
        forall|g: u32| g != h ==> #[trigger] first_object(after.objects@, g) == first_object(before.objects@, g),
{
    lemma_new_object_then_get(before, mid, h, h, data);
    lemma_del_object_then_get(mid, after, h, h);
    assert forall|g: u32| g != h implies #[trigger] first_object(after.objects@, g) == first_object(before.objects@, g) by {
        lemma_new_object_then_get(before, mid, h, g, data);
        lemma_del_object_then_get(mid, after, h, g);
    }
}

} // verus!
