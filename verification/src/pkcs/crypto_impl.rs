use vstd::prelude::*;
use crate::pkcs::cryptoconfig::{
    CkBbool, CkMechanism, CkObjectHandle, CkSessionHandle, CkSlotIdPtr, CkUlongPtr, CkUserType,
    CkCharPtr, CkUlong, CkFlags, CkSlotId, CkAttributeType, E_SHA3, CKR_FUNCTION_FAILED,
};
use crate::pkcs::state::{
    CryptoState, Session, CkContext, first_session, sessions_without, get_session, update_session,
    del_session, new_session, new_object,
};
use crate::pkcs::primitives::{sha3_256, sha3_256_digest, words_text, words_text_bytes, generate_aes256_key};

verus! {

/// Initializes the token; always succeeds.
pub fn c_initialize() -> (r: usize)
    ensures
        r == 0,
{
    0
}

/// Finalizes the token; always succeeds.
pub fn c_finalize() -> (r: usize)
    ensures
        r == 0,
{
    0
}

/// Lists the slots; writes nothing and succeeds.
pub fn c_get_slot_list(cb: CkBbool, cslot: CkSlotIdPtr, cup: CkUlongPtr) -> (r: usize)
    ensures
        r == 0,
{
    0
}

/// Opens a fresh session and returns success with its handle (the caller stores the handle).
pub fn c_open_session(st: &mut CryptoState, csid: CkSlotId, cflag: CkFlags) -> (r: (usize, CkSessionHandle))
    requires
        old(st).counter.last() < u32::MAX,
    ensures
        r.0 == 0,
        r.1 == old(st).counter.last() + 1,
        final(st).counter.last() == r.1,
        final(st).sessions@ == old(st).sessions@.push(crate::pkcs::state::fresh_session(r.1)),
        final(st).objects@ == old(st).objects@,
        old(st).wf() ==> final(st).wf(),
{
    let h = new_session(st);
    (0, h)
}

/// Closes every session with handle `csh`.
pub fn c_close_session(st: &mut CryptoState, csh: CkSessionHandle) -> (r: usize)
    ensures
        r == 0,
        final(st).sessions@ == sessions_without(old(st).sessions@, csh),
        final(st).objects@ == old(st).objects@,
        final(st).counter == old(st).counter,
        old(st).wf() ==> final(st).wf(),
{
    del_session(st, csh);
    0
}

/// Logs in; checks nothing and succeeds.
pub fn c_login(h_session: CkSessionHandle, user_type: CkUserType, p_pin: CkCharPtr, ul_pinen: CkUlong) -> (r: usize)
    ensures
        r == 0,
{
    0
}

/// Logs out; succeeds.
pub fn c_logout(csh: CkSessionHandle) -> (r: usize)
    ensures
        r == 0,
{
    0
}

/// Starts an encryption: the context is set up on a copy of the session that is not stored
/// back, so the token's state does not change; succeeds.
pub fn c_encrypt_init(st: &CryptoState, csh: CkSessionHandle, cmp: CkMechanism, coh: CkObjectHandle) -> (r: usize)
    ensures
        r == 0,
{
    if let Some(session) = get_session(st, csh) {
        let mut session = session;
        session.enc.valid = true;
        session.enc.mech = cmp;
        session.enc.key = coh;
    }
    0
}

/// Encrypts up to 32 words with the session's encryption mechanism, which must be SHA3-256:
/// the result is the digest of the decimal texts of the words, one after the other. Nothing
/// happens when no session has handle `csh`.
pub fn c_encrypt_update(st: &CryptoState, csh: CkSessionHandle, data: &Vec<usize>, ul_data_len: CkUlong) -> (r: (usize, Option<[u8; 32]>))
    requires
        first_session(st.sessions@, csh) matches Some(s) ==> ul_data_len <= 32 && s.enc.mech.mechanism
            == E_SHA3 && data@.len() == ul_data_len,
    ensures
        r.0 == 0,
        r.1.is_some() == first_session(st.sessions@, csh).is_some(),
        r.1.is_some() ==> r.1.unwrap()@ == sha3_256_digest(words_text(data@)),
{
    if let Some(session) = get_session(st, csh) {
        let text = words_text_bytes(data);
        let result = sha3_256(text.as_slice());
        return (0, Some(result));
    }
    (0, None)
}

/// Context after an encryption or decryption ends: not started, no key, same mechanism.
pub open spec fn ended_context(c: CkContext) -> CkContext {
    CkContext { valid: false, key: 0, ..c }
}

/// An ended context is no longer started and holds no key, and keeps its mechanism.
pub proof fn lemma_ended_context(c: CkContext)
    ensures
        !ended_context(c).valid,
        ended_context(c).key == 0,
        ended_context(c).mech == c.mech,
{
}

/// Ends the encryption of the session with handle `csh`, if there is one: its context is
/// reset (not started, no key) and the session is stored back last.
pub fn c_encrypt_final(st: &mut CryptoState, csh: CkSessionHandle) -> (r: usize)
    ensures
        r == 0,
        first_session(old(st).sessions@, csh) matches Some(s) ==> final(st).sessions@ == sessions_without(
            old(st).sessions@,
            csh,
        ).push(Session { enc: ended_context(s.enc), ..s }),
        first_session(old(st).sessions@, csh) is None ==> final(st).sessions@ == old(st).sessions@,
        final(st).objects@ == old(st).objects@,
        final(st).counter == old(st).counter,
        old(st).wf() ==> final(st).wf(),
{
    if let Some(session) = get_session(st, csh) {
        let mut session = session;
        session.enc.valid = false;
        session.enc.key = 0;
        proof {
            lemma_first_session_handle(st.sessions@, csh);
            if st.wf() {
                lemma_first_session_bounded(st.sessions@, csh, st.counter.last());
            }
        }
        update_session(st, session);
    }
    0
}

/// Encrypts in one step: `c_encrypt_update`, then `c_encrypt_final`.
pub fn c_encrypt(st: &mut CryptoState, csh: CkSessionHandle, data: &Vec<usize>, ul_data_len: CkUlong) -> (r: (usize, Option<[u8; 32]>))
    requires
        first_session(old(st).sessions@, csh) matches Some(s) ==> ul_data_len <= 32 && s.enc.mech.mechanism
            == E_SHA3 && data@.len() == ul_data_len,
    ensures
        r.0 == 0,
        r.1.is_some() == first_session(old(st).sessions@, csh).is_some(),
        r.1.is_some() ==> r.1.unwrap()@ == sha3_256_digest(words_text(data@)),
        first_session(old(st).sessions@, csh) matches Some(s) ==> final(st).sessions@ == sessions_without(
            old(st).sessions@,
            csh,
        ).push(Session { enc: ended_context(s.enc), ..s }),
        first_session(old(st).sessions@, csh) is None ==> final(st).sessions@ == old(st).sessions@,
        final(st).objects@ == old(st).objects@,
        old(st).wf() ==> final(st).wf(),
{
    let out = c_encrypt_update(st, csh, data, ul_data_len);
    c_encrypt_final(st, csh);
    out
}

/// Starts a decryption with mechanism `cmp` and key object `coh` on the session with handle
/// `csh`, if there is one, and stores the session back last.
pub fn c_decrypt_init(st: &mut CryptoState, csh: CkSessionHandle, cmp: CkMechanism, coh: CkObjectHandle) -> (r: usize)
    ensures
        r == 0,
        first_session(old(st).sessions@, csh) matches Some(s) ==> final(st).sessions@ == sessions_without(
            old(st).sessions@,
            csh,
        ).push(Session { dec: CkContext { valid: true, key: coh, mech: cmp }, ..s }),
        first_session(old(st).sessions@, csh) is None ==> final(st).sessions@ == old(st).sessions@,
        final(st).objects@ == old(st).objects@,
        final(st).counter == old(st).counter,
        old(st).wf() ==> final(st).wf(),
{
    if let Some(session) = get_session(st, csh) {
        let mut session = session;
        session.dec.valid = true;
        session.dec.mech = cmp;
        session.dec.key = coh;
        proof {
            lemma_first_session_handle(st.sessions@, csh);
            if st.wf() {
                lemma_first_session_bounded(st.sessions@, csh, st.counter.last());
            }
        }
        update_session(st, session);
    }
    0
}

/// Decrypts up to 32 bytes. Every mechanism fails on an open session (SHA3 cannot decrypt,
/// and the AES key object of 256 bytes does not fit a 32-byte key), so the call is only
/// defined when no session has handle `csh`; it then does nothing.
pub fn c_decrypt_update(st: &CryptoState, csh: CkSessionHandle, ul_data_len: CkUlong) -> (r: usize)
    requires
        ul_data_len <= 32,
        first_session(st.sessions@, csh) is None,
    ensures
        r == 0,
{
    if let Some(session) = get_session(st, csh) {
        assert(false);
    }
    0
}

/// Ends the decryption of the session with handle `csh`, if there is one: its context is
/// reset (not started, no key) and the session is stored back last.
pub fn c_decrypt_final(st: &mut CryptoState, csh: CkSessionHandle) -> (r: usize)
    ensures
        r == 0,
        first_session(old(st).sessions@, csh) matches Some(s) ==> final(st).sessions@ == sessions_without(
            old(st).sessions@,
            csh,
        ).push(Session { dec: ended_context(s.dec), ..s }),
        first_session(old(st).sessions@, csh) is None ==> final(st).sessions@ == old(st).sessions@,
        final(st).objects@ == old(st).objects@,
        final(st).counter == old(st).counter,
        old(st).wf() ==> final(st).wf(),
{
    if let Some(session) = get_session(st, csh) {
        let mut session = session;
        session.dec.valid = false;
        session.dec.key = 0;
        proof {
            lemma_first_session_handle(st.sessions@, csh);
            if st.wf() {
                lemma_first_session_bounded(st.sessions@, csh, st.counter.last());
            }
        }
        update_session(st, session);
    }
    0
}

/// Decrypts in one step: `c_decrypt_update`, then `c_decrypt_final`; only defined, like
/// `c_decrypt_update`, when no session has handle `csh`.
pub fn c_decrypt(st: &mut CryptoState, csh: CkSessionHandle, ul_data_len: CkUlong) -> (r: usize)
    requires
        ul_data_len <= 32,
        first_session(old(st).sessions@, csh) is None,
    ensures
        r == 0,
        final(st).sessions@ == old(st).sessions@,
        final(st).objects@ == old(st).objects@,
        final(st).counter == old(st).counter,
{
    c_decrypt_update(st, csh, ul_data_len);
    c_decrypt_final(st, csh);
    0
}

/// Generates a fresh AES-256 key and stores it twice, as the public and the private key
/// objects; returns success and the two handles (the caller stores them). When the operating
/// system supplies no randomness, nothing is stored and `CKR_FUNCTION_FAILED` is returned with
/// handles 0.
pub fn c_generate_key_pair(
    st: &mut CryptoState,
    h_session: CkSessionHandle,
    p_public_key_template: CkAttributeType,
    ul_public_key_attribute_count: CkUlong,
    p_private_key_template: CkAttributeType,
    ul_private_key_attribute_count: CkUlong,
) -> (r: (usize, CkObjectHandle, CkObjectHandle))
    requires
        old(st).counter.last() < u32::MAX - 1,
    ensures
        r.0 == 0 || r.0 == CKR_FUNCTION_FAILED,
        r.0 == CKR_FUNCTION_FAILED ==> r.1 == 0 && r.2 == 0 && final(st).counter == old(st).counter
            && final(st).objects@ == old(st).objects@ && final(st).sessions@ == old(st).sessions@,
        r.0 == 0 ==> {
            let n = old(st).objects@.len() as int;
            let o = final(st).objects@;
            &&& r.1 == old(st).counter.last() + 1
            &&& r.2 == old(st).counter.last() + 2
            &&& final(st).counter.last() == r.2
            &&& o.len() == n + 2
            &&& o.subrange(0, n) == old(st).objects@
            &&& o[n].handle == r.1
            &&& o[n + 1].handle == r.2
            &&& o[n].content == o[n + 1].content
            &&& o[n].content_size == 32
            &&& o[n + 1].content_size == 32
            &&& o[n].content@.subrange(32, 256) == Seq::new(224, |i: int| 0u8)
            &&& o[n + 1].content@.subrange(32, 256) == Seq::new(224, |i: int| 0u8)
            &&& final(st).sessions@ == old(st).sessions@
        },
        old(st).wf() ==> final(st).wf(),
{
    let ghost o0 = st.objects@;
    let key = match generate_aes256_key() {
        Some(k) => k,
        None => return (CKR_FUNCTION_FAILED, 0, 0),
    };
    let key2 = key.clone();
    assert(key2@ =~= key@);
    let public = new_object(st, key);
    let ghost o1 = st.objects@;
    let private = new_object(st, key2);
    proof {
        assert(st.objects@.drop_last() == o1);
        assert(o1.drop_last() == o0);
        assert(st.objects@.subrange(0, o0.len() as int) =~= o0);
        assert(st.objects@[o0.len() as int] == o1.last());
        assert(o1.last().content@.subrange(32, 256) =~= Seq::new(224, |i: int| 0u8));
        assert(st.objects@.last().content@.subrange(32, 256) =~= Seq::new(224, |i: int| 0u8));
    }
    (0, public, private)
}

/// The session found first is one of the sessions, so it shares their bound.
proof fn lemma_first_session_bounded(s: Seq<Session>, h: u32, c: u32)
    requires
        forall|i: int| 0 <= i < s.len() ==> #[trigger] s[i].handle <= c,
    ensures
        first_session(s, h) matches Some(x) ==> x.handle <= c,
    decreases s.len(),
{
    if s.len() > 0 && s[0].handle != h {
        assert forall|i: int| 0 <= i < s.drop_first().len() implies #[trigger] s.drop_first()[i].handle <= c by {
            assert(s.drop_first()[i] == s[i + 1]);
        }
        lemma_first_session_bounded(s.drop_first(), h, c);
    }
}

/// The session found first for a handle has that handle.
proof fn lemma_first_session_handle(s: Seq<Session>, h: u32)
    ensures
        first_session(s, h) matches Some(x) ==> x.handle == h,
    decreases s.len(),
{
    if s.len() > 0 && s[0].handle != h {
        lemma_first_session_handle(s.drop_first(), h);
    }
}

} // verus!
