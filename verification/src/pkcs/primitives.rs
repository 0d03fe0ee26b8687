use vstd::prelude::*;
use tiny_keccak::{Hasher, Sha3};
use aes_gcm::aead::OsRng;
use aes_gcm::aead::rand_core::RngCore;

verus! {

/// The SHA3-256 digest of a byte string.
pub uninterp spec fn sha3_256_digest(data: Seq<u8>) -> Seq<u8>;

/// tiny_keccak's SHA3 hasher, carried through as an opaque value.
#[verifier::external_type_specification]
#[verifier::external_body]
pub struct ExSha3(Sha3);

/// The bytes a SHA3-256 hasher made by `sha3_256_new` has absorbed, in order.
pub uninterp spec fn sha3_absorbed(h: Sha3) -> Seq<u8>;

/// Calls tiny_keccak's `Sha3::v256()`. Claimed: the new hasher has absorbed nothing.
#[verifier::external_body]
pub(crate) fn sha3_256_new() -> (r: Sha3)
    ensures
        sha3_absorbed(r) == Seq::<u8>::empty(),
{
    Sha3::v256()
}

/// Calls tiny_keccak's `Hasher::update` on a SHA3-256 hasher. Claimed: `data` is appended to
/// what the hasher has absorbed (the sponge takes its input in pieces exactly as it takes
/// their concatenation).
#[verifier::external_body]
pub(crate) fn sha3_update(h: &mut Sha3, data: &[u8])
    ensures
        sha3_absorbed(*final(h)) == sha3_absorbed(*old(h)) + data@,
{
    h.update(data);
}

/// Calls tiny_keccak's `Hasher::finalize` into a 32-byte array. Claimed: the result is the
/// SHA3-256 digest of what the hasher has absorbed, a function of those bytes alone, named by
/// `sha3_256_digest`.
#[verifier::external_body]
pub(crate) fn sha3_finalize(h: Sha3) -> (r: [u8; 32])
    ensures
        r@ == sha3_256_digest(sha3_absorbed(h)),
{
    let mut output = [0u8; 32];
    h.finalize(&mut output);
    output
}

/// The SHA3-256 digest of `data`.
pub fn sha3_256(data: &[u8]) -> (r: [u8; 32])
    ensures
        r@ == sha3_256_digest(data@),
{
    let mut h = sha3_256_new();
    sha3_update(&mut h, data);
    assert(Seq::<u8>::empty() + data@ =~= data@);
    sha3_finalize(h)
}

/// Fills a 32-byte AES-256 key from the operating system's randomness, as
/// `Aes256Gcm::generate_key(OsRng)` does, but through rand_core's `OsRng::try_fill_bytes`
/// (reached through aes_gcm's re-export), which reports a refusal of the operating system as
/// an error where `generate_key` would panic. Claimed: `Some` of the 32 bytes when the bytes
/// were obtained, else `None`. The bytes are random, so nothing more is stated of them.
#[verifier::external_body]
pub(crate) fn generate_aes256_key() -> (r: Option<Vec<u8>>)
    ensures
        r matches Some(k) ==> k@.len() == 32,
{
    let mut key = [0u8; 32];
    match OsRng.try_fill_bytes(&mut key) {
        Ok(()) => Some(key.to_vec()),
        Err(_) => None,
    }
}

/// Decimal digits of `n` as ASCII bytes, most significant first.
pub open spec fn decimal(n: nat) -> Seq<u8>
    decreases n,
{
    if n < 10 {
        seq![(48 + n) as u8]
    } else {
        decimal(n / 10).push((48 + n % 10) as u8)
    }
}

/// The decimal texts of the words of `ws`, one after the other.
pub open spec fn words_text(ws: Seq<usize>) -> Seq<u8>
    decreases ws.len(),
{
    if ws.len() == 0 {
        Seq::empty()
    } else {
        words_text(ws.drop_last()) + decimal(ws.last() as nat)
    }
}

/// The decimal text of `n`, as `format!("{}", n)` writes it.
pub fn decimal_bytes(n: usize) -> (r: Vec<u8>)
    ensures
        r@ == decimal(n as nat),
    decreases n,
{
    if n < 10 {
        let d = 48 + n as u8;
        let v = vec![d];
        assert(v@ =~= seq![(48 + n) as u8]);
        v
    } else {
        let mut v = decimal_bytes(n / 10);
        v.push(48 + (n % 10) as u8);
        v
    }
}

/// The decimal texts of the words of `ws`, one after the other.
pub fn words_text_bytes(ws: &Vec<usize>) -> (r: Vec<u8>)
    ensures
        r@ == words_text(ws@),
{
    let mut out: Vec<u8> = Vec::new();
    let mut i: usize = 0;
    while i < ws.len()
        invariant
            i <= ws@.len(),
            out@ == words_text(ws@.subrange(0, i as int)),
        decreases ws@.len() - i,
    {
        let d = decimal_bytes(ws[i]);
        let mut k: usize = 0;
        let ghost before = out@;
        while k < d.len()
            invariant
                k <= d@.len(),
                out@ == before + d@.subrange(0, k as int),
            decreases d@.len() - k,
        {
            out.push(d[k]);
            k = k + 1;
            assert(out@ =~= before + d@.subrange(0, k as int));
        }
        proof {
            assert(d@.subrange(0, d@.len() as int) =~= d@);
            assert(ws@.subrange(0, i + 1).drop_last() =~= ws@.subrange(0, i as int));
        }
        i = i + 1;
    }
    assert(ws@.subrange(0, ws@.len() as int) =~= ws@);
    out
}

} // verus!
