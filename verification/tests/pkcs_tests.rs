use mmk::pkcs::crypto_impl::{
    c_close_session, c_decrypt, c_decrypt_final, c_decrypt_init, c_decrypt_update, c_encrypt, c_encrypt_final,
    c_encrypt_init, c_encrypt_update, c_finalize, c_generate_key_pair, c_get_slot_list, c_initialize, c_login,
    c_logout, c_open_session,
};
use mmk::pkcs::cryptoconfig::{CkMechanism, SessionManager, E_AES256, E_SHA3};
use mmk::pkcs::state::{
    del_object, del_session, get_object, get_session, new_object, new_session, update_session, CkContext, CkObject,
    Counter, CryptoState, Session,
};
use mmk::pkcs::{cryptoki_call, CryptokiCall};

const SHA3_OF_123: [u8; 32] = [
    160, 58, 177, 155, 134, 111, 197, 133, 181, 203, 24, 18, 162, 246, 60, 168, 97, 231, 231, 100, 62, 229, 212,
    63, 215, 16, 107, 98, 55, 37, 253, 103,
];
const SHA3_OF_1020: [u8; 32] = [
    216, 222, 73, 28, 110, 195, 100, 219, 107, 166, 79, 173, 218, 160, 161, 193, 7, 216, 240, 162, 173, 64, 124,
    251, 237, 4, 135, 73, 144, 202, 47, 123,
];

fn sha3_mech() -> CkMechanism {
    CkMechanism { mechanism: E_SHA3, p_parameter: 0, ul_parameter_len: 0 }
}

#[test]
fn trivial_calls_succeed() {
    assert_eq!(c_initialize(), 0);
    assert_eq!(c_finalize(), 0);
    assert_eq!(c_get_slot_list(0, 0, 0), 0);
    assert_eq!(c_login(1, 0, 0, 0), 0);
    assert_eq!(c_logout(1), 0);
}

#[test]
fn counter_counts_from_one() {
    let mut c = Counter::new();
    assert_eq!(c.get_next(), 1);
    assert_eq!(c.get_next(), 2);
}

#[test]
fn sessions_get_increasing_handles() {
    let mut st = CryptoState::new();
    assert_eq!(c_open_session(&mut st, 0, 0), (0, 1));
    assert_eq!(c_open_session(&mut st, 0, 0), (0, 2));
    let s = get_session(&st, 2).unwrap();
    assert_eq!(s.handle, 2);
    assert!(!s.enc.valid);
    assert!(get_session(&st, 3).is_none());
}

#[test]
fn closed_session_is_gone() {
    let mut st = CryptoState::new();
    let h = new_session(&mut st);
    let g = new_session(&mut st);
    assert_eq!(c_close_session(&mut st, h), 0);
    assert!(get_session(&st, h).is_none());
    assert!(get_session(&st, g).is_some());
    del_session(&mut st, g);
    assert!(st.sessions.is_empty());
}

#[test]
fn update_session_replaces_and_moves_last() {
    let mut st = CryptoState::new();
    let h = new_session(&mut st);
    let g = new_session(&mut st);
    let mut s = get_session(&st, h).unwrap();
    s.dec.valid = true;
    update_session(&mut st, s);
    assert_eq!(st.sessions.len(), 2);
    assert_eq!(st.sessions[0].handle, g);
    assert_eq!(st.sessions[1].handle, h);
    assert!(get_session(&st, h).unwrap().dec.valid);
}

#[test]
fn objects_share_the_handle_counter() {
    let mut st = CryptoState::new();
    let h = new_session(&mut st);
    let o = new_object(&mut st, vec![1, 2, 3]);
    assert_eq!(h, 1);
    assert_eq!(o, 2);
    let obj = get_object(&st, o).unwrap();
    assert_eq!(obj.content_size, 3);
    assert_eq!(&obj.content[..4], &[1, 2, 3, 0]);
    del_object(&mut st, o);
    assert!(get_object(&st, o).is_none());
}

#[test]
fn object_of_256_bytes_has_size_zero() {
    let mut c = Counter::new();
    let obj = CkObject::new(vec![7; 256], &mut c);
    assert_eq!(obj.handle, 1);
    // the size is kept in a byte
    assert_eq!(obj.content_size, 0);
    assert_eq!(obj.content[255], 7);
}

#[test]
fn fresh_context_and_session() {
    let ctx = CkContext::new();
    assert!(!ctx.valid);
    assert_eq!(ctx.key, 0);
    assert_eq!(ctx.mech.mechanism, 0);
    let mut c = Counter::new();
    let s = Session::new(&mut c);
    assert_eq!(s.handle, 1);
}

#[test]
fn encrypt_update_hashes_the_decimal_text() {
    let mut st = CryptoState::new();
    let h = new_session(&mut st);
    let mut s = get_session(&st, h).unwrap();
    s.enc.mech = sha3_mech();
    update_session(&mut st, s);
    let (rv, out) = c_encrypt_update(&st, h, &vec![1, 2, 3], 3);
    assert_eq!(rv, 0);
    assert_eq!(out, Some(SHA3_OF_123));
    let (_, out) = c_encrypt_update(&st, h, &vec![10, 20], 2);
    assert_eq!(out, Some(SHA3_OF_1020));
}

#[test]
fn encrypt_on_unknown_session_does_nothing() {
    let mut st = CryptoState::new();
    assert_eq!(c_encrypt_update(&st, 5, &vec![1], 1), (0, None));
    assert_eq!(c_encrypt(&mut st, 5, &vec![1], 1), (0, None));
    assert!(st.sessions.is_empty());
}

#[test]
fn encrypt_init_leaves_the_state_alone() {
    let mut st = CryptoState::new();
    let h = new_session(&mut st);
    assert_eq!(c_encrypt_init(&st, h, sha3_mech(), 9), 0);
    let s = get_session(&st, h).unwrap();
    assert!(!s.enc.valid);
    assert_eq!(s.enc.key, 0);
}

#[test]
fn encrypt_final_resets_the_context() {
    let mut st = CryptoState::new();
    let h = new_session(&mut st);
    let mut s = get_session(&st, h).unwrap();
    s.enc = CkContext { valid: true, key: 4, mech: sha3_mech() };
    update_session(&mut st, s);
    assert_eq!(c_encrypt_final(&mut st, h), 0);
    let s = get_session(&st, h).unwrap();
    assert!(!s.enc.valid);
    assert_eq!(s.enc.key, 0);
    assert_eq!(s.enc.mech.mechanism, E_SHA3);
}

#[test]
fn one_step_encrypt() {
    let mut st = CryptoState::new();
    let h = new_session(&mut st);
    let mut s = get_session(&st, h).unwrap();
    s.enc = CkContext { valid: true, key: 4, mech: sha3_mech() };
    update_session(&mut st, s);
    assert_eq!(c_encrypt(&mut st, h, &vec![1, 2, 3], 3), (0, Some(SHA3_OF_123)));
    assert!(!get_session(&st, h).unwrap().enc.valid);
}

#[test]
fn decrypt_init_and_final() {
    let mut st = CryptoState::new();
    let h = new_session(&mut st);
    let mech = CkMechanism { mechanism: E_AES256, p_parameter: 0, ul_parameter_len: 0 };
    assert_eq!(c_decrypt_init(&mut st, h, mech, 7), 0);
    let s = get_session(&st, h).unwrap();
    assert!(s.dec.valid);
    assert_eq!(s.dec.key, 7);
    assert_eq!(s.dec.mech.mechanism, E_AES256);
    assert_eq!(c_decrypt_final(&mut st, h), 0);
    let s = get_session(&st, h).unwrap();
    assert!(!s.dec.valid);
    assert_eq!(s.dec.key, 0);
}

#[test]
fn decrypt_without_session_does_nothing() {
    let mut st = CryptoState::new();
    assert_eq!(c_decrypt_update(&st, 3, 16), 0);
    assert_eq!(c_decrypt(&mut st, 3, 16), 0);
    assert!(st.sessions.is_empty());
}

#[test]
fn generate_key_pair_stores_the_key_twice() {
    let mut st = CryptoState::new();
    let h = new_session(&mut st);
    let (rv, public, private) = c_generate_key_pair(&mut st, h, 0, 0, 0, 0);
    assert_eq!(rv, 0);
    assert_eq!((public, private), (2, 3));
    let a = get_object(&st, public).unwrap();
    let b = get_object(&st, private).unwrap();
    assert_eq!(a.content_size, 32);
    assert_eq!(a.content, b.content);
    assert!(a.content[32..].iter().all(|x| *x == 0));
}

#[test]
fn two_key_pairs_differ() {
    let mut st = CryptoState::new();
    let (_, p1, _) = c_generate_key_pair(&mut st, 0, 0, 0, 0, 0);
    let (_, p2, _) = c_generate_key_pair(&mut st, 0, 0, 0, 0, 0);
    assert_ne!(get_object(&st, p1).unwrap().content, get_object(&st, p2).unwrap().content);
}

#[test]
fn session_manager_hands_out_numbers() {
    let mut m = SessionManager::new();
    assert!(!m.is_valid(1));
    assert_eq!(m.session_alloc(), 1);
    assert_eq!(m.session_alloc(), 2);
    assert!(m.is_valid(1));
    assert!(m.is_valid(2));
    assert!(!m.is_valid(3));
    m.session_dealloc(1);
    assert!(m.is_valid(1));
}

#[test]
fn call_numbers() {
    assert_eq!(cryptoki_call(0x1), CryptokiCall::Initialize);
    assert_eq!(cryptoki_call(0x21), CryptokiCall::OpenSession);
    // encryption set-up is served by the decryption set-up
    assert_eq!(cryptoki_call(0x31), CryptokiCall::DecryptInit);
    assert_eq!(cryptoki_call(0x41), CryptokiCall::DecryptInit);
    assert_eq!(cryptoki_call(0x33), CryptokiCall::EncryptUpdate);
    assert_eq!(cryptoki_call(0x51), CryptokiCall::GenerateKeyPair);
    assert_eq!(cryptoki_call(0x4), CryptokiCall::Unsupported);
    assert_eq!(cryptoki_call(0x99), CryptokiCall::Unsupported);
}
