//! A small PKCS#11-style token: sessions, key objects, and the call numbers of the interface.

pub mod cryptoconfig;
pub mod state;
pub mod primitives;
pub mod crypto_impl;

use vstd::prelude::*;
use crate::pkcs::cryptoconfig::{CkMechanism, CkObjectHandle, CkSessionHandle};

verus! {

/// Call number of `C_Initialize`.
pub const C_INITIALIZE: usize = 0x1;
/// Call number of `C_Finalize`.
pub const C_FINALIZE: usize = 0x2;
/// Call number of `C_GetFunctionList` (not served).
pub const C_GET_FUNCTION_LIST: usize = 0x4;
/// Call number of `C_GetSlotList`.
pub const C_GET_SLOT_LIST: usize = 0x11;
/// Call number of `C_OpenSession`.
pub const C_OPEN_SESSION: usize = 0x21;
/// Call number of `C_CloseSession`.
pub const C_CLOSE_SESSION: usize = 0x22;
/// Call number of `C_Login`.
pub const C_LOGIN: usize = 0x27;
/// Call number of `C_Logout`.
pub const C_LOGOUT: usize = 0x28;
/// Call number of `C_EncryptInit`.
pub const C_ENCRYPT_INIT: usize = 0x31;
/// Call number of `C_Encrypt`.
pub const C_ENCRYPT: usize = 0x32;
/// Call number of `C_EncryptUpdate`.
pub const C_ENCRYPT_UPDATE: usize = 0x33;
/// Call number of `C_EncryptFinal`.
pub const C_ENCRYPT_FINAL: usize = 0x34;
/// Call number of `C_DecryptInit`.
pub const C_DECRYPT_INIT: usize = 0x41;
/// Call number of `C_Decrypt`.
pub const C_DECRYPT: usize = 0x42;
/// Call number of `C_DecryptUpdate`.
pub const C_DECRYPT_UPDATE: usize = 0x43;
/// Call number of `C_DecryptFinal`.
pub const C_DECRYPT_FINAL: usize = 0x44;
/// Call number of `C_GenerateKeyPair`.
pub const C_GENERATE_KEY_PAIR: usize = 0x51;

/// A session record: handle, key object and mechanism.
#[derive(Clone, Copy)]
pub struct Session {
    pub handle: CkSessionHandle,
    pub key: CkObjectHandle,
    pub mech: CkMechanism,
}

/// The token operation a call number selects.
#[derive(Clone, Copy, PartialEq, Eq, Structural, Debug)]
pub enum CryptokiCall {
    Initialize,
    Finalize,
    GetSlotList,
    OpenSession,
    CloseSession,
    Login,
    Logout,
    Encrypt,
    EncryptUpdate,
    EncryptFinal,
    DecryptInit,
    Decrypt,
    DecryptUpdate,
    DecryptFinal,
    GenerateKeyPair,
    Unsupported,
}

/// The operation served for call number `id`. `C_EncryptInit` is served by the decryption
/// set-up; unknown numbers, `C_GetFunctionList` among them, are unsupported (answered with 1).
pub open spec fn call_of(id: usize) -> CryptokiCall {
    if id == C_INITIALIZE {
        CryptokiCall::Initialize
    } else if id == C_FINALIZE {
        CryptokiCall::Finalize
    } else if id == C_GET_SLOT_LIST {
        CryptokiCall::GetSlotList
    } else if id == C_OPEN_SESSION {
        CryptokiCall::OpenSession
    } else if id == C_CLOSE_SESSION {
        CryptokiCall::CloseSession
    } else if id == C_LOGIN {
        CryptokiCall::Login
    } else if id == C_LOGOUT {
        CryptokiCall::Logout
    } else if id == C_ENCRYPT_INIT || id == C_DECRYPT_INIT {
        CryptokiCall::DecryptInit
    } else if id == C_ENCRYPT {
        CryptokiCall::Encrypt
    } else if id == C_ENCRYPT_FINAL {
        CryptokiCall::EncryptFinal
    } else if id == C_ENCRYPT_UPDATE {
        CryptokiCall::EncryptUpdate
    } else if id == C_DECRYPT {
        CryptokiCall::Decrypt
    } else if id == C_DECRYPT_UPDATE {
        CryptokiCall::DecryptUpdate
    } else if id == C_DECRYPT_FINAL {
        CryptokiCall::DecryptFinal
    } else if id == C_GENERATE_KEY_PAIR {
        CryptokiCall::GenerateKeyPair
    } else {
        CryptokiCall::Unsupported
    }
}

/// The operation served for call number `id`.
pub fn cryptoki_call(id: usize) -> (r: CryptokiCall)
    ensures
        r == call_of(id),
{
    match id {
        C_INITIALIZE => CryptokiCall::Initialize,
        C_FINALIZE => CryptokiCall::Finalize,
        C_GET_SLOT_LIST => CryptokiCall::GetSlotList,
        C_OPEN_SESSION => CryptokiCall::OpenSession,
        C_CLOSE_SESSION => CryptokiCall::CloseSession,
        C_LOGIN => CryptokiCall::Login,
        C_LOGOUT => CryptokiCall::Logout,
        C_ENCRYPT_INIT => CryptokiCall::DecryptInit,
        C_ENCRYPT => CryptokiCall::Encrypt,
        C_ENCRYPT_FINAL => CryptokiCall::EncryptFinal,
        C_ENCRYPT_UPDATE => CryptokiCall::EncryptUpdate,
        C_DECRYPT_INIT => CryptokiCall::DecryptInit,
        C_DECRYPT => CryptokiCall::Decrypt,
        C_DECRYPT_UPDATE => CryptokiCall::DecryptUpdate,
        C_DECRYPT_FINAL => CryptokiCall::DecryptFinal,
        C_GENERATE_KEY_PAIR => CryptokiCall::GenerateKeyPair,
        _ => CryptokiCall::Unsupported,
    }
}

/// The call number of the PKCS#11 function an operation is named after (`C_DecryptInit` for
/// the decryption set-up); 0, which is no call number, for an unsupported call.
pub open spec fn call_number(c: CryptokiCall) -> usize {
    match c {
        CryptokiCall::Initialize => C_INITIALIZE,
        CryptokiCall::Finalize => C_FINALIZE,
        CryptokiCall::GetSlotList => C_GET_SLOT_LIST,
        CryptokiCall::OpenSession => C_OPEN_SESSION,
        CryptokiCall::CloseSession => C_CLOSE_SESSION,
        CryptokiCall::Login => C_LOGIN,
        CryptokiCall::Logout => C_LOGOUT,
        CryptokiCall::Encrypt => C_ENCRYPT,
        CryptokiCall::EncryptUpdate => C_ENCRYPT_UPDATE,
        CryptokiCall::EncryptFinal => C_ENCRYPT_FINAL,
        CryptokiCall::DecryptInit => C_DECRYPT_INIT,
        CryptokiCall::Decrypt => C_DECRYPT,
        CryptokiCall::DecryptUpdate => C_DECRYPT_UPDATE,
        CryptokiCall::DecryptFinal => C_DECRYPT_FINAL,
        CryptokiCall::GenerateKeyPair => C_GENERATE_KEY_PAIR,
        CryptokiCall::Unsupported => 0,
    }
}

/// Each call number selects the operation named after its function: the number of every
/// served operation selects that operation, and a number that selects a served operation is
/// that operation's own number, except `C_EncryptInit`, which selects the decryption set-up.
/// `C_GetFunctionList` and every number that is no function's are unsupported.
pub proof fn lemma_call_numbers(id: usize, c: CryptokiCall)
    ensures
        !(c is Unsupported) ==> call_of(call_number(c)) == c,
        !(call_of(id) is Unsupported) ==> call_number(call_of(id)) == id || (id == C_ENCRYPT_INIT && call_of(id)
            == CryptokiCall::DecryptInit),
        id == C_ENCRYPT_INIT ==> call_of(id) == CryptokiCall::DecryptInit,
        id == C_GET_FUNCTION_LIST ==> call_of(id) == CryptokiCall::Unsupported,
{
}

} // verus!
