use vstd::prelude::*;

verus! {

/// Address of a value in the caller's memory.
pub type CkVoidPtr = u64;
/// A byte.
pub type CkByte = u8;
/// Address of a byte buffer in the caller's memory.
pub type CkBytePtr = usize;
/// The integer type of the token interface.
pub type CkUlong = u32;
/// A boolean encoded as a byte.
pub type CkBbool = CkByte;
/// A slot id.
pub type CckSlotId = CkUlong;
/// Address of a slot id in the caller's memory.
pub type CkSlotIdPtr = usize;
/// Address of an integer in the caller's memory.
pub type CkUlongPtr = usize;
/// A slot id.
pub type CkSlotId = CkUlong;
/// Flags.
pub type CkFlags = CkUlong;
/// A session handle.
pub type CkSessionHandle = CkUlong;
/// Address of a session handle in the caller's memory.
pub type CkSessionHandlePtr = usize;
/// A user type.
pub type CkUserType = CkUlong;
/// A character.
pub type CkChar = CkByte;
/// Address of a character buffer in the caller's memory.
pub type CkCharPtr = usize;
/// A mechanism type.
pub type CkMechanismType = CkUlong;
/// Address of a mechanism in the caller's memory.
pub type CkMechanismPtr = usize;
/// An object handle.
pub type CkObjectHandle = CkUlong;
/// An attribute type.
pub type CkAttributeType = CkUlong;
/// Address of an object handle in the caller's memory.
pub type CkObjectHandlePtr = usize;

/// Mechanism number of SHA3-256 hashing.
pub const E_SHA3: u32 = 1;
/// Mechanism number of AES-256-GCM.
pub const E_AES256: u32 = 2;

/// Return value of a call that failed for a reason outside the token (`CKR_FUNCTION_FAILED`).
pub const CKR_FUNCTION_FAILED: usize = 0x6;

/// A mechanism and its parameter.
#[derive(Clone, Copy, PartialEq, Eq, Structural, Debug)]
pub struct CkMechanism {
    pub mechanism: CkMechanismType,
    pub p_parameter: CkVoidPtr,
    pub ul_parameter_len: CkUlong,
}

/// Arguments of `C_OpenSession` as laid out in the caller's memory.
#[derive(Clone, Copy, Debug)]
pub struct Copen {
    pub csid: CkSlotId,
    pub cflag: CkFlags,
    pub c: CkVoidPtr,
    pub notify: usize,
    pub cshp: CkSessionHandlePtr,
}

/// An attribute.
#[derive(Clone, Copy, Debug)]
pub struct CkAttribute {
    pub t: CkAttributeType,
    pub p_value: CkVoidPtr,
    pub ul_value_len: CkUlong,
}

/// Arguments of `C_GetSlotList`.
#[derive(Clone, Copy, Debug)]
pub struct CSlotLIst {
    pub cb: CkBbool,
    pub cslot: CkSlotIdPtr,
    pub cup: CkUlongPtr,
}

/// Arguments of `C_Login`.
#[derive(Clone, Copy, Debug)]
pub struct Clogin {
    pub csh: CkSessionHandle,
    pub cut: CkUserType,
    pub ccp: CkCharPtr,
    pub cu: CkUlong,
}

/// Arguments of `C_EncryptInit`.
#[derive(Clone, Copy, Debug)]
pub struct Einit {
    pub csh: CkSessionHandle,
    pub cmp: CkMechanismPtr,
    pub coh: CkObjectHandle,
}

/// Arguments of `C_Encrypt` and `C_EncryptUpdate`.
#[derive(Clone, Copy, Debug)]
pub struct Encrypt {
    pub csh: CkSessionHandle,
    pub cbp1: CkBytePtr,
    pub cu: CkUlong,
    pub cbp2: CkBytePtr,
    pub cup: CkUlongPtr,
}

/// Arguments of `C_DecryptInit`.
#[derive(Clone, Copy, Debug)]
pub struct Dinit {
    pub csh: CkSessionHandle,
    pub cmp: CkMechanismPtr,
    pub coh: CkObjectHandle,
}

/// Arguments of `C_Decrypt` and `C_DecryptUpdate`.
#[derive(Clone, Copy, Debug)]
pub struct Decrypt {
    pub csh: CkSessionHandle,
    pub cbp1: CkBytePtr,
    pub cu1: CkUlong,
    pub cbp2: CkBytePtr,
    pub cu2: CkUlongPtr,
}

/// Arguments of `C_EncryptFinal` and `C_DecryptFinal`.
#[derive(Clone, Copy, Debug)]
pub struct Dfinal {
    pub csh: CkSessionHandle,
    pub cbp: CkBytePtr,
    pub cup: CkUlongPtr,
}

/// Arguments of `C_GenerateKeyPair`.
#[derive(Clone, Copy, Debug)]
pub struct Generate {
    pub csh: CkSessionHandle,
    pub cmp: CkMechanismPtr,
    pub cap1: CkAttributeType,
    pub cu1: CkUlong,
    pub cap2: CkAttributeType,
    pub cu2: CkUlong,
    pub cohp1: CkObjectHandlePtr,
    pub cohp2: CkObjectHandlePtr,
}

/// Hands out session numbers 1, 2, 3, ... and remembers those handed out.
pub struct SessionManager {
    pub base: u64,
    pub valid: Vec<u64>,
}

impl SessionManager {
    /// Every number handed out is below the next one.
    pub open spec fn wf(&self) -> bool {
        forall|i: int| 0 <= i < self.valid@.len() ==> #[trigger] self.valid@[i] < self.base
    }

    /// A manager that hands out 1 first and has handed out nothing.
    pub fn new() -> (r: SessionManager)
        ensures
            r.base == 1,
            r.valid@ == Seq::<u64>::empty(),
            r.wf(),
    {
        SessionManager { base: 1, valid: Vec::new() }
    }

    /// Hands out the next session number and remembers it.
    pub fn session_alloc(&mut self) -> (r: u64)
        requires
            old(self).base < u64::MAX,
        ensures
            r == old(self).base,
            final(self).base == old(self).base + 1,
            final(self).valid@ == old(self).valid@.push(r),
            old(self).wf() ==> final(self).wf() && !old(self).valid@.contains(r),
    {
        let ans = self.base;
        self.valid.push(ans);
        self.base = self.base + 1;
        ans
    }

    /// Releasing a session number does nothing: it stays valid.
    pub fn session_dealloc(&mut self, session: u64)
        ensures
            final(self).base == old(self).base,
            final(self).valid@ == old(self).valid@,
    {
    }

    /// Whether `session` was handed out.
    pub fn is_valid(&self, session: u64) -> (r: bool)
        ensures
            r == self.valid@.contains(session),
    {
        let mut index: usize = 0;
        while index < self.valid.len()
            invariant
                index <= self.valid@.len(),
                forall|j: int| 0 <= j < index ==> self.valid@[j] != session,
            decreases self.valid@.len() - index,
        {
            if self.valid[index] == session {
                return true;
            }
            index = index + 1;
        }
        false
    }
}

/// A session number handed out by the manager is valid from then on.
pub proof fn lemma_alloc_then_valid(valid: Seq<u64>, h: u64)
    ensures
        valid.push(h).contains(h),
{
    assert(valid.push(h)[valid.len() as int] == h);
}

} // verus!
