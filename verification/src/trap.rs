//! Trap handling decisions: the saved register context, what the outer kernel does with a trap
//! taken from user mode, and which nested-kernel service a call from the outer kernel asks for.
//! Reading the trap registers, switching tasks and running system calls is done by the caller;
//! these functions decide and update the saved context.

use vstd::prelude::*;
use tiny_keccak::Sha3;
use crate::pkcs::primitives::{
    decimal, decimal_bytes, sha3_256_digest, sha3_256_new, sha3_absorbed, sha3_finalize, sha3_update,
    words_text,
};

verus! {

/// The registers saved on a trap: the 32 general registers, the bits of `sstatus`, the
/// trapping instruction's address, the kernel stack and the trap handler's address.
pub struct TrapContext {
    pub x: [usize; 32],
    pub sstatus: usize,
    pub sepc: usize,
    pub kernel_sp: usize,
    pub trap_handler: usize,
}

/// Register index of the stack pointer.
pub const REG_SP: usize = 2;
/// Register index of the first argument and of the return value.
pub const REG_A0: usize = 10;
/// Register index of the call number.
pub const REG_A7: usize = 17;

impl TrapContext {
    /// Sets the saved stack pointer.
    pub fn set_sp(&mut self, sp: usize)
        ensures
            final(self).x@ == old(self).x@.update(REG_SP as int, sp),
            final(self).sepc == old(self).sepc,
            final(self).kernel_sp == old(self).kernel_sp,
            final(self).trap_handler == old(self).trap_handler,
            final(self).sstatus == old(self).sstatus,
    {
        self.x[REG_SP] = sp;
    }

    /// The saved stack pointer.
    pub fn get_sp(&self) -> (r: usize)
        ensures
            r == self.x@[REG_SP as int],
    {
        self.x[REG_SP]
    }

    /// The context a new user program starts from: all registers zero but the stack pointer
    /// `sp`, resuming at `entry` with the given `sstatus` (read after its previous privilege
    /// was set to user), on kernel stack `kernel_sp`, trapping to `trap_handler`.
    pub fn app_init_context(
        entry: usize,
        sp: usize,
        kernel_sp: usize,
        sstatus: usize,
        trap_handler: usize,
    ) -> (r: TrapContext)
        ensures
            r.x@ == Seq::new(32, |i: int| 0usize).update(REG_SP as int, sp),
            r.sepc == entry,
            r.kernel_sp == kernel_sp,
            r.trap_handler == trap_handler,
            r.sstatus == sstatus,
    {
        let mut cx = TrapContext { x: [0; 32], sstatus, sepc: entry, kernel_sp, trap_handler };
        cx.set_sp(sp);
        assert(cx.x@ =~= Seq::new(32, |i: int| 0usize).update(REG_SP as int, sp));
        cx
    }
}

/// The cause of a trap taken from user mode, as far as the outer kernel tells causes apart.
#[derive(Clone, Copy, PartialEq, Eq, Structural, Debug)]
pub enum TrapCause {
    UserEnvCall,
    InstructionFault,
    InstructionPageFault,
    IllegalInstruction,
    LoadFault,
    StoreFault,
    StorePageFault,
    LoadPageFault,
    SupervisorTimer,
    Other,
}

/// What the outer kernel does about a trap.
#[derive(Clone, Copy, Debug)]
pub enum OuterTrapAction {
    /// Run system call `id` on the six argument registers, then store its result.
    Syscall { id: usize, args: [usize; 6] },
    /// An instruction fault at `stval`: the task is killed with code -2 unless a signal
    /// handler takes it.
    InstructionFault { stval: usize },
    /// An illegal instruction: the task exits with code -3.
    IllegalInstruction { stval: usize },
    /// A load or store fault at `va`, to be resolved lazily or else killed like an
    /// instruction fault.
    MemoryFault { va: usize, is_load: bool },
    /// A faulting address above the trampoline: a kernel panic.
    OutOfRange { va: usize },
    /// A timer interrupt: set the next tick and yield the processor.
    Timer,
    /// Any other cause: a kernel panic.
    Unsupported { stval: usize },
}

/// The action for a trap of cause `cause` with trap value `stval`, given the saved context
/// `cx` (before it is updated) and the trampoline address `trampoline`.
pub open spec fn outer_trap_action(cx: TrapContext, cause: TrapCause, stval: usize, trampoline: usize) -> OuterTrapAction {
    match cause {
        TrapCause::UserEnvCall => OuterTrapAction::Syscall {
            id: cx.x@[17],
            args: [cx.x@[10], cx.x@[11], cx.x@[12], cx.x@[13], cx.x@[14], cx.x@[15]],
        },
        TrapCause::InstructionFault | TrapCause::InstructionPageFault => OuterTrapAction::InstructionFault {
            stval,
        },
        TrapCause::IllegalInstruction => OuterTrapAction::IllegalInstruction { stval },
        TrapCause::LoadFault | TrapCause::StoreFault | TrapCause::StorePageFault | TrapCause::LoadPageFault => {
            if stval > trampoline {
                OuterTrapAction::OutOfRange { va: stval }
            } else {
                OuterTrapAction::MemoryFault {
                    va: stval,
                    is_load: cause == TrapCause::LoadFault || cause == TrapCause::LoadPageFault,
                }
            }
        },
        TrapCause::SupervisorTimer => OuterTrapAction::Timer,
        TrapCause::Other => OuterTrapAction::Unsupported { stval },
    }
}

/// What each cause of a trap from user mode leads to. A system call is run with its number
/// from register a7 and its arguments from a0 to a5. Load faults and load page faults are
/// memory faults reported as loads, store faults and store page faults as stores, both at the
/// faulting address, unless that address lies above the trampoline, which is out of range.
/// Instruction faults of either kind and illegal instructions carry the trap value, a
/// supervisor timer interrupt is a tick, and any other cause is unsupported.
pub proof fn lemma_outer_trap_causes(cx: TrapContext, cause: TrapCause, stval: usize, trampoline: usize)
    ensures
        cause is UserEnvCall ==> (outer_trap_action(cx, cause, stval, trampoline) matches OuterTrapAction::Syscall {
            id,
            args,
        } && id == cx.x@[17] && forall|i: int| 0 <= i < 6 ==> #[trigger] args@[i] == cx.x@[10 + i]),
        (cause is LoadFault || cause is LoadPageFault) && stval <= trampoline ==> outer_trap_action(
            cx,
            cause,
            stval,
            trampoline,
        ) == (OuterTrapAction::MemoryFault { va: stval, is_load: true }),
        (cause is StoreFault || cause is StorePageFault) && stval <= trampoline ==> outer_trap_action(
            cx,
            cause,
            stval,
            trampoline,
        ) == (OuterTrapAction::MemoryFault { va: stval, is_load: false }),
        (cause is LoadFault || cause is LoadPageFault || cause is StoreFault || cause is StorePageFault)
            && stval > trampoline ==> outer_trap_action(cx, cause, stval, trampoline) == (
        OuterTrapAction::OutOfRange { va: stval }),
        (cause is InstructionFault || cause is InstructionPageFault) ==> outer_trap_action(
            cx,
            cause,
            stval,
            trampoline,
        ) == (OuterTrapAction::InstructionFault { stval }),
        cause is IllegalInstruction ==> outer_trap_action(cx, cause, stval, trampoline) == (
        OuterTrapAction::IllegalInstruction { stval }),
        cause is SupervisorTimer ==> outer_trap_action(cx, cause, stval, trampoline) == OuterTrapAction::Timer,
        cause is Other ==> outer_trap_action(cx, cause, stval, trampoline) == (OuterTrapAction::Unsupported {
            stval,
        }),
{
    if cause is UserEnvCall {
        if let OuterTrapAction::Syscall { id, args } = outer_trap_action(cx, cause, stval, trampoline) {
            assert forall|i: int| 0 <= i < 6 implies #[trigger] args@[i] == cx.x@[10 + i] by {
                assert(args@[i] == args[i]);
            }
        }
    }
}

/// Decides what to do about a trap from user mode. A system call moves the saved program
/// counter past the `ecall` instruction; nothing else changes the context.
pub fn handle_outer_trap(cx: &mut TrapContext, cause: TrapCause, stval: usize, trampoline: usize) -> (r: OuterTrapAction)
    requires
        cause == TrapCause::UserEnvCall ==> old(cx).sepc + 4 <= usize::MAX,
    ensures
        r == outer_trap_action(*old(cx), cause, stval, trampoline),
        final(cx).x@ == old(cx).x@,
        final(cx).sepc == if cause == TrapCause::UserEnvCall {
            (old(cx).sepc + 4) as usize
        } else {
            old(cx).sepc
        },
        final(cx).kernel_sp == old(cx).kernel_sp,
        final(cx).trap_handler == old(cx).trap_handler,
        final(cx).sstatus == old(cx).sstatus,
{
    match cause {
        TrapCause::UserEnvCall => {
            cx.sepc = cx.sepc + 4;
            OuterTrapAction::Syscall {
                id: cx.x[17],
                args: [cx.x[10], cx.x[11], cx.x[12], cx.x[13], cx.x[14], cx.x[15]],
            }
        },
        TrapCause::InstructionFault | TrapCause::InstructionPageFault => OuterTrapAction::InstructionFault {
            stval,
        },
        TrapCause::IllegalInstruction => OuterTrapAction::IllegalInstruction { stval },
        TrapCause::LoadFault | TrapCause::StoreFault | TrapCause::StorePageFault | TrapCause::LoadPageFault => {
            let is_load = cause == TrapCause::LoadFault || cause == TrapCause::LoadPageFault;
            if stval > trampoline {
                OuterTrapAction::OutOfRange { va: stval }
            } else {
                OuterTrapAction::MemoryFault { va: stval, is_load }
            }
        },
        TrapCause::SupervisorTimer => OuterTrapAction::Timer,
        TrapCause::Other => OuterTrapAction::Unsupported { stval },
    }
}

/// Stores a system call's result in the return-value register.
pub fn finish_syscall(cx: &mut TrapContext, result: isize)
    ensures
        final(cx).x@ == old(cx).x@.update(REG_A0 as int, result as usize),
        final(cx).sepc == old(cx).sepc,
        final(cx).kernel_sp == old(cx).kernel_sp,
        final(cx).trap_handler == old(cx).trap_handler,
        final(cx).sstatus == old(cx).sstatus,
{
    cx.x[REG_A0] = result as usize;
}

/// Call number of the echo service.
pub const MMKCALL_ECHO: usize = 0x400;
/// Call number of the measurement service.
pub const MMKCALL_MEASURE: usize = 0x401;
/// Call number of the PKCS#11 service (not served).
pub const MMKCALL_PKCS: usize = 0x402;
/// Call number of the log service.
pub const MMKCALL_LOGGING: usize = 0x403;

/// A service the outer kernel asks of the nested kernel.
#[derive(Clone, Copy, PartialEq, Eq, Structural, Debug)]
pub enum NkCall {
    /// Print `arg`.
    Echo { arg: usize },
    /// Store the measurement of the outer kernel in the return-value register.
    Measure,
    /// The PKCS#11 service, which does nothing.
    Pkcs,
    /// A log request, decoded by `logging_handler`.
    Logging { id: usize, para1: usize, para2: usize },
    /// An unknown call number: a warning is due.
    Unsupported { id: usize },
}

/// The service asked for by the saved context `cx`.
pub open spec fn nk_call_of(cx: TrapContext) -> NkCall {
    let id = cx.x@[17];
    if id == MMKCALL_ECHO {
        NkCall::Echo { arg: cx.x@[10] }
    } else if id == MMKCALL_MEASURE {
        NkCall::Measure
    } else if id == MMKCALL_PKCS {
        NkCall::Pkcs
    } else if id == MMKCALL_LOGGING {
        NkCall::Logging { id: cx.x@[10], para1: cx.x@[11], para2: cx.x@[12] }
    } else {
        NkCall::Unsupported { id }
    }
}

/// The service a call into the nested kernel asks for is read from register a7: 0x400 echoes
/// a0, 0x401 measures, 0x402 is the PKCS#11 service, 0x403 a log request with its operation
/// and two parameters in a0 to a2, and any other number is unsupported and reported as such.
pub proof fn lemma_nk_call_numbers(cx: TrapContext)
    ensures
        cx.x@[17] == 0x400 ==> nk_call_of(cx) == (NkCall::Echo { arg: cx.x@[10] }),
        cx.x@[17] == 0x401 ==> nk_call_of(cx) == NkCall::Measure,
        cx.x@[17] == 0x402 ==> nk_call_of(cx) == NkCall::Pkcs,
        cx.x@[17] == 0x403 ==> nk_call_of(cx) == (NkCall::Logging {
            id: cx.x@[10],
            para1: cx.x@[11],
            para2: cx.x@[12],
        }),
        !(0x400 <= cx.x@[17] <= 0x403) ==> nk_call_of(cx) == (NkCall::Unsupported { id: cx.x@[17] }),
{
}

/// Decodes the service asked for by the saved context; the call itself always answers 0.
pub fn nk_syscall_impl(ctx: &TrapContext) -> (r: NkCall)
    ensures
        r == nk_call_of(*ctx),
{
    let call_id = ctx.x[17];
    match call_id {
        MMKCALL_ECHO => NkCall::Echo { arg: ctx.x[10] },
        MMKCALL_MEASURE => NkCall::Measure,
        MMKCALL_PKCS => NkCall::Pkcs,
        MMKCALL_LOGGING => NkCall::Logging { id: ctx.x[10], para1: ctx.x[11], para2: ctx.x[12] },
        _ => NkCall::Unsupported { id: call_id },
    }
}

/// Handles a call into the nested kernel: moves the saved program counter past the `ecall`
/// instruction and decodes the service asked for.
pub fn nk_trap_handler(ctx: &mut TrapContext) -> (r: NkCall)
    requires
        old(ctx).sepc + 4 <= usize::MAX,
    ensures
        r == nk_call_of(*old(ctx)),
        final(ctx).sepc == old(ctx).sepc + 4,
        final(ctx).x@ == old(ctx).x@,
        final(ctx).kernel_sp == old(ctx).kernel_sp,
        final(ctx).trap_handler == old(ctx).trap_handler,
        final(ctx).sstatus == old(ctx).sstatus,
{
    ctx.sepc = ctx.sepc + 4;
    nk_syscall_impl(ctx)
}

/// Stores the measurement `m` in the return-value register.
pub fn finish_measure(ctx: &mut TrapContext, m: usize)
    ensures
        final(ctx).x@ == old(ctx).x@.update(REG_A0 as int, m),
        final(ctx).sepc == old(ctx).sepc,
        final(ctx).kernel_sp == old(ctx).kernel_sp,
        final(ctx).trap_handler == old(ctx).trap_handler,
        final(ctx).sstatus == old(ctx).sstatus,
{
    ctx.x[REG_A0] = m;
}

/// The number whose little-endian bytes are `s`.
pub open spec fn le_value(s: Seq<u8>) -> nat
    decreases s.len(),
{
    if s.len() == 0 {
        0
    } else {
        (s[0] + 256 * le_value(s.drop_first())) as nat
    }
}

/// `256` to the power `n`.
pub open spec fn pow256(n: nat) -> nat
    decreases n,
{
    if n == 0 {
        1
    } else {
        256 * pow256((n - 1) as nat)
    }
}

/// The measurement of the outer kernel whose words are `ws`: the SHA3-256 digest of their
/// decimal texts one after the other, of which the first 8 bytes are read as a little-endian
/// number.
pub open spec fn measure_of(ws: Seq<usize>) -> usize {
    (le_value(sha3_256_digest(words_text(ws)).subrange(0, 8)) as u64) as usize
}

/// A measurement under way: the words of the outer kernel's space read so far, and a hasher
/// that has absorbed their decimal texts.
pub struct Measurement {
    hasher: Sha3,
    words: Ghost<Seq<usize>>,
}

impl Measurement {
    /// The words taken so far, in order.
    pub closed spec fn words(&self) -> Seq<usize> {
        self.words@
    }

    /// The hasher has absorbed exactly the decimal texts of the words taken.
    pub closed spec fn wf(&self) -> bool {
        sha3_absorbed(self.hasher) == words_text(self.words@)
    }

    /// A measurement that has taken no word.
    pub fn new() -> (r: Measurement)
        ensures
            r.wf(),
            r.words() == Seq::<usize>::empty(),
    {
        let r = Measurement { hasher: sha3_256_new(), words: Ghost(Seq::empty()) };
        assert(words_text(Seq::<usize>::empty()) == Seq::<u8>::empty());
        r
    }

    /// Takes the next word `w`.
    pub fn absorb(&mut self, w: usize)
        requires
            old(self).wf(),
        ensures
            final(self).wf(),
            final(self).words() == old(self).words().push(w),
    {
        let text = decimal_bytes(w);
        sha3_update(&mut self.hasher, text.as_slice());
        let ghost ws = self.words@.push(w);
        proof {
            assert(ws.drop_last() =~= self.words@);
            assert(words_text(ws) == words_text(self.words@) + decimal(w as nat));
        }
        self.words = Ghost(ws);
    }

    /// The measurement of the words taken.
    pub fn finish(self) -> (r: usize)
        requires
            self.wf(),
        ensures
            r == measure_of(self.words()),
    {
        let digest = sha3_finalize(self.hasher);
        measure_of_digest(&digest)
    }
}

/// The measurement of the outer kernel whose words, read at each byte address of its space in
/// turn, are `words`.
pub fn get_measure(words: &Vec<usize>) -> (r: usize)
    ensures
        r == measure_of(words@),
{
    let mut m = Measurement::new();
    let mut i: usize = 0;
    while i < words.len()
        invariant
            i <= words@.len(),
            m.wf(),
            m.words() == words@.subrange(0, i as int),
        decreases words@.len() - i,
    {
        m.absorb(words[i]);
        i = i + 1;
        assert(m.words() =~= words@.subrange(0, i as int));
    }
    assert(words@.subrange(0, words@.len() as int) =~= words@);
    m.finish()
}

/// The first 8 bytes of `digest` read as a little-endian number.
pub fn measure_of_digest(digest: &[u8; 32]) -> (r: usize)
    ensures
        r == (le_value(digest@.subrange(0, 8)) as u64) as usize,
{
    let ghost d = digest@;
    let mut v: u64 = 0;
    let mut i: usize = 8;
    proof {
        assert(d.subrange(8, 8) =~= Seq::<u8>::empty());
    }
    while i > 0
        invariant
            i <= 8,
            d == digest@,
            d.len() == 32,
            v == le_value(d.subrange(i as int, 8)),
            v < pow256((8 - i) as nat),
        decreases i,
    {
        let ghost prev = d.subrange(i as int, 8);
        i = i - 1;
        proof {
            assert(d.subrange(i as int, 8).drop_first() =~= prev);
            assert(pow256((8 - i) as nat) == 256 * pow256((8 - i - 1) as nat));
            lemma_pow256_eight();
            if i > 0 {
                assert(pow256((8 - i) as nat) <= pow256(7)) by {
                    lemma_pow256_mono((8 - i) as nat, 7);
                }
            }
        }
        v = digest[i] as u64 + 256 * v;
    }
    v as usize
}

/// Eight bytes hold the numbers below `2` to the power 64.
proof fn lemma_pow256_eight()
    ensures
        pow256(8) == 0x1_0000_0000_0000_0000,
{
    reveal_with_fuel(pow256, 9);
}

/// Powers of 256 grow with the exponent.
proof fn lemma_pow256_mono(a: nat, b: nat)
    requires
        a <= b,
    ensures
        pow256(a) <= pow256(b),
    decreases b,
{
    if a < b {
        lemma_pow256_mono(a, (b - 1) as nat);
    }
}

} // verus!
