use mmk::logging::{logging_handler, AppendVerdict, LogFrame, LogRequest};
use mmk::serial::Ns16550a;
use mmk::task::{Processor, RunStep, TaskContext, TaskRef};
use mmk::trap::{
    finish_measure, finish_syscall, get_measure, handle_outer_trap, nk_syscall_impl, nk_trap_handler, NkCall,
    OuterTrapAction, TrapCause, TrapContext,
};

const SPACE_END: usize = 0x8080_0000;
const SHA3_OF_EMPTY: [u8; 32] = [
    167, 255, 198, 248, 191, 30, 215, 102, 81, 193, 71, 86, 160, 97, 214, 98, 245, 128, 255, 77, 228, 59, 73,
    250, 130, 216, 10, 75, 128, 248, 67, 74,
];
const SHA3_OF_777: [u8; 32] = [
    139, 19, 255, 115, 161, 87, 215, 224, 91, 244, 161, 230, 208, 244, 65, 69, 102, 223, 190, 120, 52, 249, 87,
    100, 175, 198, 112, 210, 168, 46, 193, 235,
];

fn log() -> LogFrame {
    LogFrame::init(vec![0xaa; 4096])
}

#[test]
fn fresh_log_counts_four() {
    let f = log();
    assert_eq!(f.current_len(), 4);
    assert_eq!(f.printall(), Vec::<u8>::new());
}

#[test]
fn append_below_the_space_end_is_ignored() {
    let mut f = log();
    assert_eq!(f.append(SPACE_END - 1, &[1, 2], SPACE_END), AppendVerdict::Ignored);
    assert_eq!(f.current_len(), 4);
}

#[test]
fn append_overlapping_the_count_word() {
    let mut f = log();
    assert_eq!(f.append(SPACE_END, &[1, 2, 3, 4, 5, 6], SPACE_END), AppendVerdict::Accepted);
    assert_eq!(f.current_len(), 10);
    // bytes 4 to 7 belong to the count word, whose high bytes are zero
    assert_eq!(f.printall(), vec![0, 0, 0, 0, 5, 6]);
}

#[test]
fn append_after_the_count_word_adds_the_bytes() {
    let mut f = log();
    f.append(SPACE_END, &[9, 9, 9, 9], SPACE_END);
    assert_eq!(f.append(SPACE_END + 8, b"hello", SPACE_END), AppendVerdict::Accepted);
    assert_eq!(f.current_len(), 13);
    assert_eq!(f.printall(), vec![0, 0, 0, 0, b'h', b'e', b'l', b'l', b'o']);
}

#[test]
fn full_log_refuses() {
    let mut f = log();
    assert_eq!(f.append_verdict(SPACE_END, 4092, SPACE_END), AppendVerdict::Full);
    assert_eq!(f.append(SPACE_END, &vec![1; 4092], SPACE_END), AppendVerdict::Full);
    assert_eq!(f.current_len(), 4);
    assert_eq!(f.append(SPACE_END, &vec![1; 4091], SPACE_END), AppendVerdict::Accepted);
    assert_eq!(f.current_len(), 4095);
    assert_eq!(f.append_verdict(SPACE_END, 1, SPACE_END), AppendVerdict::Full);
    assert_eq!(f.append_verdict(SPACE_END, 0, SPACE_END), AppendVerdict::Accepted);
}

#[test]
fn gethash_hashes_the_reader_byte_once_per_logged_byte() {
    let mut f = log();
    assert_eq!(f.gethash(SPACE_END - 8, 7, SPACE_END), None);
    // nothing logged: the digest of the empty text
    assert_eq!(f.gethash(SPACE_END, 7, SPACE_END), Some(SHA3_OF_EMPTY));
    f.append(SPACE_END, &[1, 2, 3], SPACE_END);
    assert_eq!(f.gethash(SPACE_END, 7, SPACE_END), Some(SHA3_OF_777));
}

#[test]
fn log_service_numbers() {
    assert_eq!(logging_handler(1, 0x1000, 5), LogRequest::Append { data_ptr: 0x1000, data_len: 5 });
    assert_eq!(logging_handler(2, 0x2000, 9), LogRequest::GetHash { out_ptr: 0x2000 });
    assert_eq!(logging_handler(3, 1, 2), LogRequest::PrintAll);
    assert_eq!(logging_handler(4, 1, 2), LogRequest::Unsupported);
    assert_eq!(logging_handler(0, 1, 2), LogRequest::Unsupported);
}

fn context() -> TrapContext {
    let mut x = [0usize; 32];
    for (i, r) in x.iter_mut().enumerate() {
        *r = 100 + i;
    }
    TrapContext { x, sstatus: 0x20, sepc: 0x1000, kernel_sp: 0x9000, trap_handler: 0xffff_f000 }
}

#[test]
fn user_ecall_is_a_system_call() {
    let mut cx = context();
    match handle_outer_trap(&mut cx, TrapCause::UserEnvCall, 0, 0xffff_ffff_ffff_f000) {
        OuterTrapAction::Syscall { id, args } => {
            assert_eq!(id, 117);
            assert_eq!(args, [110, 111, 112, 113, 114, 115]);
        },
        other => panic!("unexpected {:?}", other),
    }
    assert_eq!(cx.sepc, 0x1004);
    finish_syscall(&mut cx, -2);
    assert_eq!(cx.x[10], usize::MAX - 1);
    assert_eq!(cx.x[11], 111);
}

#[test]
fn faults_and_interrupts() {
    let t = 0xffff_ffff_ffff_f000;
    let mut cx = context();
    assert!(matches!(
        handle_outer_trap(&mut cx, TrapCause::InstructionPageFault, 0x44, t),
        OuterTrapAction::InstructionFault { stval: 0x44 }
    ));
    assert!(matches!(
        handle_outer_trap(&mut cx, TrapCause::IllegalInstruction, 0x45, t),
        OuterTrapAction::IllegalInstruction { stval: 0x45 }
    ));
    assert!(matches!(
        handle_outer_trap(&mut cx, TrapCause::LoadPageFault, 0x5000, t),
        OuterTrapAction::MemoryFault { va: 0x5000, is_load: true }
    ));
    assert!(matches!(
        handle_outer_trap(&mut cx, TrapCause::StoreFault, 0x5000, t),
        OuterTrapAction::MemoryFault { va: 0x5000, is_load: false }
    ));
    assert!(matches!(
        handle_outer_trap(&mut cx, TrapCause::StorePageFault, t + 1, t),
        OuterTrapAction::OutOfRange { va } if va == t + 1
    ));
    assert!(matches!(
        handle_outer_trap(&mut cx, TrapCause::LoadFault, t, t),
        OuterTrapAction::MemoryFault { is_load: true, .. }
    ));
    assert!(matches!(handle_outer_trap(&mut cx, TrapCause::SupervisorTimer, 0, t), OuterTrapAction::Timer));
    assert!(matches!(
        handle_outer_trap(&mut cx, TrapCause::Other, 3, t),
        OuterTrapAction::Unsupported { stval: 3 }
    ));
    // only a system call moves the program counter
    assert_eq!(cx.sepc, 0x1000);
}

#[test]
fn stack_pointer_and_initial_context() {
    let mut cx = context();
    cx.set_sp(0x7000);
    assert_eq!(cx.get_sp(), 0x7000);
    assert_eq!(cx.x[2], 0x7000);
    let init = TrapContext::app_init_context(0x10000, 0x20000, 0x30000, 0x100, 0xffff_ffff_ffff_f000);
    assert_eq!(init.sepc, 0x10000);
    assert_eq!(init.get_sp(), 0x20000);
    assert_eq!(init.kernel_sp, 0x30000);
    assert_eq!(init.sstatus, 0x100);
    assert_eq!(init.trap_handler, 0xffff_ffff_ffff_f000);
    assert_eq!(init.x.iter().filter(|r| **r != 0).count(), 1);
}

#[test]
fn nested_kernel_calls() {
    let mut cx = context();
    cx.x[17] = 0x400;
    assert_eq!(nk_trap_handler(&mut cx), NkCall::Echo { arg: 110 });
    assert_eq!(cx.sepc, 0x1004);
    cx.x[17] = 0x401;
    assert_eq!(nk_syscall_impl(&cx), NkCall::Measure);
    cx.x[17] = 0x402;
    assert_eq!(nk_syscall_impl(&cx), NkCall::Pkcs);
    cx.x[17] = 0x403;
    assert_eq!(nk_syscall_impl(&cx), NkCall::Logging { id: 110, para1: 111, para2: 112 });
    cx.x[17] = 0x404;
    assert_eq!(nk_syscall_impl(&cx), NkCall::Unsupported { id: 0x404 });
    finish_measure(&mut cx, 42);
    assert_eq!(cx.x[10], 42);
}

#[test]
fn measurement_reads_the_digest_prefix() {
    assert_eq!(get_measure(&vec![]), 7410425521722818471);
    assert_eq!(get_measure(&vec![10, 20]), 15808975469665705688);
}

#[test]
fn task_context_returns_to_trap_return() {
    let t = TaskContext::goto_trap_return(0x8020_1000);
    assert_eq!(t.ra, 0x8020_1000);
    for i in 0..12 {
        assert_eq!(t.saved_reg(i), 0);
    }
}

#[test]
fn serial_port_registers() {
    let _port = Ns16550a::new(0x1000_0000, 0);
}

#[test]
fn measurement_taken_word_by_word_matches_the_whole() {
    let words = vec![0usize, 7, 1234567890, usize::MAX, 42];
    let mut m = mmk::trap::Measurement::new();
    for w in words.iter() {
        m.absorb(*w);
    }
    assert_eq!(m.finish(), get_measure(&words));
    let mut two = mmk::trap::Measurement::new();
    two.absorb(10);
    two.absorb(20);
    assert_eq!(two.finish(), 15808975469665705688);
    assert_eq!(mmk::trap::Measurement::new().finish(), 7410425521722818471);
}

#[test]
fn measurement_of_a_digest() {
    let mut d = [0u8; 32];
    for (i, b) in d.iter_mut().enumerate() {
        *b = i as u8 + 1;
    }
    assert_eq!(mmk::trap::measure_of_digest(&d), 0x0807_0605_0403_0201);
    assert_eq!(mmk::trap::measure_of_digest(&[0xff; 32]), usize::MAX);
}

#[test]
fn processor_scheduling_steps() {
    let a = TaskRef { pid: 1, space_id: 11 };
    let b = TaskRef { pid: 2, space_id: 12 };
    let mut p = Processor::new();
    assert_eq!(p.current(), None);
    assert_eq!(p.run_step(None), RunStep::Idle);
    // the first task: its address space is activated
    assert_eq!(p.run_step(Some(a)), RunStep::Switch { next: a, previous: None, activate: 11 });
    assert_eq!(p.current(), Some(a));
    // nothing else ready: back to the same task
    assert_eq!(p.run_step(None), RunStep::Resume { task: a });
    assert_eq!(p.current(), Some(a));
    // another task: the running one is queued again, the new one's id is activated
    assert_eq!(p.run_step(Some(b)), RunStep::Switch { next: b, previous: Some(a), activate: 2 });
    assert_eq!(p.take_current(), Some(b));
    assert_eq!(p.current(), None);
}

#[test]
fn processor_clocks() {
    let mut p = Processor::new();
    assert_eq!(p.get_user_clock(), 0);
    p.update_user_clock(150);
    p.update_kernel_clock(320);
    assert_eq!(p.get_user_clock(), 150);
    assert_eq!(p.get_kernel_clock(), 320);
}
