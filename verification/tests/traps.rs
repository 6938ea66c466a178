use std::collections::HashMap;
use ziran::gdt::{KERNEL_CODE, KERNEL_DATA};
use ziran::interrupts::{
    build_idt, classify, classify_syscall, describe_page_fault, last_write_into, reset_last_write, sys_write_decision, syscall, IdtEntry,
    InterruptContext, Syscall, SyscallEffect, Trap, WriteCapture, WriteDecision, KERNEL_CODE_SELECTOR, MAX_WRITE,
    SYS_EXIT, SYS_PRINT, SYS_WRITE, SYS_WRITE_UNCHECKED,
};
use ziran::paging::{HUGE, PRESENT, USER, WRITABLE};
use ziran::usermode::{cli_program, kernel_read_program, recover_from_violation, resume_kernel, syscall_program, ViolationLog, RESUME_RFLAGS, UVA_STACK_TOP};

fn gate_handler(e: &IdtEntry) -> u64 {
    e.offset_low as u64 | (e.offset_mid as u64) << 16 | (e.offset_high as u64) << 32
}

fn ctx(rax: u64, rdi: u64, rsi: u64, cs: u64) -> InterruptContext {
    InterruptContext {
        r15: 15, r14: 14, r13: 13, r12: 12, r11: 11, r10: 10, r9: 9, r8: 8, rbp: 0xbb, rdi, rsi, rdx: 0xdd,
        rcx: 0xcc, rbx: 0xb, rax, vector: 0x80, error_code: 0, rip: 0x5000_0005, cs, rflags: 0x202,
        rsp: UVA_STACK_TOP - 8, ss: 0x23,
    }
}

/// User page at 2 GiB mapped readable for ring 3; the kernel's first GiB is supervisor-only.
fn user_tables() -> HashMap<(u64, usize), u64> {
    let mut m = HashMap::new();
    m.insert((0x1000, 0), 0x2000 | PRESENT | WRITABLE | USER);
    m.insert((0x2000, 0), 0x3000 | PRESENT | WRITABLE);
    m.insert((0x3000, 0), PRESENT | WRITABLE | HUGE);
    m.insert((0x2000, 2), 0x4000 | PRESENT | WRITABLE | USER);
    m.insert((0x4000, 0), 0x5000 | PRESENT | WRITABLE | USER);
    m.insert((0x5000, 0), 0x70_0000 | PRESENT | USER);
    m
}

#[test]
fn idt_gates_point_at_their_stubs() {
    let stubs: Vec<u64> = (0..256u64).map(|v| 0xFFFF_8000_0010_0000 + v * 16).collect();
    let idt = build_idt(&stubs);
    assert_eq!(idt.len(), 256);
    for v in 0..256 {
        assert_eq!(gate_handler(&idt[v]), stubs[v]);
        assert_eq!(idt[v].selector, KERNEL_CODE_SELECTOR);
        assert_eq!(idt[v].type_attr, if v == 0x80 { 0xEE } else { 0x8E });
        assert_eq!(idt[v].ist, 0);
    }
}

#[test]
fn set_gate_splits_the_address() {
    let mut e = IdtEntry::missing();
    e.set_gate(0x1122_3344_5566_7788, 0x08, 0x8E);
    assert_eq!(e.offset_low, 0x7788);
    assert_eq!(e.offset_mid, 0x5566);
    assert_eq!(e.offset_high, 0x1122_3344);
    assert_eq!(e.reserved, 0);
}

#[test]
fn traps_are_classified() {
    assert_eq!(classify(3, 0x08), Trap::Breakpoint);
    assert_eq!(classify(13, 0x1b), Trap::RingViolation(13));
    assert_eq!(classify(14, 0x1b), Trap::RingViolation(14));
    assert_eq!(classify(14, 0x08), Trap::PageFault);
    assert_eq!(classify(13, 0x08), Trap::Fatal);
    assert_eq!(classify(0x20, 0x08), Trap::Timer);
    assert_eq!(classify(0x21, 0x08), Trap::Keyboard);
    assert_eq!(classify(0x80, 0x1b), Trap::Syscall);
    assert_eq!(classify(0x27, 0x08), Trap::Spurious);
    assert_eq!(classify(0x2F, 0x08), Trap::Spurious);
    assert_eq!(classify(0x30, 0x08), Trap::Fatal);
    assert_eq!(classify(6, 0x1b), Trap::Fatal);
}

#[test]
fn syscall_numbers_are_classified() {
    assert_eq!(classify_syscall(SYS_PRINT), Syscall::Print);
    assert_eq!(classify_syscall(SYS_EXIT), Syscall::Exit);
    assert_eq!(classify_syscall(SYS_WRITE), Syscall::Write);
    assert_eq!(classify_syscall(SYS_WRITE_UNCHECKED), Syscall::WriteUnchecked);
    assert_eq!(classify_syscall(0), Syscall::Unknown);
    assert_eq!(classify_syscall(99), Syscall::Unknown);
}

#[test]
fn write_decisions() {
    assert_eq!(sys_write_decision(MAX_WRITE as u64 + 1, true, true), WriteDecision::TooLong);
    assert_eq!(sys_write_decision(10, true, false), WriteDecision::NotUserReadable);
    assert_eq!(sys_write_decision(10, false, false), WriteDecision::Emit(10));
    assert_eq!(sys_write_decision(10, true, true), WriteDecision::Emit(10));
}

#[test]
fn page_fault_codes_are_described() {
    assert_eq!(describe_page_fault(0), "read from a non-present page");
    assert_eq!(describe_page_fault(2), "write to a non-present page");
    assert_eq!(describe_page_fault(1), "read that violated page protection");
    assert_eq!(describe_page_fault(7), "write that violated page protection");
}

#[test]
fn sys_print_returns_zero() {
    let m = user_tables();
    let read = |t: u64, i: usize| *m.get(&(t, i)).unwrap_or(&0);
    let mut c = ctx(SYS_PRINT, b'Z' as u64, 0, 0x1b);
    let before = c;
    assert_eq!(syscall(&mut c, &read, 0x1000, 0xdead, 0xbeef), SyscallEffect::Print(b'Z'));
    assert_eq!(c, InterruptContext { rax: 0, ..before });
}

#[test]
fn sys_exit_resumes_the_kernel() {
    let m = user_tables();
    let read = |t: u64, i: usize| *m.get(&(t, i)).unwrap_or(&0);
    let mut c = ctx(SYS_EXIT, 0, 0, 0x1b);
    assert_eq!(syscall(&mut c, &read, 0x1000, 0xdead, 0xbeef), SyscallEffect::Exit);
    assert_eq!(c.rip, 0xdead);
    assert_eq!(c.rsp, 0xbeef);
    assert_eq!(c.cs, KERNEL_CODE as u64);
    assert_eq!(c.ss, KERNEL_DATA as u64);
    assert_eq!(c.rflags, RESUME_RFLAGS);
    assert_eq!(c.rbx, 0xb);
}

#[test]
fn checked_write_of_a_user_buffer_is_emitted() {
    let m = user_tables();
    let read = |t: u64, i: usize| *m.get(&(t, i)).unwrap_or(&0);
    let mut c = ctx(SYS_WRITE, 0x8000_0010, 12, 0x1b);
    assert_eq!(syscall(&mut c, &read, 0x1000, 0, 0), SyscallEffect::Emit { ptr: 0x8000_0010, len: 12 });
    assert_eq!(c.rax, 12);
}

#[test]
fn checked_write_of_kernel_memory_is_refused() {
    let m = user_tables();
    let read = |t: u64, i: usize| *m.get(&(t, i)).unwrap_or(&0);
    let mut c = ctx(SYS_WRITE, 0xb8000, 16, 0x1b);
    assert_eq!(
        syscall(&mut c, &read, 0x1000, 0, 0),
        SyscallEffect::Refused(WriteDecision::NotUserReadable)
    );
    assert_eq!(c.rax, u64::MAX);
}

#[test]
fn unchecked_write_reads_whatever_it_is_given() {
    let m = user_tables();
    let read = |t: u64, i: usize| *m.get(&(t, i)).unwrap_or(&0);
    let mut c = ctx(SYS_WRITE_UNCHECKED, 0xb8000, 16, 0x1b);
    assert_eq!(syscall(&mut c, &read, 0x1000, 0, 0), SyscallEffect::Emit { ptr: 0xb8000, len: 16 });
    assert_eq!(c.rax, 16);
}

#[test]
fn overlong_write_is_refused_first() {
    let m = user_tables();
    let read = |t: u64, i: usize| *m.get(&(t, i)).unwrap_or(&0);
    let mut c = ctx(SYS_WRITE_UNCHECKED, 0x8000_0000, MAX_WRITE as u64 + 1, 0x1b);
    assert_eq!(syscall(&mut c, &read, 0x1000, 0, 0), SyscallEffect::Refused(WriteDecision::TooLong));
    assert_eq!(c.rax, u64::MAX);
}

#[test]
fn unknown_syscall_returns_minus_one() {
    let m = user_tables();
    let read = |t: u64, i: usize| *m.get(&(t, i)).unwrap_or(&0);
    let mut c = ctx(42, 0, 0, 0x1b);
    assert_eq!(syscall(&mut c, &read, 0x1000, 0, 0), SyscallEffect::Unknown(42));
    assert_eq!(c.rax, u64::MAX);
}

#[test]
fn write_capture_records_and_resets() {
    let mut cap = WriteCapture::new();
    cap.record(b"FLAG{x}");
    let mut out = [0u8; 32];
    let n = last_write_into(&cap, &mut out);
    assert_eq!(&out[..n], b"FLAG{x}");
    let mut small = [9u8; 4];
    assert_eq!(last_write_into(&cap, &mut small), 4);
    assert_eq!(&small, b"FLAG");
    reset_last_write(&mut cap);
    let mut after = [7u8; 8];
    assert_eq!(last_write_into(&cap, &mut after), 0);
    assert_eq!(after, [7u8; 8]);
}

#[test]
fn violation_is_recorded_and_unwound() {
    let mut log = ViolationLog::new();
    assert_eq!(log.caught(), 0);
    let mut c = ctx(0, 0, 0, 0x1b);
    recover_from_violation(&mut log, &mut c, 14, 0x1111, 0x2222);
    assert_eq!(log.caught(), 14);
    assert_eq!((c.rip, c.rsp, c.cs), (0x1111, 0x2222, KERNEL_CODE as u64));
    log.clear();
    assert_eq!(log.caught(), 0);
}

#[test]
fn resume_kernel_keeps_general_registers() {
    let mut c = ctx(5, 6, 7, 0x1b);
    let before = c;
    resume_kernel(&mut c, 0xAAAA, 0xBBBB);
    assert_eq!(c, InterruptContext { rip: 0xAAAA, rsp: 0xBBBB, cs: 0x08, ss: 0x10, rflags: 0x2, ..before });
}

#[test]
fn user_programs_are_the_expected_bytes() {
    let p = syscall_program();
    assert_eq!(p.len(), 21);
    assert_eq!(&p[..5], &[0xB8, 0x01, 0, 0, 0]);
    assert_eq!(&p[p.len() - 2..], &[0xEB, 0xFE]);
    assert_eq!(cli_program(), vec![0xFA, 0xEB, 0xFE]);
    assert_eq!(kernel_read_program()[..2], [0x48, 0xA1]);
}
