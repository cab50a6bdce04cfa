use maramos::helpers::time::Time;
use maramos::syscalls::functions::{next_user_address, sys_memory_manage, sys_print, sys_task_manage, SyscallAction, UNKNOWN_SUBCALL};
use maramos::syscalls::syscall_internal::{dispatch, read_from_buffer, read_str_from_buffer, read_u32_from_buffer, SYSCALL_BUFFER_SIZE};

fn buffer() -> Vec<u8> {
    vec![0u8; SYSCALL_BUFFER_SIZE]
}

#[test]
fn buffer_reads() {
    let mut b = buffer();
    b[8..16].copy_from_slice(&0x1122_3344_5566_7788u64.to_le_bytes());
    assert_eq!(read_from_buffer(&b, 8), Some(0x1122_3344_5566_7788));
    assert_eq!(read_from_buffer(&b, SYSCALL_BUFFER_SIZE - 8), Some(0));
    assert_eq!(read_from_buffer(&b, SYSCALL_BUFFER_SIZE - 7), None);
    assert_eq!(read_u32_from_buffer(&b, 8), Some(0x5566_7788));
    assert_eq!(read_u32_from_buffer(&b, SYSCALL_BUFFER_SIZE - 3), None);
}

#[test]
fn string_reads() {
    let mut b = buffer();
    b[..5].copy_from_slice(b"hello");
    assert_eq!(read_str_from_buffer(&b, 0).unwrap(), "hello");
    assert_eq!(read_str_from_buffer(&b, 1).unwrap(), "ello");
    assert!(read_str_from_buffer(&b, SYSCALL_BUFFER_SIZE - 4095).is_none());
    b[0] = 0xFF;
    assert_eq!(read_str_from_buffer(&b, 0).unwrap(), "");
    let mut full = buffer();
    for x in full[..4096].iter_mut() {
        *x = b'a';
    }
    assert_eq!(read_str_from_buffer(&full, 0).unwrap().len(), 4096);
}

#[test]
fn print_calls() {
    let mut b = buffer();
    b[..2].copy_from_slice(b"hi");
    match sys_print(0, &b) {
        (0, SyscallAction::Print(s)) => assert_eq!(s, "hi"),
        _ => panic!("print"),
    }
    b[3..7].copy_from_slice(&0xFF00FFu32.to_le_bytes());
    b[7..11].copy_from_slice(&0x000001u32.to_le_bytes());
    match sys_print(1, &b) {
        (0, SyscallAction::PrintColored(s, fg, bg)) => {
            assert_eq!(s, "hi");
            assert_eq!(fg, 0xFF00FF);
            assert_eq!(bg, 1);
        },
        _ => panic!("print colored"),
    }
    assert!(matches!(sys_print(2, &b), (0, SyscallAction::Clear)));
    b[0..8].copy_from_slice(&3u64.to_le_bytes());
    b[8..16].copy_from_slice(&4u64.to_le_bytes());
    assert!(matches!(sys_print(3, &b), (0, SyscallAction::SetCursor(3, 4))));
    assert!(matches!(sys_print(9, &b), (UNKNOWN_SUBCALL, SyscallAction::Nothing)));
    assert_eq!(UNKNOWN_SUBCALL, u64::MAX / 2);
}

#[test]
fn task_calls() {
    let mut b = buffer();
    b[..8].copy_from_slice(&500u64.to_le_bytes());
    assert!(matches!(sys_task_manage(0, &b), (0, SyscallAction::Yield)));
    match sys_task_manage(1, &b) {
        (0, SyscallAction::Sleep(t)) => assert_eq!(t, Time::Nanoseconds(500)),
        _ => panic!("sleep"),
    }
    assert!(matches!(sys_task_manage(2, &b), (0, SyscallAction::Terminate)));
    assert!(matches!(sys_task_manage(3, &b), (UNKNOWN_SUBCALL, SyscallAction::Nothing)));
}

#[test]
fn memory_calls() {
    let mut b = buffer();
    b[..8].copy_from_slice(&5000u64.to_le_bytes());
    assert!(matches!(sys_memory_manage(0, &b), (0, SyscallAction::Allocate(2))));
    b[..8].copy_from_slice(&4096u64.to_le_bytes());
    assert!(matches!(sys_memory_manage(0, &b), (0, SyscallAction::Allocate(1))));
    assert!(matches!(sys_memory_manage(1, &b), (UNKNOWN_SUBCALL, SyscallAction::Nothing)));
    assert_eq!(next_user_address(0), Some(0x1000));
    assert_eq!(next_user_address(3), Some(0x4000));
    assert_eq!(next_user_address(0x7FF_FFC_000), None);
}

#[test]
fn dispatching() {
    let b = buffer();
    assert!(matches!(dispatch(0, 2, &b), (0, SyscallAction::Clear)));
    assert!(matches!(dispatch(1, 0, &b), (0, SyscallAction::Yield)));
    assert!(matches!(dispatch(2, 0, &b), (0, SyscallAction::Allocate(0))));
    assert!(matches!(dispatch(7, 0, &b), (u64::MAX, SyscallAction::Nothing)));
}
