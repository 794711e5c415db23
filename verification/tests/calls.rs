use rvos::ecall::{_ecall, putchar_serialio, shutdown, EcallRequest, EcallType};
use rvos::serial_io::SerialIO;
use rvos::syscall::{SyscallId, SyscallParam, SyscallWork};
use rvos::user::{self, StdOut, SyscallRequest, STD_OUT_FILE_ID};

#[test]
fn ecall_op_codes() {
    assert_eq!(putchar_serialio('A'), EcallRequest { op_code: 1, a0: 65, a1: 0, a2: 0 });
    assert_eq!(shutdown(), EcallRequest { op_code: 8, a0: 0, a1: 0, a2: 0 });
    assert_eq!(_ecall(EcallType::Shutdown, 1, 2, 3), EcallRequest { op_code: 8, a0: 1, a1: 2, a2: 3 });
}

#[test]
fn serial_io_prints_each_char() {
    let mut io = SerialIO {};
    let reqs = io.write_str("hi");
    assert_eq!(reqs, vec![putchar_serialio('h'), putchar_serialio('i')]);
    assert!(io.write_str("").is_empty());
}

#[test]
fn syscall_numbers() {
    assert_eq!(SyscallId::from(1), SyscallId::Putchar);
    assert_eq!(SyscallId::from(2), SyscallId::Exit);
    assert_eq!(SyscallId::from(3), SyscallId::GetNow);
    assert_eq!(SyscallId::from(0), SyscallId::Unsupported(0));
    assert_eq!(SyscallId::from(77), SyscallId::Unsupported(77));
}

#[test]
fn dispatch_syscall_work() {
    let p = SyscallParam { params: [0x141, 0, 0, 0], syscall_id: SyscallId::Putchar };
    assert_eq!(p.dispatch_syscall(), SyscallWork::Ecall(putchar_serialio('A')));
    let p = SyscallParam { params: [0, 0, 0, 0], syscall_id: SyscallId::GetNow };
    assert_eq!(p.dispatch_syscall(), SyscallWork::ReadTimeMs);
}

#[test]
fn user_syscall_requests() {
    assert_eq!(
        user::putchar('x', 1),
        SyscallRequest { a0: 'x' as usize, a1: 1, a2: 0, a3: 0, syscall_id: 1 }
    );
    assert_eq!(user::exit(3), SyscallRequest { a0: 3, a1: 0, a2: 0, a3: 0, syscall_id: 2 });
    assert_eq!(user::get_now(), SyscallRequest { a0: 0, a1: 0, a2: 0, a3: 0, syscall_id: 3 });
    assert_eq!(
        user::_syscall(1, 2, 3, 4, user::SyscallId::Exit),
        SyscallRequest { a0: 1, a1: 2, a2: 3, a3: 4, syscall_id: 2 }
    );
}

#[test]
fn stdout_writes_to_file_one() {
    let mut out = StdOut {};
    let reqs = out.write_str("ok");
    assert_eq!(reqs, vec![user::putchar('o', STD_OUT_FILE_ID), user::putchar('k', STD_OUT_FILE_ID)]);
}

#[test]
fn sleep_wakes_after_duration() {
    let wake = user::sleep(100, 250);
    assert_eq!(wake, 350);
    assert!(user::still_sleeping(349, wake));
    assert!(!user::still_sleeping(350, wake));
}
