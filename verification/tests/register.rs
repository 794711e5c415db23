use rvos::trap::TrapCauseLoader;
use rvos::register::{SAtp, SCause, SIe, Time, TrapCauseLoaderImpl};
use rvos::sv39::active_page_table_root;
use rvos::addr::PhysicalPageNumber;
use rvos::trap::{Exception, Interrupt, TrapCause};
use rvos::ecall::{set_timer, EcallRequest};
use rvos::time::{get_now, set_next_timer};

#[test]
fn scause_splits_interrupt_bit_and_code() {
    let c = SCause::new(0x8000_0000_0000_0005);
    assert!(c.is_interrupt());
    assert_eq!(c.get_code(), 5);
    let c = SCause::new(8);
    assert!(!c.is_interrupt());
    assert_eq!(c.get_code(), 8);
}

#[test]
fn trap_causes_are_decoded() {
    assert_eq!(
        TrapCauseLoaderImpl::load(&SCause::new(0x8000_0000_0000_0005)),
        TrapCause::Interrupt(Interrupt::Timer)
    );
    assert_eq!(
        TrapCauseLoaderImpl::load(&SCause::new(0x8000_0000_0000_0009)),
        TrapCause::Interrupt(Interrupt::Unsupported(9))
    );
    assert_eq!(TrapCauseLoaderImpl::load(&SCause::new(8)), TrapCause::Exeption(Exception::Syscall));
    assert_eq!(
        TrapCauseLoaderImpl::load(&SCause::new(13)),
        TrapCause::Exeption(Exception::Unsupported(13))
    );
    assert_eq!(TrapCause::get_current_cause(&SCause::new(8)), TrapCause::Exeption(Exception::Syscall));
}

#[test]
fn time_in_milliseconds() {
    assert_eq!(Time { bits: 25_000 }.as_duration(10_000), 2);
    assert_eq!(Time { bits: 9_999 }.as_duration(10_000), 0);
}

#[test]
fn sie_bits() {
    assert_eq!(SIe::set_bit(5), 0x20);
    assert_eq!(SIe::set_bit(0), 1);
    assert_eq!(SIe::enable_time_interrupt(), 0x20);
}

#[test]
fn satp_selects_sv39_and_root() {
    assert_eq!(SAtp::from_ppn(0x80400).bits, 0x8000_0000_0008_0400);
    assert_eq!(active_page_table_root(PhysicalPageNumber::from(0x123)).bits, 0x8000_0000_0000_0123);
}

#[test]
fn timer_requests() {
    assert_eq!(set_timer(1234), EcallRequest { op_code: 0, a0: 1234, a1: 0, a2: 0 });
    assert_eq!(set_next_timer(Time { bits: 1_000 }, 500, 10_000), set_timer(5_001_000));
    assert_eq!(get_now(Time { bits: 5_001_000 }, 10_000), 500);
}
