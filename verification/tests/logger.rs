use rvos::ecall::putchar_serialio;
use rvos::logger::{Level, Logger, LoggerType};

#[test]
fn fresh_logger_prints_nothing_below_never() {
    let l = Logger::new();
    assert!(!l.should_log(&Level::Error));
    assert!(l.should_log(&Level::Never));
}

#[test]
fn should_log_at_or_above_min_level() {
    let mut l = Logger::new();
    l.init(Level::Info, LoggerType::SerialIO);
    assert!(!l.should_log(&Level::Debug));
    assert!(l.should_log(&Level::Info));
    assert!(l.should_log(&Level::Warn));
    assert!(l.should_log(&Level::Error));
}

#[test]
fn prefixes_and_suffixes() {
    let mut l = Logger::new();
    assert_eq!(l.get_fmt_prefix(&Level::Info), "KInfo:");
    assert_eq!(l.get_fmt_suffix(&Level::Info), "");
    l.init(Level::Debug, LoggerType::SerialIO);
    assert_eq!(l.get_fmt_prefix(&Level::Error), "\x1b[31mKError:");
    assert_eq!(l.get_fmt_prefix(&Level::Debug), "\x1b[90mKDebug:");
    assert_eq!(l.get_fmt_prefix(&Level::Warn), "\x1b[33mKWarn:");
    assert_eq!(l.get_fmt_prefix(&Level::Info), "\x1b[34mKInfo:");
    assert_eq!(l.get_fmt_suffix(&Level::Warn), "\x1b[0m");
}

#[test]
fn write_str_goes_to_the_destination() {
    let mut l = Logger::new();
    assert!(l.write_str("dropped").is_empty());
    l.init(Level::Info, LoggerType::SerialIO);
    assert_eq!(l.write_str("ab"), vec![putchar_serialio('a'), putchar_serialio('b')]);
    l.init(Level::Info, LoggerType::DummyWriter);
    assert!(l.write_str("ab").is_empty());
}
