//! Kernel log levels and the formatting of log lines.
use vstd::prelude::*;
use crate::serial_io::{SerialIO, putchar_request};
use crate::ecall::EcallRequest;

verus! {

/// Log levels, from the most verbose to the one that is never printed.
#[derive(Debug, PartialEq, Eq, Structural)]
pub enum Level {
    Debug,
    Info,
    Warn,
    Error,
    Never,
}

/// The rank of a level: `Debug` 1 up to `Never` 5.
pub open spec fn level_rank(l: Level) -> u8 {
    match l {
        Level::Debug => 1,
        Level::Info => 2,
        Level::Warn => 3,
        Level::Error => 4,
        Level::Never => 5,
    }
}

impl Level {
    /// The level's rank.
    pub fn rank(&self) -> (r: u8)
        ensures
            r == level_rank(*self),
    {
        match self {
            Level::Debug => 1,
            Level::Info => 2,
            Level::Warn => 3,
            Level::Error => 4,
            Level::Never => 5,
        }
    }
}

/// Where log lines go.
#[derive(Debug, PartialEq, Eq, Structural)]
pub enum LoggerType {
    /// Nowhere.
    DummyWriter,
    /// To the serial console, coloured.
    SerialIO,
}

/// A writer that drops everything.
pub struct DummyWriter {}

impl DummyWriter {
    /// Prints nothing.
    pub fn write_str(&mut self, _s: &str) -> (r: Vec<EcallRequest>)
        ensures
            r@.len() == 0,
    {
        Vec::new()
    }
}

/// The kernel logger: lines at `min_level` or above go to the writer of
/// `type_`.
pub struct Logger {
    min_level: Level,
    type_: LoggerType,
    dummy_writer: Option<DummyWriter>,
    serial_io_writer: Option<SerialIO>,
}

impl Logger {
    /// The least level that is printed.
    pub closed spec fn min_level(&self) -> Level {
        self.min_level
    }

    /// The destination.
    pub closed spec fn logger_type(&self) -> LoggerType {
        self.type_
    }

    /// Whether the dummy writer is in place.
    pub closed spec fn dummy_writer_in_place(&self) -> bool {
        self.dummy_writer is Some
    }

    /// Whether the serial console writer is in place.
    pub closed spec fn serial_writer_in_place(&self) -> bool {
        self.serial_io_writer is Some
    }

    /// Whether the destination's writer is in place.
    pub closed spec fn has_writer(&self) -> bool {
        match self.type_ {
            LoggerType::DummyWriter => self.dummy_writer is Some,
            LoggerType::SerialIO => self.serial_io_writer is Some,
        }
    }

    /// The logger before `init`: prints nothing.
    pub fn new() -> (r: Self)
        ensures
            r.min_level() == Level::Never,
            r.logger_type() == LoggerType::DummyWriter,
            r.has_writer(),
            r.dummy_writer_in_place(),
            !r.serial_writer_in_place(),
    {
        Logger {
            min_level: Level::Never,
            type_: LoggerType::DummyWriter,
            dummy_writer: Some(DummyWriter {}),
            serial_io_writer: None,
        }
    }

    /// Sets the least printed level and the destination, and puts the
    /// destination's writer in place.
    pub fn init(&mut self, min_level: Level, type_: LoggerType)
        ensures
            final(self).min_level() == min_level,
            final(self).logger_type() == type_,
            final(self).has_writer(),
            type_ == LoggerType::DummyWriter ==> final(self).dummy_writer_in_place()
                && final(self).serial_writer_in_place() == old(self).serial_writer_in_place(),
            type_ == LoggerType::SerialIO ==> final(self).serial_writer_in_place()
                && final(self).dummy_writer_in_place() == old(self).dummy_writer_in_place(),
    {
        self.min_level = min_level;
        self.type_ = type_;
        match self.type_ {
            LoggerType::DummyWriter => self.dummy_writer = Some(DummyWriter {}),
            LoggerType::SerialIO => self.serial_io_writer = Some(SerialIO {}),
        };
    }

    /// Whether a line at `level` is printed: its rank is at least the
    /// least printed level's.
    pub fn should_log(&self, level: &Level) -> (r: bool)
        ensures
            r == (level_rank(*level) >= level_rank(self.min_level())),
    {
        level.rank() >= self.min_level.rank()
    }

    /// Text put before a line: the level's tag, coloured on the serial
    /// console.
    pub fn get_fmt_prefix(&self, level: &Level) -> (r: &'static str)
        ensures
            r@ == match self.logger_type() {
                LoggerType::DummyWriter => match *level {
                    Level::Debug => "KDebug:"@,
                    Level::Info => "KInfo:"@,
                    Level::Warn => "KWarn:"@,
                    Level::Error => "KError:"@,
                    Level::Never => "KNever:"@,
                },
                LoggerType::SerialIO => match *level {
                    Level::Debug => "\x1b[90mKDebug:"@,
                    Level::Info => "\x1b[34mKInfo:"@,
                    Level::Warn => "\x1b[33mKWarn:"@,
                    Level::Error => "\x1b[31mKError:"@,
                    Level::Never => "KNever:"@,
                },
            },
    {
        match self.type_ {
            LoggerType::DummyWriter => match level {
                Level::Debug => "KDebug:",
                Level::Info => "KInfo:",
                Level::Warn => "KWarn:",
                Level::Error => "KError:",
                Level::Never => "KNever:",
            },
            LoggerType::SerialIO => match level {
                Level::Debug => "\x1b[90mKDebug:",
                Level::Info => "\x1b[34mKInfo:",
                Level::Warn => "\x1b[33mKWarn:",
                Level::Error => "\x1b[31mKError:",
                Level::Never => "KNever:",
            },
        }
    }

    /// The environment calls that print `s` through the destination's
    /// writer: one per character on the serial console, none for the dummy
    /// writer or when the writer is not in place.
    pub fn write_str(&mut self, s: &str) -> (r: Vec<EcallRequest>)
        ensures
            *final(self) == *old(self),
            r@ == if old(self).logger_type() == LoggerType::SerialIO && old(self).has_writer() {
                s@.map_values(|c: char| putchar_request(c))
            } else {
                Seq::empty()
            },
    {
        match self.type_ {
            LoggerType::DummyWriter => match &mut self.dummy_writer {
                Some(writer) => writer.write_str(s),
                None => Vec::new(),
            },
            LoggerType::SerialIO => match &mut self.serial_io_writer {
                Some(writer) => writer.write_str(s),
                None => Vec::new(),
            },
        }
    }

    /// Text put after a line: resets the colour on the serial console.
    pub fn get_fmt_suffix(&self, _level: &Level) -> (r: &'static str)
        ensures
            r@ == match self.logger_type() {
                LoggerType::DummyWriter => ""@,
                LoggerType::SerialIO => "\x1b[0m"@,
            },
    {
        match self.type_ {
            LoggerType::DummyWriter => "",
            LoggerType::SerialIO => "\x1b[0m",
        }
    }
}

/// The levels rise strictly from `Debug` through `Info`, `Warn` and
/// `Error` to `Never`, so a logger prints a line exactly when its level
/// comes at or after the least printed level in that order.
pub proof fn lemma_level_order()
    ensures
        level_rank(Level::Debug) < level_rank(Level::Info),
        level_rank(Level::Info) < level_rank(Level::Warn),
        level_rank(Level::Warn) < level_rank(Level::Error),
        level_rank(Level::Error) < level_rank(Level::Never),
{
}

/// A logger prints every level at or above one it prints.
pub proof fn lemma_should_log_monotone(min_level: Level, l1: Level, l2: Level)
    requires
        level_rank(l1) >= level_rank(min_level),
        level_rank(l2) >= level_rank(l1),
    ensures
        level_rank(l2) >= level_rank(min_level),
{
}

} // verus!
