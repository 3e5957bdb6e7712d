//! Log levels, level filters, log records and the logger's configuration.
//!
//! Emitting a line is left to the caller; what is decided here is whether a
//! record passes the logger's filter and how levels are named and coloured.

use vstd::prelude::*;

verus! {

/// How serious a log record is, most serious first.
#[derive(Clone, Copy, Debug, PartialEq, Eq, Structural, PartialOrd, Ord)]
pub enum Level {
    Error,
    Warn,
    Info,
    Debug,
    Trace,
}

impl Level {
    /// 0 for `Error` up to 4 for `Trace`.
    pub open spec fn rank(self) -> int {
        match self {
            Level::Error => 0,
            Level::Warn => 1,
            Level::Info => 2,
            Level::Debug => 3,
            Level::Trace => 4,
        }
    }

    /// The five-character name of the level.
    pub open spec fn name(self) -> Seq<char> {
        match self {
            Level::Error => "ERROR"@,
            Level::Warn => "WARN "@,
            Level::Info => "INFO "@,
            Level::Debug => "DEBUG"@,
            Level::Trace => "TRACE"@,
        }
    }

    /// The one-letter name of the level.
    pub open spec fn initial(self) -> char {
        match self {
            Level::Error => 'E',
            Level::Warn => 'W',
            Level::Info => 'I',
            Level::Debug => 'D',
            Level::Trace => 'T',
        }
    }

    pub fn as_str(&self) -> (r: &'static str)
        ensures
            r@ == self.name(),
    {
        match self {
            Level::Error => "ERROR",
            Level::Warn => "WARN ",
            Level::Info => "INFO ",
            Level::Debug => "DEBUG",
            Level::Trace => "TRACE",
        }
    }

    pub fn as_short(&self) -> (r: char)
        ensures
            r == self.initial(),
    {
        match self {
            Level::Error => 'E',
            Level::Warn => 'W',
            Level::Info => 'I',
            Level::Debug => 'D',
            Level::Trace => 'T',
        }
    }
}

/// The most verbose level that a logger lets through, or `Off`.
#[derive(Clone, Copy, Debug, PartialEq, Eq, Structural, PartialOrd, Ord)]
pub enum LevelFilter {
    Off,
    Error,
    Warn,
    Info,
    Debug,
    Trace,
}

impl LevelFilter {
    /// How many levels pass: 0 for `Off` up to 5 for `Trace`.
    pub open spec fn passing(self) -> int {
        match self {
            LevelFilter::Off => 0,
            LevelFilter::Error => 1,
            LevelFilter::Warn => 2,
            LevelFilter::Info => 3,
            LevelFilter::Debug => 4,
            LevelFilter::Trace => 5,
        }
    }

    /// `level` is at least as serious as the filter's own level.
    pub fn accepts(&self, level: Level) -> (r: bool)
        ensures
            r == (level.rank() < self.passing()),
    {
        let rank: u8 = match level {
            Level::Error => 0,
            Level::Warn => 1,
            Level::Info => 2,
            Level::Debug => 3,
            Level::Trace => 4,
        };
        match self {
            LevelFilter::Off => false,
            LevelFilter::Error => rank <= 0,
            LevelFilter::Warn => rank <= 1,
            LevelFilter::Info => rank <= 2,
            LevelFilter::Debug => rank <= 3,
            LevelFilter::Trace => rank <= 4,
        }
    }

    /// The filter's name, as it is printed.
    pub fn name(&self) -> (r: &'static str)
        ensures
            r@ == filter_name(*self),
    {
        match self {
            LevelFilter::Off => "Off",
            LevelFilter::Error => "Error",
            LevelFilter::Warn => "Warn",
            LevelFilter::Info => "Info",
            LevelFilter::Debug => "Debug",
            LevelFilter::Trace => "Trace",
        }
    }
}

pub open spec fn filter_name(f: LevelFilter) -> Seq<char> {
    match f {
        LevelFilter::Off => "Off"@,
        LevelFilter::Error => "Error"@,
        LevelFilter::Warn => "Warn"@,
        LevelFilter::Info => "Info"@,
        LevelFilter::Debug => "Debug"@,
        LevelFilter::Trace => "Trace"@,
    }
}

impl Default for LevelFilter {
    fn default() -> (r: Self)
        ensures
            r == LevelFilter::Info,
    {
        LevelFilter::Info
    }
}

/// The ANSI escape that colours a level's name.
pub open spec fn level_color(level: Level) -> Seq<char> {
    match level {
        Level::Error => "\x1b[91m"@,
        Level::Warn => "\x1b[93m"@,
        Level::Info => "\x1b[92m"@,
        Level::Debug => "\x1b[96m"@,
        Level::Trace => "\x1b[95m"@,
    }
}

/// Bright red, yellow, green, cyan and magenta, from `Error` to `Trace`.
pub fn color_for_level(level: Level) -> (r: &'static str)
    ensures
        r@ == level_color(level),
{
    match level {
        Level::Error => "\x1b[91m",
        Level::Warn => "\x1b[93m",
        Level::Info => "\x1b[92m",
        Level::Debug => "\x1b[96m",
        Level::Trace => "\x1b[95m",
    }
}

/// A record's level and the component it comes from.
pub struct Metadata<'a> {
    level: Level,
    target: &'a str,
}

impl<'a> Metadata<'a> {
    pub closed spec fn spec_level(&self) -> Level {
        self.level
    }

    pub closed spec fn spec_target(&self) -> Seq<char> {
        self.target@
    }

    pub fn new(level: Level, target: &'a str) -> (r: Self)
        ensures
            r.spec_level() == level,
            r.spec_target() == target@,
    {
        Metadata { level, target }
    }

    pub fn level(&self) -> (r: Level)
        ensures
            r == self.spec_level(),
    {
        self.level
    }

    pub fn target(&self) -> (r: &'a str)
        ensures
            r@ == self.spec_target(),
    {
        self.target
    }
}

/// One log record: its metadata and its message.
pub struct Record<'a> {
    metadata: Metadata<'a>,
    args: &'a str,
}

impl<'a> Record<'a> {
    pub closed spec fn spec_metadata(&self) -> Metadata<'a> {
        self.metadata
    }

    pub closed spec fn spec_args(&self) -> Seq<char> {
        self.args@
    }

    pub fn new(metadata: Metadata<'a>, args: &'a str) -> (r: Self)
        ensures
            r.spec_metadata() == metadata,
            r.spec_args() == args@,
    {
        Record { metadata, args }
    }

    pub fn metadata(&self) -> (r: &Metadata<'a>)
        ensures
            *r == self.spec_metadata(),
    {
        &self.metadata
    }

    /// The message.
    pub fn args(&self) -> (r: &'a str)
        ensures
            r@ == self.spec_args(),
    {
        self.args
    }

    pub fn level(&self) -> (r: Level)
        ensures
            r == self.spec_metadata().spec_level(),
    {
        self.metadata.level
    }

    pub fn target(&self) -> (r: &'a str)
        ensures
            r@ == self.spec_metadata().spec_target(),
    {
        self.metadata.target
    }
}

/// The logger's configuration. Until `init` it lets nothing through.
pub struct EcosLogger {
    pub use_colors: bool,
    pub max_level: LevelFilter,
    pub show_timestamp: bool,
    pub initialized: bool,
}

impl EcosLogger {
    /// Not yet initialized; colours off, `Info`, no timestamps.
    pub fn new() -> (r: Self)
        ensures
            !r.initialized,
            !r.use_colors,
            r.max_level == LevelFilter::Info,
            !r.show_timestamp,
    {
        EcosLogger {
            use_colors: false,
            max_level: LevelFilter::Info,
            show_timestamp: false,
            initialized: false,
        }
    }

    pub fn init(&mut self, use_colors: bool, max_level: LevelFilter, show_timestamp: bool)
        ensures
            *final(self) == (EcosLogger { use_colors, max_level, show_timestamp, initialized: true }),
    {
        self.use_colors = use_colors;
        self.max_level = max_level;
        self.show_timestamp = show_timestamp;
        self.initialized = true;
    }

    pub fn is_initialized(&self) -> (r: bool)
        ensures
            r == self.initialized,
    {
        self.initialized
    }

    /// A record of `level` is to be emitted.
    pub fn accepts(&self, level: Level) -> (r: bool)
        ensures
            r == (self.initialized && level.rank() < self.max_level.passing()),
    {
        self.initialized && self.max_level.accepts(level)
    }
}

/// Initializes `logger` with the given settings.
pub fn init_with_config(
    logger: &mut EcosLogger,
    use_colors: bool,
    max_level: LevelFilter,
    show_timestamp: bool,
)
    ensures
        *final(logger) == (EcosLogger { use_colors, max_level, show_timestamp, initialized: true }),
{
    logger.init(use_colors, max_level, show_timestamp);
}

/// Initializes `logger` with colours off, `Info`, and no timestamps.
pub fn init_logger(logger: &mut EcosLogger)
    ensures
        *final(logger) == (EcosLogger {
            use_colors: false,
            max_level: LevelFilter::Info,
            show_timestamp: false,
            initialized: true,
        }),
{
    init_with_config(logger, false, LevelFilter::Info, false);
}

pub fn is_initialized(logger: &EcosLogger) -> (r: bool)
    ensures
        r == logger.initialized,
{
    logger.is_initialized()
}

pub fn max_level(logger: &EcosLogger) -> (r: LevelFilter)
    ensures
        r == logger.max_level,
{
    logger.max_level
}

/// Sets the filter of an initialized logger; an uninitialized one is left as
/// it is.
pub fn set_max_level(logger: &mut EcosLogger, level: LevelFilter)
    ensures
        *final(logger) == if old(logger).initialized {
            EcosLogger { max_level: level, ..*old(logger) }
        } else {
            *old(logger)
        },
{
    if logger.is_initialized() {
        logger.max_level = level;
    }
}

} // verus!
