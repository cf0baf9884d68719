//! The decisions behind the crate's logging: how `-v`/`-q` become a verbosity, how a line of
//! stderr and a row of `.log.csv` are laid out, which fields a row keeps and in what order rows
//! are written. Installing the subscriber and writing files is left to the caller.

pub mod fields;
pub mod format;
pub mod rows;

use vstd::prelude::*;

use crate::text::{push_char, push_signed_decimal, signed_decimal, string_of};

verus! {

/// The six-level verbosity scale, in increasing order.
#[derive(Debug, Clone, Copy, PartialEq, Eq, Structural)]
pub enum Verbosity {
    Silent,
    ErrorOnly,
    Warn,
    Info,
    Debug,
    Trace,
}

/// The position of a verbosity on the scale, from `Silent` (0) to `Trace` (5).
pub open spec fn verbosity_index(v: Verbosity) -> int {
    match v {
        Verbosity::Silent => 0,
        Verbosity::ErrorOnly => 1,
        Verbosity::Warn => 2,
        Verbosity::Info => 3,
        Verbosity::Debug => 4,
        Verbosity::Trace => 5,
    }
}

/// `x` held within `[lo, hi]`.
pub open spec fn clamped(x: int, lo: int, hi: int) -> int {
    if x < lo {
        lo
    } else if x > hi {
        hi
    } else {
        x
    }
}

impl Verbosity {
    /// The index on the scale used when neither `-v` nor `-q` appears: `Warn`.
    pub const DEFAULT_INDEX: usize = 2;

    /// The scale, in increasing order of verbosity.
    pub fn order() -> (r: Vec<Verbosity>)
        ensures
            r@.len() == 6,
            forall|i: int| 0 <= i < 6 ==> verbosity_index(#[trigger] r@[i]) == i,
    {
        vec![
            Verbosity::Silent,
            Verbosity::ErrorOnly,
            Verbosity::Warn,
            Verbosity::Info,
            Verbosity::Debug,
            Verbosity::Trace,
        ]
    }

    /// The verbosity at position `i` of the scale.
    pub fn at(i: usize) -> (r: Verbosity)
        requires
            i < 6,
        ensures
            verbosity_index(r) == i,
    {
        if i == 0 {
            Verbosity::Silent
        } else if i == 1 {
            Verbosity::ErrorOnly
        } else if i == 2 {
            Verbosity::Warn
        } else if i == 3 {
            Verbosity::Info
        } else if i == 4 {
            Verbosity::Debug
        } else {
            Verbosity::Trace
        }
    }

    /// `-v` and `-q` are independent dials: the net offset `verbose - quiet` is added to the
    /// default and clamped to the scale, so no pair of counts is an error.
    pub fn from_verbose_and_quiet_counts(verbose: u8, quiet: u8) -> (r: Verbosity)
        ensures
            verbosity_index(r) == clamped(2 + verbose - quiet, 0, 5),
    {
        let offset: i16 = verbose as i16 - quiet as i16;
        let raw: i16 = Self::DEFAULT_INDEX as i16 + offset;
        let index: i16 = if raw < 0 {
            0
        } else if raw > 5 {
            5
        } else {
            raw
        };
        Verbosity::at(index as usize)
    }

    /// The verbosity `.log.csv` follows: never above `Warn`, whatever `-v` asks, but still lowered
    /// by `-q`.
    pub fn csv_ceiling(self) -> (r: Verbosity)
        ensures
            verbosity_index(r) == if verbosity_index(self) < 2 {
                verbosity_index(self)
            } else {
                2
            },
    {
        match self {
            Verbosity::Silent => Verbosity::Silent,
            Verbosity::ErrorOnly => Verbosity::ErrorOnly,
            _ => Verbosity::Warn,
        }
    }
}

/// `-v` and `-q` are independent dials summed with sign: one more of each gives the same
/// verbosity.
pub proof fn law_one_more_of_each_changes_nothing(verbose: u8, quiet: u8)
    requires
        verbose < u8::MAX,
        quiet < u8::MAX,
    ensures
        clamped(2 + (verbose + 1) - (quiet + 1), 0, 5) == clamped(2 + verbose - quiet, 0, 5),
{
}

/// A more verbose setting shows every event a less verbose one shows.
pub proof fn law_more_verbose_shows_more(quieter: Verbosity, louder: Verbosity, level: LogLevel)
    requires
        verbosity_index(quieter) <= verbosity_index(louder),
        level_index(level) <= verbosity_index(quieter),
    ensures
        level_index(level) <= verbosity_index(louder),
{
}

/// The level of one event.
#[derive(Debug, Clone, Copy, PartialEq, Eq, Structural)]
pub enum LogLevel {
    Error,
    Warn,
    Info,
    Debug,
    Trace,
}

/// The name of a level, as it is printed.
pub open spec fn level_name(l: LogLevel) -> Seq<char> {
    match l {
        LogLevel::Error => "ERROR"@,
        LogLevel::Warn => "WARN"@,
        LogLevel::Info => "INFO"@,
        LogLevel::Debug => "DEBUG"@,
        LogLevel::Trace => "TRACE"@,
    }
}

impl LogLevel {
    /// The level's name: `ERROR`, `WARN`, `INFO`, `DEBUG` or `TRACE`.
    pub fn as_str(self) -> (r: &'static str)
        ensures
            r@ == level_name(self),
    {
        match self {
            LogLevel::Error => "ERROR",
            LogLevel::Warn => "WARN",
            LogLevel::Info => "INFO",
            LogLevel::Debug => "DEBUG",
            LogLevel::Trace => "TRACE",
        }
    }
}

/// The least verbosity on the scale that shows an event of level `l`.
pub open spec fn level_index(l: LogLevel) -> int {
    match l {
        LogLevel::Error => 1,
        LogLevel::Warn => 2,
        LogLevel::Info => 3,
        LogLevel::Debug => 4,
        LogLevel::Trace => 5,
    }
}

impl Verbosity {
    /// Whether an event of `level` is shown at this verbosity: `Silent` shows none, not even an
    /// error; `Trace` shows every one.
    pub fn shows(self, level: LogLevel) -> (r: bool)
        ensures
            r == (level_index(level) <= verbosity_index(self)),
    {
        let threshold: u8 = match self {
            Verbosity::Silent => 0,
            Verbosity::ErrorOnly => 1,
            Verbosity::Warn => 2,
            Verbosity::Info => 3,
            Verbosity::Debug => 4,
            Verbosity::Trace => 5,
        };
        let needed: u8 = match level {
            LogLevel::Error => 1,
            LogLevel::Warn => 2,
            LogLevel::Info => 3,
            LogLevel::Debug => 4,
            LogLevel::Trace => 5,
        };
        needed <= threshold
    }
}

/// The verbosity at which every orchestration span of the crate is opened: spans are info-level,
/// and [`EventLevelFilter`] is built around that fact.
pub const SPAN_LEVEL: Verbosity = Verbosity::Info;

/// Filters events by level while letting every span through. A plain level filter would also gate
/// the opening of the crate's info-level spans, and a warning fired deep inside a page would lose
/// its page and its coordinates.
#[derive(Debug, Clone, Copy)]
pub struct EventLevelFilter {
    pub level: Verbosity,
}

impl EventLevelFilter {
    pub fn new(level: Verbosity) -> (r: Self)
        ensures
            r.level == level,
    {
        EventLevelFilter { level }
    }

    /// Whether a span (always) or an event of `level` (when the verbosity shows it) goes through.
    pub fn enabled(&self, is_span: bool, level: LogLevel) -> (r: bool)
        ensures
            r == (is_span || level_index(level) <= verbosity_index(self.level)),
    {
        is_span || self.level.shows(level)
    }

    /// The most verbose level anything may need: nothing at all when silent, spans included;
    /// otherwise never below the spans' level, so that they still open.
    pub fn max_level_hint(&self) -> (r: Verbosity)
        ensures
            verbosity_index(r) == if self.level == Verbosity::Silent {
                0
            } else if verbosity_index(self.level) < verbosity_index(SPAN_LEVEL) {
                verbosity_index(SPAN_LEVEL)
            } else {
                verbosity_index(self.level)
            },
    {
        match self.level {
            Verbosity::Silent => Verbosity::Silent,
            Verbosity::ErrorOnly | Verbosity::Warn | Verbosity::Info => SPAN_LEVEL,
            other => other,
        }
    }
}

/// The `First coord` / `Second coord` pair naming a cell of a page's table, from the grid's
/// zero-based indices: the log counts from one.
pub fn table_coords(row: i64, col: i64) -> (r: (String, String))
    requires
        row < i64::MAX,
        col < i64::MAX,
    ensures
        r.0@ == "row "@ + signed_decimal(row + 1),
        r.1@ == "col "@ + signed_decimal(col + 1),
{
    let mut first = string_of("row ");
    push_signed_decimal(&mut first, row + 1);
    let mut second = string_of("col ");
    push_signed_decimal(&mut second, col + 1);
    (first, second)
}

/// How many causes of an error a record keeps: a cyclic `source()` chain is a bug in somebody's
/// error type, and must not hang the logger.
pub const MAX_ERROR_DEPTH: usize = 32;

/// The error attached to one record, in structural form: its `Debug` form, its `Display` form and
/// its chain of causes, outermost first.
#[derive(Debug, PartialEq, Eq)]
pub struct ErrorRecord {
    pub debug: String,
    pub display: String,
    pub source: Vec<String>,
}

impl ErrorRecord {
    /// The record of an error before its causes are walked.
    pub fn from_error(debug: String, display: String) -> (r: Self)
        ensures
            r.debug@ == debug@,
            r.display@ == display@,
            r.source@.len() == 0,
    {
        ErrorRecord { debug, display, source: Vec::new() }
    }

    /// Takes in the next cause of the chain. Answers whether the walk goes on: it stops once
    /// [`MAX_ERROR_DEPTH`] causes are recorded.
    pub fn record_cause(&mut self, cause: String) -> (more: bool)
        requires
            old(self).source@.len() < MAX_ERROR_DEPTH,
        ensures
            final(self).debug == old(self).debug,
            final(self).display == old(self).display,
            final(self).source@ == old(self).source@.push(cause),
            more == (final(self).source@.len() < MAX_ERROR_DEPTH),
    {
        self.source.push(cause);
        self.source.len() < MAX_ERROR_DEPTH
    }
}

} // verus!
