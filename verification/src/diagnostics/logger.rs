use crate::text::{decimal, to_decimal};
use vstd::prelude::*;
use vstd::string::*;

verus! {

/// The sixteen colours of a terminal.
#[derive(Debug, Copy, Clone, PartialEq, Eq, Structural)]
pub enum Colors {
    Black,
    Red,
    Green,
    Yellow,
    Blue,
    Magenta,
    Cyan,
    White,
    BrightBlack,
    BrightRed,
    BrightGreen,
    BrightYellow,
    BrightBlue,
    BrightMagenta,
    BrightCyan,
    BrightWhite,
}

impl Colors {
    /// The number of the colour.
    pub open spec fn code(self) -> nat {
        match self {
            Colors::Black => 0,
            Colors::Red => 1,
            Colors::Green => 2,
            Colors::Yellow => 3,
            Colors::Blue => 4,
            Colors::Magenta => 5,
            Colors::Cyan => 6,
            Colors::White => 7,
            Colors::BrightBlack => 8,
            Colors::BrightRed => 9,
            Colors::BrightGreen => 10,
            Colors::BrightYellow => 11,
            Colors::BrightBlue => 12,
            Colors::BrightMagenta => 13,
            Colors::BrightCyan => 14,
            Colors::BrightWhite => 15,
        }
    }

    /// The number of the colour.
    pub fn number(&self) -> (res: u64)
        ensures
            res == self.code(),
    {
        match self {
            Colors::Black => 0,
            Colors::Red => 1,
            Colors::Green => 2,
            Colors::Yellow => 3,
            Colors::Blue => 4,
            Colors::Magenta => 5,
            Colors::Cyan => 6,
            Colors::White => 7,
            Colors::BrightBlack => 8,
            Colors::BrightRed => 9,
            Colors::BrightGreen => 10,
            Colors::BrightYellow => 11,
            Colors::BrightBlue => 12,
            Colors::BrightMagenta => 13,
            Colors::BrightCyan => 14,
            Colors::BrightWhite => 15,
        }
    }

    /// The sequence that ends all colouring.
    pub fn reset() -> (res: &'static str)
        ensures
            res@ == "\x1b[0m"@,
    {
        "\x1b[0m"
    }

    /// The sequence that switches a terminal to this colour.
    pub open spec fn sequence(self) -> Seq<char> {
        "\x1b[38;5;"@ + decimal(self.code()) + "m"@
    }

    /// The sequence that switches a terminal to this colour.
    pub fn to_string(&self) -> (res: String)
        ensures
            res@ == self.sequence(),
    {
        String::from_str("\x1b[38;5;").concat(to_decimal(self.number()).as_str()).concat("m")
    }
}

/// How grave a message is, the gravest first.
#[derive(Debug, Copy, Clone, PartialEq, Eq, Structural)]
pub enum Level {
    Error,
    Warn,
    Info,
    Debug,
    Trace,
}

/// Up to which gravity messages are shown.
#[derive(Debug, Copy, Clone, PartialEq, Eq, Structural)]
pub enum LevelFilter {
    Off,
    Error,
    Warn,
    Info,
    Debug,
    Trace,
}

impl Level {
    /// The rank of the level: 1 for errors, up to 5 for traces.
    pub open spec fn rank(self) -> nat {
        match self {
            Level::Error => 1,
            Level::Warn => 2,
            Level::Info => 3,
            Level::Debug => 4,
            Level::Trace => 5,
        }
    }

    /// The sign that messages of this level begin with.
    pub open spec fn symbol(self) -> Seq<char> {
        match self {
            Level::Error => "!"@,
            Level::Warn => "="@,
            Level::Info => "*"@,
            Level::Debug => "&"@,
            Level::Trace => "#"@,
        }
    }

    /// The colour of that sign.
    pub open spec fn color(self) -> Colors {
        match self {
            Level::Error => Colors::BrightRed,
            Level::Warn => Colors::BrightYellow,
            Level::Info => Colors::BrightGreen,
            Level::Debug => Colors::BrightCyan,
            Level::Trace => Colors::BrightMagenta,
        }
    }
}

impl LevelFilter {
    /// The rank of the last level that is shown: 0 where none is.
    pub open spec fn rank(self) -> nat {
        match self {
            LevelFilter::Off => 0,
            LevelFilter::Error => 1,
            LevelFilter::Warn => 2,
            LevelFilter::Info => 3,
            LevelFilter::Debug => 4,
            LevelFilter::Trace => 5,
        }
    }
}

/// The logger of the boot: it writes the messages that are grave enough,
/// each behind a coloured sign of its level.
#[derive(Debug, Copy, Clone)]
pub struct InitializationLogger {
    pub level: LevelFilter,
}

impl InitializationLogger {
    /// A logger that shows messages up to `level`.
    pub fn init(level: LevelFilter) -> (res: Self)
        ensures
            res.level == level,
    {
        InitializationLogger { level }
    }

    /// Whether messages of `level` are shown.
    pub fn enabled(&self, level: Level) -> (res: bool)
        ensures
            res == (level.rank() <= self.level.rank()),
    {
        let rank: u8 = match level {
            Level::Error => 1,
            Level::Warn => 2,
            Level::Info => 3,
            Level::Debug => 4,
            Level::Trace => 5,
        };
        let limit: u8 = match self.level {
            LevelFilter::Off => 0,
            LevelFilter::Error => 1,
            LevelFilter::Warn => 2,
            LevelFilter::Info => 3,
            LevelFilter::Debug => 4,
            LevelFilter::Trace => 5,
        };
        rank <= limit
    }

    /// The line that a message of `level` is written as, if it is shown.
    pub fn log(&self, level: Level, message: &str) -> (res: Option<String>)
        ensures
            match res {
                Some(line) => level.rank() <= self.level.rank() && line@ == level.color().sequence()
                    + level.symbol() + "\x1b[0m"@ + " "@ + message@,
                None => level.rank() > self.level.rank(),
            },
    {
        if !self.enabled(level) {
            return None;
        }
        let (color, symbol) = match level {
            Level::Error => (Colors::BrightRed, "!"),
            Level::Warn => (Colors::BrightYellow, "="),
            Level::Info => (Colors::BrightGreen, "*"),
            Level::Debug => (Colors::BrightCyan, "&"),
            Level::Trace => (Colors::BrightMagenta, "#"),
        };
        Some(color.to_string().concat(symbol).concat(Colors::reset()).concat(" ").concat(message))
    }
}

} // verus!
