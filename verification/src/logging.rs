//! Log levels, and the lines that reach the log.
use vstd::prelude::*;
use vstd::string::*;

use crate::config::Config;
use crate::text::{
    after_prefix, has_suffix, law_prefix, law_suffix, lower, same_text, to_lower, trim, trimmed,
};

verus! {

/// How much is logged, and how much a line matters.
#[derive(Clone, Copy, Debug, PartialEq, Eq, Structural, PartialOrd, Ord)]
pub enum Level {
    Off,
    Error,
    Warn,
    Info,
    Debug,
}

/// The level that a name means; an unknown name means `info`.
pub open spec fn level_named(name: Seq<char>) -> Level {
    if name == "off"@ {
        Level::Off
    } else if name == "error"@ {
        Level::Error
    } else if name == "warn"@ {
        Level::Warn
    } else if name == "info"@ {
        Level::Info
    } else if name == "debug"@ {
        Level::Debug
    } else {
        Level::Info
    }
}

impl Level {
    /// The name of a level.
    pub open spec fn name(self) -> Seq<char> {
        match self {
            Level::Off => "off"@,
            Level::Error => "error"@,
            Level::Warn => "warn"@,
            Level::Info => "info"@,
            Level::Debug => "debug"@,
        }
    }

    /// How much a level lets through.
    pub open spec fn rank(self) -> int {
        match self {
            Level::Off => 0,
            Level::Error => 1,
            Level::Warn => 2,
            Level::Info => 3,
            Level::Debug => 4,
        }
    }

    /// Whether a line of the given level is logged at this level.
    pub open spec fn lets(self, level: Level) -> bool {
        self != Level::Off && self.rank() >= level.rank()
    }

    /// The level that a text means, whatever its case and the white space around it.
    pub fn from_str(level: &str) -> (r: Self)
        ensures
            r == level_named(lower(trimmed(level@))),
    {
        let trimmed_text = trim(level);
        Level::from_trimmed(trimmed_text.as_str())
    }

    /// The level that a text without white space around it means, whatever its case.
    pub fn from_trimmed(level: &str) -> (r: Self)
        ensures
            r == level_named(lower(level@)),
    {
        let low = to_lower(level);
        let name = low.as_str();
        if same_text(name, "off") {
            Level::Off
        } else if same_text(name, "error") {
            Level::Error
        } else if same_text(name, "warn") {
            Level::Warn
        } else if same_text(name, "info") {
            Level::Info
        } else if same_text(name, "debug") {
            Level::Debug
        } else {
            Level::Info
        }
    }

    pub fn as_str(self) -> (r: &'static str)
        ensures
            r@ == self.name(),
    {
        match self {
            Level::Off => "off",
            Level::Error => "error",
            Level::Warn => "warn",
            Level::Info => "info",
            Level::Debug => "debug",
        }
    }

    fn number(self) -> (r: u8)
        ensures
            r == self.rank(),
    {
        match self {
            Level::Off => 0,
            Level::Error => 1,
            Level::Warn => 2,
            Level::Info => 3,
            Level::Debug => 4,
        }
    }

    pub fn allows(self, level: Self) -> (r: bool)
        ensures
            r == self.lets(level),
    {
        self != Level::Off && self.number() >= level.number()
    }
}

/// The level that is configured.
pub open spec fn level_of(cfg: Config) -> Level {
    level_named(lower(trimmed(cfg.log.level@)))
}

pub fn configured_level(cfg: &Config) -> (r: Level)
    ensures
        r == level_of(*cfg),
{
    Level::from_str(cfg.log.level.as_str())
}

pub fn configured_level_name(cfg: &Config) -> (r: &'static str)
    ensures
        r@ == level_of(*cfg).name(),
{
    configured_level(cfg).as_str()
}

/// A line for the log: errors and warnings go to standard error, the rest to standard output.
pub struct LogLine {
    pub to_stderr: bool,
    pub text: String,
}

/// The text of a line: its level in brackets, and the message.
pub open spec fn line_of(level: Level, message: Seq<char>) -> Seq<char> {
    "["@ + level.name() + "] "@ + message
}

/// Whether `r` is what is logged of a message: nothing where the configured level keeps it back.
pub open spec fn is_logged(
    cfg: Config,
    level: Level,
    message: Seq<char>,
    r: Option<LogLine>,
) -> bool {
    match r {
        Some(line) => {
            &&& level_of(cfg).lets(level)
            &&& line.to_stderr == (level.rank() <= Level::Warn.rank())
            &&& line.text@ == line_of(level, message)
        },
        None => !level_of(cfg).lets(level),
    }
}

/// What is logged of a message of the given level.
pub fn emit(cfg: &Config, level: Level, message: &str) -> (r: Option<LogLine>)
    ensures
        is_logged(*cfg, level, message@, r),
{
    if !configured_level(cfg).allows(level) {
        return None;
    }
    let mut text = "[".to_owned();
    text.append(level.as_str());
    text.append("] ");
    text.append(message);
    Some(LogLine { to_stderr: level.number() <= Level::Warn.number(), text })
}

pub fn error(cfg: &Config, message: &str) -> (r: Option<LogLine>)
    ensures
        is_logged(*cfg, Level::Error, message@, r),
{
    emit(cfg, Level::Error, message)
}

pub fn warn(cfg: &Config, message: &str) -> (r: Option<LogLine>)
    ensures
        is_logged(*cfg, Level::Warn, message@, r),
{
    emit(cfg, Level::Warn, message)
}

pub fn info(cfg: &Config, message: &str) -> (r: Option<LogLine>)
    ensures
        is_logged(*cfg, Level::Info, message@, r),
{
    emit(cfg, Level::Info, message)
}

pub fn debug(cfg: &Config, message: &str) -> (r: Option<LogLine>)
    ensures
        is_logged(*cfg, Level::Debug, message@, r),
{
    emit(cfg, Level::Debug, message)
}

/// A level reads back from its own name, and lets every line through that a lower level lets
/// through.
pub proof fn law_levels(a: Level, b: Level, line: Level)
    ensures
        level_named(a.name()) == a,
        a.rank() <= b.rank() && a.lets(line) ==> b.lets(line),
        !Level::Off.lets(line),
{
    reveal_strlit("off");
    reveal_strlit("error");
    reveal_strlit("warn");
    reveal_strlit("info");
    reveal_strlit("debug");
    assert("off"@.len() == 3);
    assert("warn"@.len() == 4 && "warn"@[0] == 'w');
    assert("info"@.len() == 4 && "info"@[0] == 'i');
    assert("error"@.len() == 5 && "error"@[0] == 'e');
    assert("debug"@.len() == 5 && "debug"@[0] == 'd');
}

/// An unknown name means the level of ordinary messages, and a name means its level whatever its
/// case and the white space around it.
pub proof fn law_level_names(name: Seq<char>, cfg: Config)
    ensures
        name != "off"@ && name != "error"@ && name != "warn"@ && name != "debug"@ ==> level_named(
            name,
        ) == Level::Info,
        lower(trimmed(cfg.log.level@)) == "off"@ ==> level_of(cfg) == Level::Off,
        lower(trimmed(cfg.log.level@)) == "error"@ ==> level_of(cfg) == Level::Error,
        lower(trimmed(cfg.log.level@)) == "warn"@ ==> level_of(cfg) == Level::Warn,
        lower(trimmed(cfg.log.level@)) == "info"@ ==> level_of(cfg) == Level::Info,
        lower(trimmed(cfg.log.level@)) == "debug"@ ==> level_of(cfg) == Level::Debug,
{
    law_levels(Level::Off, Level::Off, Level::Off);
    law_levels(Level::Error, Level::Off, Level::Off);
    law_levels(Level::Warn, Level::Off, Level::Off);
    law_levels(Level::Info, Level::Off, Level::Off);
    law_levels(Level::Debug, Level::Off, Level::Off);
}

/// A message is logged exactly where the configured level is not below its own; what tells of
/// trouble goes to standard error, and the rest to standard output.
pub proof fn law_logged(
    cfg: Config,
    level: Level,
    message: Seq<char>,
    r: Option<LogLine>,
)
    requires
        is_logged(cfg, level, message, r),
    ensures
        level == Level::Error ==> (r is Some <==> level_of(cfg) != Level::Off),
        level == Level::Warn ==> (r is Some <==> level_of(cfg) != Level::Off && level_of(cfg)
            != Level::Error),
        level == Level::Info ==> (r is Some <==> level_of(cfg) == Level::Info || level_of(cfg)
            == Level::Debug),
        level == Level::Debug ==> (r is Some <==> level_of(cfg) == Level::Debug),
        r is Some ==> has_suffix(r->Some_0.text@, message),
        r is Some ==> after_prefix(r->Some_0.text@, "["@ + level.name() + "] "@) == Some(message),
        r is Some && (level == Level::Error || level == Level::Warn) ==> r->Some_0.to_stderr,
        r is Some && (level == Level::Info || level == Level::Debug) ==> !r->Some_0.to_stderr,
{
    law_suffix("["@ + level.name() + "] "@, message);
    law_prefix("["@ + level.name() + "] "@ + message, "["@ + level.name() + "] "@, message);
}

} // verus!
