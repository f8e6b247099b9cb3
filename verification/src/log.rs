//! Log levels, their tags, and the lines that messages are logged as.

use vstd::prelude::*;
use vstd::string::StringExecFns;

verus! {

pub const ALL: i32 = 0;

pub const TRACE: i32 = 1;

pub const DEBUG: i32 = 2;

pub const INFO: i32 = 3;

pub const WARNING: i32 = 4;

pub const ERROR: i32 = 5;

pub const FATAL: i32 = 6;

pub const NONE: i32 = 999;

/// A message on its way to the log, with the level it was raised at.
#[derive(Debug)]
pub struct LogRecord {
    pub level: i32,
    pub text: String,
}

/// The colour in which a level's tag is shown.
#[derive(Clone, Copy, Debug, PartialEq, Eq, Structural)]
pub enum TagColor {
    Green,
    Yellow,
    Red,
    Cyan,
    Magenta,
    /// No colour: the level has no tag.
    Plain,
}

/// The tag of a level; levels without a tag have an empty one.
pub open spec fn tag_of(level: i32) -> Seq<char> {
    if level == INFO {
        "INFO"@
    } else if level == ERROR {
        "ERROR"@
    } else if level == FATAL {
        "FATAL"@
    } else if level == WARNING {
        "WARN"@
    } else if level == DEBUG {
        "DEBUG"@
    } else if level == TRACE {
        "TRACE"@
    } else {
        Seq::empty()
    }
}

/// The level is one of the six that carry a tag.
pub open spec fn is_tagged(level: i32) -> bool {
    TRACE <= level <= FATAL
}

/// The colour of a level's tag.
pub open spec fn color_of(level: i32) -> TagColor {
    if level == INFO {
        TagColor::Green
    } else if level == ERROR || level == FATAL {
        TagColor::Red
    } else if level == WARNING {
        TagColor::Yellow
    } else if level == DEBUG {
        TagColor::Cyan
    } else if level == TRACE {
        TagColor::Magenta
    } else {
        TagColor::Plain
    }
}

/// The line that a message is logged as: behind its tag, which stands in
/// square brackets between the codes that switch its colour on and off; as
/// it is, where the level has no tag.
pub open spec fn line_of(level: i32, text: Seq<char>, on: Seq<char>, off: Seq<char>) -> Seq<char> {
    if is_tagged(level) {
        "["@ + on + tag_of(level) + off + "] : "@ + text
    } else {
        text
    }
}

pub fn level_tag(level: i32) -> (tag: &'static str)
    ensures
        tag@ == tag_of(level),
{
    proof {
        reveal_strlit("");
    }
    match level {
        3 => "INFO",
        5 => "ERROR",
        6 => "FATAL",
        4 => "WARN",
        2 => "DEBUG",
        1 => "TRACE",
        _ => "",
    }
}

pub fn level_color(level: i32) -> (color: TagColor)
    ensures
        color == color_of(level),
{
    match level {
        3 => TagColor::Green,
        5 => TagColor::Red,
        6 => TagColor::Red,
        4 => TagColor::Yellow,
        2 => TagColor::Cyan,
        1 => TagColor::Magenta,
        _ => TagColor::Plain,
    }
}

/// Writes out the line for a message; `on` and `off` are the codes that
/// switch the tag's colour on and off.
pub fn format_line(level: i32, text: &str, on: &str, off: &str) -> (line: String)
    ensures
        line@ == line_of(level, text@, on@, off@),
{
    if level < 1 || level > 6 {
        return text.to_owned();
    }
    let mut line = String::from_str("[");
    line.append(on);
    line.append(level_tag(level));
    line.append(off);
    line.append("] : ");
    line.append(text);
    line
}

/// A record of `text` at the given level.
pub fn record(level: i32, text: &str) -> (out: LogRecord)
    ensures
        out.level == level,
        out.text@ == text@,
{
    LogRecord { level, text: text.to_owned() }
}

pub fn info(text: &str) -> (out: LogRecord)
    ensures
        out.level == INFO,
        out.text@ == text@,
{
    record(INFO, text)
}

pub fn error(text: &str) -> (out: LogRecord)
    ensures
        out.level == ERROR,
        out.text@ == text@,
{
    record(ERROR, text)
}

pub fn warning(text: &str) -> (out: LogRecord)
    ensures
        out.level == WARNING,
        out.text@ == text@,
{
    record(WARNING, text)
}

pub fn debug(text: &str) -> (out: LogRecord)
    ensures
        out.level == DEBUG,
        out.text@ == text@,
{
    record(DEBUG, text)
}

pub fn trace(text: &str) -> (out: LogRecord)
    ensures
        out.level == TRACE,
        out.text@ == text@,
{
    record(TRACE, text)
}

pub fn fatal(text: &str) -> (out: LogRecord)
    ensures
        out.level == FATAL,
        out.text@ == text@,
{
    record(FATAL, text)
}

} // verus!
