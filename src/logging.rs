use vstd::prelude::*;
use vstd::string::*;

verus! {

broadcast use vstd::string::group_string_axioms;

/// What `str::to_lowercase` returns for `s`.
pub uninterp spec fn lower_of(s: Seq<char>) -> Seq<char>;

/// Relies on `str::to_lowercase`: the result depends on the characters
/// alone, and the empty string stays empty.
#[verifier::external_body]
fn lowercase(s: &str) -> (r: String)
    ensures
        r@ == lower_of(s@),
        s@.len() == 0 ==> r@.len() == 0,
{
    s.to_lowercase()
}

/// Log verbosity.
#[derive(Debug, Clone, Copy, PartialEq, Eq, Structural)]
pub enum LogLevel {
    Error,
    Warn,
    Info,
    Debug,
    Trace,
}

/// The level a lower-case level name stands for; anything else is `Info`.
pub open spec fn level_named(s: Seq<char>) -> LogLevel {
    if s == "error"@ {
        LogLevel::Error
    } else if s == "warn"@ {
        LogLevel::Warn
    } else if s == "debug"@ {
        LogLevel::Debug
    } else if s == "trace"@ {
        LogLevel::Trace
    } else {
        LogLevel::Info
    }
}

/// The level of an already lower-cased name (`info` and unknown names give
/// `Info`).
pub fn level_from_lowercase(name: &str) -> (r: LogLevel)
    ensures
        r == level_named(name@),
{
    let n = name.to_owned();
    if n == String::from_str("error") {
        LogLevel::Error
    } else if n == String::from_str("warn") {
        LogLevel::Warn
    } else if n == String::from_str("debug") {
        LogLevel::Debug
    } else if n == String::from_str("trace") {
        LogLevel::Trace
    } else {
        LogLevel::Info
    }
}

/// Parse a level name, ignoring case; unknown names give `Info`.
pub fn parse_level(level: &str) -> (r: LogLevel)
    ensures
        r == level_named(lower_of(level@)),
{
    let lower = lowercase(level);
    level_from_lowercase(lower.as_str())
}

} // verus!
