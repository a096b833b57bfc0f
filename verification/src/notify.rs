//! Log notifications: which of them a client wants.
use vstd::prelude::*;

verus! {

/// How severe a message is.
#[derive(Debug, Clone, Copy, PartialEq, Eq, Structural)]
pub enum LoggingLevel {
    Debug,
    Info,
    Notice,
    Warning,
    Error,
    Critical,
    Alert,
    Emergency,
}

/// The threshold before a client sets one.
pub const DEFAULT_LOG_ORDINAL: u8 = 1;

/// The rank of a level, the most verbose first.
pub open spec fn ordinal(level: LoggingLevel) -> u8 {
    match level {
        LoggingLevel::Debug => 0,
        LoggingLevel::Info => 1,
        LoggingLevel::Notice => 2,
        LoggingLevel::Warning => 3,
        LoggingLevel::Error => 4,
        LoggingLevel::Critical => 5,
        LoggingLevel::Alert => 6,
        LoggingLevel::Emergency => 7,
    }
}

/// The rank of a level, the most verbose first.
pub fn level_ordinal(level: LoggingLevel) -> (n: u8)
    ensures
        n == ordinal(level),
{
    match level {
        LoggingLevel::Debug => 0,
        LoggingLevel::Info => 1,
        LoggingLevel::Notice => 2,
        LoggingLevel::Warning => 3,
        LoggingLevel::Error => 4,
        LoggingLevel::Critical => 5,
        LoggingLevel::Alert => 6,
        LoggingLevel::Emergency => 7,
    }
}

/// Whether a message of this level is sent under this threshold.
pub fn should_log(threshold: u8, level: LoggingLevel) -> (yes: bool)
    ensures
        yes == (ordinal(level) >= threshold),
{
    level_ordinal(level) >= threshold
}

/// After a client has set a level, messages of that level and every one at least as severe are sent,
/// and no others.
pub proof fn law_levels_are_thresholds(set: LoggingLevel, level: LoggingLevel)
    ensures
        ordinal(set) == ordinal(level) ==> set == level,
        (ordinal(level) >= ordinal(set)) == (level == set || ordinal(level) > ordinal(set)),
{
}

} // verus!
