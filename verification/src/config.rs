//! The configuration that a kernel is made with and keeps for good: the
//! number of priorities, given as decimal text, and the bitmap layout that
//! follows from it.

use crate::bitmap::{Strategy, PRIORITY_LIMIT};
use vstd::prelude::*;
use vstd::string::StringSliceAdditionalSpecFns;

verus! {

/// The number of priorities of a kernel that is configured with none.
pub const PRIORITY_MAX_DEFAULT: usize = 8;

/// Why a configuration was refused.
#[derive(Clone, Copy, PartialEq, Eq, Debug, Structural)]
pub enum ConfigError {
    /// The text is not a decimal number that fits the machine word.
    NotANumber,
    /// The number is zero or above the most priorities that a kernel can
    /// have.
    OutOfRange,
}

/// The configuration of a kernel.
#[derive(Clone, Copy, PartialEq, Eq, Debug, Structural)]
pub struct Config {
    /// Number of priorities.
    pub priority_max: usize,
    /// Layout of the presence bitmap.
    pub strategy: Strategy,
}

#[verifier::external_type_specification]
#[verifier::external_body]
pub struct ExParseIntError(konst::primitive::ParseIntError);

/// `text` is one or more ASCII digits.
pub open spec fn is_decimal(text: Seq<u8>) -> bool {
    &&& text.len() > 0
    &&& forall|i: int| 0 <= i < text.len() ==> 0x30 <= #[trigger] text[i] <= 0x39
}

/// The number that the digits `text` write in base ten.
pub open spec fn decimal_value(text: Seq<u8>) -> nat
    decreases text.len(),
{
    if text.len() == 0 {
        0
    } else {
        (decimal_value(text.drop_last()) * 10 + (text.last() - 0x30)) as nat
    }
}

/// Calls `konst::primitive::parse_usize`. It succeeds exactly on text that
/// is made of ASCII digits alone, at least one, and writes a number that
/// fits a `usize`; the result is that number. A sign, a blank or any other
/// byte makes it fail.
#[verifier::external_body]
fn parse_usize(text: &str) -> (parsed: Result<usize, konst::primitive::ParseIntError>)
    ensures
        match parsed {
            Ok(n) => is_decimal(text.spec_bytes()) && n == decimal_value(text.spec_bytes()),
            Err(_) => !is_decimal(text.spec_bytes()) || decimal_value(text.spec_bytes())
                > usize::MAX,
        },
{
    konst::primitive::parse_usize(text)
}

/// The number of priorities that `text` asks for.
pub open spec fn requested(text: Seq<u8>) -> Result<usize, ConfigError> {
    if !is_decimal(text) || decimal_value(text) > usize::MAX {
        Err(ConfigError::NotANumber)
    } else if decimal_value(text) == 0 || decimal_value(text) > PRIORITY_LIMIT {
        Err(ConfigError::OutOfRange)
    } else {
        Ok(decimal_value(text) as usize)
    }
}

/// Checks a parsed number of priorities: a number from 1 to
/// [`PRIORITY_LIMIT`] is taken, any other is out of range, and text that
/// did not parse is not a number.
pub fn checked_priority_max<E>(parsed: Result<usize, E>) -> (checked: Result<usize, ConfigError>)
    ensures
        checked == (match parsed {
            Ok(n) => if 0 < n <= PRIORITY_LIMIT {
                Ok(n)
            } else {
                Err(ConfigError::OutOfRange)
            },
            Err(_) => Err(ConfigError::NotANumber),
        }),
{
    match parsed {
        Ok(n) => if 0 < n && n <= PRIORITY_LIMIT {
            Ok(n)
        } else {
            Err(ConfigError::OutOfRange)
        },
        Err(_) => Err(ConfigError::NotANumber),
    }
}

impl Config {
    /// The configuration for `priority_max` priorities: one bitmap word up
    /// to 32 priorities, two levels above.
    pub fn new(priority_max: usize) -> (config: Result<Config, ConfigError>)
        ensures
            config == (if 0 < priority_max <= PRIORITY_LIMIT {
                Ok(
                    Config {
                        priority_max,
                        strategy: crate::scheduler::strategy_for(priority_max),
                    },
                )
            } else {
                Err::<Config, ConfigError>(ConfigError::OutOfRange)
            }),
    {
        if 0 < priority_max && priority_max <= PRIORITY_LIMIT {
            Ok(Config { priority_max, strategy: Strategy::for_priority_max(priority_max) })
        } else {
            Err(ConfigError::OutOfRange)
        }
    }

    /// The configuration that the setting `text` asks for: the default of
    /// [`PRIORITY_MAX_DEFAULT`] priorities where nothing is set, else the
    /// number that `text` writes in decimal digits.
    pub fn from_setting(text: Option<&str>) -> (config: Result<Config, ConfigError>)
        ensures
            config == (match text {
                None => Ok::<Config, ConfigError>(
                    Config { priority_max: PRIORITY_MAX_DEFAULT, strategy: Strategy::Flat },
                ),
                Some(t) => match requested(t.spec_bytes()) {
                    Ok(n) => Ok(
                        Config { priority_max: n, strategy: crate::scheduler::strategy_for(n) },
                    ),
                    Err(e) => Err(e),
                },
            }),
    {
        match text {
            None => Config::new(PRIORITY_MAX_DEFAULT),
            Some(t) => {
                match checked_priority_max(parse_usize(t)) {
                    Ok(n) => Config::new(n),
                    Err(e) => Err(e),
                }
            },
        }
    }
}

} // verus!
