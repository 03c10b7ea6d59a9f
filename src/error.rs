//! What can go wrong while reading configuration and sizing devices.

use vstd::prelude::*;

verus! {

/// Why the value of one recognised key was refused.
#[derive(Debug, PartialEq, Eq)]
pub enum LineError {
    /// A path that does not start with `/`.
    NotAbsolute,
    /// A path with a `..` component.
    NotNormalized,
    /// Neither `none` nor a number of megabytes.
    BadSize,
    /// Not an integer.
    BadPriority,
    /// An integer outside `-1..=32767`.
    PriorityOutOfRange(i32),
    /// A size expression that does not parse; the parser's message.
    BadExpression(String),
}

/// Why the value of a size expression was refused.
#[derive(Debug, PartialEq, Eq)]
pub enum SizeError {
    /// The expression could not be evaluated; the evaluator's message.
    Evaluation(String),
    /// The expression evaluated to NaN.
    NotANumber,
    /// The expression evaluated to a negative number.
    Negative,
}

/// A fatal error of configuration resolution.
#[derive(Debug, PartialEq, Eq)]
pub enum ConfigError {
    /// A fragment is not valid INI text.
    Syntax { path: String, line: usize, col: usize, msg: String },
    /// A recognised key of a device section has a value that is refused.
    Line { path: String, device: String, key: String, value: String, reason: LineError },
    /// A size expression of a device could not be turned into bytes.
    Size { device: String, key: String, cause: SizeError },
}

} // verus!
