//! FFmpeg's log, line by line: what is worth keeping, and as what.
//!
//! Left to itself FFmpeg calls a good deal an error that nobody acts on. What
//! matters comes back through results; so a panic or a fatal line is an error, and
//! everything else is there for whoever turns the level up to read it.

use crate::text::{ended, trim_end};
use vstd::prelude::*;

verus! {

/// The level of a line that cannot be recovered from. Lower is worse.
pub const FATAL: i32 = 8;

/// How a line is logged.
#[derive(Clone, Copy, Debug, PartialEq, Eq, Structural)]
pub enum Severity {
    Error,
    Debug,
}

/// Whether a line of this level is worth formatting at all.
pub fn formatted(level: i32, threshold: i32) -> (r: bool)
    ensures
        r == (level <= threshold),
{
    level <= threshold
}

/// How a formatted line of this level is logged, and what is logged of it. None
/// where nothing is left of it.
pub fn relayed(level: i32, line: &str) -> (r: Option<(Severity, String)>)
    ensures
        match r {
            Some((severity, text)) => {
                &&& text@ == ended(line@)
                &&& ended(line@).len() > 0
                &&& severity == if level <= FATAL {
                    Severity::Error
                } else {
                    Severity::Debug
                }
            },
            None => ended(line@).len() == 0,
        },
{
    let text: String = trim_end(line);
    if text.as_str().unicode_len() == 0 {
        return None;
    }
    if level <= FATAL {
        Some((Severity::Error, text))
    } else {
        Some((Severity::Debug, text))
    }
}

} // verus!
