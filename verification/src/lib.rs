//! Guest-side support library for sandboxed plugins: the byte layouts that
//! cross the host boundary, the cookie and header adapters built on them, and
//! the lifecycle of the single stored program instance.

use vstd::prelude::*;

pub mod cookie;
pub mod headers;
pub mod marshal;
pub mod program;
pub mod shape;
pub mod text;
pub mod wire;

pub use crate::program::Program;

verus! {

/// Severity of a message handed to the host's log.
#[derive(Clone, Copy, Debug, PartialEq, Eq)]
pub enum LogLevel {
    Debug,
    Info,
    Warning,
    Error,
}

impl LogLevel {
    /// The numeric level the host expects.
    pub open spec fn spec_code(self) -> int {
        match self {
            LogLevel::Debug => 0,
            LogLevel::Info => 1,
            LogLevel::Warning => 2,
            LogLevel::Error => 3,
        }
    }

    /// The numeric level the host expects: 0 for debug up to 3 for error.
    pub fn code(self) -> (c: i32)
        ensures
            c == self.spec_code(),
    {
        match self {
            LogLevel::Debug => 0,
            LogLevel::Info => 1,
            LogLevel::Warning => 2,
            LogLevel::Error => 3,
        }
    }
}

} // verus!
