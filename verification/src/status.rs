//! The state of a development environment, as reported to the user.

use crate::sums::{equal, ChecksumView, Checksums};
use vstd::prelude::*;

verus! {

/// Whether the cached environment matches the files it was built from.
#[derive(Clone, Copy, Debug, PartialEq, Eq, Structural)]
pub enum EnvironmentStatus {
    /// A cache record exists and its checksums match the watched files.
    Okay,
    /// A cache record exists but some watched file has changed since.
    Stale,
    /// No usable cache record exists.
    Unknown,
}

impl EnvironmentStatus {
    /// The exit code that stands for this status.
    pub open spec fn spec_code(self) -> u8 {
        match self {
            EnvironmentStatus::Okay => 0,
            EnvironmentStatus::Stale => 1,
            EnvironmentStatus::Unknown => 2,
        }
    }

    /// The message for this status as bytes.
    pub open spec fn message_bytes(self) -> Seq<u8> {
        vstd::utf8::encode_utf8(self.message())
    }

    /// The message shown to the user for this status.
    pub open spec fn message(self) -> Seq<char> {
        match self {
            EnvironmentStatus::Okay => "Environment is up to date!"@,
            EnvironmentStatus::Stale => "Environment is STALE!"@,
            EnvironmentStatus::Unknown => "Environment not built or otherwise broken!"@,
        }
    }

    /// The status that follows from the checksums of the watched files as
    /// they are now and those of the cache record, if one was loaded.
    pub open spec fn assessed(now: Seq<ChecksumView>, cached: Option<Seq<ChecksumView>>) -> Self {
        match cached {
            None => EnvironmentStatus::Unknown,
            Some(then) => if then == now {
                EnvironmentStatus::Okay
            } else {
                EnvironmentStatus::Stale
            },
        }
    }

    /// Judges the environment: unknown without a cache record, up to date
    /// where the record was built from the files as they are now, entry for
    /// entry and in the same order, and stale otherwise.
    pub fn assess(now: &Checksums, cached: Option<&Checksums>) -> (status: Self)
        ensures
            status == Self::assessed(
                now@,
                match cached {
                    Some(then) => Some(then@),
                    None => None,
                },
            ),
    {
        match cached {
            None => EnvironmentStatus::Unknown,
            Some(then) => if equal(now, then) {
                EnvironmentStatus::Okay
            } else {
                EnvironmentStatus::Stale
            },
        }
    }

    /// Renders the status as the message shown to the user.
    pub fn display(&self) -> (text: String)
        ensures
            text@ == self.message(),
    {
        match self {
            EnvironmentStatus::Okay => "Environment is up to date!".to_string(),
            EnvironmentStatus::Stale => "Environment is STALE!".to_string(),
            EnvironmentStatus::Unknown => "Environment not built or otherwise broken!".to_string(),
        }
    }

    /// The process exit code for this status: 0, 1 or 2.
    pub fn code(&self) -> (code: u8)
        ensures
            code == self.spec_code(),
    {
        match self {
            EnvironmentStatus::Okay => 0,
            EnvironmentStatus::Stale => 1,
            EnvironmentStatus::Unknown => 2,
        }
    }
}

} // verus!
