//! The build status enumeration and its wire codes.
use vstd::prelude::*;

verus! {

/// How a build request ended, as reported to the client.
#[derive(Clone, Copy, Debug, PartialEq, Eq, Structural)]
pub enum BuildStatus {
    Built,
    Substituted,
    AlreadyValid,
    PermanentFailure,
    InputRejected,
    OutputRejected,
    TransientFailure,
    CachedFailure,
    TimedOut,
    MiscFailure,
    DependencyFailed,
    LogLimitExceeded,
    NotDeterministic,
}

impl BuildStatus {
    /// The `u64` this status travels as.
    pub open spec fn spec_code(self) -> u64 {
        match self {
            BuildStatus::Built => 0,
            BuildStatus::Substituted => 1,
            BuildStatus::AlreadyValid => 2,
            BuildStatus::PermanentFailure => 3,
            BuildStatus::InputRejected => 4,
            BuildStatus::OutputRejected => 5,
            BuildStatus::TransientFailure => 6,
            BuildStatus::CachedFailure => 7,
            BuildStatus::TimedOut => 8,
            BuildStatus::MiscFailure => 9,
            BuildStatus::DependencyFailed => 10,
            BuildStatus::LogLimitExceeded => 11,
            BuildStatus::NotDeterministic => 12,
        }
    }

    /// The `u64` this status travels as.
    pub fn code(self) -> (r: u64)
        ensures
            r == self.spec_code(),
    {
        match self {
            BuildStatus::Built => 0,
            BuildStatus::Substituted => 1,
            BuildStatus::AlreadyValid => 2,
            BuildStatus::PermanentFailure => 3,
            BuildStatus::InputRejected => 4,
            BuildStatus::OutputRejected => 5,
            BuildStatus::TransientFailure => 6,
            BuildStatus::CachedFailure => 7,
            BuildStatus::TimedOut => 8,
            BuildStatus::MiscFailure => 9,
            BuildStatus::DependencyFailed => 10,
            BuildStatus::LogLimitExceeded => 11,
            BuildStatus::NotDeterministic => 12,
        }
    }
}

} // verus!
