//! Worker protocol constants: the handshake magic numbers, the version
//! word layout, the stderr-channel tags and the operation tags.
use vstd::prelude::*;

verus! {

/// Magic number the client sends first during the handshake.
pub const WORKER_MAGIC_1: u64 = 0x6e697863;

/// Magic number the server answers with during the handshake.
pub const WORKER_MAGIC_2: u64 = 0x6478696f;

/// Version word the server offers: major 1, minor 34.
pub const PROTOCOL_VERSION: u64 = 0x122;

/// Lowest client minor version the server agrees to serve.
pub const MIN_MINOR_VERSION: u64 = 33;

pub const STDERR_NEXT: u64 = 0x6f6c6d67;

pub const STDERR_READ: u64 = 0x64617461;

pub const STDERR_WRITE: u64 = 0x64617416;

pub const STDERR_LAST: u64 = 0x616c7473;

pub const STDERR_ERROR: u64 = 0x63787470;

pub const STDERR_START_ACTIVITY: u64 = 0x53545254;

pub const STDERR_STOP_ACTIVITY: u64 = 0x53544f50;

pub const STDERR_RESULT: u64 = 0x52534c54;

/// The major part of a version word: its high byte, still in place.
pub fn protocol_version_major(version: u64) -> (r: u64)
    ensures
        r == version & 0xff00,
{
    version & 0xff00
}

/// The minor part of a version word: its low byte.
pub fn protocol_version_minor(version: u64) -> (r: u64)
    ensures
        r == version & 0x00ff,
{
    version & 0x00ff
}

/// The operations of the worker protocol. Every tag is recognized;
/// only a handful are served.
#[derive(Clone, Copy, Debug, PartialEq, Eq, Structural)]
pub enum Op {
    Nop,
    IsValidPath,
    HasSubstitutes,
    QueryReferrers,
    AddToStore,
    BuildPaths,
    EnsurePath,
    AddTempRoot,
    AddIndirectRoot,
    SyncWithGC,
    FindRoots,
    SetOptions,
    CollectGarbage,
    QuerySubstitutablePathInfo,
    QueryAllValidPaths,
    QueryPathInfo,
    QueryPathFromHashPart,
    QuerySubstitutablePathInfos,
    QueryValidPaths,
    QuerySubstitutablePaths,
    QueryValidDerivers,
    OptimiseStore,
    VerifyStore,
    BuildDerivation,
    AddSignatures,
    NarFromPath,
    AddToStoreNar,
    QueryMissing,
    QueryDerivationOutputMap,
    RegisterDrvOutput,
    QueryRealisation,
    AddMultipleToStore,
    AddBuildLog,
    BuildPathsWithResults,
}

impl Op {
    /// The tag this operation travels as.
    pub open spec fn spec_code(self) -> u64 {
        match self {
            Op::Nop => 0,
            Op::IsValidPath => 1,
            Op::HasSubstitutes => 3,
            Op::QueryReferrers => 6,
            Op::AddToStore => 7,
            Op::BuildPaths => 9,
            Op::EnsurePath => 10,
            Op::AddTempRoot => 11,
            Op::AddIndirectRoot => 12,
            Op::SyncWithGC => 13,
            Op::FindRoots => 14,
            Op::SetOptions => 19,
            Op::CollectGarbage => 20,
            Op::QuerySubstitutablePathInfo => 21,
            Op::QueryAllValidPaths => 23,
            Op::QueryPathInfo => 26,
            Op::QueryPathFromHashPart => 29,
            Op::QuerySubstitutablePathInfos => 30,
            Op::QueryValidPaths => 31,
            Op::QuerySubstitutablePaths => 32,
            Op::QueryValidDerivers => 33,
            Op::OptimiseStore => 34,
            Op::VerifyStore => 35,
            Op::BuildDerivation => 36,
            Op::AddSignatures => 37,
            Op::NarFromPath => 38,
            Op::AddToStoreNar => 39,
            Op::QueryMissing => 40,
            Op::QueryDerivationOutputMap => 41,
            Op::RegisterDrvOutput => 42,
            Op::QueryRealisation => 43,
            Op::AddMultipleToStore => 44,
            Op::AddBuildLog => 45,
            Op::BuildPathsWithResults => 46,
        }
    }

    /// The tag this operation travels as.
    pub fn code(self) -> (r: u64)
        ensures
            r == self.spec_code(),
    {
        match self {
            Op::Nop => 0,
            Op::IsValidPath => 1,
            Op::HasSubstitutes => 3,
            Op::QueryReferrers => 6,
            Op::AddToStore => 7,
            Op::BuildPaths => 9,
            Op::EnsurePath => 10,
            Op::AddTempRoot => 11,
            Op::AddIndirectRoot => 12,
            Op::SyncWithGC => 13,
            Op::FindRoots => 14,
            Op::SetOptions => 19,
            Op::CollectGarbage => 20,
            Op::QuerySubstitutablePathInfo => 21,
            Op::QueryAllValidPaths => 23,
            Op::QueryPathInfo => 26,
            Op::QueryPathFromHashPart => 29,
            Op::QuerySubstitutablePathInfos => 30,
            Op::QueryValidPaths => 31,
            Op::QuerySubstitutablePaths => 32,
            Op::QueryValidDerivers => 33,
            Op::OptimiseStore => 34,
            Op::VerifyStore => 35,
            Op::BuildDerivation => 36,
            Op::AddSignatures => 37,
            Op::NarFromPath => 38,
            Op::AddToStoreNar => 39,
            Op::QueryMissing => 40,
            Op::QueryDerivationOutputMap => 41,
            Op::RegisterDrvOutput => 42,
            Op::QueryRealisation => 43,
            Op::AddMultipleToStore => 44,
            Op::AddBuildLog => 45,
            Op::BuildPathsWithResults => 46,
        }
    }

    /// The operation a tag names, when it names one.
    pub open spec fn spec_from_code(tag: u64) -> Option<Op> {
        if tag == 0 {
            Some(Op::Nop)
        } else if tag == 1 {
            Some(Op::IsValidPath)
        } else if tag == 3 {
            Some(Op::HasSubstitutes)
        } else if tag == 6 {
            Some(Op::QueryReferrers)
        } else if tag == 7 {
            Some(Op::AddToStore)
        } else if tag == 9 {
            Some(Op::BuildPaths)
        } else if tag == 10 {
            Some(Op::EnsurePath)
        } else if tag == 11 {
            Some(Op::AddTempRoot)
        } else if tag == 12 {
            Some(Op::AddIndirectRoot)
        } else if tag == 13 {
            Some(Op::SyncWithGC)
        } else if tag == 14 {
            Some(Op::FindRoots)
        } else if tag == 19 {
            Some(Op::SetOptions)
        } else if tag == 20 {
            Some(Op::CollectGarbage)
        } else if tag == 21 {
            Some(Op::QuerySubstitutablePathInfo)
        } else if tag == 23 {
            Some(Op::QueryAllValidPaths)
        } else if tag == 26 {
            Some(Op::QueryPathInfo)
        } else if tag == 29 {
            Some(Op::QueryPathFromHashPart)
        } else if tag == 30 {
            Some(Op::QuerySubstitutablePathInfos)
        } else if tag == 31 {
            Some(Op::QueryValidPaths)
        } else if tag == 32 {
            Some(Op::QuerySubstitutablePaths)
        } else if tag == 33 {
            Some(Op::QueryValidDerivers)
        } else if tag == 34 {
            Some(Op::OptimiseStore)
        } else if tag == 35 {
            Some(Op::VerifyStore)
        } else if tag == 36 {
            Some(Op::BuildDerivation)
        } else if tag == 37 {
            Some(Op::AddSignatures)
        } else if tag == 38 {
            Some(Op::NarFromPath)
        } else if tag == 39 {
            Some(Op::AddToStoreNar)
        } else if tag == 40 {
            Some(Op::QueryMissing)
        } else if tag == 41 {
            Some(Op::QueryDerivationOutputMap)
        } else if tag == 42 {
            Some(Op::RegisterDrvOutput)
        } else if tag == 43 {
            Some(Op::QueryRealisation)
        } else if tag == 44 {
            Some(Op::AddMultipleToStore)
        } else if tag == 45 {
            Some(Op::AddBuildLog)
        } else if tag == 46 {
            Some(Op::BuildPathsWithResults)
        } else {
            None
        }
    }

    /// The operation a tag names, when it names one.
    pub fn from_code(tag: u64) -> (r: Option<Op>)
        ensures
            r == Op::spec_from_code(tag),
    {
        if tag == 0 {
            Some(Op::Nop)
        } else if tag == 1 {
            Some(Op::IsValidPath)
        } else if tag == 3 {
            Some(Op::HasSubstitutes)
        } else if tag == 6 {
            Some(Op::QueryReferrers)
        } else if tag == 7 {
            Some(Op::AddToStore)
        } else if tag == 9 {
            Some(Op::BuildPaths)
        } else if tag == 10 {
            Some(Op::EnsurePath)
        } else if tag == 11 {
            Some(Op::AddTempRoot)
        } else if tag == 12 {
            Some(Op::AddIndirectRoot)
        } else if tag == 13 {
            Some(Op::SyncWithGC)
        } else if tag == 14 {
            Some(Op::FindRoots)
        } else if tag == 19 {
            Some(Op::SetOptions)
        } else if tag == 20 {
            Some(Op::CollectGarbage)
        } else if tag == 21 {
            Some(Op::QuerySubstitutablePathInfo)
        } else if tag == 23 {
            Some(Op::QueryAllValidPaths)
        } else if tag == 26 {
            Some(Op::QueryPathInfo)
        } else if tag == 29 {
            Some(Op::QueryPathFromHashPart)
        } else if tag == 30 {
            Some(Op::QuerySubstitutablePathInfos)
        } else if tag == 31 {
            Some(Op::QueryValidPaths)
        } else if tag == 32 {
            Some(Op::QuerySubstitutablePaths)
        } else if tag == 33 {
            Some(Op::QueryValidDerivers)
        } else if tag == 34 {
            Some(Op::OptimiseStore)
        } else if tag == 35 {
            Some(Op::VerifyStore)
        } else if tag == 36 {
            Some(Op::BuildDerivation)
        } else if tag == 37 {
            Some(Op::AddSignatures)
        } else if tag == 38 {
            Some(Op::NarFromPath)
        } else if tag == 39 {
            Some(Op::AddToStoreNar)
        } else if tag == 40 {
            Some(Op::QueryMissing)
        } else if tag == 41 {
            Some(Op::QueryDerivationOutputMap)
        } else if tag == 42 {
            Some(Op::RegisterDrvOutput)
        } else if tag == 43 {
            Some(Op::QueryRealisation)
        } else if tag == 44 {
            Some(Op::AddMultipleToStore)
        } else if tag == 45 {
            Some(Op::AddBuildLog)
        } else if tag == 46 {
            Some(Op::BuildPathsWithResults)
        } else {
            None
        }
    }
}

/// A tag names at most one operation, and every operation's tag names
/// it back: the enumeration's round trip.
pub proof fn lemma_op_code_round_trip(op: Op, tag: u64)
    ensures
        Op::spec_from_code(op.spec_code()) == Some(op),
        Op::spec_from_code(tag) == Some(op) ==> op.spec_code() == tag,
{
}

} // verus!
