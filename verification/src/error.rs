//! Why a load or a call can fail.

use vstd::prelude::*;

verus! {

/// Why a schedule was not loaded. A load that fails leaves no catalog behind.
#[derive(Clone, Copy, Debug, PartialEq, Eq, Structural)]
pub enum LoadError {
    /// A line has the wrong number of fields, a field that should be a number
    /// is none, or the id is 0.
    MalformedRecord,
    /// A measurement lists its own id among its dependencies.
    SelfDependency,
    /// The lists of host classes, bandwidths and connection counts differ in
    /// length.
    InvalidHostCounts,
    /// A background host with other than one connection or the fixed
    /// bandwidth, or more than one background host.
    InvalidBackgroundHost,
    /// Two records share an id.
    DuplicateId,
    /// A dependency names no record of the same load.
    UnknownDependency,
    /// No measurement is free of dependencies, so nothing could ever start.
    NoReadyWork,
    /// The schedule is in the round-based form, which is only converted to
    /// text and never run.
    UnsupportedFormat,
    /// The name of the schedule tells of neither form.
    UnknownFormat,
}

/// Why a call on a loaded catalog was refused. The catalog is unchanged.
#[derive(Clone, Copy, Debug, PartialEq, Eq, Structural)]
pub enum UsageError {
    /// No measurement has this id.
    UnknownId,
    /// The measurement is not in progress, so it cannot be marked done.
    NotInProgress,
}

} // verus!
