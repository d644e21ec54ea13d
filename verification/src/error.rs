//! The ways in which resolving or installing can fail.

use vstd::prelude::*;

verus! {

/// Why a run stopped. Each failure names the artifact it is about.
#[derive(Debug)]
pub enum InstallError {
    /// A reference names an artifact that the registry does not hold.
    UnknownArtifact { name: String },
    /// The artifacts named depend on one another in a circle: each on the
    /// next, the last on the first.
    CyclicDependency { members: Vec<String> },
    /// An artifact was asked for at a version other than the one it was
    /// resolved to.
    VersionConflict { name: String },
    /// The artifact has no acquisition strategy on this platform.
    UnsupportedPlatform { name: String },
    /// Fetching a binary release failed.
    FetchFailed { name: String, cause: String },
    /// A build procedure ended abnormally.
    BuildFailed { name: String, cause: String },
    /// The environment directory could not be created or read.
    DirectorySyncFailed { cause: String },
}

} // verus!
