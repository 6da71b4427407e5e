//! Version stamp carried in every dataset header.
//!
//! The version is written to the file verbatim and read back for
//! compatibility display; the codec never branches on it.

use vstd::prelude::*;

verus! {

/// Build-stage tag of a development build.
pub const BUILD_DEV: u8 = 0;

/// Build-stage tag of an alpha build.
pub const BUILD_ALPHA: u8 = 1;

/// Build-stage tag of a beta build.
pub const BUILD_BETA: u8 = 2;

/// Build-stage tag of a release candidate.
pub const BUILD_RC: u8 = 3;

/// Build-stage tag of a release build.
pub const BUILD_RELEASE: u8 = 4;

/// A format version: build-stage tag plus patch, minor and major numbers.
#[derive(Clone, Copy, Debug, PartialEq, Eq, Structural)]
pub struct Version {
    pub build_type: u8,
    pub patch: u8,
    pub minor: u8,
    pub major: u8,
}

impl Version {
    /// The version this library stamps into headers it creates.
    pub fn current() -> (r: Version)
        ensures
            r == (Version { build_type: BUILD_RELEASE, patch: 0, minor: 4, major: 0 }),
    {
        Version { build_type: BUILD_RELEASE, patch: 0, minor: 4, major: 0 }
    }
}

} // verus!
