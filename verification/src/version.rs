//! Versions of the interpreter and of the data format.

use vstd::prelude::*;

verus! {

/// A semantic version: major, minor and patch number.
#[derive(Clone, Copy, Debug, PartialEq, Eq, Structural)]
pub struct Version {
    pub major: u64,
    pub minor: u64,
    pub patch: u64,
}

impl Version {
    /// Whether `self` is strictly older than `other`: the numbers compared
    /// from major to patch.
    pub open spec fn precedes(self, other: Version) -> bool {
        self.major < other.major || (self.major == other.major && (self.minor < other.minor || (
        self.minor == other.minor && self.patch < other.patch)))
    }

    /// The version with the given numbers.
    pub fn new(major: u64, minor: u64, patch: u64) -> (version: Version)
        ensures
            version == (Version { major, minor, patch }),
    {
        Version { major, minor, patch }
    }

    /// Decides `precedes`.
    pub fn is_older_than(&self, other: &Version) -> (older: bool)
        ensures
            older == self.precedes(*other),
    {
        if self.major != other.major {
            self.major < other.major
        } else if self.minor != other.minor {
            self.minor < other.minor
        } else {
            self.patch < other.patch
        }
    }
}

/// The oldest interpreter version whose data this implementation still reads.
pub open spec fn min_supported() -> Version {
    Version { major: 0, minor: 54, patch: 0 }
}

/// The version of the data format that this implementation writes.
pub open spec fn data_format() -> Version {
    Version { major: 0, minor: 6, patch: 0 }
}

/// The oldest interpreter version whose data this implementation still reads.
pub fn min_supported_version() -> (version: Version)
    ensures
        version == min_supported(),
{
    Version { major: 0, minor: 54, patch: 0 }
}

/// The version of the data format that this implementation writes.
pub fn data_format_version() -> (version: Version)
    ensures
        version == data_format(),
{
    Version { major: 0, minor: 6, patch: 0 }
}

/// The two versions recorded in every piece of interpreter data.
#[derive(Clone, Copy, Debug, PartialEq, Eq, Structural)]
pub struct Versions {
    pub interpreter_version: Version,
    pub data_version: Version,
}

} // verus!
