//! The version descriptor written into compressed containers.

use vstd::prelude::*;

verus! {

/// Major component of the version tag this build writes into containers.
pub const VERSION_MAJOR: u8 = 1;

/// Minor component of the version tag this build writes into containers.
pub const VERSION_MINOR: u8 = 0;

/// Patch component of the version tag this build writes into containers.
pub const VERSION_PATCH: u8 = 0;

/// Major version number used for the compatibility check.
pub const CURRENT_VERSION: u8 = VERSION_MAJOR;

/// Version information stored in compressed containers: a (major, minor,
/// patch) triple. Two versions are compatible iff their major fields are
/// equal; minor and patch are carried for diagnostics only.
#[derive(Debug, Clone, Copy)]
pub struct FileVersion {
    pub major: u8,
    pub minor: u8,
    pub patch: u8,
}

impl FileVersion {
    /// The version descriptor of the running build.
    pub open spec fn spec_current() -> Self {
        FileVersion { major: VERSION_MAJOR, minor: VERSION_MINOR, patch: VERSION_PATCH }
    }

    /// Create a `FileVersion` describing the current build.
    pub fn current() -> (v: Self)
        ensures
            v == Self::spec_current(),
    {
        FileVersion { major: VERSION_MAJOR, minor: VERSION_MINOR, patch: VERSION_PATCH }
    }

    /// Serialize the version as its three components, in order.
    pub fn to_bytes(&self) -> (r: [u8; 3])
        ensures
            r@ == seq![self.major, self.minor, self.patch],
    {
        [self.major, self.minor, self.patch]
    }

    /// Parse a version from three bytes; the inverse of `to_bytes`.
    pub fn from_bytes(bytes: [u8; 3]) -> (v: Self)
        ensures
            v.major == bytes@[0],
            v.minor == bytes@[1],
            v.patch == bytes@[2],
    {
        Self { major: bytes[0], minor: bytes[1], patch: bytes[2] }
    }

    /// A stored version is compatible with the running build iff the major
    /// fields are equal.
    pub open spec fn spec_compatible(self) -> bool {
        self.major == VERSION_MAJOR
    }

    /// Check whether this version is compatible with the current version.
    pub fn is_compatible(&self) -> (r: bool)
        ensures
            r == self.spec_compatible(),
    {
        let current = Self::current();
        self.major == current.major
    }
}

impl PartialEq for FileVersion {
    /// Versions are equal when all three components agree.
    fn eq(&self, other: &FileVersion) -> (r: bool) {
        self.major == other.major && self.minor == other.minor && self.patch == other.patch
    }
}

impl vstd::std_specs::cmp::PartialEqSpecImpl for FileVersion {
    open spec fn obeys_eq_spec() -> bool {
        true
    }

    open spec fn eq_spec(&self, other: &FileVersion) -> bool {
        *self == *other
    }
}

impl PartialEq<u8> for FileVersion {
    /// A version equals a bare byte when its major component does.
    fn eq(&self, other: &u8) -> (r: bool) {
        self.major == *other
    }
}

impl vstd::std_specs::cmp::PartialEqSpecImpl<u8> for FileVersion {
    open spec fn obeys_eq_spec() -> bool {
        true
    }

    open spec fn eq_spec(&self, other: &u8) -> bool {
        self.major == *other
    }
}

} // verus!
