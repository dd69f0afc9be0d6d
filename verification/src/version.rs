//! Semantic versions, held as plain fields, and the one call into the
//! `semver` crate that parses them.

use vstd::prelude::*;

use crate::error::FeatureError;
use crate::order::string_eq;

verus! {

/// A semantic version: numeric parts plus the pre-release and build
/// metadata identifiers (empty strings when absent).
#[derive(Debug, Clone, PartialEq, Eq)]
pub struct Version {
    pub major: u64,
    pub minor: u64,
    pub patch: u64,
    pub pre: String,
    pub build: String,
}

impl View for Version {
    type V = (int, int, int, Seq<char>, Seq<char>);

    open spec fn view(&self) -> Self::V {
        (self.major as int, self.minor as int, self.patch as int, self.pre@, self.build@)
    }
}

/// What `semver::Version::parse` returns on a given text: `None` where the
/// text is not a semantic version, else the five components.
pub uninterp spec fn semver_of(s: Seq<char>) -> Option<(int, int, int, Seq<char>, Seq<char>)>;

/// Relies on semver's `Version::parse`: whether the text is accepted and
/// which components come back depend on the text alone, per the SemVer
/// grammar; `Prerelease::as_str` and `BuildMetadata::as_str` hand back the
/// stored identifier text.
#[verifier::external_body]
fn parse_semver(s: &str) -> (r: Option<Version>)
    ensures
        match r {
            Some(v) => semver_of(s@) == Some(v@),
            None => semver_of(s@) is None,
        },
{
    match semver::Version::parse(s) {
        Ok(v) => Some(
            Version {
                major: v.major,
                minor: v.minor,
                patch: v.patch,
                pre: v.pre.as_str().to_string(),
                build: v.build.as_str().to_string(),
            },
        ),
        Err(_) => None,
    }
}

/// Parses a version token, or reports the version-parse failure.
pub fn parse_version(s: &str) -> (r: Result<Version, FeatureError>)
    ensures
        match r {
            Ok(v) => semver_of(s@) == Some(v@),
            Err(e) => e == FeatureError::VersionParseError && semver_of(s@) is None,
        },
{
    match parse_semver(s) {
        Some(v) => Ok(v),
        None => Err(FeatureError::VersionParseError),
    }
}

/// Whether two versions are the same, all five components included.
pub fn version_eq(a: &Version, b: &Version) -> (r: bool)
    ensures
        r == (a@ == b@),
{
    a.major == b.major && a.minor == b.minor && a.patch == b.patch && string_eq(&a.pre, &b.pre)
        && string_eq(&a.build, &b.build)
}

} // verus!
