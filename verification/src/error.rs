//! The ways the per-platform feature analysis can fail. Every failure is
//! permanent: it aborts the whole analysis, and no partial result is returned.

use vstd::prelude::*;

verus! {

#[derive(Debug, Clone, Copy, PartialEq, Eq, Structural)]
pub enum FeatureError {
    /// The external dependency-tree tool exited non-zero or could not be run.
    SubprocessFailure,
    /// The tool's output was not valid text.
    DecodingFailure,
    /// A line lacks the required space and delimiter structure.
    LineFormatError,
    /// A version token is not a valid semantic version.
    VersionParseError,
    /// A parsed (name, version) pair has no match in the package catalog.
    LookupError,
}

impl FeatureError {
    /// A short name for the failure, for messages.
    pub fn describe(&self) -> (r: &'static str)
        ensures
            r@.len() > 0,
    {
        let r = match self {
            FeatureError::SubprocessFailure => "failed to run the dependency tree tool",
            FeatureError::DecodingFailure => "the tool output is not valid text",
            FeatureError::LineFormatError => "failed to process a dependency tree line",
            FeatureError::VersionParseError => "failed to parse a version",
            FeatureError::LookupError => "failed to find a package",
        };
        proof {
            reveal_strlit("failed to run the dependency tree tool");
            reveal_strlit("the tool output is not valid text");
            reveal_strlit("failed to process a dependency tree line");
            reveal_strlit("failed to parse a version");
            reveal_strlit("failed to find a package");
        }
        r
    }
}

} // verus!
