//! The package catalog consumed by the analysis: plain entries of name,
//! version and opaque identity, with exact-match lookup.

use vstd::prelude::*;

use crate::error::FeatureError;
use crate::order::string_eq;
use crate::version::Version;
use crate::version::version_eq;

verus! {

/// One catalog entry: a package's name, its version, and the opaque
/// identity the analysis keys its output by.
#[derive(Debug, Clone, PartialEq, Eq)]
pub struct Package {
    pub name: String,
    pub version: Version,
    pub id: String,
}

impl View for Package {
    type V = (Seq<char>, (int, int, int, Seq<char>, Seq<char>), Seq<char>);

    open spec fn view(&self) -> Self::V {
        (self.name@, self.version@, self.id@)
    }
}

/// The sequence of views of a catalog.
pub open spec fn pviews(s: Seq<Package>) -> Seq<
    (Seq<char>, (int, int, int, Seq<char>, Seq<char>), Seq<char>),
> {
    s.map_values(|p: Package| p@)
}

/// Whether catalog entry `p` is an exact match for the name and version.
pub open spec fn pkg_matches(
    p: (Seq<char>, (int, int, int, Seq<char>, Seq<char>), Seq<char>),
    name: Seq<char>,
    ver: (int, int, int, Seq<char>, Seq<char>),
) -> bool {
    p.0 == name && p.1 == ver
}

/// Maps a parsed (name, version) pair to the identity of the first exact
/// catalog match; a pair with no match is a fatal lookup failure.
pub fn find_package_id(name: &String, version: &Version, packages: &Vec<Package>) -> (r: Result<
    String,
    FeatureError,
>)
    ensures
        match r {
            Ok(id) => exists|i: int|
                0 <= i < packages@.len() && pkg_matches(#[trigger] pviews(packages@)[i], name@, version@)
                    && id@ == pviews(packages@)[i].2 && (forall|j: int|
                    0 <= j < i ==> !pkg_matches(#[trigger] pviews(packages@)[j], name@, version@)),
            Err(e) => e == FeatureError::LookupError && forall|i: int|
                0 <= i < packages@.len() ==> !pkg_matches(
                    #[trigger] pviews(packages@)[i],
                    name@,
                    version@,
                ),
        },
{
    let mut i: usize = 0;
    while i < packages.len()
        invariant
            i <= packages@.len(),
            forall|j: int|
                0 <= j < i ==> !pkg_matches(#[trigger] pviews(packages@)[j], name@, version@),
        decreases packages@.len() - i,
    {
        if string_eq(&packages[i].name, name) && version_eq(&packages[i].version, version) {
            let id = packages[i].id.clone();
            assert(pkg_matches(pviews(packages@)[i as int], name@, version@));
            return Ok(id);
        }
        assert(pviews(packages@)[i as int] == packages@[i as int]@);
        i = i + 1;
    }
    Err(FeatureError::LookupError)
}

} // verus!
