//! The package record shared by the remote catalog and the local manifest.

use crate::version::{compare, lemma_compare_reflexive, version_cmp, Cmp};
use vstd::prelude::*;

verus! {

/// `installed` can be upgraded to `candidate`: same package, and the
/// installed version is strictly below the candidate version.
pub open spec fn upgradable(installed: Package, candidate: Package) -> bool {
    installed.name@ == candidate.name@ && version_cmp(installed.version@, candidate.version@)
        == Cmp::Less
}

/// One package record: identified by `name`; `version` is an opaque dotted
/// string; `description` and `url` are free text carried through unchanged.
#[derive(Debug, PartialEq, Eq)]
pub struct Package {
    pub name: String,
    pub version: String,
    pub description: String,
    pub url: String,
}

impl Package {
    /// Whether `other` is the same package at a strictly newer version.
    pub fn upgradable_to(&self, other: &Package) -> (r: bool)
        ensures
            r == upgradable(*self, *other),
    {
        self.name == other.name && compare(self.version.as_str(), other.version.as_str())
            == Cmp::Less
    }
}

/// A package is never an upgrade of itself: its version does not compare
/// strictly below itself.
pub proof fn lemma_no_self_upgrade(p: Package)
    ensures
        !upgradable(p, p),
{
    lemma_compare_reflexive(p.version@);
}

impl Clone for Package {
    fn clone(&self) -> (r: Self)
        ensures
            r == *self,
    {
        Package {
            name: self.name.clone(),
            version: self.version.clone(),
            description: self.description.clone(),
            url: self.url.clone(),
        }
    }
}

} // verus!
