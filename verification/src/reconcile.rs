//! Merging the remote catalog with the local manifest.
//!
//! Every catalog entry is classified against the manifest: not installed
//! means an install is offered; installed at a strictly older version means
//! an upgrade is offered (removal is then also available); installed
//! otherwise means only removal is offered. The catalog's order and its
//! records are carried through unchanged.

use crate::pkg::{upgradable, Package};
use vstd::prelude::*;

verus! {

/// The actionable status of one catalog entry. `Upgrade` implies the
/// package is installed, so removal is offered alongside it.
#[derive(Clone, Copy, Debug, PartialEq, Eq, Structural)]
pub enum Action {
    Install,
    Upgrade,
    Remove,
}

/// One catalog entry after reconciliation: the catalog record, the
/// manifest record of the same name if there is one, and the action.
#[derive(Debug, PartialEq, Eq)]
pub struct ReconciledEntry {
    pub catalog_package: Package,
    pub installed_package: Option<Package>,
    pub action: Action,
}

impl Clone for ReconciledEntry {
    fn clone(&self) -> (r: Self)
        ensures
            r == *self,
    {
        ReconciledEntry {
            catalog_package: self.catalog_package.clone(),
            installed_package: match &self.installed_package {
                Some(p) => Some(p.clone()),
                None => None,
            },
            action: self.action,
        }
    }
}

/// The first manifest record with the given name, if any.
pub open spec fn find_by_name(manifest: Seq<Package>, name: Seq<char>) -> Option<Package>
    decreases manifest.len(),
{
    if manifest.len() == 0 {
        None
    } else if manifest[0].name@ == name {
        Some(manifest[0])
    } else {
        find_by_name(manifest.drop_first(), name)
    }
}

/// The action owed to a catalog package given its manifest match.
pub open spec fn classify(catalog_pkg: Package, installed: Option<Package>) -> Action {
    match installed {
        None => Action::Install,
        Some(p) => if upgradable(p, catalog_pkg) {
            Action::Upgrade
        } else {
            Action::Remove
        },
    }
}

/// Reconciliation of one catalog package against the manifest.
pub open spec fn reconcile_one(manifest: Seq<Package>, catalog_pkg: Package) -> ReconciledEntry {
    let installed = find_by_name(manifest, catalog_pkg.name@);
    ReconciledEntry {
        catalog_package: catalog_pkg,
        installed_package: installed,
        action: classify(catalog_pkg, installed),
    }
}

/// Reconciliation of the whole catalog, in catalog order.
pub open spec fn reconcile_spec(catalog: Seq<Package>, manifest: Seq<Package>) -> Seq<
    ReconciledEntry,
> {
    Seq::new(catalog.len(), |i: int| reconcile_one(manifest, catalog[i]))
}

/// The first manifest record with the given name, if any; earlier records
/// win over later ones of the same name.
fn find_installed(manifest: &Vec<Package>, name: &String) -> (r: Option<Package>)
    ensures
        r == find_by_name(manifest@, name@),
{
    let n = manifest.len();
    let mut i: usize = 0;
    proof {
        assert(manifest@.skip(0) =~= manifest@);
    }
    while i < n
        invariant
            n == manifest@.len(),
            i <= n,
            find_by_name(manifest@, name@) == find_by_name(manifest@.skip(i as int), name@),
        decreases n - i,
    {
        proof {
            assert(manifest@.skip(i as int)[0] == manifest@[i as int]);
        }
        if manifest[i].name == *name {
            return Some(manifest[i].clone());
        }
        proof {
            assert(manifest@.skip(i as int).drop_first() =~= manifest@.skip(i + 1));
        }
        i = i + 1;
    }
    None
}

/// Merge the catalog with the manifest: one entry per catalog record, in
/// catalog order, each classified with its action. Never drops an entry
/// and never rewrites a catalog record; it cannot fail.
pub fn reconcile(catalog: &Vec<Package>, manifest: &Vec<Package>) -> (r: Vec<ReconciledEntry>)
    ensures
        r@ == reconcile_spec(catalog@, manifest@),
        r@.len() == catalog@.len(),
        forall|i: int| 0 <= i < catalog@.len() ==> #[trigger] r@[i].catalog_package == catalog@[i],
{
    let n = catalog.len();
    let mut r: Vec<ReconciledEntry> = Vec::new();
    let mut i: usize = 0;
    while i < n
        invariant
            n == catalog@.len(),
            i <= n,
            r@.len() == i,
            forall|j: int| 0 <= j < i ==> #[trigger] r@[j] == reconcile_one(
                manifest@,
                catalog@[j],
            ),
        decreases n - i,
    {
        let pkg = catalog[i].clone();
        let installed = find_installed(manifest, &pkg.name);
        let action = match &installed {
            None => Action::Install,
            Some(p) => if p.upgradable_to(&pkg) {
                Action::Upgrade
            } else {
                Action::Remove
            },
        };
        r.push(
            ReconciledEntry { catalog_package: pkg, installed_package: installed, action: action },
        );
        i = i + 1;
    }
    proof {
        assert(r@ =~= reconcile_spec(catalog@, manifest@));
    }
    r
}

/// With an empty manifest nothing is installed, so every reconciled
/// entry's action is `Install`.
pub proof fn lemma_reconcile_empty_manifest(catalog: Seq<Package>)
    ensures
        forall|i: int| 0 <= i < catalog.len() ==> #[trigger] reconcile_spec(
            catalog,
            Seq::<Package>::empty(),
        )[i].action == Action::Install,
{
}

/// Each entry's action states exactly its relation to the manifest:
/// `Install` when no record shares the name, `Upgrade` when the matched
/// record is strictly older, `Remove` otherwise.
pub proof fn lemma_reconcile_classifies(catalog: Seq<Package>, manifest: Seq<Package>, i: int)
    requires
        0 <= i < catalog.len(),
    ensures
        ({
            let e = reconcile_spec(catalog, manifest)[i];
            &&& (e.action == Action::Install <==> find_by_name(manifest, catalog[i].name@)
                is None)
            &&& (e.action == Action::Upgrade <==> (e.installed_package matches Some(p)
                && upgradable(p, catalog[i])))
            &&& (e.action == Action::Remove <==> (e.installed_package matches Some(p)
                && !upgradable(p, catalog[i])))
        }),
{
}

} // verus!
