//! Assembly of the presentation state, and the decisions around the
//! external collaborators: catalog source, manifest store and action
//! executor. All I/O stays outside; these functions take the collaborators'
//! results as plain values and decide what follows from them.

use crate::pkg::Package;
use crate::rank::{query_view, rank, rank_spec};
use crate::reconcile::{reconcile, reconcile_spec, ReconciledEntry};
use vstd::prelude::*;
use vstd::string::StringExecFns;

verus! {

/// The ways a refresh or an action can fail.
#[derive(Debug, PartialEq, Eq)]
pub enum CoreError {
    /// The remote catalog could not be fetched or parsed; the refresh is
    /// aborted and no state is produced.
    CatalogFetchFailed(String),
    /// The local manifest could not be read or parsed after bootstrap; the
    /// refresh is aborted and no state is produced.
    ManifestReadFailed(String),
    /// The action executor could not be invoked at all.
    ActionDispatchFailed(String),
    /// The action executor ran and reported failure; carries the
    /// executor's own diagnostic text.
    ActionExecutionFailed(String),
}

/// The immutable snapshot a view renders: the filter and query it was
/// built from, and the reconciled entries in presentation order. Rebuilt
/// wholesale on every refresh, never patched.
#[derive(Debug)]
pub struct PresentationState {
    pub installed_only: bool,
    pub query: Option<String>,
    pub ranked_entries: Vec<ReconciledEntry>,
}

/// Build the presentation state from one full catalog fetch and one full
/// manifest read. A catalog failure aborts the refresh as
/// `CatalogFetchFailed` and a manifest failure as `ManifestReadFailed`,
/// in that order of precedence; with both inputs at hand the state is the
/// ranking of the reconciled entries, and the refresh cannot fail.
pub fn refresh(
    installed_only: bool,
    query: Option<String>,
    catalog: Result<Vec<Package>, String>,
    manifest: Result<Vec<Package>, String>,
) -> (r: Result<PresentationState, CoreError>)
    ensures
        catalog matches Err(m) ==> r == Err::<PresentationState, CoreError>(
            CoreError::CatalogFetchFailed(m),
        ),
        catalog is Ok ==> (manifest matches Err(m) ==> r == Err::<PresentationState, CoreError>(
            CoreError::ManifestReadFailed(m),
        )),
        catalog matches Ok(c) ==> (manifest matches Ok(mf) ==> (r matches Ok(st)
            && st.installed_only == installed_only && st.query == query && st.ranked_entries@
            == rank_spec(reconcile_spec(c@, mf@), installed_only, query_view(query)))),
{
    let c = match catalog {
        Ok(c) => c,
        Err(m) => {
            return Err(CoreError::CatalogFetchFailed(m));
        },
    };
    let mf = match manifest {
        Ok(mf) => mf,
        Err(m) => {
            return Err(CoreError::ManifestReadFailed(m));
        },
    };
    let entries = reconcile(&c, &mf);
    let q = match &query {
        None => None,
        Some(s) => Some(s.clone()),
    };
    let ranked = rank(&entries, installed_only, q);
    Ok(PresentationState { installed_only, query, ranked_entries: ranked })
}

/// The manifest store's bootstrap decision: a stored manifest is used as
/// it is; where none exists yet, the manifest is empty and an empty one
/// must be durably created so later reads agree.
pub fn bootstrap_manifest(stored: Option<Vec<Package>>) -> (r: (Vec<Package>, bool))
    ensures
        stored matches Some(m) ==> r.0 == m && r.1 == false,
        stored is None ==> r.0@ == Seq::<Package>::empty() && r.1 == true,
{
    match stored {
        Some(m) => (m, false),
        None => (Vec::new(), true),
    }
}

/// What the user asked the executor to do with a package. Upgrading
/// reruns the install path by design.
#[derive(Clone, Copy, Debug, PartialEq, Eq, Structural)]
pub enum PackageAction {
    Install,
    Upgrade,
    Remove,
}

/// What the action executor reported back after running.
#[derive(Debug, PartialEq, Eq)]
pub struct ActionOutcome {
    pub success: bool,
    pub stdout: String,
    pub stderr: String,
}

/// What follows an action: the status to display, and the filter and
/// query to refresh with.
#[derive(Debug, PartialEq, Eq)]
pub struct ActionConclusion {
    pub status: Result<String, CoreError>,
    pub next_installed_only: bool,
    pub next_query: Option<String>,
}

/// The argument list handed to the action executor: the verb, then the
/// package name. Install and upgrade both run the install path.
pub fn action_arguments(action: PackageAction, name: &String) -> (r: Vec<String>)
    ensures
        r@.len() == 2,
        action == PackageAction::Remove ==> r@[0]@ == "remove"@,
        action != PackageAction::Remove ==> r@[0]@ == "install"@,
        r@[1]@ == name@,
{
    let verb = if action == PackageAction::Remove {
        "remove".to_owned()
    } else {
        "install".to_owned()
    };
    let mut r: Vec<String> = Vec::new();
    r.push(verb);
    r.push(name.clone());
    r
}

/// Settle an executor outcome: a dispatch failure becomes
/// `ActionDispatchFailed`, a run that reported failure becomes
/// `ActionExecutionFailed` carrying the executor's own text, and a
/// successful run's text is surfaced as the status. Whatever the outcome,
/// the follow-up refresh uses the filter and query that were active
/// before the action.
pub fn conclude_action(
    installed_only: bool,
    query: Option<String>,
    outcome: Result<ActionOutcome, String>,
) -> (r: ActionConclusion)
    ensures
        r.next_installed_only == installed_only,
        r.next_query == query,
        outcome matches Err(m) ==> r.status == Err::<String, CoreError>(
            CoreError::ActionDispatchFailed(m),
        ),
        outcome matches Ok(o) ==> (!o.success ==> (r.status matches Err(
            CoreError::ActionExecutionFailed(t),
        ) && t@ == o.stdout@ + o.stderr@)),
        outcome matches Ok(o) ==> (o.success ==> (r.status matches Ok(t) && t@ == o.stdout@
            + o.stderr@)),
{
    let status = match outcome {
        Err(m) => Err(CoreError::ActionDispatchFailed(m)),
        Ok(o) => {
            let text = o.stdout.concat(o.stderr.as_str());
            if o.success {
                Ok(text)
            } else {
                Err(CoreError::ActionExecutionFailed(text))
            }
        },
    };
    ActionConclusion { status, next_installed_only: installed_only, next_query: query }
}

} // verus!
