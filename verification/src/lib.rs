//! Core logic of a package tracker: it reconciles a remote catalog of
//! packages against a locally installed manifest, classifies each catalog
//! entry with an actionable status (install / upgrade / remove), and ranks
//! the result for presentation, either alphabetically or by similarity to a
//! free-text query.

pub mod fuzzy;
pub mod pkg;
pub mod rank;
pub mod reconcile;
pub mod state;
pub mod version;
