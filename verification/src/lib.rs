//! Review and application of machine-generated source-code edit suggestions.
//!
//! A sequence of [`suggestion::Suggestion`] records flows through three
//! verified stages: [`dedup`] collapses redundant import suggestions into one
//! canonical edit per symbol and location, [`review`] decides per suggestion
//! whether it is applied, skipped, or the run is stopped or aborted, and
//! [`patch`] assembles the rewritten file contents for the accepted set.
//! [`text`] holds the helpers that shape what the user is shown.

pub mod dedup;
pub mod lines;
pub mod patch;
pub mod review;
pub mod suggestion;
pub mod text;
