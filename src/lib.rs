//! Admission-chance estimation over published ranked admission lists.
//!
//! - `text`, `score`, `models`: applicant identifiers, decimal scores and
//!   the records of the lists.
//! - `ingest`: the heading of a published list and the numbers in its cells.
//! - `dedup`: one row per applicant within a list, and the optional
//!   privileged-score adjustment.
//! - `popularity`: offerings and how sought-after each is.
//! - `preferences`: each applicant's eager applications and the queue.
//! - `simulation`: the greedy admission pass and its laws.
//! - `outcome`: cutoff scores and the target applicant's status.
//! - `analyzer`: the whole analysis; `variants`: the alternative policies.
//! - `order`, `ratio`: stable sorting and exact comparison of averages.
pub mod analyzer;
pub mod dedup;
pub mod ingest;
pub mod models;
pub mod order;
pub mod outcome;
pub mod popularity;
pub mod preferences;
pub mod ratio;
pub mod score;
pub mod simulation;
pub mod text;
pub mod variants;
