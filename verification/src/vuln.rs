//! Entities of the vulnerability-import pipeline. The pipeline itself
//! is a stub: only the record shapes and the severity scale live here.

use vstd::prelude::*;

verus! {

/// Severity scale of a recorded vulnerability.
#[derive(Clone, Copy, Debug, PartialEq, Eq, Structural)]
pub enum Severity {
    Critical,
    High,
    Medium,
    Low,
}

/// Whether a vulnerability is still open on a repository.
#[derive(Clone, Copy, Debug, PartialEq, Eq, Structural)]
pub enum Status {
    Open,
    Closed,
}

/// Links a repository to a recorded vulnerability.
#[derive(Clone, Copy, Debug, PartialEq, Eq, Structural)]
pub struct RepositoryVulnerability {
    pub repository_id: i64,
    pub vulnerability_id: i64,
    pub status: Status,
}

} // verus!
