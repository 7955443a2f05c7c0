//! Normalization of vendor vulnerability exports into the local
//! vulnerability entities. Reading the CSV itself is I/O and stays
//! outside; this module maps the vendor's enumerations.

use vstd::prelude::*;

use crate::vuln::Severity;

verus! {

/// Severity scale used by the vendor export.
#[derive(Clone, Copy, Debug, PartialEq, Eq, Structural)]
pub enum DatadogSeverity {
    Critical,
    High,
    Medium,
    Low,
}

/// Kind of resource a vendor finding is attached to.
#[derive(Clone, Copy, Debug, PartialEq, Eq, Structural)]
pub enum ResourceType {
    ContainerImage,
    Host,
}

/// Lifecycle state of a vendor finding.
#[derive(Clone, Copy, Debug, PartialEq, Eq, Structural)]
pub enum Status {
    Open,
    AutoClosed,
}

/// Maps the vendor severity scale onto the local one, level for level.
pub fn map_severity(s: DatadogSeverity) -> (r: Severity)
    ensures
        r == Severity::Critical <==> s == DatadogSeverity::Critical,
        r == Severity::High <==> s == DatadogSeverity::High,
        r == Severity::Medium <==> s == DatadogSeverity::Medium,
        r == Severity::Low <==> s == DatadogSeverity::Low,
{
    match s {
        DatadogSeverity::Critical => Severity::Critical,
        DatadogSeverity::High => Severity::High,
        DatadogSeverity::Medium => Severity::Medium,
        DatadogSeverity::Low => Severity::Low,
    }
}

} // verus!
