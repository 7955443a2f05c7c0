//! Normalization of remote project records.
//!
//! The remote identifier is an opaque slash-delimited path of exactly
//! five segments; segment two names the remote instance (`source`) and
//! segment four is the numeric identity (`external_id`). A record whose
//! identifier or timestamps are malformed yields a `MappingError` for
//! that record alone.

use vstd::prelude::*;

use crate::error::MappingError;
use crate::remote::{Project, ProjectModel, Visibility};
use crate::store::{NewCodebase, NewCodebaseModel};
use crate::text::{digits_val, is_digit_seq, parse_decimal_i64, spec_split, split_char};
use crate::timefmt::{parse_rfc3339, rfc3339_epoch};

verus! {

/// A well-formed composite remote identifier: exactly five
/// slash-delimited segments, the fifth all digits and in range of the
/// local id type.
pub open spec fn valid_remote_id(s: Seq<char>) -> bool {
    let parts = spec_split(s, '/');
    parts.len() == 5 && is_digit_seq(parts[4]) && digits_val(parts[4]) <= i64::MAX
}

/// The numeric identity carried by a well-formed remote identifier.
pub open spec fn remote_id_external(s: Seq<char>) -> int {
    digits_val(spec_split(s, '/')[4])
}

/// The instance tag carried by a well-formed remote identifier.
pub open spec fn remote_id_source(s: Seq<char>) -> Seq<char> {
    spec_split(s, '/')[2]
}

/// Splits a composite remote identifier into its numeric identity and
/// instance tag; rejects any identifier that does not have exactly
/// five segments with an all-digit, in-range fifth segment.
pub fn parse_remote_id(id: &str) -> (res: Result<(i64, String), MappingError>)
    ensures
        match res {
            Ok(p) => valid_remote_id(id@) && p.0 as int == remote_id_external(id@) && p.1@
                == remote_id_source(id@),
            Err(e) => {
                &&& !valid_remote_id(id@)
                &&& (e == MappingError::IdentifierSegments <==> spec_split(id@, '/').len() != 5)
                &&& (e == MappingError::IdentifierSegments || e == MappingError::IdentifierNumber)
            },
        },
{
    let parts = split_char(id, '/');
    if parts.len() != 5 {
        return Err(MappingError::IdentifierSegments);
    }
    proof {
        assert(parts.deep_view()[4] == parts@[4]@);
        assert(parts.deep_view()[2] == parts@[2]@);
        assert(parts.deep_view()[4] == spec_split(id@, '/')[4]);
        assert(parts.deep_view()[2] == spec_split(id@, '/')[2]);
    }
    match parse_decimal_i64(parts[4].as_str()) {
        Some(v) => Ok((v, parts[2].clone())),
        None => Err(MappingError::IdentifierNumber),
    }
}

/// Whether the remote maps a record to an access-restricted mirror
/// entry: everything that is not public is private here.
pub open spec fn visibility_private(v: Visibility) -> bool {
    !(v is Public)
}

/// A record that normalizes cleanly: well-formed identifier and three
/// well-formed timestamps.
pub open spec fn project_mappable(p: ProjectModel) -> bool {
    &&& valid_remote_id(p.id)
    &&& rfc3339_epoch(p.created_at) is Some
    &&& rfc3339_epoch(p.updated_at) is Some
    &&& rfc3339_epoch(p.last_activity_at) is Some
}

/// The normalized entity a mappable record denotes.
pub open spec fn mapped_new_codebase(p: ProjectModel) -> NewCodebaseModel {
    NewCodebaseModel {
        external_id: remote_id_external(p.id),
        source: remote_id_source(p.id),
        name: p.name,
        namespace: p.namespace,
        description: p.description,
        created_at: rfc3339_epoch(p.created_at).unwrap(),
        updated_at: rfc3339_epoch(p.updated_at).unwrap(),
        pushed_at: rfc3339_epoch(p.last_activity_at).unwrap(),
        ssh_url: p.ssh_url_to_repo,
        web_url: p.web_url,
        private: visibility_private(p.visibility),
        forks_count: p.forks_count,
        archived: p.archived,
        size: p.repository_size,
        commit_count: p.commit_count,
    }
}

/// Normalizes one remote record into the entity proposed for upsert:
/// identity extracted from the composite identifier, timestamps as
/// epoch seconds, non-public visibility mapped to `private`, and the
/// remaining fields copied. The record's language list is handled
/// separately by the caller.
pub fn to_new_codebase(project: &Project) -> (res: Result<NewCodebase, MappingError>)
    ensures
        match res {
            Ok(nc) => project_mappable(project@) && nc@ == mapped_new_codebase(project@),
            Err(e) => {
                &&& !project_mappable(project@)
                &&& (e == MappingError::IdentifierSegments <==> spec_split(project@.id, '/').len()
                    != 5)
                &&& (e == MappingError::IdentifierNumber <==> spec_split(project@.id, '/').len()
                    == 5 && !valid_remote_id(project@.id))
                &&& (e == MappingError::Timestamp <==> valid_remote_id(project@.id))
            },
        },
{
    let (external_id, source) = match parse_remote_id(project.id.as_str()) {
        Ok(p) => p,
        Err(e) => {
            return Err(e);
        },
    };
    let created_at = match parse_rfc3339(project.created_at.as_str()) {
        Some(t) => t,
        None => {
            return Err(MappingError::Timestamp);
        },
    };
    let updated_at = match parse_rfc3339(project.updated_at.as_str()) {
        Some(t) => t,
        None => {
            return Err(MappingError::Timestamp);
        },
    };
    let pushed_at = match parse_rfc3339(project.last_activity_at.as_str()) {
        Some(t) => t,
        None => {
            return Err(MappingError::Timestamp);
        },
    };
    let private = match project.visibility {
        Visibility::Public => false,
        Visibility::Private => true,
        Visibility::Internal => true,
    };
    let nc = NewCodebase {
        external_id,
        source,
        name: project.name.clone(),
        namespace: project.namespace.full_path.clone(),
        description: match &project.description {
            Some(d) => Some(d.clone()),
            None => None,
        },
        created_at,
        updated_at,
        pushed_at,
        ssh_url: project.ssh_url_to_repo.clone(),
        web_url: project.web_url.clone(),
        private,
        forks_count: project.forks_count,
        archived: project.archived,
        size: project.statistics.repository_size,
        commit_count: project.statistics.commit_count,
    };
    proof {
        assert(nc@ =~= mapped_new_codebase(project@));
    }
    Ok(nc)
}

} // verus!
