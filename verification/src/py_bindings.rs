//! What the language bindings show of the results of a node.

use vstd::prelude::*;
use vstd::string::*;

use crate::network::{ServerStats, SetOutcome, SetRejection};
use crate::text::{self, push_decimal};
use crate::utils::{id_from_slice, ID_LEN};

verus! {

/// The name of a reason for rejection.
pub open spec fn reason_text(reason: SetRejection) -> Seq<char> {
    match reason {
        SetRejection::ExistingRecord => "existing_record"@,
        SetRejection::InvalidRecord => "invalid_record"@,
        SetRejection::ReplicaConflict => "replica_conflict"@,
        SetRejection::CapacityExceeded => "capacity_exceeded"@,
        SetRejection::Unavailable => "unavailable"@,
        SetRejection::NoResponsibleNodes => "no_responsible_nodes"@,
    }
}

pub fn rejection_name(reason: SetRejection) -> (name: &'static str)
    ensures
        name@ == reason_text(reason),
{
    match reason {
        SetRejection::ExistingRecord => "existing_record",
        SetRejection::InvalidRecord => "invalid_record",
        SetRejection::ReplicaConflict => "replica_conflict",
        SetRejection::CapacityExceeded => "capacity_exceeded",
        SetRejection::Unavailable => "unavailable",
        SetRejection::NoResponsibleNodes => "no_responsible_nodes",
    }
}

/// The status of a publication and, if it was rejected, the reason.
pub fn outcome_names(outcome: &SetOutcome) -> (names: (&'static str, Option<&'static str>))
    ensures
        match *outcome {
            SetOutcome::Complete(_) => names.0@ == "complete"@ && names.1 is None,
            SetOutcome::Degraded(_) => names.0@ == "degraded"@ && names.1 is None,
            SetOutcome::Rejected { reason, .. } => {
                &&& names.0@ == "rejected"@
                &&& names.1 matches Some(name)
                &&& name@ == reason_text(reason)
            },
        },
{
    match outcome {
        SetOutcome::Complete(_) => ("complete", None),
        SetOutcome::Degraded(_) => ("degraded", None),
        SetOutcome::Rejected { reason, .. } => ("rejected", Some(rejection_name(*reason))),
    }
}

/// The bytes left in the storage budget.
pub fn available_storage_bytes(stats: &ServerStats) -> (bytes: usize)
    ensures
        bytes == if stats.storage_bytes <= stats.max_storage_bytes {
            stats.max_storage_bytes - stats.storage_bytes
        } else {
            0
        },
{
    stats.max_storage_bytes.saturating_sub(stats.storage_bytes)
}

/// Checks a node id given from outside: it is as long as an id, or there is none. The
/// error is a message for the user.
pub fn fixed_node_id(node_id: Option<Vec<u8>>) -> (checked: Result<
    Option<[u8; ID_LEN]>,
    String,
>)
    ensures
        match node_id {
            None => checked matches Ok(id) && id is None,
            Some(bytes) => if bytes@.len() == ID_LEN {
                checked matches Ok(Some(id)) && id@ == bytes@
            } else {
                checked matches Err(message) && message@ == "node_id must be exactly 20 bytes, got "@
                    + text::decimal_text(bytes@.len())
            },
        },
{
    match node_id {
        None => Ok(None),
        Some(bytes) => match id_from_slice(bytes.as_slice()) {
            Some(id) => Ok(Some(id)),
            None => {
                let mut message = "node_id must be exactly 20 bytes, got ".to_owned();
                push_decimal(&mut message, bytes.len() as u64);
                Err(message)
            },
        },
    }
}

} // verus!
