//! What the RPC interface tells clients: how scenario records are presented
//! and which reply each storage outcome becomes.

use vstd::prelude::*;
use crate::scenario::{
    ScenarioId, ScenarioInfo, ScenarioType, Timestamp, CreateScenarioError, MoveScenarioError,
    DeleteScenarioError, UpdateScenarioInfoError,
};

verus! {

/// Most history entries returned by one request.
pub const MAX_SEARCH_RESULTS_RETURNED_PER_CALL: u32 = 128;

/// How many history entries a request for `count` entries returns at most.
pub fn clamp_item_count(count: u32) -> (n: u32)
    ensures
        n == if count > MAX_SEARCH_RESULTS_RETURNED_PER_CALL {
            MAX_SEARCH_RESULTS_RETURNED_PER_CALL
        } else {
            count
        },
{
    if count > MAX_SEARCH_RESULTS_RETURNED_PER_CALL {
        MAX_SEARCH_RESULTS_RETURNED_PER_CALL
    } else {
        count
    }
}

/// A scenario as clients see it: identified by its user-defined id.
#[derive(Debug)]
pub struct SerializedScenarioInfo {
    pub id: String,
    pub description: String,
    pub type_: ScenarioType,
    pub created_timestamp: Timestamp,
    pub modified_timestamp: Timestamp,
}

/// Presents a scenario record to clients.
pub fn serialize_scenario(info: &ScenarioInfo) -> (out: SerializedScenarioInfo)
    ensures
        out.id@ == info.user_defined_id@,
        out.description@ == info.description@,
        out.type_ == info.type_,
        out.created_timestamp == info.created_time,
        out.modified_timestamp == info.modified_time,
{
    SerializedScenarioInfo {
        id: info.user_defined_id.clone(),
        description: info.description.clone(),
        type_: info.type_,
        created_timestamp: info.created_time,
        modified_timestamp: info.modified_time,
    }
}

/// Reply to a request to create a scenario.
#[derive(Debug, PartialEq, Eq, Structural)]
pub enum CreateScenarioReply {
    Success,
    IdAlreadyExists,
    ScenarioDeleted,
    MaxScenarioTreeDepthExceeded,
    ScenarioLimitExceeded,
}

/// The reply to a create request. A top-level create cannot meet a missing
/// parent or the depth limit; a child create reports a missing parent as the
/// parent scenario having been deleted.
pub fn create_scenario_reply(result: &Result<ScenarioId, CreateScenarioError>, has_parent: bool) -> (r:
    CreateScenarioReply)
    requires
        !has_parent ==> *result != Err::<ScenarioId, CreateScenarioError>(CreateScenarioError::ParentDoesNotExist),
        !has_parent ==> *result != Err::<ScenarioId, CreateScenarioError>(
            CreateScenarioError::MaxScenarioTreeDepthExceeded,
        ),
    ensures
        r == match *result {
            Ok(_) => CreateScenarioReply::Success,
            Err(CreateScenarioError::IdAlreadyExists) => CreateScenarioReply::IdAlreadyExists,
            Err(CreateScenarioError::ParentDoesNotExist) => CreateScenarioReply::ScenarioDeleted,
            Err(CreateScenarioError::MaxScenarioTreeDepthExceeded) => CreateScenarioReply::MaxScenarioTreeDepthExceeded,
            Err(CreateScenarioError::ScenarioLimitExceeded) => CreateScenarioReply::ScenarioLimitExceeded,
        },
{
    match result {
        Ok(_) => CreateScenarioReply::Success,
        Err(CreateScenarioError::IdAlreadyExists) => CreateScenarioReply::IdAlreadyExists,
        Err(CreateScenarioError::ParentDoesNotExist) => CreateScenarioReply::ScenarioDeleted,
        Err(CreateScenarioError::MaxScenarioTreeDepthExceeded) => CreateScenarioReply::MaxScenarioTreeDepthExceeded,
        Err(CreateScenarioError::ScenarioLimitExceeded) => CreateScenarioReply::ScenarioLimitExceeded,
    }
}

/// Reply to a request to change a scenario's id and description.
#[derive(Debug, PartialEq, Eq, Structural)]
pub enum UpdateInfoReply {
    Success,
    ScenarioDeleted,
    ScenarioUpdatedBySomeoneElse,
    IdAlreadyExists,
}

pub fn update_info_reply(result: &Result<(), UpdateScenarioInfoError>) -> (r: UpdateInfoReply)
    ensures
        r == match *result {
            Ok(()) => UpdateInfoReply::Success,
            Err(UpdateScenarioInfoError::ScenarioNotFound) => UpdateInfoReply::ScenarioDeleted,
            Err(UpdateScenarioInfoError::ModifiedTimeDoesNotMatchDatabase) => UpdateInfoReply::ScenarioUpdatedBySomeoneElse,
            Err(UpdateScenarioInfoError::UserDefinedIdAlreadyExists) => UpdateInfoReply::IdAlreadyExists,
        },
{
    match result {
        Ok(()) => UpdateInfoReply::Success,
        Err(UpdateScenarioInfoError::ScenarioNotFound) => UpdateInfoReply::ScenarioDeleted,
        Err(UpdateScenarioInfoError::ModifiedTimeDoesNotMatchDatabase) => UpdateInfoReply::ScenarioUpdatedBySomeoneElse,
        Err(UpdateScenarioInfoError::UserDefinedIdAlreadyExists) => UpdateInfoReply::IdAlreadyExists,
    }
}

/// Reply to a request to move a scenario.
#[derive(Debug, PartialEq, Eq, Structural)]
pub enum MoveReply {
    Success,
    ThisScenarioDeleted,
    TargetScenarioDeleted,
    TargetScenarioIsChildOfThisScenario,
    MaxScenarioTreeDepthExceeded,
}

pub fn move_reply(result: &Result<(), MoveScenarioError>) -> (r: MoveReply)
    ensures
        r == match *result {
            Ok(()) => MoveReply::Success,
            Err(MoveScenarioError::MoveScenarioNotFound) => MoveReply::ThisScenarioDeleted,
            Err(MoveScenarioError::TargetScenarioNotFound) => MoveReply::TargetScenarioDeleted,
            Err(MoveScenarioError::TargetScenarioIsChildOfMoveScenario) => MoveReply::TargetScenarioIsChildOfThisScenario,
            Err(MoveScenarioError::MaxScenarioTreeDepthExceeded) => MoveReply::MaxScenarioTreeDepthExceeded,
        },
{
    match result {
        Ok(()) => MoveReply::Success,
        Err(MoveScenarioError::MoveScenarioNotFound) => MoveReply::ThisScenarioDeleted,
        Err(MoveScenarioError::TargetScenarioNotFound) => MoveReply::TargetScenarioDeleted,
        Err(MoveScenarioError::TargetScenarioIsChildOfMoveScenario) => MoveReply::TargetScenarioIsChildOfThisScenario,
        Err(MoveScenarioError::MaxScenarioTreeDepthExceeded) => MoveReply::MaxScenarioTreeDepthExceeded,
    }
}

/// Reply to a request to delete a scenario.
#[derive(Debug)]
pub enum DeleteReply {
    Success,
    ScenarioAlreadyDeleted,
    ScenarioHasTestingData(String),
}

pub fn delete_reply(result: &Result<(), DeleteScenarioError>) -> (r: DeleteReply)
    ensures
        match (*result, r) {
            (Ok(()), DeleteReply::Success) => true,
            (Err(DeleteScenarioError::ScenarioNotFound), DeleteReply::ScenarioAlreadyDeleted) => true,
            (Err(DeleteScenarioError::ScenarioHasTestingData(u)), DeleteReply::ScenarioHasTestingData(v)) => u@ == v@,
            _ => false,
        },
{
    match result {
        Ok(()) => DeleteReply::Success,
        Err(DeleteScenarioError::ScenarioNotFound) => DeleteReply::ScenarioAlreadyDeleted,
        Err(DeleteScenarioError::ScenarioHasTestingData(u)) => DeleteReply::ScenarioHasTestingData(u.clone()),
    }
}

} // verus!
