//! Scenario (methodology node) records and the identifiers, kinds and errors
//! that go with them.

use vstd::prelude::*;

verus! {

/// Most scenarios a project may hold.
pub const MAX_SCENARIOS: u32 = 256;

/// Scenarios nest at most this many levels deep; the deepest allowed depth is one less.
pub const MAX_SCENARIO_TREE_DEPTH: u8 = 16;

/// A point in time as whole seconds since the epoch and the nanoseconds past it.
#[derive(Clone, Copy, Debug, PartialEq, Eq, Structural)]
pub struct Timestamp {
    pub secs: i64,
    pub nsecs: u32,
}

/// Database identifier of a scenario.
#[derive(Clone, Copy, Debug, PartialEq, Eq, Structural)]
pub struct ScenarioId(pub i64);

/// What kind of testing a methodology node stands for.
#[derive(Clone, Copy, Debug, PartialEq, Eq, Structural)]
pub enum ScenarioType {
    Container,
    Generic,
    Location,
    Endpoint,
    Authorization,
    BusinessLogic,
}

/// The number a scenario kind is stored under.
pub open spec fn scenario_type_code(t: ScenarioType) -> u8 {
    match t {
        ScenarioType::Container => 2,
        ScenarioType::Generic => 3,
        ScenarioType::Location => 4,
        ScenarioType::Endpoint => 5,
        ScenarioType::Authorization => 6,
        ScenarioType::BusinessLogic => 7,
    }
}

impl ScenarioType {
    /// The number this kind is stored under.
    pub fn to_u8(self) -> (code: u8)
        ensures
            code == scenario_type_code(self),
    {
        match self {
            ScenarioType::Container => 2,
            ScenarioType::Generic => 3,
            ScenarioType::Location => 4,
            ScenarioType::Endpoint => 5,
            ScenarioType::Authorization => 6,
            ScenarioType::BusinessLogic => 7,
        }
    }

    /// The kind stored under `code`, if any.
    pub fn try_from_u8(code: u8) -> (t: Option<ScenarioType>)
        ensures
            t matches Some(k) ==> scenario_type_code(k) == code,
            t is None <==> !(2 <= code <= 7),
    {
        match code {
            2 => Some(ScenarioType::Container),
            3 => Some(ScenarioType::Generic),
            4 => Some(ScenarioType::Location),
            5 => Some(ScenarioType::Endpoint),
            6 => Some(ScenarioType::Authorization),
            7 => Some(ScenarioType::BusinessLogic),
            _ => None,
        }
    }
}

/// Decoding the stored number of a kind gives the kind back.
pub proof fn lemma_scenario_type_code_round_trip(t: ScenarioType)
    ensures
        2 <= scenario_type_code(t) <= 7,
        forall|u: ScenarioType| scenario_type_code(u) == scenario_type_code(t) ==> u == t,
{
}

/// What the user and scripts see of a scenario.
#[derive(Debug)]
pub struct ScenarioInfo {
    pub id: ScenarioId,
    pub user_defined_id: String,
    pub description: String,
    pub type_: ScenarioType,
    pub created_time: Timestamp,
    pub modified_time: Timestamp,
}

impl ScenarioInfo {
    /// A copy of this record.
    pub fn duplicate(&self) -> (out: ScenarioInfo)
        ensures
            out == *self,
    {
        ScenarioInfo {
            id: self.id,
            user_defined_id: self.user_defined_id.clone(),
            description: self.description.clone(),
            type_: self.type_,
            created_time: self.created_time,
            modified_time: self.modified_time,
        }
    }
}

/// One stored scenario: its record, its place in the tree (parent and
/// 1-based position among its siblings), and whether testing data refers to it.
#[derive(Debug)]
pub struct ScenarioRow {
    pub info: ScenarioInfo,
    pub parent: Option<i64>,
    pub position: u32,
    pub has_testing_data: bool,
}

/// A scenario with its children, in position order.
#[derive(Debug)]
pub struct ScenarioTreeNode {
    pub info: ScenarioInfo,
    pub children: Vec<ScenarioTreeNode>,
}

/// The lookup failed.
#[derive(Debug, PartialEq, Eq, Structural)]
pub enum LookupError {
    NotFound,
}

#[derive(Debug, PartialEq, Eq, Structural)]
pub enum CreateScenarioError {
    IdAlreadyExists,
    ParentDoesNotExist,
    MaxScenarioTreeDepthExceeded,
    ScenarioLimitExceeded,
}

#[derive(Debug, PartialEq, Eq, Structural)]
pub enum MoveScenarioError {
    MoveScenarioNotFound,
    TargetScenarioNotFound,
    TargetScenarioIsChildOfMoveScenario,
    MaxScenarioTreeDepthExceeded,
}

#[derive(Debug)]
pub enum DeleteScenarioError {
    ScenarioNotFound,
    ScenarioHasTestingData(String),
}

#[derive(Debug, PartialEq, Eq, Structural)]
pub enum UpdateScenarioInfoError {
    ScenarioNotFound,
    ModifiedTimeDoesNotMatchDatabase,
    UserDefinedIdAlreadyExists,
}

} // verus!
