//! One step of the storage service for the methodology tree: a scenario
//! command is applied to the table, and the step says what to answer and
//! whom to tell (methodology subscribers, and subscribers of one scenario).

use vstd::prelude::*;
use crate::positions::{Rows, moved, next_position};
use crate::scenario::{
    ScenarioId, ScenarioInfo, ScenarioType, Timestamp, LookupError, CreateScenarioError,
    MoveScenarioError, DeleteScenarioError, UpdateScenarioInfoError, ScenarioTreeNode,
};
use crate::table::{
    ScenarioTable, assigned_id, create_scenario_error, created_row, move_beside_error, move_inside_error,
    before_slot, after_slot, subtree_has_testing_data, without_subtree, in_subtree_of,
    update_info_error, updated_row, lists_forest, tree_fuel,
};

verus! {

/// A request on the methodology tree.
#[derive(Debug)]
pub enum ScenarioCommand {
    Create {
        parent: Option<ScenarioId>,
        user_defined_id: String,
        description: String,
        type_: ScenarioType,
    },
    Lookup { user_defined_id: String },
    MoveBefore { move_scenario_id: ScenarioId, before_scenario_id: ScenarioId },
    MoveAfter { move_scenario_id: ScenarioId, after_scenario_id: ScenarioId },
    MoveInside { move_scenario_id: ScenarioId, parent_scenario_id: ScenarioId },
    Delete { scenario_id: ScenarioId },
    GetInfo { scenario_id: ScenarioId },
    UpdateInfo {
        scenario_id: ScenarioId,
        user_defined_id: String,
        description: String,
        previous_modified_time: Timestamp,
    },
    List,
}

/// The answer to a scenario command.
#[derive(Debug)]
pub enum ScenarioReply {
    Created(Result<ScenarioId, CreateScenarioError>),
    LookedUp(Result<ScenarioId, LookupError>),
    Moved(Result<(), MoveScenarioError>),
    Deleted(Result<(), DeleteScenarioError>),
    Info(Result<ScenarioInfo, LookupError>),
    Updated(Result<(), UpdateScenarioInfoError>),
    Listed(Vec<ScenarioTreeNode>),
}

/// What a step produced: the answer, whether the methodology changed (so it
/// must be written back and its subscribers told), and the scenario whose
/// own subscribers must be told, if any.
#[derive(Debug)]
pub struct StepOutcome {
    pub reply: ScenarioReply,
    pub methodology_changed: bool,
    pub scenario_changed: Option<ScenarioId>,
}

/// Creating under `parent` on table `m` (next id `next`) answered `r` and left
/// table `m2` (next id `next2`).
pub open spec fn create_outcome(
    m: Rows,
    next: int,
    parent: Option<ScenarioId>,
    user_defined_id: String,
    description: String,
    type_: ScenarioType,
    now: Timestamp,
    r: Result<ScenarioId, CreateScenarioError>,
    m2: Rows,
    next2: int,
) -> bool {
    match r {
        Ok(id) => {
            &&& create_scenario_error(m, parent, user_defined_id@) is None
            &&& assigned_id(m, next, id.0, next2)
            &&& m2 == m.insert(id.0, created_row(m, id.0, parent, user_defined_id, description, type_, now))
        },
        Err(e) => {
            &&& create_scenario_error(m, parent, user_defined_id@) == Some(e)
            &&& m2 == m
            &&& next2 == next
        },
    }
}

/// Moving `k` beside `t`, into slot `slot` of `t`'s parent, answered `r` and
/// left table `m2`.
pub open spec fn beside_outcome(m: Rows, k: i64, t: i64, slot: u32, r: Result<(), MoveScenarioError>, m2: Rows) -> bool {
    match r {
        Ok(()) => move_beside_error(m, k, t) is None && m2 == moved(m, k, m[t].parent, slot),
        Err(e) => move_beside_error(m, k, t) == Some(e) && m2 == m,
    }
}

/// Moving `k` inside `p` answered `r` and left table `m2`.
pub open spec fn inside_outcome(m: Rows, k: i64, p: i64, r: Result<(), MoveScenarioError>, m2: Rows) -> bool {
    match r {
        Ok(()) => {
            &&& move_inside_error(m, k, p) is None
            &&& if m[k].parent == Some(p) {
                m2 == m
            } else {
                m2 == moved(m, k, Some(p), next_position(m, Some(p)))
            }
        },
        Err(e) => move_inside_error(m, k, p) == Some(e) && m2 == m,
    }
}

/// Deleting `k` answered `r` and left table `m2`.
pub open spec fn delete_outcome(m: Rows, k: i64, r: Result<(), DeleteScenarioError>, m2: Rows) -> bool {
    match r {
        Ok(()) => m.dom().contains(k) && !subtree_has_testing_data(m, k) && m2 == without_subtree(m, k),
        Err(DeleteScenarioError::ScenarioNotFound) => !m.dom().contains(k) && m2 == m,
        Err(DeleteScenarioError::ScenarioHasTestingData(u)) => {
            &&& m.dom().contains(k)
            &&& exists|x: i64|
                #[trigger] in_subtree_of(m, k, x) && m.dom().contains(x) && m[x].has_testing_data
                    && m[x].info.user_defined_id@ == u@
            &&& m2 == m
        },
    }
}

/// Updating the information of `k` answered `r` and left table `m2`.
pub open spec fn update_outcome(
    m: Rows,
    k: i64,
    user_defined_id: String,
    description: String,
    previous_modified_time: Timestamp,
    now: Timestamp,
    r: Result<(), UpdateScenarioInfoError>,
    m2: Rows,
) -> bool {
    match r {
        Ok(()) => {
            &&& update_info_error(m, k, user_defined_id@, previous_modified_time) is None
            &&& m2 == m.insert(k, updated_row(m[k], user_defined_id, description, now))
        },
        Err(e) => update_info_error(m, k, user_defined_id@, previous_modified_time) == Some(e) && m2 == m,
    }
}

/// Looking up a user-defined id answered `r`.
pub open spec fn lookup_outcome(m: Rows, user_defined_id: Seq<char>, r: Result<ScenarioId, LookupError>) -> bool {
    match r {
        Ok(id) => m.dom().contains(id.0) && m[id.0].info.user_defined_id@ == user_defined_id,
        Err(e) => e == LookupError::NotFound && !exists|a: i64|
            #[trigger] m.dom().contains(a) && m[a].info.user_defined_id@ == user_defined_id,
    }
}

/// Asking for the information of `k` answered `r`.
pub open spec fn info_outcome(m: Rows, k: i64, r: Result<ScenarioInfo, LookupError>) -> bool {
    match r {
        Ok(info) => m.dom().contains(k) && info == m[k].info,
        Err(e) => e == LookupError::NotFound && !m.dom().contains(k),
    }
}

/// Methodology subscribers are told of every accepted create, move, delete
/// and update, except a move of a scenario inside the parent it already has,
/// which changes nothing.
pub open spec fn announces(m: Rows, cmd: ScenarioCommand, reply: ScenarioReply) -> bool {
    match (cmd, reply) {
        (ScenarioCommand::Create { .. }, ScenarioReply::Created(Ok(_))) => true,
        (ScenarioCommand::MoveBefore { .. }, ScenarioReply::Moved(Ok(()))) => true,
        (ScenarioCommand::MoveAfter { .. }, ScenarioReply::Moved(Ok(()))) => true,
        (
            ScenarioCommand::MoveInside { move_scenario_id, parent_scenario_id },
            ScenarioReply::Moved(Ok(())),
        ) => m[move_scenario_id.0].parent != Some(parent_scenario_id.0),
        (ScenarioCommand::Delete { .. }, ScenarioReply::Deleted(Ok(()))) => true,
        (ScenarioCommand::UpdateInfo { .. }, ScenarioReply::Updated(Ok(()))) => true,
        _ => false,
    }
}

/// Subscribers of a scenario are told when it is deleted or its information
/// is updated.
pub open spec fn touched_scenario(cmd: ScenarioCommand, reply: ScenarioReply) -> Option<ScenarioId> {
    match (cmd, reply) {
        (ScenarioCommand::Delete { scenario_id }, ScenarioReply::Deleted(Ok(()))) => Some(scenario_id),
        (ScenarioCommand::UpdateInfo { scenario_id, .. }, ScenarioReply::Updated(Ok(()))) => Some(scenario_id),
        _ => None,
    }
}

impl ScenarioTable {
    /// Applies one command, stamping changes with `now`.
    pub fn apply(&mut self, cmd: ScenarioCommand, now: Timestamp) -> (out: StepOutcome)
        requires
            old(self).wf(),
        ensures
            final(self).wf(),
            match cmd {
                ScenarioCommand::Create { parent, user_defined_id, description, type_ } => {
                    &&& out.reply matches ScenarioReply::Created(r)
                    &&& create_outcome(
                        old(self)@,
                        old(self).next_id(),
                        parent,
                        user_defined_id,
                        description,
                        type_,
                        now,
                        r,
                        final(self)@,
                        final(self).next_id(),
                    )
                },
                ScenarioCommand::Lookup { user_defined_id } => {
                    &&& out.reply matches ScenarioReply::LookedUp(r)
                    &&& lookup_outcome(old(self)@, user_defined_id@, r)
                    &&& final(self)@ == old(self)@
                },
                ScenarioCommand::MoveBefore { move_scenario_id, before_scenario_id } => {
                    &&& out.reply matches ScenarioReply::Moved(r)
                    &&& beside_outcome(
                        old(self)@,
                        move_scenario_id.0,
                        before_scenario_id.0,
                        before_slot(old(self)@, move_scenario_id.0, before_scenario_id.0),
                        r,
                        final(self)@,
                    )
                },
                ScenarioCommand::MoveAfter { move_scenario_id, after_scenario_id } => {
                    &&& out.reply matches ScenarioReply::Moved(r)
                    &&& beside_outcome(
                        old(self)@,
                        move_scenario_id.0,
                        after_scenario_id.0,
                        after_slot(old(self)@, move_scenario_id.0, after_scenario_id.0),
                        r,
                        final(self)@,
                    )
                },
                ScenarioCommand::MoveInside { move_scenario_id, parent_scenario_id } => {
                    &&& out.reply matches ScenarioReply::Moved(r)
                    &&& inside_outcome(old(self)@, move_scenario_id.0, parent_scenario_id.0, r, final(self)@)
                },
                ScenarioCommand::Delete { scenario_id } => {
                    &&& out.reply matches ScenarioReply::Deleted(r)
                    &&& delete_outcome(old(self)@, scenario_id.0, r, final(self)@)
                },
                ScenarioCommand::GetInfo { scenario_id } => {
                    &&& out.reply matches ScenarioReply::Info(r)
                    &&& info_outcome(old(self)@, scenario_id.0, r)
                    &&& final(self)@ == old(self)@
                },
                ScenarioCommand::UpdateInfo {
                    scenario_id,
                    user_defined_id,
                    description,
                    previous_modified_time,
                } => {
                    &&& out.reply matches ScenarioReply::Updated(r)
                    &&& update_outcome(
                        old(self)@,
                        scenario_id.0,
                        user_defined_id,
                        description,
                        previous_modified_time,
                        now,
                        r,
                        final(self)@,
                    )
                },
                ScenarioCommand::List => {
                    &&& out.reply matches ScenarioReply::Listed(v)
                    &&& lists_forest(old(self)@, None, v@, tree_fuel() + 1)
                    &&& final(self)@ == old(self)@
                },
            },
            !(cmd is Create) ==> final(self).next_id() == old(self).next_id(),
            out.methodology_changed == announces(old(self)@, cmd, out.reply),
            final(self)@ != old(self)@ ==> out.methodology_changed,
            (cmd is MoveBefore || cmd is MoveAfter) && (out.reply matches ScenarioReply::Moved(Ok(())))
                ==> out.methodology_changed,
            out.scenario_changed is Some ==> out.methodology_changed,
            match cmd {
                ScenarioCommand::Delete { scenario_id } => (out.reply matches ScenarioReply::Deleted(Ok(())))
                    ==> out.scenario_changed == Some(scenario_id),
                ScenarioCommand::UpdateInfo { scenario_id, .. } => (out.reply matches ScenarioReply::Updated(
                    Ok(()),
                )) ==> out.scenario_changed == Some(scenario_id),
                _ => out.scenario_changed is None,
            },
            out.methodology_changed ==> match out.reply {
                ScenarioReply::Created(r) => r is Ok,
                ScenarioReply::Moved(r) => r is Ok,
                ScenarioReply::Deleted(r) => r is Ok,
                ScenarioReply::Updated(r) => r is Ok,
                _ => false,
            },
            out.scenario_changed == touched_scenario(cmd, out.reply),
    {
        let ghost m = self@;
        match cmd {
            ScenarioCommand::Create { parent, user_defined_id, description, type_ } => {
                let r = self.create_scenario(parent, user_defined_id, description, type_, now);
                let changed = r.is_ok();
                StepOutcome { reply: ScenarioReply::Created(r), methodology_changed: changed, scenario_changed: None }
            },
            ScenarioCommand::Lookup { user_defined_id } => {
                let r = self.lookup_scenario(user_defined_id);
                StepOutcome { reply: ScenarioReply::LookedUp(r), methodology_changed: false, scenario_changed: None }
            },
            ScenarioCommand::MoveBefore { move_scenario_id, before_scenario_id } => {
                let r = self.move_scenario_before(move_scenario_id, before_scenario_id);
                let changed = r.is_ok();
                StepOutcome { reply: ScenarioReply::Moved(r), methodology_changed: changed, scenario_changed: None }
            },
            ScenarioCommand::MoveAfter { move_scenario_id, after_scenario_id } => {
                let r = self.move_scenario_after(move_scenario_id, after_scenario_id);
                let changed = r.is_ok();
                StepOutcome { reply: ScenarioReply::Moved(r), methodology_changed: changed, scenario_changed: None }
            },
            ScenarioCommand::MoveInside { move_scenario_id, parent_scenario_id } => {
                let already_inside = self.parent_of(move_scenario_id.0) == Some(parent_scenario_id.0);
                let r = self.move_scenario_inside(move_scenario_id, parent_scenario_id);
                let changed = r.is_ok() && !already_inside;
                StepOutcome { reply: ScenarioReply::Moved(r), methodology_changed: changed, scenario_changed: None }
            },
            ScenarioCommand::Delete { scenario_id } => {
                let r = self.delete_scenario(scenario_id);
                let changed = r.is_ok();
                StepOutcome {
                    reply: ScenarioReply::Deleted(r),
                    methodology_changed: changed,
                    scenario_changed: if changed { Some(scenario_id) } else { None },
                }
            },
            ScenarioCommand::GetInfo { scenario_id } => {
                let r = self.get_scenario_info(scenario_id);
                StepOutcome { reply: ScenarioReply::Info(r), methodology_changed: false, scenario_changed: None }
            },
            ScenarioCommand::UpdateInfo { scenario_id, user_defined_id, description, previous_modified_time } => {
                let r = self.update_scenario_info(scenario_id, user_defined_id, description, previous_modified_time, now);
                let changed = r.is_ok();
                StepOutcome {
                    reply: ScenarioReply::Updated(r),
                    methodology_changed: changed,
                    scenario_changed: if changed { Some(scenario_id) } else { None },
                }
            },
            ScenarioCommand::List => {
                let v = self.list_scenarios();
                StepOutcome { reply: ScenarioReply::Listed(v), methodology_changed: false, scenario_changed: None }
            },
        }
    }
}

} // verus!
