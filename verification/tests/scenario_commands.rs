use bearclaw_proxy::command::{ScenarioCommand, ScenarioReply};
use bearclaw_proxy::scenario::{
    CreateScenarioError, MoveScenarioError, ScenarioId, ScenarioType, Timestamp, UpdateScenarioInfoError,
};
use bearclaw_proxy::table::ScenarioTable;

fn ts(secs: i64, nsecs: u32) -> Timestamp {
    Timestamp { secs, nsecs }
}

fn create_cmd(parent: Option<ScenarioId>, id: &str) -> ScenarioCommand {
    ScenarioCommand::Create {
        parent,
        user_defined_id: id.to_string(),
        description: String::new(),
        type_: ScenarioType::Generic,
    }
}

#[test]
fn step_create_announces_only_success() {
    let mut t = ScenarioTable::new(1);
    let out = t.apply(create_cmd(None, "a"), ts(5, 0));
    assert!(matches!(out.reply, ScenarioReply::Created(Ok(ScenarioId(1)))));
    assert!(out.methodology_changed);
    assert_eq!(out.scenario_changed, None);

    let out = t.apply(create_cmd(None, "a"), ts(6, 0));
    assert!(matches!(out.reply, ScenarioReply::Created(Err(CreateScenarioError::IdAlreadyExists))));
    assert!(!out.methodology_changed);
}

#[test]
fn step_move_inside_current_parent_announces_nothing() {
    let mut t = ScenarioTable::new(1);
    t.apply(create_cmd(None, "p"), ts(1, 0));
    t.apply(create_cmd(Some(ScenarioId(1)), "c"), ts(1, 0));
    let out = t.apply(
        ScenarioCommand::MoveInside { move_scenario_id: ScenarioId(2), parent_scenario_id: ScenarioId(1) },
        ts(2, 0),
    );
    assert!(matches!(out.reply, ScenarioReply::Moved(Ok(()))));
    assert!(!out.methodology_changed);

    t.apply(create_cmd(None, "q"), ts(3, 0));
    let out = t.apply(
        ScenarioCommand::MoveInside { move_scenario_id: ScenarioId(2), parent_scenario_id: ScenarioId(3) },
        ts(4, 0),
    );
    assert!(matches!(out.reply, ScenarioReply::Moved(Ok(()))));
    assert!(out.methodology_changed);

    let out = t.apply(
        ScenarioCommand::MoveInside { move_scenario_id: ScenarioId(9), parent_scenario_id: ScenarioId(3) },
        ts(4, 0),
    );
    assert!(matches!(out.reply, ScenarioReply::Moved(Err(MoveScenarioError::MoveScenarioNotFound))));
    assert!(!out.methodology_changed);
}

#[test]
fn step_update_and_delete_name_the_scenario() {
    let mut t = ScenarioTable::new(1);
    t.apply(create_cmd(None, "a"), ts(7, 3));
    let out = t.apply(
        ScenarioCommand::UpdateInfo {
            scenario_id: ScenarioId(1),
            user_defined_id: "b".to_string(),
            description: "d".to_string(),
            previous_modified_time: ts(7, 3),
        },
        ts(8, 0),
    );
    assert!(matches!(out.reply, ScenarioReply::Updated(Ok(()))));
    assert_eq!(out.scenario_changed, Some(ScenarioId(1)));
    assert!(out.methodology_changed);

    let out = t.apply(
        ScenarioCommand::UpdateInfo {
            scenario_id: ScenarioId(1),
            user_defined_id: "b".to_string(),
            description: "d".to_string(),
            previous_modified_time: ts(7, 3),
        },
        ts(9, 0),
    );
    assert!(matches!(
        out.reply,
        ScenarioReply::Updated(Err(UpdateScenarioInfoError::ModifiedTimeDoesNotMatchDatabase))
    ));
    assert_eq!(out.scenario_changed, None);

    let out = t.apply(ScenarioCommand::Lookup { user_defined_id: "b".to_string() }, ts(9, 0));
    assert!(matches!(out.reply, ScenarioReply::LookedUp(Ok(ScenarioId(1)))));
    assert!(!out.methodology_changed);

    let out = t.apply(ScenarioCommand::Delete { scenario_id: ScenarioId(1) }, ts(9, 0));
    assert!(matches!(out.reply, ScenarioReply::Deleted(Ok(()))));
    assert_eq!(out.scenario_changed, Some(ScenarioId(1)));
    assert!(out.methodology_changed);

    let out = t.apply(ScenarioCommand::List, ts(9, 0));
    assert!(matches!(out.reply, ScenarioReply::Listed(ref v) if v.is_empty()));
}
