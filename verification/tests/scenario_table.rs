use bearclaw_proxy::scenario::{
    CreateScenarioError, DeleteScenarioError, LookupError, MoveScenarioError, ScenarioId, ScenarioInfo,
    ScenarioRow, ScenarioTreeNode, ScenarioType, Timestamp, UpdateScenarioInfoError, MAX_SCENARIOS,
};
use bearclaw_proxy::table::ScenarioTable;

fn ts(secs: i64, nsecs: u32) -> Timestamp {
    Timestamp { secs, nsecs }
}

fn create(t: &mut ScenarioTable, parent: Option<ScenarioId>, id: &str) -> ScenarioId {
    t.create_scenario(parent, id.to_string(), format!("about {id}"), ScenarioType::Generic, ts(100, 5))
        .unwrap()
}

/// (user-defined id, parent id, position) of every row, sorted by id.
fn layout(t: &ScenarioTable) -> Vec<(String, Option<i64>, u32)> {
    let mut rows: Vec<(i64, String, Option<i64>, u32)> = t
        .rows()
        .iter()
        .map(|r| (r.info.id.0, r.info.user_defined_id.clone(), r.parent, r.position))
        .collect();
    rows.sort();
    rows.into_iter().map(|(_, u, p, pos)| (u, p, pos)).collect()
}

fn names(nodes: &[ScenarioTreeNode]) -> Vec<String> {
    nodes.iter().map(|n| n.info.user_defined_id.clone()).collect()
}

#[test]
fn create_assigns_ids_and_positions() {
    let mut t = ScenarioTable::new(1);
    let a = create(&mut t, None, "a");
    let b = create(&mut t, None, "b");
    let a1 = create(&mut t, Some(a), "a1");
    let a2 = create(&mut t, Some(a), "a2");
    assert_eq!((a.0, b.0, a1.0, a2.0), (1, 2, 3, 4));
    assert_eq!(t.peek_next_id(), 5);
    assert_eq!(
        layout(&t),
        vec![
            ("a".to_string(), None, 1),
            ("b".to_string(), None, 2),
            ("a1".to_string(), Some(1), 1),
            ("a2".to_string(), Some(1), 2),
        ]
    );
    let info = t.get_scenario_info(a1).unwrap();
    assert_eq!(info.user_defined_id, "a1");
    assert_eq!(info.description, "about a1");
    assert_eq!(info.created_time, ts(100, 0));
    assert_eq!(info.modified_time, ts(100, 5));
    assert_eq!(t.get_scenario_depth(a1.0), Some(1));
    assert_eq!(t.get_scenario_depth(a.0), Some(0));
    assert_eq!(t.get_scenario_depth(99), None);
    assert_eq!(t.get_scenario_child_depth(a.0), 2);
    assert_eq!(t.get_scenario_child_depth(b.0), 1);
}

#[test]
fn create_errors() {
    let mut t = ScenarioTable::new(1);
    let a = create(&mut t, None, "a");
    assert_eq!(
        t.create_scenario(None, "a".to_string(), String::new(), ScenarioType::Container, ts(0, 0)),
        Err(CreateScenarioError::IdAlreadyExists)
    );
    assert_eq!(
        t.create_scenario(Some(ScenarioId(42)), "x".to_string(), String::new(), ScenarioType::Container, ts(0, 0)),
        Err(CreateScenarioError::ParentDoesNotExist)
    );
    // a chain of 16 levels: depths 0..=15
    let mut parent = a;
    for i in 1..16 {
        parent = create(&mut t, Some(parent), &format!("level{i}"));
    }
    assert_eq!(t.get_scenario_depth(parent.0), Some(15));
    assert_eq!(
        t.create_scenario(Some(parent), "too-deep".to_string(), String::new(), ScenarioType::Generic, ts(0, 0)),
        Err(CreateScenarioError::MaxScenarioTreeDepthExceeded)
    );
    assert_eq!(t.rows().len(), 16);
}

#[test]
fn create_limit() {
    let mut t = ScenarioTable::new(1);
    for i in 0..MAX_SCENARIOS {
        create(&mut t, None, &format!("s{i}"));
    }
    assert_eq!(
        t.create_scenario(None, "one-more".to_string(), String::new(), ScenarioType::Generic, ts(0, 0)),
        Err(CreateScenarioError::ScenarioLimitExceeded)
    );
    assert_eq!(t.rows().len(), 256);
}

#[test]
fn lookup_finds_created() {
    let mut t = ScenarioTable::new(7);
    let x = create(&mut t, None, "x");
    assert_eq!(t.lookup_scenario("x".to_string()), Ok(ScenarioId(7)));
    assert_eq!(x, ScenarioId(7));
    assert_eq!(t.lookup_scenario("y".to_string()), Err(LookupError::NotFound));
    assert!(matches!(t.get_scenario_info(ScenarioId(8)), Err(LookupError::NotFound)));
}

#[test]
fn move_before_same_parent() {
    let mut t = ScenarioTable::new(1);
    let a = create(&mut t, None, "a");
    let b = create(&mut t, None, "b");
    let c = create(&mut t, None, "c");
    assert_eq!(t.move_scenario_before(c, a), Ok(()));
    assert_eq!(
        layout(&t),
        vec![("a".to_string(), None, 2), ("b".to_string(), None, 3), ("c".to_string(), None, 1)]
    );
    assert_eq!(t.move_scenario_before(c, b), Ok(()));
    assert_eq!(
        layout(&t),
        vec![("a".to_string(), None, 1), ("b".to_string(), None, 3), ("c".to_string(), None, 2)]
    );
    // moving before itself changes nothing
    assert_eq!(t.move_scenario_before(b, b), Ok(()));
    assert_eq!(
        layout(&t),
        vec![("a".to_string(), None, 1), ("b".to_string(), None, 3), ("c".to_string(), None, 2)]
    );
}

#[test]
fn move_after_other_parent() {
    let mut t = ScenarioTable::new(1);
    let a = create(&mut t, None, "a");
    let b = create(&mut t, None, "b");
    let b1 = create(&mut t, Some(b), "b1");
    let b2 = create(&mut t, Some(b), "b2");
    assert_eq!(t.move_scenario_after(a, b1), Ok(()));
    assert_eq!(
        layout(&t),
        vec![
            ("a".to_string(), Some(2), 2),
            ("b".to_string(), None, 1),
            ("b1".to_string(), Some(2), 1),
            ("b2".to_string(), Some(2), 3),
        ]
    );
    assert_eq!(t.move_scenario_after(b2, a), Ok(()));
    let _ = b2;
}

#[test]
fn move_inside_appends_last() {
    let mut t = ScenarioTable::new(1);
    let a = create(&mut t, None, "a");
    let b = create(&mut t, None, "b");
    let c = create(&mut t, None, "c");
    let _b1 = create(&mut t, Some(b), "b1");
    assert_eq!(t.move_scenario_inside(a, b), Ok(()));
    assert_eq!(
        layout(&t),
        vec![
            ("a".to_string(), Some(2), 2),
            ("b".to_string(), None, 1),
            ("c".to_string(), None, 2),
            ("b1".to_string(), Some(2), 1),
        ]
    );
    // already under b: nothing moves, not even to the end
    let before = layout(&t);
    assert_eq!(t.move_scenario_inside(_b1, b), Ok(()));
    assert_eq!(layout(&t), before);
    let _ = c;
}

#[test]
fn move_errors() {
    let mut t = ScenarioTable::new(1);
    let a = create(&mut t, None, "a");
    let a1 = create(&mut t, Some(a), "a1");
    let a11 = create(&mut t, Some(a1), "a11");
    let b = create(&mut t, None, "b");
    let before = layout(&t);
    assert_eq!(t.move_scenario_before(ScenarioId(50), a), Err(MoveScenarioError::MoveScenarioNotFound));
    assert_eq!(t.move_scenario_before(a, ScenarioId(50)), Err(MoveScenarioError::TargetScenarioNotFound));
    assert_eq!(t.move_scenario_after(a, a11), Err(MoveScenarioError::TargetScenarioIsChildOfMoveScenario));
    assert_eq!(t.move_scenario_inside(a, a1), Err(MoveScenarioError::TargetScenarioIsChildOfMoveScenario));
    assert_eq!(t.move_scenario_inside(a, a), Err(MoveScenarioError::TargetScenarioIsChildOfMoveScenario));
    assert_eq!(t.move_scenario_inside(ScenarioId(50), a), Err(MoveScenarioError::MoveScenarioNotFound));
    assert_eq!(t.move_scenario_inside(a, ScenarioId(50)), Err(MoveScenarioError::TargetScenarioNotFound));
    assert_eq!(layout(&t), before);
    // a chain under b reaching depth 15; moving a (3 levels) under its deepest node is refused
    let mut p = b;
    for i in 1..16 {
        p = create(&mut t, Some(p), &format!("deep{i}"));
    }
    assert_eq!(t.get_scenario_child_depth(a.0), 3);
    assert_eq!(t.move_scenario_inside(a, p), Err(MoveScenarioError::MaxScenarioTreeDepthExceeded));
}

fn row(id: i64, parent: Option<i64>, position: u32, udid: &str, has_testing_data: bool) -> ScenarioRow {
    ScenarioRow {
        info: ScenarioInfo {
            id: ScenarioId(id),
            user_defined_id: udid.to_string(),
            description: String::new(),
            type_: ScenarioType::Container,
            created_time: ts(1, 0),
            modified_time: ts(1, 2),
        },
        parent,
        position,
        has_testing_data,
    }
}

#[test]
fn delete_removes_subtree_and_closes_gap() {
    let mut t = ScenarioTable::new(1);
    let a = create(&mut t, None, "a");
    let b = create(&mut t, None, "b");
    let b1 = create(&mut t, Some(b), "b1");
    let _b11 = create(&mut t, Some(b1), "b11");
    let c = create(&mut t, None, "c");
    assert!(matches!(t.delete_scenario(b), Ok(())));
    assert_eq!(layout(&t), vec![("a".to_string(), None, 1), ("c".to_string(), None, 2)]);
    assert!(matches!(t.delete_scenario(b), Err(DeleteScenarioError::ScenarioNotFound)));
    let _ = (a, c);
}

#[test]
fn delete_refused_with_testing_data() {
    let rows = vec![
        row(1, None, 1, "unassigned", true),
        row(2, None, 2, "top", false),
        row(3, Some(2), 1, "tested-child", true),
    ];
    let mut t = ScenarioTable::from_rows(rows, 4).unwrap();
    match t.delete_scenario(ScenarioId(2)) {
        Err(DeleteScenarioError::ScenarioHasTestingData(u)) => assert_eq!(u, "tested-child"),
        other => panic!("unexpected {other:?}"),
    }
    assert_eq!(t.rows().len(), 3);
}

#[test]
fn update_info_checks() {
    let mut t = ScenarioTable::new(1);
    let a = create(&mut t, None, "a");
    let _b = create(&mut t, None, "b");
    assert_eq!(
        t.update_scenario_info(ScenarioId(9), "z".to_string(), String::new(), ts(100, 5), ts(200, 0)),
        Err(UpdateScenarioInfoError::ScenarioNotFound)
    );
    assert_eq!(
        t.update_scenario_info(a, "z".to_string(), String::new(), ts(100, 4), ts(200, 0)),
        Err(UpdateScenarioInfoError::ModifiedTimeDoesNotMatchDatabase)
    );
    assert_eq!(
        t.update_scenario_info(a, "b".to_string(), String::new(), ts(100, 5), ts(200, 0)),
        Err(UpdateScenarioInfoError::UserDefinedIdAlreadyExists)
    );
    assert_eq!(t.update_scenario_info(a, "a".to_string(), "new".to_string(), ts(100, 5), ts(200, 7)), Ok(()));
    let info = t.get_scenario_info(a).unwrap();
    assert_eq!(info.description, "new");
    assert_eq!(info.modified_time, ts(200, 7));
    assert_eq!(info.created_time, ts(100, 0));
    // the old modification time is now stale
    assert_eq!(
        t.update_scenario_info(a, "a2".to_string(), String::new(), ts(100, 5), ts(300, 0)),
        Err(UpdateScenarioInfoError::ModifiedTimeDoesNotMatchDatabase)
    );
}

#[test]
fn list_orders_by_position_and_skips_unassigned() {
    let rows = vec![
        row(1, None, 1, "unassigned", true),
        row(2, None, 3, "second", false),
        row(3, None, 2, "first", false),
        row(4, Some(3), 2, "first-b", false),
        row(5, Some(3), 1, "first-a", false),
    ];
    let t = ScenarioTable::from_rows(rows, 6).unwrap();
    let forest = t.list_scenarios();
    assert_eq!(names(&forest), vec!["first".to_string(), "second".to_string()]);
    assert_eq!(names(&forest[0].children), vec!["first-a".to_string(), "first-b".to_string()]);
    assert!(forest[1].children.is_empty());
}

#[test]
fn from_rows_rejects_inconsistent_tables() {
    // gap in positions
    assert!(ScenarioTable::from_rows(vec![row(1, None, 2, "a", false)], 2).is_none());
    // repeated position
    assert!(ScenarioTable::from_rows(vec![row(1, None, 1, "a", false), row(2, None, 1, "b", false)], 3).is_none());
    // repeated user-defined id
    assert!(ScenarioTable::from_rows(vec![row(1, None, 1, "a", false), row(2, None, 2, "a", false)], 3).is_none());
    // dangling parent
    assert!(ScenarioTable::from_rows(vec![row(1, Some(9), 1, "a", false)], 2).is_none());
    // cycle
    assert!(ScenarioTable::from_rows(vec![row(1, Some(2), 1, "a", false), row(2, Some(1), 1, "b", false)], 3).is_none());
    // id not below the next id
    assert!(ScenarioTable::from_rows(vec![row(5, None, 1, "a", false)], 5).is_none());
    assert!(ScenarioTable::from_rows(vec![row(1, None, 1, "a", false)], 2).is_some());
}

#[test]
fn create_after_ids_run_out_reuses_a_free_id() {
    let mut t = ScenarioTable::new(i64::MAX);
    let a = create(&mut t, None, "a");
    assert_eq!(a.0, 1);
    let b = create(&mut t, None, "b");
    assert_eq!(b.0, 2);
    assert_eq!(t.peek_next_id(), i64::MAX);
    assert!(t.delete_scenario(a).is_ok());
    let c = create(&mut t, Some(b), "c");
    assert_eq!(c.0, 1);
    assert_eq!(t.get_scenario_info(c).unwrap().user_defined_id, "c");
    assert_eq!(t.lookup_scenario("c".to_string()), Ok(c));
}
