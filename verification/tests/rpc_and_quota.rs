use bearclaw_proxy::quota::{ConnectionQuota, QuotaExceeded, MAX_SUBSCRIPTION_OBJECTS_PER_RPC_CONNECTION};
use bearclaw_proxy::rpc::{
    clamp_item_count, create_scenario_reply, delete_reply, move_reply, serialize_scenario, update_info_reply,
    CreateScenarioReply, DeleteReply, MoveReply, UpdateInfoReply,
};
use bearclaw_proxy::scenario::{
    CreateScenarioError, DeleteScenarioError, MoveScenarioError, ScenarioId, ScenarioInfo, ScenarioType, Timestamp,
    UpdateScenarioInfoError,
};

#[test]
fn quota_limits_and_ids() {
    let mut q = ConnectionQuota::new();
    for i in 0..MAX_SUBSCRIPTION_OBJECTS_PER_RPC_CONNECTION {
        assert_eq!(q.open_subscription(), Ok(i));
    }
    assert_eq!(q.open_subscription(), Err(QuotaExceeded::Subscriptions));
    q.close_subscription();
    // numbering continues after a close
    assert_eq!(q.open_subscription(), Ok(128));
    for _ in 0..128 {
        assert_eq!(q.open_search(), Ok(()));
    }
    assert_eq!(q.open_search(), Err(QuotaExceeded::Searches));
    q.close_search();
    assert_eq!(q.open_search(), Ok(()));
    for _ in 0..128 {
        assert_eq!(q.open_history_item(), Ok(()));
        assert_eq!(q.open_scenario(), Ok(()));
    }
    assert_eq!(q.open_history_item(), Err(QuotaExceeded::HistoryItems));
    assert_eq!(q.open_scenario(), Err(QuotaExceeded::Scenarios));
    q.close_history_item();
    q.close_scenario();
    assert_eq!(q.open_history_item(), Ok(()));
    assert_eq!(QuotaExceeded::Scenarios.limit(), 128);
}

#[test]
fn item_count_is_clamped() {
    assert_eq!(clamp_item_count(0), 0);
    assert_eq!(clamp_item_count(128), 128);
    assert_eq!(clamp_item_count(129), 128);
    assert_eq!(clamp_item_count(u32::MAX), 128);
}

#[test]
fn scenario_presented_by_user_id() {
    let info = ScenarioInfo {
        id: ScenarioId(5),
        user_defined_id: "WSTG-INFO-01".to_string(),
        description: "d".to_string(),
        type_: ScenarioType::Location,
        created_time: Timestamp { secs: 3, nsecs: 0 },
        modified_time: Timestamp { secs: 4, nsecs: 9 },
    };
    let s = serialize_scenario(&info);
    assert_eq!(s.id, "WSTG-INFO-01");
    assert_eq!(s.description, "d");
    assert_eq!(s.type_, ScenarioType::Location);
    assert_eq!(s.created_timestamp, Timestamp { secs: 3, nsecs: 0 });
    assert_eq!(s.modified_timestamp, Timestamp { secs: 4, nsecs: 9 });
}

#[test]
fn replies() {
    assert_eq!(create_scenario_reply(&Ok(ScenarioId(1)), false), CreateScenarioReply::Success);
    assert_eq!(
        create_scenario_reply(&Err(CreateScenarioError::ParentDoesNotExist), true),
        CreateScenarioReply::ScenarioDeleted
    );
    assert_eq!(
        create_scenario_reply(&Err(CreateScenarioError::ScenarioLimitExceeded), false),
        CreateScenarioReply::ScenarioLimitExceeded
    );
    assert_eq!(
        update_info_reply(&Err(UpdateScenarioInfoError::ModifiedTimeDoesNotMatchDatabase)),
        UpdateInfoReply::ScenarioUpdatedBySomeoneElse
    );
    assert_eq!(
        move_reply(&Err(MoveScenarioError::TargetScenarioIsChildOfMoveScenario)),
        MoveReply::TargetScenarioIsChildOfThisScenario
    );
    match delete_reply(&Err(DeleteScenarioError::ScenarioHasTestingData("x".to_string()))) {
        DeleteReply::ScenarioHasTestingData(s) => assert_eq!(s, "x"),
        other => panic!("unexpected {other:?}"),
    }
    assert!(matches!(delete_reply(&Ok(())), DeleteReply::Success));
}

#[test]
fn scenario_type_codes() {
    let all = [
        ScenarioType::Container,
        ScenarioType::Generic,
        ScenarioType::Location,
        ScenarioType::Endpoint,
        ScenarioType::Authorization,
        ScenarioType::BusinessLogic,
    ];
    for (i, t) in all.iter().enumerate() {
        assert_eq!(t.to_u8(), i as u8 + 2);
        assert_eq!(ScenarioType::try_from_u8(t.to_u8()), Some(*t));
    }
    assert_eq!(ScenarioType::try_from_u8(1), None);
    assert_eq!(ScenarioType::try_from_u8(8), None);
}
