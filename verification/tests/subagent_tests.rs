use river_gateway::subagent::{SubagentManager, SubagentStatus, SubagentType};

#[test]
fn test_register_subagent() {
    let mut manager = SubagentManager::new();
    let id = 1;
    manager.register(id, SubagentType::TaskWorker, "Test task".to_string(), "gpt-4".to_string());

    assert!(manager.is_registered(id));

    let info = manager.get(id).unwrap();
    assert_eq!(info.status, SubagentStatus::Starting);
    assert_eq!(info.task, "Test task");
}

#[test]
fn test_list_subagents() {
    let mut manager = SubagentManager::new();
    manager.register(1, SubagentType::TaskWorker, "Task 1".to_string(), "gpt-4".to_string());
    manager.register(2, SubagentType::LongRunning, "Task 2".to_string(), "gpt-4".to_string());

    let list = manager.list();
    assert_eq!(list.len(), 2);
}

#[test]
fn test_status_updates() {
    let mut manager = SubagentManager::new();
    let id = 7;
    manager.register(id, SubagentType::TaskWorker, "Task".to_string(), "model".to_string());

    manager.set_running(id);
    assert_eq!(manager.get(id).unwrap().status, SubagentStatus::Running);

    manager.set_completed(id, "Done".to_string());
    let info = manager.get(id).unwrap();
    assert_eq!(info.status, SubagentStatus::Completed);
    assert_eq!(info.result, Some("Done".to_string()));
}

#[test]
fn test_stop_subagent() {
    let mut manager = SubagentManager::new();
    let id = 3;
    manager.register(id, SubagentType::TaskWorker, "Task".to_string(), "model".to_string());

    manager.set_running(id);
    assert!(manager.stop(id).is_ok());
    assert_eq!(manager.get(id).unwrap().status, SubagentStatus::Stopped);
}

#[test]
fn test_stop_already_terminal() {
    let mut manager = SubagentManager::new();
    let id = 4;
    manager.register(id, SubagentType::TaskWorker, "Task".to_string(), "model".to_string());

    manager.set_completed(id, "Done".to_string());
    assert!(manager.stop(id).is_err());
}

#[test]
fn test_active_count() {
    let mut manager = SubagentManager::new();
    let (id1, id2) = (10, 11);
    manager.register(id1, SubagentType::TaskWorker, "Task 1".to_string(), "model".to_string());
    manager.register(id2, SubagentType::TaskWorker, "Task 2".to_string(), "model".to_string());

    assert_eq!(manager.active_count(), 2);

    manager.set_completed(id1, "Done".to_string());
    assert_eq!(manager.active_count(), 1);

    manager.set_failed(id2, "Error".to_string());
    assert_eq!(manager.active_count(), 0);
}

#[test]
fn test_nonexistent_subagent() {
    let manager = SubagentManager::new();
    let fake_id = 999;
    assert!(manager.get(fake_id).is_none());
    assert!(!manager.is_registered(fake_id));
}

#[test]
fn stop_messages_name_the_subagent() {
    let mut manager = SubagentManager::new();
    assert_eq!(manager.stop_at(42, 100), Err("Subagent 42 not found".to_string()));
    manager.register(42, SubagentType::LongRunning, "t".to_string(), "m".to_string());
    assert_eq!(manager.stop_at(42, 100), Ok(()));
    let info = manager.get(42).unwrap();
    assert_eq!(info.completed_at, Some(100));
    assert_eq!(
        manager.stop_at(42, 200),
        Err("Subagent 42 is already in terminal state: stopped".to_string())
    );
    assert_eq!(manager.get(42).unwrap().completed_at, Some(100));
}

#[test]
fn failed_subagent_keeps_its_error() {
    let mut manager = SubagentManager::new();
    manager.register(5, SubagentType::TaskWorker, "t".to_string(), "m".to_string());
    manager.set_failed_at(5, "boom".to_string(), 50);
    let info = manager.get(5).unwrap();
    assert_eq!(info.status, SubagentStatus::Failed);
    assert_eq!(info.error, Some("boom".to_string()));
    assert_eq!(info.result, None);
    assert_eq!(info.completed_at, Some(50));
    assert_eq!(
        manager.stop_at(5, 60),
        Err("Subagent 5 is already in terminal state: failed".to_string())
    );
}

#[test]
fn cleanup_forgets_only_old_finished_subagents() {
    let mut manager = SubagentManager::new();
    for id in 1..=4 {
        manager.register(id, SubagentType::TaskWorker, "t".to_string(), "m".to_string());
    }
    manager.set_completed_at(1, "r".to_string(), 100);
    manager.set_failed_at(2, "e".to_string(), 150);
    manager.set_running(3);
    manager.cleanup_completed_at(60, 200);
    let ids: Vec<u64> = manager.list().iter().map(|i| i.id).collect();
    assert_eq!(ids, vec![2, 3, 4]);
    manager.cleanup_completed_at(60, 210);
    let ids: Vec<u64> = manager.list().iter().map(|i| i.id).collect();
    assert_eq!(ids, vec![3, 4]);
}

#[test]
fn registering_an_id_again_replaces_its_record() {
    let mut manager = SubagentManager::new();
    manager.register(8, SubagentType::TaskWorker, "first".to_string(), "m".to_string());
    manager.set_running(8);
    manager.register(8, SubagentType::LongRunning, "second".to_string(), "m".to_string());
    assert_eq!(manager.list().len(), 1);
    let info = manager.get(8).unwrap();
    assert_eq!(info.task, "second");
    assert_eq!(info.status, SubagentStatus::Starting);
    assert_eq!(info.subagent_type, SubagentType::LongRunning);
}
