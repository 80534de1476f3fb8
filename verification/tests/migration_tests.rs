//! The proxy-side migration map: switch protocol, routing and the diff
//! against a freshly pushed layout.

use undermoon::migration::{
    ClusterTasks, MgrSubCmd, MgrTask, MigrationConfig, MigrationManager, MigrationMap,
    MigrationState, MigrationTaskMeta, SendError, SwitchArg, SwitchError, TaskRole,
};
use undermoon::coordinator::{
    epoch_laggard, ready_to_commit, should_sync_proxy, CoordinatorConfig, CoordinatorService,
};
use undermoon::replicator::{Array, BulkStr, Resp};
use undermoon::slots::{MigrationMeta, SlotRange, SlotRangeTag};

fn meta(epoch: u64) -> MigrationMeta {
    MigrationMeta {
        epoch,
        src_proxy_address: "p1:7000".to_string(),
        src_node_address: "p1:7000-n1".to_string(),
        dst_proxy_address: "p2:7000".to_string(),
        dst_node_address: "p2:7000-n1".to_string(),
    }
}

fn importing_range(epoch: u64) -> SlotRange {
    SlotRange { start: 100, end: 200, tag: SlotRangeTag::Importing(meta(epoch)) }
}

fn one_task_map(state: MigrationState) -> MigrationMap {
    MigrationMap {
        task_map: vec![ClusterTasks {
            name: "mydb".to_string(),
            tasks: vec![MgrTask {
                meta: MigrationTaskMeta {
                    cluster_name: "mydb".to_string(),
                    slot_range: importing_range(5),
                },
                role: TaskRole::Importing,
                state,
            }],
        }],
    }
}

fn switch_arg() -> SwitchArg {
    SwitchArg {
        meta: MigrationTaskMeta {
            cluster_name: "mydb".to_string(),
            slot_range: importing_range(5),
        },
    }
}

#[test]
fn switch_before_blocking_is_not_ready() {
    let mut map = one_task_map(MigrationState::PreBlocking);
    let r = map.handle_switch(switch_arg(), MgrSubCmd::PreSwitch);
    assert_eq!(r, Err(SwitchError::NotReady));
    // The source finishes its final scan; the destination blocks; the
    // retried switch goes through.
    map.task_map[0].tasks[0].state = MigrationState::Blocking;
    let r = map.handle_switch(switch_arg(), MgrSubCmd::PreSwitch);
    assert_eq!(r, Ok(()));
    assert_eq!(map.task_map[0].tasks[0].state, MigrationState::Committing);
    let r = map.handle_switch(switch_arg(), MgrSubCmd::FinalSwitch);
    assert_eq!(r, Ok(()));
    assert_eq!(map.task_map[0].tasks[0].state, MigrationState::SwitchCommitted);
}

#[test]
fn switch_on_migrating_side_is_a_protocol_violation() {
    let mut map = one_task_map(MigrationState::Blocking);
    map.task_map[0].tasks[0].role = TaskRole::Migrating;
    let r = map.handle_switch(switch_arg(), MgrSubCmd::PreSwitch);
    assert_eq!(r, Err(SwitchError::PeerMigrating));
}

#[test]
fn switch_for_unknown_task_is_refused() {
    let mut map = MigrationMap::empty();
    let r = map.handle_switch(switch_arg(), MgrSubCmd::PreSwitch);
    assert_eq!(r, Err(SwitchError::TaskNotFound));
}

#[test]
fn finished_tasks_and_states_are_reported() {
    let map = one_task_map(MigrationState::SwitchCommitted);
    let finished = map.get_finished_tasks();
    assert_eq!(finished.len(), 1);
    assert_eq!(finished[0].cluster_name, "mydb");
    let states = map.get_states(&"mydb".to_string());
    assert_eq!(states.len(), 1);
    assert_eq!(states[0].1, MigrationState::SwitchCommitted);
    assert_eq!((states[0].0.start, states[0].0.end), (100, 200));
}

#[test]
fn routing_finds_the_task_for_a_slot() {
    let map = one_task_map(MigrationState::PreBlocking);
    assert_eq!(
        map.send(&"mydb".to_string(), Some(150)),
        Ok((0, 0))
    );
    assert_eq!(
        map.send(&"mydb".to_string(), Some(500)),
        Err(SendError::SlotNotFound)
    );
    assert_eq!(
        map.send(&"mydb".to_string(), None),
        Err(SendError::MissingKey)
    );
    assert_eq!(
        map.send(&"other".to_string(), Some(150)),
        Err(SendError::SlotNotFound)
    );
    let empty = MigrationMap::empty();
    assert_eq!(
        empty.send(&"mydb".to_string(), Some(150)),
        Err(SendError::SlotNotFound)
    );
    // The sync route only goes to the migrating side.
    assert_eq!(
        map.send_sync_task(&"mydb".to_string(), Some(150)),
        Err(SendError::SlotNotFound)
    );
    let mut migrating = one_task_map(MigrationState::PreBlocking);
    migrating.task_map[0].tasks[0].role = TaskRole::Migrating;
    assert_eq!(
        migrating.send_sync_task(&"mydb".to_string(), Some(150)),
        Ok((0, 0))
    );
}

#[test]
fn layout_diff_keeps_running_tasks_and_spawns_fresh_ones() {
    let manager = MigrationManager::new(MigrationConfig { max_migration_batch: 16 });
    let old_map = one_task_map(MigrationState::Blocking);
    let layout = vec![(
        "mydb".to_string(),
        vec![
            SlotRange { start: 0, end: 100, tag: SlotRangeTag::Stable },
            importing_range(5),
            SlotRange { start: 300, end: 400, tag: SlotRangeTag::Migrating(meta(6)) },
        ],
    )];
    let (new_map, new_tasks) = manager.create_new_migration_map(&old_map, &layout);
    assert_eq!(new_map.task_map.len(), 1);
    assert_eq!(new_map.task_map[0].tasks.len(), 2);
    // The running task kept its state; the fresh one starts at the top.
    let mut kept = 0;
    let mut fresh = 0;
    for t in &new_map.task_map[0].tasks {
        match t.state {
            MigrationState::Blocking => kept += 1,
            MigrationState::PreCheck => fresh += 1,
            _ => panic!("unexpected state"),
        }
    }
    assert_eq!(kept, 1);
    assert_eq!(fresh, 1);
    assert_eq!(new_tasks.len(), 1);
    assert_eq!(new_tasks[0].epoch, 6);
    assert_eq!(new_tasks[0].state, MigrationState::PreCheck);
    // A layout without the old task drops it.
    let bare = vec![("mydb".to_string(), vec![SlotRange {
        start: 0,
        end: 100,
        tag: SlotRangeTag::Stable,
    }])];
    let (dropped, spawned) = manager.create_new_migration_map(&old_map, &bare);
    assert!(dropped.task_map.is_empty());
    assert!(spawned.is_empty());
}

#[test]
fn coordinator_decisions() {
    assert!(should_sync_proxy(3, 5));
    assert!(!should_sync_proxy(5, 5));
    assert!(!should_sync_proxy(7, 5));
    assert!(ready_to_commit(&vec![
        MigrationState::SwitchCommitted,
        MigrationState::SwitchCommitted,
    ]));
    assert!(!ready_to_commit(&vec![
        MigrationState::SwitchCommitted,
        MigrationState::Committing,
    ]));
    assert_eq!(epoch_laggard(&vec![("p1".to_string(), 30)], 26), None);
    assert_eq!(
        epoch_laggard(&vec![("p1".to_string(), 30), ("p2".to_string(), 10)], 26),
        Some("p2".to_string())
    );
}

#[test]
fn failure_detection_reports_only_dead_proxies() {
    let service = CoordinatorService::new(CoordinatorConfig {
        broker_address: "broker:7799".to_string(),
        reporter_id: "coordinator-1".to_string(),
    });
    let pings = vec![
        ("p1:7000".to_string(), true),
        ("p2:7000".to_string(), false),
        ("p3:7000".to_string(), true),
        ("p4:7000".to_string(), false),
    ];
    let reports = service.detect_failures(&pings);
    assert_eq!(reports.len(), 2);
    assert_eq!(reports[0], ("p2:7000".to_string(), "coordinator-1".to_string()));
    assert_eq!(reports[1], ("p4:7000".to_string(), "coordinator-1".to_string()));
}

#[test]
fn info_lists_every_cluster_and_task() {
    let map = one_task_map(MigrationState::Blocking);
    let info = map.info();
    let clusters = match info {
        Resp::Arr(Array::Arr(v)) => v,
        _ => panic!("info should be an array"),
    };
    assert_eq!(clusters.len(), 1);
    let lines = match &clusters[0] {
        Resp::Arr(Array::Arr(v)) => v,
        _ => panic!("cluster info should be an array"),
    };
    assert_eq!(lines.len(), 2);
    let first = match &lines[0] {
        Resp::Bulk(BulkStr::Str(b)) => String::from_utf8(b.clone()).unwrap(),
        _ => panic!("line should be a bulk string"),
    };
    assert_eq!(first, "name: mydb");
    let second = match &lines[1] {
        Resp::Bulk(BulkStr::Str(b)) => String::from_utf8(b.clone()).unwrap(),
        _ => panic!("line should be a bulk string"),
    };
    assert_eq!(second, "100-200 p1:7000-n1 -> p2:7000-n1 blocking");
}
