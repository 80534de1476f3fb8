//! The metadata store, driven through the scenarios the broker's API
//! must support.

use undermoon::cluster::Cluster;
use undermoon::slots::{SlotRangeTag, SLOT_MAX};
use undermoon::migration::MigrationTaskMeta;
use undermoon::store::{MetaStore, MetaStoreError, ScaleLock, META_STORE_VERSION};

fn add_test_proxy(store: &mut MetaStore, addr: &str, host: &str, index: Option<usize>) {
    let n1 = format!("{}-n1", addr);
    let n2 = format!("{}-n2", addr);
    store
        .add_proxy(
            addr.to_string(),
            n1,
            n2,
            Some(host.to_string()),
            index,
        )
        .expect("proxy registration should succeed");
}

fn four_proxies(store: &mut MetaStore) {
    add_test_proxy(store, "p1:7000", "h1", None);
    add_test_proxy(store, "p2:7000", "h2", None);
    add_test_proxy(store, "p3:7000", "h3", None);
    add_test_proxy(store, "p4:7000", "h4", None);
}

fn master_ranges(c: &Cluster) -> Vec<(usize, usize, SlotRangeTag)> {
    let mut out = Vec::new();
    for node in c.get_nodes() {
        for r in node.get_slots() {
            out.push((r.start, r.end, r.tag.clone()));
        }
    }
    out
}

#[test]
fn create_cluster_partitions_slots_evenly() {
    let mut store = MetaStore::new(false);
    four_proxies(&mut store);
    store.add_cluster("mydb".to_string(), 4).expect("creation should succeed");
    let c = store
        .get_cluster_by_name(&"mydb".to_string())
        .expect("cluster should exist");
    assert_eq!(c.get_nodes().len(), 4);
    let mut ranges = master_ranges(&c);
    ranges.sort_by_key(|r| r.0);
    assert_eq!(ranges.len(), 2);
    assert_eq!((ranges[0].0, ranges[0].1), (0, 8192));
    assert_eq!((ranges[1].0, ranges[1].1), (8192, 16384));
    assert!(matches!(ranges[0].2, SlotRangeTag::Stable));
    assert!(matches!(ranges[1].2, SlotRangeTag::Stable));
}

#[test]
fn create_and_expand_cluster() {
    let mut store = MetaStore::new(false);
    four_proxies(&mut store);
    store.add_cluster("mydb".to_string(), 4).expect("creation should succeed");
    add_test_proxy(&mut store, "p5:7000", "h5", None);
    add_test_proxy(&mut store, "p6:7000", "h6", None);
    add_test_proxy(&mut store, "p7:7000", "h7", None);
    add_test_proxy(&mut store, "p8:7000", "h8", None);
    store.auto_add_nodes("mydb".to_string(), 4).expect("adding nodes should succeed");
    store.migrate_slots("mydb".to_string()).expect("expansion should succeed");

    let c = store
        .get_cluster_by_name(&"mydb".to_string())
        .expect("cluster should exist");
    assert_eq!(c.get_nodes().len(), 8);
    let ranges = master_ranges(&c);
    let migrating: Vec<_> = ranges
        .iter()
        .filter(|r| matches!(r.2, SlotRangeTag::Migrating(_)))
        .collect();
    let importing: Vec<_> = ranges
        .iter()
        .filter(|r| matches!(r.2, SlotRangeTag::Importing(_)))
        .collect();
    assert_eq!(migrating.len(), importing.len());
    assert!(!migrating.is_empty());

    // Commit every staged task, as the proxies would.
    let tasks: Vec<MigrationTaskMeta> = {
        let mut tasks = Vec::new();
        for node in c.get_nodes() {
            for r in node.get_slots() {
                if matches!(r.tag, SlotRangeTag::Migrating(_)) {
                    tasks.push(MigrationTaskMeta {
                        cluster_name: "mydb".to_string(),
                        slot_range: r.clone(),
                    });
                }
            }
        }
        tasks
    };
    for task in tasks {
        store.commit_migration(task).expect("commit should succeed");
    }

    // Afterwards: no tags, four masters, an even split summing to the
    // whole slot space.
    let c = store
        .get_cluster_by_name(&"mydb".to_string())
        .expect("cluster should exist");
    let ranges = master_ranges(&c);
    assert!(ranges.iter().all(|r| matches!(r.2, SlotRangeTag::Stable)));
    let total: usize = ranges.iter().map(|r| r.1 - r.0).sum();
    assert_eq!(total, SLOT_MAX);
    let mut per_master: Vec<usize> = Vec::new();
    for node in c.get_nodes() {
        let owned: usize = node.get_slots().iter().map(|r| r.end - r.start).sum();
        if owned > 0 {
            per_master.push(owned);
        }
    }
    assert_eq!(per_master.len(), 4);
    for owned in per_master {
        assert_eq!(owned, 4096);
    }
}

#[test]
fn commit_migration_is_idempotent() {
    let mut store = MetaStore::new(false);
    four_proxies(&mut store);
    store.add_cluster("mydb".to_string(), 4).expect("creation should succeed");
    add_test_proxy(&mut store, "p5:7000", "h5", None);
    add_test_proxy(&mut store, "p6:7000", "h6", None);
    store.auto_add_nodes("mydb".to_string(), 4).expect("adding nodes should succeed");
    store.migrate_slots("mydb".to_string()).expect("expansion should succeed");
    let c = store
        .get_cluster_by_name(&"mydb".to_string())
        .expect("cluster should exist");
    let mut task = None;
    for node in c.get_nodes() {
        for r in node.get_slots() {
            if matches!(r.tag, SlotRangeTag::Migrating(_)) && task.is_none() {
                task = Some(MigrationTaskMeta {
                    cluster_name: "mydb".to_string(),
                    slot_range: r.clone(),
                });
            }
        }
    }
    let task = task.expect("a staged task should exist");
    let copy = task.clone();
    store.commit_migration(task).expect("first commit should succeed");
    assert_eq!(
        store.commit_migration(copy),
        Err(MetaStoreError::MigrationTaskNotFound)
    );
}

#[test]
fn force_bump_refuses_small_epoch() {
    let mut store = MetaStore::new(false);
    four_proxies(&mut store);
    store.add_cluster("mydb".to_string(), 4).expect("creation should succeed");
    let before = store.get_global_epoch();
    assert_eq!(
        store.force_bump_all_epoch(before),
        Err(MetaStoreError::SmallEpoch)
    );
    assert_eq!(store.get_global_epoch(), before);
    store.force_bump_all_epoch(before + 100).expect("bump should succeed");
    assert_eq!(store.get_global_epoch(), before + 100);
}

#[test]
fn metadata_restore_round_trip() {
    let mut store = MetaStore::new(false);
    four_proxies(&mut store);
    store.add_cluster("mydb".to_string(), 4).expect("creation should succeed");
    let dump = store.clone();
    let mut fresh = MetaStore::new(false);
    fresh.restore(dump).expect("restore should succeed");
    assert_eq!(fresh.get_global_epoch(), store.get_global_epoch());
    let a = fresh.get_cluster_by_name(&"mydb".to_string()).expect("restored cluster");
    let b = store.get_cluster_by_name(&"mydb".to_string()).expect("original cluster");
    assert_eq!(a.get_epoch(), b.get_epoch());
    assert_eq!(a.get_nodes().len(), b.get_nodes().len());
}

#[test]
fn restore_refuses_other_versions() {
    let mut store = MetaStore::new(false);
    let mut bad = MetaStore::new(false);
    bad.version = META_STORE_VERSION + 1;
    assert_eq!(store.restore(bad), Err(MetaStoreError::InvalidMetaVersion));
}

#[test]
fn failure_quorum_and_failover() {
    let mut store = MetaStore::new(false);
    four_proxies(&mut store);
    store.add_cluster("mydb".to_string(), 4).expect("creation should succeed");
    // A spare proxy on a fresh host for the failover.
    add_test_proxy(&mut store, "p9:7000", "h9", None);

    let failed = store.add_cluster("mydb".to_string(), 4);
    assert_eq!(failed, Err(MetaStoreError::AlreadyExisted));

    let now = 1_000_000;
    store.add_failure_at("p1:7000".to_string(), "r1".to_string(), now);
    store.add_failure_at("p1:7000".to_string(), "r2".to_string(), now);
    store.add_failure_at("p1:7000".to_string(), "r3".to_string(), now);
    let failures = store.get_failures_at(60, 3, now + 1);
    assert_eq!(failures, vec!["p1:7000".to_string()]);

    let failed_proxies = store.get_failed_proxies_at(60, 3, now + 1);
    assert_eq!(failed_proxies, vec!["p1:7000".to_string()]);

    // Only p1 and p2 are bound: a four-node cluster is one chunk.  The
    // replacement is a free proxy on a host other than the peer's.
    let replacement = store
        .replace_failed_proxy("p1:7000".to_string())
        .expect("failover should succeed");
    assert_ne!(replacement, "p2:7000".to_string());
    assert!(store.get_proxy_by_address(&"p1:7000".to_string()).is_none());
    let repl = store
        .get_proxy_by_address(&replacement)
        .expect("replacement should be registered");
    assert!(repl.cluster.is_some());
    assert_ne!(repl.host, "h2");
}

#[test]
fn stale_reports_fall_out_of_quorum() {
    let mut store = MetaStore::new(false);
    store.add_failure_at("p1:7000".to_string(), "r1".to_string(), 100);
    store.add_failure_at("p1:7000".to_string(), "r2".to_string(), 100);
    store.add_failure_at("p1:7000".to_string(), "r3".to_string(), 500);
    // At time 600 with a 60-second window only the last witness is fresh.
    let failures = store.get_failures_at(60, 3, 600);
    assert!(failures.is_empty());
    // The same reporter refreshing its witness keeps the count at one.
    store.add_failure_at("p1:7000".to_string(), "r3".to_string(), 580);
    let failures = store.get_failures_at(60, 2, 600);
    assert!(failures.is_empty());
}

#[test]
fn ordered_proxy_rules() {
    let mut store = MetaStore::new(true);
    add_test_proxy(&mut store, "p1:7000", "h1", Some(0));
    add_test_proxy(&mut store, "p2:7000", "h2", Some(1));
    // Index 3 when only 0 and 1 exist is out of order.
    let r = store.add_proxy(
        "p3:7000".to_string(),
        "p3-n1".to_string(),
        "p3-n2".to_string(),
        Some("h3".to_string()),
        Some(3),
    );
    assert_eq!(r, Err(MetaStoreError::ProxyResourceOutOfOrder));
    let r = store.add_proxy(
        "p3:7000".to_string(),
        "p3-n1".to_string(),
        "p3-n2".to_string(),
        Some("h3".to_string()),
        None,
    );
    assert_eq!(r, Err(MetaStoreError::MissingIndex));
    add_test_proxy(&mut store, "p3:7000", "h3", Some(2));
    add_test_proxy(&mut store, "p4:7000", "h4", Some(3));

    store.add_cluster("only".to_string(), 4).expect("creation should succeed");
    add_test_proxy(&mut store, "p5:7000", "h5", Some(4));
    add_test_proxy(&mut store, "p6:7000", "h6", Some(5));
    add_test_proxy(&mut store, "p7:7000", "h7", Some(6));
    add_test_proxy(&mut store, "p8:7000", "h8", Some(7));
    assert_eq!(
        store.add_cluster("second".to_string(), 4),
        Err(MetaStoreError::OneClusterAlreadyExisted)
    );
    assert_eq!(
        store.replace_failed_proxy("p1:7000".to_string()),
        Err(MetaStoreError::OrderedProxyEnabled)
    );
    // Scaling in index order still works.
    store.auto_add_nodes("only".to_string(), 4).expect("scale-up should succeed");
}

#[test]
fn ordered_cluster_runs_short_of_proxies() {
    let mut store = MetaStore::new(true);
    add_test_proxy(&mut store, "p1:7000", "h1", Some(0));
    add_test_proxy(&mut store, "p2:7000", "h2", Some(1));
    assert_eq!(
        store.add_cluster("only".to_string(), 8),
        Err(MetaStoreError::NoAvailableResource)
    );
}

#[test]
fn validation_errors() {
    let mut store = MetaStore::new(false);
    four_proxies(&mut store);
    assert_eq!(
        store.add_cluster("bad name!".to_string(), 4),
        Err(MetaStoreError::InvalidClusterName)
    );
    assert_eq!(
        store.add_cluster("mydb".to_string(), 6),
        Err(MetaStoreError::InvalidNodeNum)
    );
    assert_eq!(
        store.add_cluster("mydb".to_string(), 0),
        Err(MetaStoreError::InvalidNodeNum)
    );
    assert_eq!(
        store.remove_cluster("mydb".to_string()),
        Err(MetaStoreError::ClusterNotFound)
    );
    assert_eq!(
        store.migrate_slots("mydb".to_string()),
        Err(MetaStoreError::ClusterNotFound)
    );
    let r = store.add_proxy(
        "p1:7000".to_string(),
        "n1".to_string(),
        "n2".to_string(),
        None,
        None,
    );
    assert_eq!(r, Err(MetaStoreError::AlreadyExisted));
    let r = store.add_proxy(
        "no-colon".to_string(),
        "n1".to_string(),
        "n2".to_string(),
        None,
        None,
    );
    assert_eq!(r, Err(MetaStoreError::InvalidProxyAddress));
    assert_eq!(
        store.remove_proxy("p9:7000".to_string()),
        Err(MetaStoreError::ProxyNotFound)
    );
    assert_eq!(
        store.replace_failed_proxy("p9:7000".to_string()),
        Err(MetaStoreError::ProxyNotFound)
    );
    assert_eq!(
        store.replace_failed_proxy("p1:7000".to_string()),
        Err(MetaStoreError::NotInUse)
    );

    store.add_cluster("mydb".to_string(), 4).expect("creation should succeed");
    assert_eq!(
        store.remove_proxy("p1:7000".to_string()),
        Err(MetaStoreError::InUse)
    );
    assert_eq!(
        store.migrate_slots("mydb".to_string()),
        Err(MetaStoreError::SlotsAlreadyEven)
    );
    assert_eq!(
        store.audo_delete_free_nodes("mydb".to_string()),
        Err(MetaStoreError::FreeNodeNotFound)
    );
    assert_eq!(
        store.change_config("mydb".to_string(), "".to_string(), "x".to_string()),
        Err(MetaStoreError::InvalidConfig)
    );
    store
        .change_config("mydb".to_string(), "compression".to_string(), "on".to_string())
        .expect("setting a key should succeed");
    assert_eq!(
        store.auto_scale_up_nodes("mydb".to_string(), 4),
        Err(MetaStoreError::NodeNumAlreadyEnough)
    );
    assert_eq!(
        store.migrate_slots_to_scale_down("mydb".to_string(), 4),
        Err(MetaStoreError::NodeNumAlreadyEnough)
    );
    let bad_task = MigrationTaskMeta {
        cluster_name: "mydb".to_string(),
        slot_range: undermoon::slots::SlotRange {
            start: 0,
            end: 1,
            tag: SlotRangeTag::Stable,
        },
    };
    assert_eq!(
        store.commit_migration(bad_task),
        Err(MetaStoreError::InvalidMigrationTask)
    );
}

#[test]
fn migration_running_blocks_other_scaling() {
    let mut store = MetaStore::new(false);
    four_proxies(&mut store);
    store.add_cluster("mydb".to_string(), 4).expect("creation should succeed");
    add_test_proxy(&mut store, "p5:7000", "h5", None);
    add_test_proxy(&mut store, "p6:7000", "h6", None);
    store.auto_add_nodes("mydb".to_string(), 4).expect("adding nodes should succeed");
    store.migrate_slots("mydb".to_string()).expect("expansion should succeed");
    assert_eq!(
        store.migrate_slots("mydb".to_string()),
        Err(MetaStoreError::MigrationRunning)
    );
    assert_eq!(
        store.remove_cluster("mydb".to_string()),
        Err(MetaStoreError::MigrationRunning)
    );
    assert_eq!(
        store.auto_add_nodes("mydb".to_string(), 4),
        Err(MetaStoreError::MigrationRunning)
    );
}

#[test]
fn scale_down_and_delete_free_nodes() {
    let mut store = MetaStore::new(false);
    four_proxies(&mut store);
    add_test_proxy(&mut store, "p5:7000", "h5", None);
    add_test_proxy(&mut store, "p6:7000", "h6", None);
    store.add_cluster("mydb".to_string(), 8).expect("creation should succeed");
    store
        .migrate_slots_to_scale_down("mydb".to_string(), 4)
        .expect("shrink plan should succeed");
    let c = store
        .get_cluster_by_name(&"mydb".to_string())
        .expect("cluster should exist");
    let tasks: Vec<MigrationTaskMeta> = {
        let mut tasks = Vec::new();
        for node in c.get_nodes() {
            for r in node.get_slots() {
                if matches!(r.tag, SlotRangeTag::Migrating(_)) {
                    tasks.push(MigrationTaskMeta {
                        cluster_name: "mydb".to_string(),
                        slot_range: r.clone(),
                    });
                }
            }
        }
        tasks
    };
    assert!(!tasks.is_empty());
    for task in tasks {
        store.commit_migration(task).expect("commit should succeed");
    }
    store
        .audo_delete_free_nodes("mydb".to_string())
        .expect("trailing free chunk should go");
    let c = store
        .get_cluster_by_name(&"mydb".to_string())
        .expect("cluster should exist");
    assert_eq!(c.get_nodes().len(), 4);
    let total: usize = master_ranges(&c).iter().map(|r| r.1 - r.0).sum();
    assert_eq!(total, SLOT_MAX);
    // The freed proxies are registered and free again.
    let freed = store
        .get_proxy_by_address(&"p5:7000".to_string())
        .or_else(|| store.get_proxy_by_address(&"p6:7000".to_string()));
    assert!(freed.map(|p| p.cluster.is_none()).unwrap_or(false));
}

#[test]
fn epoch_recovery_from_gossip() {
    let mut store = MetaStore::new(false);
    store.recover_epoch(10);
    assert_eq!(store.get_global_epoch(), 10);
    // The broker restarted stale while proxies already saw epoch 25.
    let gossip = vec![
        ("p1:7000".to_string(), Some(25u64)),
        ("p2:7000".to_string(), None),
    ];
    let result = undermoon::coordinator::aggregate_epochs(&gossip);
    assert_eq!(result.max_epoch, 25);
    assert_eq!(result.failed_addresses, vec!["p2:7000".to_string()]);
    store.recover_epoch(result.max_epoch + 1);
    assert_eq!(store.get_global_epoch(), 26);
    // Recovery never lowers the epoch.
    store.recover_epoch(5);
    assert_eq!(store.get_global_epoch(), 26);
}

#[test]
fn balance_and_getters() {
    let mut store = MetaStore::new(false);
    four_proxies(&mut store);
    store.add_cluster("mydb".to_string(), 4).expect("creation should succeed");
    store.balance_masters("mydb".to_string()).expect("balance should succeed");
    assert_eq!(
        store.balance_masters("nope".to_string()),
        Err(MetaStoreError::ClusterNotFound)
    );
    let names = store.get_cluster_names_with_pagination(None, None);
    assert_eq!(names, vec!["mydb".to_string()]);
    let addrs = store.get_proxies_with_pagination(Some(1), Some(2));
    assert_eq!(addrs, vec!["p2:7000".to_string(), "p3:7000".to_string()]);
    let info = store
        .get_cluster_info_by_name(&"mydb".to_string())
        .expect("info should exist");
    assert_eq!(info.node_number, 4);
    assert!(!info.is_migrating);
    let p = store
        .get_proxy_by_address(&"p1:7000".to_string())
        .expect("proxy should exist");
    assert_eq!(p.host, "h1");
    assert!(p.cluster.is_some());
}

#[test]
fn host_comes_from_the_address_when_absent() {
    let mut store = MetaStore::new(false);
    store
        .add_proxy(
            "somehost:7000".to_string(),
            "n1".to_string(),
            "n2".to_string(),
            None,
            None,
        )
        .expect("registration should succeed");
    let p = store
        .get_proxy_by_address(&"somehost:7000".to_string())
        .expect("proxy should exist");
    assert_eq!(p.host, "somehost");
}

#[test]
fn global_epoch_strictly_increases_across_mutations() {
    let mut store = MetaStore::new(false);
    let mut last = store.get_global_epoch();
    four_proxies(&mut store);
    assert!(store.get_global_epoch() > last);
    last = store.get_global_epoch();
    store.add_cluster("mydb".to_string(), 4).expect("creation should succeed");
    assert!(store.get_global_epoch() > last);
    last = store.get_global_epoch();
    store.remove_cluster("mydb".to_string()).expect("removal should succeed");
    assert!(store.get_global_epoch() > last);
}

#[test]
fn scale_lock_admits_exactly_one() {
    let mut lock = ScaleLock::new();
    let first = lock.try_lock();
    let second = lock.try_lock();
    assert!(first);
    assert!(!second);
    lock.unlock();
    assert!(lock.try_lock());
}

#[test]
fn wall_clock_failure_reports_are_fresh() {
    // Goes through the wall clock: a witness recorded now is within any
    // generous window, so the quorum of one is met.
    let mut store = MetaStore::new(false);
    store.add_failure("p1:7000".to_string(), "r1".to_string());
    let failures = store.get_failures(1_000_000, 1);
    assert_eq!(failures, vec!["p1:7000".to_string()]);
}

#[test]
fn hosts_without_spares_cannot_fail() {
    let mut store = MetaStore::new(false);
    four_proxies(&mut store);
    store.add_cluster("mydb".to_string(), 4).expect("creation should succeed");
    // p1 (h1) and p2 (h2) are bound; p3 (h3) and p4 (h4) are spares, so
    // every host can fail.
    let checker = undermoon::resource::ResourceChecker::new(store.clone());
    assert!(checker.check_failure_tolerance().is_empty());
    // With the spares gone, losing either cluster host leaves no
    // host-diverse replacement.
    store.remove_proxy("p3:7000".to_string()).expect("removal should succeed");
    store.remove_proxy("p4:7000".to_string()).expect("removal should succeed");
    let checker = undermoon::resource::ResourceChecker::new(store);
    let mut hosts = checker.check_failure_tolerance();
    hosts.sort();
    assert_eq!(hosts, vec!["h1".to_string(), "h2".to_string()]);
}
