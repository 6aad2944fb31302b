use bob::address::{parse_address, parse_decimal};
use bob::api::{change_partition_state, collect_replicas_info, partition_by_id, Action, NetConfig};
use bob::backend::{Backend, StubBackend};
use bob::config::{Cluster, Node as ConfigNode, NodeDisk as ConfigDisk, Replica as ConfigReplica, VDisk as ConfigVDisk, Validatable, YamlConfig};
use bob::data::{print_vec, BobData, BobKey, BobMeta, DiskPath, Node, NodeDisk, Operation, PutOptions, VDiskId};
use bob::error::Error;
use bob::grinder::BobError;
use bob::group::PearlGroup;
use bob::holder::{Holder, HolderState};
use bob::link::{after_check, check_action, CheckAction, LinkManager, LinkState};
use bob::mapper::VDiskMapper;
use bob::metrics::{flush_times, metric_line, process_counter, process_gauge, process_time, CounterEntry, GaugeEntry, MetricInner, MetricsContainer, TimeEntry};
use bob::quorum::{call_error, get_outcome, put_outcome, CallStatus, merge_exist, plan_alien_spills, reconcile_alien, reconcile_get, GetDecision, GetOutcome, NodePutResult};
use bob::settings::{choose_most_recent_data, decimal, get_start_timestamp, Settings, TimestampPeriod};
use bob::sync::{PearlSync, SyncState};

const DAY: u64 = 86400;
const WEEK: u64 = 604800;

fn data(bytes: Vec<u8>, ts: u64) -> BobData {
    BobData::new(bytes, BobMeta::new(ts))
}

fn cluster() -> Cluster {
    Cluster {
        nodes: vec![
            ConfigNode {
                name: "a".to_string(),
                address: "127.0.0.1:20000".to_string(),
                disks: vec![
                    ConfigDisk { name: "d1".to_string(), path: "/tmp/a1".to_string() },
                    ConfigDisk { name: "d2".to_string(), path: "/tmp/a2".to_string() },
                ],
            },
            ConfigNode {
                name: "b".to_string(),
                address: "127.0.0.2:20001".to_string(),
                disks: vec![ConfigDisk { name: "d1".to_string(), path: "/tmp/b1".to_string() }],
            },
        ],
        vdisks: vec![
            ConfigVDisk {
                id: 0,
                replicas: vec![
                    ConfigReplica { node: "a".to_string(), disk: "d1".to_string() },
                    ConfigReplica { node: "b".to_string(), disk: "d1".to_string() },
                ],
            },
            ConfigVDisk {
                id: 1,
                replicas: vec![ConfigReplica { node: "b".to_string(), disk: "d1".to_string() }],
            },
            ConfigVDisk {
                id: 2,
                replicas: vec![ConfigReplica { node: "a".to_string(), disk: "d2".to_string() }],
            },
        ],
    }
}

fn group() -> PearlGroup {
    PearlGroup::new(VDiskId::new(0), "a".to_string(), "d1".to_string(), "/tmp/a1/bob/0/".to_string(), TimestampPeriod::Day, false)
}

#[test]
fn address_parsing() {
    assert_eq!(parse_address(&"127.0.0.1:20000".to_string()), Some(("127.0.0.1".to_string(), 20000)));
    assert_eq!(parse_address(&"h:0".to_string()), Some(("h".to_string(), 0)));
    assert_eq!(parse_address(&"h:65535".to_string()), Some(("h".to_string(), 65535)));
    assert_eq!(parse_address(&"h:65536".to_string()), None);
    assert_eq!(parse_address(&"nocolon".to_string()), None);
    assert_eq!(parse_address(&":80".to_string()), None);
    assert_eq!(parse_address(&"h:".to_string()), None);
    assert_eq!(parse_address(&"h:8a".to_string()), None);
    assert_eq!(parse_address(&"h:1:2".to_string()), None);
}

#[test]
fn config_validation() {
    let c = cluster();
    assert!(c.validate());
    let mut dup_vdisk = cluster();
    dup_vdisk.vdisks[1].id = 0;
    assert!(!dup_vdisk.validate());
    let mut dup_node = cluster();
    dup_node.nodes[1].name = "a".to_string();
    assert!(!dup_node.validate());
    let mut dup_disk = cluster();
    dup_disk.nodes[0].disks[1].name = "d1".to_string();
    assert!(!dup_disk.validate());
    let mut unknown_disk = cluster();
    unknown_disk.vdisks[1].replicas[0].disk = "d9".to_string();
    assert!(!unknown_disk.validate());
    let mut unknown_node = cluster();
    unknown_node.vdisks[1].replicas[0].node = "z".to_string();
    assert!(!unknown_node.validate());
    let mut tilde = cluster();
    tilde.nodes[0].disks[0].path = "~".to_string();
    assert!(!tilde.validate());
    let mut dup_replica = cluster();
    dup_replica.vdisks[0].replicas[1].node = "a".to_string();
    assert!(!dup_replica.validate());
    let empty = Cluster { nodes: vec![], vdisks: vec![] };
    assert!(!empty.validate());
}

#[test]
fn mapper_rejects_invalid_config() {
    let mut dup_vdisk = cluster();
    dup_vdisk.vdisks[1].id = 0;
    assert!(matches!(VDiskMapper::new(&dup_vdisk, &"a".to_string()), Err(Error::InvalidConfig(_))));
    assert!(matches!(VDiskMapper::new(&cluster(), &"zz".to_string()), Err(Error::InvalidConfig(_))));
    let mut bad_address = cluster();
    bad_address.nodes[1].address = "127.0.0.2".to_string();
    assert!(matches!(VDiskMapper::new(&bad_address, &"a".to_string()), Err(Error::InvalidConfig(_))));
}

#[test]
fn mapper_routing() {
    let m = VDiskMapper::new(&cluster(), &"a".to_string()).unwrap();
    assert_eq!(m.vdisks_count(), 3);
    assert_eq!(m.vdisk_id_for_key(7), VDiskId::new(1));
    assert_eq!(m.get_target_nodes(3), vec!["a".to_string(), "b".to_string()]);
    assert_eq!(m.get_vdisks_by_disk(&"d1".to_string()), vec![VDiskId::new(0)]);
    assert_eq!(m.get_vdisks_by_disk(&"d2".to_string()), vec![VDiskId::new(2)]);
    assert!(m.is_vdisk_on_node(&"b".to_string(), VDiskId::new(1)));
    assert!(!m.is_vdisk_on_node(&"a".to_string(), VDiskId::new(1)));
    let local = m.get_operation(0).unwrap();
    assert!(!local.alien);
    assert_eq!(local.disk_name_local, Some("d1".to_string()));
    let alien = m.get_operation(1).unwrap();
    assert!(alien.alien);
    assert_eq!(alien.remote_node_name, Some("b".to_string()));
    assert_eq!(m.nodes[1].host, "127.0.0.2");
    assert_eq!(m.nodes[1].port, 20001);
    assert_eq!(m.vdisks[0].replicas[1].disk_path, "/tmp/b1");
}

#[test]
fn yaml_config_conversion() {
    let y = YamlConfig {};
    let v = y.get_cluster_config(&cluster()).unwrap();
    assert_eq!(v.len(), 3);
    assert_eq!(v[2].replicas[0].disk_path, "/tmp/a2");
    let mut bad = cluster();
    bad.vdisks[1].id = 0;
    assert!(y.get_cluster_config(&bad).is_none());
}

#[test]
fn day_and_week_partitions() {
    let start = 100 * DAY;
    assert_eq!(get_start_timestamp(TimestampPeriod::Day, start + DAY - 1), Some(start));
    assert_eq!(get_start_timestamp(TimestampPeriod::Day, start + DAY), Some(start + DAY));
    assert_eq!(get_start_timestamp(TimestampPeriod::Day, 1), Some(0));
    // 1970-01-05 was a Monday
    let monday = 4 * DAY;
    assert_eq!(get_start_timestamp(TimestampPeriod::Week, monday), Some(monday));
    assert_eq!(get_start_timestamp(TimestampPeriod::Week, monday + WEEK - 1), Some(monday));
    assert_eq!(get_start_timestamp(TimestampPeriod::Week, monday + WEEK), Some(monday + WEEK));
    // 2024-01-03 (Wednesday) 12:00 UTC lies in the week of Monday 2024-01-01
    assert_eq!(get_start_timestamp(TimestampPeriod::Week, 1704283200), Some(1704067200));
    // the week of the epoch starts before it
    assert_eq!(get_start_timestamp(TimestampPeriod::Week, 0), None);
    assert_eq!(get_start_timestamp(TimestampPeriod::Day, u64::MAX), None);
}

#[test]
fn paths_and_decimals() {
    assert_eq!(decimal(0), "0");
    assert_eq!(decimal(1234567890), "1234567890");
    assert_eq!(decimal(u64::MAX), "18446744073709551615");
    let s = Settings::new(&"bob".to_string(), &"/mnt/d1".to_string(), &"alien".to_string(), TimestampPeriod::Day);
    assert_eq!(s.alien_folder, "/mnt/d1/alien/");
    assert_eq!(s.normal_path(&"/mnt/d2".to_string(), VDiskId::new(12)), "/mnt/d2/bob/12/");
    assert_eq!(s.alien_path(VDiskId::new(3), &"node7".to_string()), "/mnt/d1/alien/node7/3/");
    assert_eq!(s.timestamp_period_as_secs(), DAY);
    assert_eq!(s.get_actual_timestamp_start(DAY + 1), Some(DAY));
}

#[test]
fn most_recent_data() {
    assert!(choose_most_recent_data(vec![]).is_none());
    let d = choose_most_recent_data(vec![data(vec![1], 5), data(vec![2], 9), data(vec![3], 7)]).unwrap();
    assert_eq!(d.data, vec![2]);
    // of equal timestamps, the last
    let d = choose_most_recent_data(vec![data(vec![1], 9), data(vec![2], 9)]).unwrap();
    assert_eq!(d.data, vec![2]);
}

#[test]
fn holder_life_cycle() {
    let mut h = Holder::new("/tmp/x/0/".to_string(), 0, DAY);
    assert_eq!(h.get_state(), HolderState::Initializing);
    assert!(matches!(h.write(1, data(vec![1], 1)), Err(Error::VDiskIsNotReady)));
    assert!(matches!(h.read(1), Err(Error::VDiskIsNotReady)));
    assert!(matches!(h.exist(&vec![1]), Err(Error::VDiskIsNotReady)));
    h.prepare();
    assert!(h.is_ready());
    assert!(h.write(1, data(vec![1], 1)).is_ok());
    assert!(matches!(h.read(2), Err(Error::KeyNotFound)));
    assert_eq!(h.exist(&vec![1, 2]).unwrap(), vec![true, false]);
    assert!(h.try_reinit());
    assert!(!h.try_reinit());
    assert_eq!(h.get_state(), HolderState::Initializing);
    h.prepare();
    // the data survives a reopen
    assert_eq!(h.read(1).unwrap().data, vec![1]);
}

#[test]
fn group_errors_and_order() {
    let mut g = group();
    // a partition found on disk, not yet opened
    assert_eq!(g.add(2 * DAY).unwrap(), 0);
    assert!(matches!(g.add(2 * DAY + 1), Err(Error::Failed(_))));
    assert!(matches!(g.put(1, data(vec![1], 2 * DAY + 10)), Err(Error::VDiskIsNotReady)));
    assert!(matches!(g.get(1), Err(Error::Failed(_))));
    g.run(0);
    assert!(matches!(g.get(1), Err(Error::KeyNotFound)));
    assert!(g.put(1, data(vec![1], 2 * DAY + 10)).is_ok());
    assert!(g.put(1, data(vec![2], DAY + 10)).is_ok());
    // holders stay ordered: [0, DAY), [DAY, 2 DAY), [2 DAY, 3 DAY)
    assert_eq!(g.holders_count(), 3);
    for i in 0..3 {
        assert_eq!(g.holder(i).start(), i as u64 * DAY);
        assert_eq!(g.holder(i).end(), (i as u64 + 1) * DAY);
    }
    assert_eq!(g.holder(2).path(), "/tmp/a1/bob/0/172800/");
    // the newest value wins
    assert_eq!(g.get(1).unwrap().data, vec![1]);
    assert_eq!(g.exist(&vec![1, 5]), vec![true, false]);
    assert!(matches!(g.put(2, data(vec![1], u64::MAX)), Err(Error::Failed(_))));
    assert!(g.create_pearl_by_path("/p/".to_string(), 5).is_none());
    assert!(g.create_pearl_by_path("/p/".to_string(), 5 * DAY).is_some());
}

#[test]
fn backend_dispatch_errors() {
    let m = VDiskMapper::new(&cluster(), &"a".to_string()).unwrap();
    let s = Settings::new(&"bob".to_string(), &"/tmp/a1".to_string(), &"alien".to_string(), TimestampPeriod::Day);
    let mut b = Backend::new(&m, s, &"d1".to_string());
    b.run(0);
    assert_eq!(b.normal_count(), 2);
    let missing = Operation::new_local(VDiskId::new(1), &"d1".to_string());
    assert!(matches!(b.put(&missing, 1, data(vec![1], 1)), Err(Error::VDiskNotFound(1))));
    assert!(matches!(b.get(&missing, 1), Err(Error::VDiskNotFound(1))));
    assert!(matches!(b.exist(&missing, &vec![1]), Err(Error::VDiskNotFound(1))));
    let alien = Operation::new_alien(VDiskId::new(1), &"b".to_string());
    assert!(matches!(b.get(&alien, 1), Err(Error::KeyNotFound)));
    assert_eq!(b.exist(&alien, &vec![1]).unwrap(), vec![false]);
    assert!(b.put(&alien, 1, data(vec![4], 4)).is_ok());
    assert_eq!(b.alien_count(), 1);
    assert_eq!(b.alien_group(0).meta().directory_path, "/tmp/a1/alien/b/1/");
    assert_eq!(b.get(&alien, 1).unwrap().data, vec![4]);
    let tasks = b.alien_drain_tasks();
    assert_eq!(tasks.len(), 1);
    assert_eq!(tasks[0].owner, "b");
    assert_eq!(tasks[0].key, 1);
    assert_eq!(tasks[0].data.data, vec![4]);
}

#[test]
fn stub_backend_answers() {
    let stub = StubBackend {};
    let op = Operation::new_local(VDiskId::new(0), &"d".to_string());
    assert!(stub.put(&op, 1, data(vec![], 1)).is_ok());
    let d = stub.get(&op, 1).unwrap();
    assert_eq!(d.data, vec![0]);
    assert_eq!(d.meta.timestamp, 1);
    assert_eq!(stub.exist(&op, &vec![1, 2]).unwrap(), vec![false, false]);
}

#[test]
fn quorum_helpers() {
    let results = vec![
        NodePutResult { node_name: "a".to_string(), ok: true },
        NodePutResult { node_name: "b".to_string(), ok: false },
        NodePutResult { node_name: "c".to_string(), ok: true },
        NodePutResult { node_name: "d".to_string(), ok: false },
        NodePutResult { node_name: "e".to_string(), ok: false },
    ];
    let spills = plan_alien_spills(&results, &"a".to_string());
    let pairs: Vec<(String, String)> = spills.into_iter().map(|s| (s.target, s.owner)).collect();
    assert_eq!(
        pairs,
        vec![
            ("c".to_string(), "b".to_string()),
            ("c".to_string(), "d".to_string()),
            ("c".to_string(), "e".to_string()),
        ]
    );
    let r = merge_exist(3, &vec![vec![true, false, false], vec![false, false], vec![false, false, true]]);
    assert_eq!(r, vec![true, false, true]);
}

#[test]
fn read_reconciliation() {
    match reconcile_get(vec![GetOutcome::Found(data(vec![1], 3)), GetOutcome::NotFound, GetOutcome::Found(data(vec![2], 8))]) {
        GetDecision::Value(d) => assert_eq!(d.data, vec![2]),
        other => panic!("unexpected {:?}", other),
    }
    assert!(matches!(reconcile_get(vec![GetOutcome::Failed, GetOutcome::NotFound]), GetDecision::RetryAlien));
    assert!(matches!(reconcile_get(vec![GetOutcome::Failed, GetOutcome::Failed]), GetDecision::GetFailed));
    assert!(matches!(reconcile_get(vec![]), GetDecision::KeyNotFound));
    assert!(matches!(reconcile_alien(vec![GetOutcome::NotFound]), Err(Error::KeyNotFound)));
    assert_eq!(reconcile_alien(vec![GetOutcome::Found(data(vec![5], 1))]).unwrap().data, vec![5]);
}

#[test]
fn error_classification() {
    assert!(!Error::is_put_error_need_restart(Some(&Error::DuplicateKey)));
    assert!(!Error::is_put_error_need_restart(Some(&Error::VDiskIsNotReady)));
    assert!(Error::is_put_error_need_restart(Some(&Error::StorageError("x".to_string()))));
    assert!(!Error::is_put_error_need_restart(None));
    assert!(!Error::is_get_error_need_restart(Some(&Error::KeyNotFound)));
    assert!(Error::is_get_error_need_restart(Some(&Error::Timeout)));
    assert!(matches!(BobError::Local(Error::KeyNotFound).error(), BobError::NotFound));
    assert!(matches!(BobError::Cluster(Error::Unreachable).error(), BobError::Other));
    assert!(BobError::Cluster(Error::GetFailed).is_cluster());
    assert!(BobError::Local(Error::GetFailed).is_local());
}

#[test]
fn metrics_aggregation() {
    let mut counters: Vec<CounterEntry> = Vec::new();
    process_counter(&mut counters, MetricInner { key: "c".to_string(), value: 2, timestamp: 10 });
    process_counter(&mut counters, MetricInner { key: "c".to_string(), value: 3, timestamp: 11 });
    assert_eq!(counters.len(), 1);
    assert_eq!((counters[0].sum, counters[0].timestamp), (5, 11));
    let mut gauges: Vec<GaugeEntry> = Vec::new();
    process_gauge(&mut gauges, MetricInner { key: "g".to_string(), value: 2, timestamp: 1 });
    process_gauge(&mut gauges, MetricInner { key: "g".to_string(), value: 7, timestamp: 2 });
    assert_eq!(gauges[0].value, 7);
    let mut times: Vec<TimeEntry> = Vec::new();
    process_time(&mut times, MetricInner { key: "t".to_string(), value: 10, timestamp: 1 });
    process_time(&mut times, MetricInner { key: "t".to_string(), value: 20, timestamp: 2 });
    let lines = flush_times(&mut times);
    assert_eq!(lines, vec!["t 15 2\n".to_string()]);
    // without new measurements the last mean is sent again
    assert_eq!(flush_times(&mut times), vec!["t 15 2\n".to_string()]);
    assert_eq!(metric_line(&"k".to_string(), 5, 7), "k 5 7\n");
    let m = MetricsContainer::new(1000, "127.0.0.1".to_string());
    assert_eq!(m.get_metrics(&"b".to_string()), "127.0.0.1.b");
    assert_eq!(CounterEntry::new("x".to_string(), 3).sum, 0);
    assert_eq!(TimeEntry::new("x".to_string(), 3).measurements_amount, 0);
}

#[test]
fn small_values() {
    assert_eq!(BobKey::new(5).key, 5);
    assert_eq!(BobMeta::new_stub().timestamp, 1);
    assert_eq!(BobMeta::new_value(4).timestamp, 4);
    assert_eq!(DiskPath::new("d", "/p").path, "/p");
    assert_eq!(print_vec(&vec!["a".to_string(), "b".to_string()]), "a,b");
    assert_eq!(print_vec(&vec![]), "");
    let n = Node::new("n", "10.0.0.1", 8080);
    assert_eq!(n.get_uri(), "http://10.0.0.1:8080");
    assert_eq!(n.counter_display(), "10_0_0_1:8080");
    assert_eq!(NetConfig { port: 20000, target: "h".to_string() }.get_uri(), "http://h:20000");
    let p = PutOptions::new_client();
    assert!(p.force_node && !p.overwrite && p.remote_nodes.is_empty());
    assert_eq!(Action::from_param("attach"), Some(Action::Attach));
    assert_eq!(Action::from_param("detach"), Some(Action::Detach));
    assert_eq!(Action::from_param("other"), None);
    assert_eq!(partition_by_id(3, 4), "partition 4 of vdisk 3");
    assert_eq!(change_partition_state(3, 4, Action::Detach), "Detach partition 4 of vdisk 3");
    let reps = collect_replicas_info(&vec![NodeDisk { node_name: "a".to_string(), disk_name: "d".to_string(), disk_path: "/p".to_string() }]);
    assert_eq!((reps[0].node.as_str(), reps[0].disk.as_str(), reps[0].path.as_str()), ("a", "d", "/p"));
    let mut latch = PearlSync::new();
    assert!(latch.try_init());
    assert!(!latch.try_init());
    latch.mark_as_created();
    assert_eq!(latch.state, SyncState::Created);
}

#[test]
fn decimal_parsing() {
    assert_eq!(parse_decimal(&"0".to_string()), Some(0));
    assert_eq!(parse_decimal(&"1704067200".to_string()), Some(1704067200));
    assert_eq!(parse_decimal(&"18446744073709551615".to_string()), Some(u64::MAX));
    assert_eq!(parse_decimal(&"18446744073709551616".to_string()), None);
    assert_eq!(parse_decimal(&"".to_string()), None);
    assert_eq!(parse_decimal(&"12a".to_string()), None);
}

#[test]
fn period_names() {
    assert_eq!(TimestampPeriod::from_config("1d"), Some(TimestampPeriod::Day));
    assert_eq!(TimestampPeriod::from_config("1w"), Some(TimestampPeriod::Week));
    assert_eq!(TimestampPeriod::from_config("1h"), None);
}

#[test]
fn peer_answers() {
    assert!(matches!(call_error(CallStatus::TimedOut, "x".to_string()), Error::Timeout));
    assert!(matches!(call_error(CallStatus::NoConnection, "x".to_string()), Error::Unreachable));
    assert!(matches!(call_error(CallStatus::NotFound, "x".to_string()), Error::KeyNotFound));
    match call_error(CallStatus::Internal, "boom".to_string()) {
        Error::RemoteError(m) => assert_eq!(m, "boom"),
        other => panic!("unexpected {:?}", other),
    }
    assert!(put_outcome("b".to_string(), CallStatus::Success).ok);
    assert!(!put_outcome("b".to_string(), CallStatus::Unavailable).ok);
    assert!(matches!(get_outcome(CallStatus::Success, Some(data(vec![1], 1))), GetOutcome::Found(_)));
    assert!(matches!(get_outcome(CallStatus::NotFound, None), GetOutcome::NotFound));
    assert!(matches!(get_outcome(CallStatus::Success, None), GetOutcome::Failed));
    assert!(matches!(get_outcome(CallStatus::InvalidArgument, None), GetOutcome::Failed));
}

#[test]
fn alien_groups_found_on_disk() {
    let m = VDiskMapper::new(&cluster(), &"a".to_string()).unwrap();
    let s = Settings::new(&"bob".to_string(), &"/tmp/a1".to_string(), &"alien".to_string(), TimestampPeriod::Day);
    let mut b = Backend::new(&m, s, &"d1".to_string());
    assert_eq!(b.add_alien_group(&m, &"b".to_string(), VDiskId::new(1)).unwrap(), 0);
    // the same group again
    assert_eq!(b.add_alien_group(&m, &"b".to_string(), VDiskId::new(1)).unwrap(), 0);
    assert!(matches!(b.add_alien_group(&m, &"b".to_string(), VDiskId::new(2)), Err(Error::Failed(_))));
    assert!(matches!(b.add_alien_group(&m, &"zz".to_string(), VDiskId::new(1)), Err(Error::Failed(_))));
    assert_eq!(b.alien_count(), 1);
}

#[test]
fn exist_by_vdisk_buckets() {
    let m = VDiskMapper::new(&cluster(), &"a".to_string()).unwrap();
    let keys = vec![0u64, 1, 3, 5, 4];
    let buckets = m.exist_buckets(&keys);
    assert_eq!(buckets.len(), 3);
    assert_eq!(buckets[0].vdisk_id, VDiskId::new(0));
    assert_eq!(buckets[0].keys, vec![0, 3]);
    assert_eq!(buckets[0].positions, vec![0, 2]);
    assert_eq!(buckets[1].keys, vec![1, 4]);
    assert_eq!(buckets[1].positions, vec![1, 4]);
    assert_eq!(buckets[2].keys, vec![5]);
    let acc = vec![false; 5];
    let acc = bob::quorum::apply_bucket_answer(&acc, &buckets[0], &vec![false, true]);
    let acc = bob::quorum::apply_bucket_answer(&acc, &buckets[1], &vec![true, false]);
    // an answer of the wrong length changes nothing
    let acc = bob::quorum::apply_bucket_answer(&acc, &buckets[2], &vec![true, true]);
    assert_eq!(acc, vec![false, true, true, false, false]);
}

#[test]
fn link_health_checks() {
    assert_eq!(check_action(LinkState::Disconnected), CheckAction::Connect);
    assert_eq!(check_action(LinkState::Connected), CheckAction::Ping);
    assert_eq!(after_check(LinkState::Connected, false), LinkState::Disconnected);
    assert_eq!(after_check(LinkState::Disconnected, true), LinkState::Connected);
    let mut lm = LinkManager::new(vec!["b".to_string(), "c".to_string()]);
    assert!(!lm.get_connection(&"b".to_string()));
    assert_eq!(lm.check_round(), vec![CheckAction::Connect, CheckAction::Connect]);
    lm.apply_round(&vec![true, false]);
    assert!(lm.get_connection(&"b".to_string()));
    assert!(!lm.get_connection(&"c".to_string()));
    assert_eq!(lm.check_round(), vec![CheckAction::Ping, CheckAction::Connect]);
    lm.apply_round(&vec![false, true]);
    assert!(!lm.get_connection(&"b".to_string()));
    assert!(lm.get_connection(&"c".to_string()));
}

#[test]
fn run_keeps_loaded_partitions() {
    let mut g = group();
    g.add(3 * DAY).unwrap();
    g.add(DAY).unwrap();
    g.run(10 * DAY + 1);
    assert_eq!(g.holders_count(), 3);
    assert_eq!(g.holder(0).start(), DAY);
    assert_eq!(g.holder(1).start(), 3 * DAY);
    assert_eq!(g.holder(2).start(), 10 * DAY);
    for i in 0..3 {
        assert!(g.holder(i).is_ready());
    }
}

#[test]
fn backend_put_leaves_other_groups() {
    let m = VDiskMapper::new(&cluster(), &"a".to_string()).unwrap();
    let s = Settings::new(&"bob".to_string(), &"/tmp/a1".to_string(), &"alien".to_string(), TimestampPeriod::Day);
    let mut b = Backend::new(&m, s, &"d1".to_string());
    b.run(0);
    let op0 = Operation::new_local(VDiskId::new(0), &"d1".to_string());
    let op2 = Operation::new_local(VDiskId::new(2), &"d2".to_string());
    assert!(b.put(&op0, 1, data(vec![1], 5)).is_ok());
    assert!(matches!(b.get(&op2, 1), Err(Error::KeyNotFound)));
    assert_eq!(b.exist(&op2, &vec![1]).unwrap(), vec![false]);
}

#[test]
fn add_range_keeps_order() {
    let mut g = group();
    assert!(g.add_range(&vec![5 * DAY, DAY, 3 * DAY, DAY]).is_ok());
    assert_eq!(g.holders_count(), 3);
    let starts: Vec<u64> = (0..3).map(|i| g.holder(i).start()).collect();
    assert_eq!(starts, vec![DAY, 3 * DAY, 5 * DAY]);
    for i in 0..2 {
        assert!(g.holder(i).end() <= g.holder(i + 1).start());
    }
    // one bad start: nothing is added
    assert!(matches!(g.add_range(&vec![7 * DAY, 7 * DAY + 1]), Err(Error::Failed(_))));
    assert_eq!(g.holders_count(), 3);
}
