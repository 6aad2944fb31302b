use bob::backend::Backend;
use bob::config::{Cluster, Node as ConfigNode, NodeDisk as ConfigDisk, Replica as ConfigReplica, VDisk as ConfigVDisk};
use bob::data::{BobData, BobMeta, Operation, VDiskId};
use bob::error::Error;
use bob::data::BobOptions;
use bob::grinder::{ClusterPut, Grinder, GrinderGet, GrinderPut};
use bob::mapper::VDiskMapper;
use bob::quorum::{finish_put, GetDecision, NodePutResult};
use bob::settings::{Settings, TimestampPeriod};

const DAY: u64 = 86400;

fn node(name: &str, address: &str, disks: &[(&str, &str)]) -> ConfigNode {
    ConfigNode {
        name: name.to_string(),
        address: address.to_string(),
        disks: disks
            .iter()
            .map(|(n, p)| ConfigDisk { name: n.to_string(), path: p.to_string() })
            .collect(),
    }
}

fn vdisk(id: u32, replicas: &[(&str, &str)]) -> ConfigVDisk {
    ConfigVDisk {
        id,
        replicas: replicas
            .iter()
            .map(|(n, d)| ConfigReplica { node: n.to_string(), disk: d.to_string() })
            .collect(),
    }
}

fn grinder_for(cluster: &Cluster, local: &str, quorum: u64) -> Grinder {
    let mapper = VDiskMapper::new(cluster, &local.to_string()).unwrap();
    let settings = Settings::new(
        &"bob".to_string(),
        &"/tmp/d1".to_string(),
        &"alien".to_string(),
        TimestampPeriod::Day,
    );
    let mut backend = Backend::new(&mapper, settings, &"d1".to_string());
    backend.run(5);
    Grinder::new(mapper, backend, quorum)
}

fn single_node() -> Cluster {
    Cluster {
        nodes: vec![node("local_node", "127.0.0.1:20000", &[("disk1", "/tmp/d1")])],
        vdisks: vec![vdisk(0, &[("local_node", "disk1")])],
    }
}

fn three_nodes() -> Cluster {
    Cluster {
        nodes: vec![
            node("a", "10.0.0.1:20000", &[("d1", "/tmp/a1")]),
            node("b", "10.0.0.2:20000", &[("d1", "/tmp/b1")]),
            node("c", "10.0.0.3:20000", &[("d1", "/tmp/c1")]),
        ],
        vdisks: vec![vdisk(0, &[("a", "d1"), ("b", "d1"), ("c", "d1")])],
    }
}

fn data(bytes: Vec<u8>, ts: u64) -> BobData {
    BobData::new(bytes, BobMeta::new(ts))
}

fn value(decision: GetDecision) -> BobData {
    match decision {
        GetDecision::Value(d) => d,
        other => panic!("no value: {:?}", other),
    }
}

#[test]
fn test_write_multiple_read() {
    let cluster = single_node();
    let mapper = VDiskMapper::new(&cluster, &"local_node".to_string()).unwrap();
    let settings = Settings::new(&"bob".to_string(), &"/tmp/d1".to_string(), &"alien".to_string(), TimestampPeriod::Day);
    let mut backend = Backend::new(&mapper, settings, &"disk1".to_string());
    backend.run(0);
    let operation = Operation::new_local(VDiskId::new(0), &"disk1".to_string());
    let write = backend.put(&operation, 1, data(vec![], 1));
    assert!(write.is_ok());
    let read = backend.get(&operation, 1);
    assert_eq!(1, read.unwrap().meta.timestamp);
    let read = backend.get(&operation, 1);
    assert_eq!(1, read.unwrap().meta.timestamp);
    let res = backend.get(&operation, 1);
    assert_eq!(1, res.unwrap().meta.timestamp);
    let res = backend.get(&operation, 1);
    assert_eq!(1, res.unwrap().meta.timestamp);
}

#[test]
fn single_node_round_trip() {
    let mut g = grinder_for(&single_node(), "local_node", 1);
    match g.put_clustered(1, data(vec![], 1), &vec![]) {
        ClusterPut::Done(s, spills) => {
            assert_eq!((s.ok, s.total, s.quorum), (1, 1, 1));
            assert!(spills.is_empty());
        }
        other => panic!("unexpected {:?}", other),
    }
    let d = value(g.get_clustered(1, vec![]));
    assert!(d.data.is_empty());
    assert_eq!(d.meta.timestamp, 1);
}

#[test]
fn newer_put_wins() {
    let mut g = grinder_for(&single_node(), "local_node", 1);
    assert!(matches!(g.put_clustered(1, data(vec![0xAA], 100), &vec![]), ClusterPut::Done(..)));
    assert!(matches!(g.put_clustered(1, data(vec![0xBB], 200), &vec![]), ClusterPut::Done(..)));
    let d = value(g.get_clustered(1, vec![]));
    assert_eq!(d.data, vec![0xBB]);
    assert_eq!(d.meta.timestamp, 200);
}

#[test]
fn two_replicas_one_down_fails_quorum() {
    let cluster = Cluster {
        nodes: vec![
            node("a", "10.0.0.1:20000", &[("d1", "/tmp/a1")]),
            node("b", "10.0.0.2:20000", &[("d1", "/tmp/b1")]),
        ],
        vdisks: vec![vdisk(0, &[("a", "d1"), ("b", "d1")])],
    };
    let mut g = grinder_for(&cluster, "a", 2);
    assert_eq!(g.remote_targets(7), vec!["b".to_string()]);
    let remote = vec![NodePutResult { node_name: "b".to_string(), ok: false }];
    let (ok, total, spills) = match g.put_clustered(7, data(vec![0x01], 10), &remote) {
        ClusterPut::NeedSpills { ok, total, spills } => (ok, total, spills),
        other => panic!("unexpected {:?}", other),
    };
    assert_eq!((ok, total), (1, 2));
    assert!(spills.is_empty());
    match finish_put(ok, 0, total, 2) {
        Err(Error::QuorumFailed { ok, total, quorum }) => assert_eq!((ok, total, quorum), (1, 2, 2)),
        other => panic!("unexpected {:?}", other),
    }
    let local = g.get_local(7).unwrap();
    assert_eq!(local.data, vec![0x01]);
}

#[test]
fn three_replicas_one_down_spills_and_drains() {
    let cluster = three_nodes();
    let mut a = grinder_for(&cluster, "a", 2);
    let mut b = grinder_for(&cluster, "b", 2);
    let mut c = grinder_for(&cluster, "c", 2);
    // b stores its replica; c is down
    assert!(b.put_local(42, data(vec![0x09], 50)).is_ok());
    let remote = vec![
        NodePutResult { node_name: "b".to_string(), ok: true },
        NodePutResult { node_name: "c".to_string(), ok: false },
    ];
    let spills = match a.put_clustered(42, data(vec![0x09], 50), &remote) {
        ClusterPut::Done(s, spills) => {
            assert_eq!((s.ok, s.total, s.quorum), (2, 3, 2));
            spills
        }
        other => panic!("unexpected {:?}", other),
    };
    assert_eq!(spills.len(), 1);
    assert_eq!(spills[0].target, "b");
    assert_eq!(spills[0].owner, "c");
    // b keeps the value for c in its alien area
    let alien_op = Operation::new_alien(VDiskId::new(0), &"c".to_string());
    assert!(b.backend.put(&alien_op, 42, data(vec![0x09], 50)).is_ok());
    // c recovers; the drain reads the alien copy and writes it to its owner
    let drained = b.backend.get(&alien_op, 42).unwrap();
    assert!(c.put_local(42, drained).is_ok());
    let on_c = c.get_local(42).unwrap();
    assert_eq!(on_c.data, vec![0x09]);
    assert_eq!(on_c.meta.timestamp, 50);
}

#[test]
fn exist_mixed_keys() {
    let mut g = grinder_for(&single_node(), "local_node", 1);
    assert!(matches!(g.put_clustered(1, data(vec![1], 1), &vec![]), ClusterPut::Done(..)));
    assert!(matches!(g.put_clustered(3, data(vec![3], 1), &vec![]), ClusterPut::Done(..)));
    let r = g.exist_clustered(&vec![1, 2, 3, 4], &vec![]);
    assert_eq!(r, vec![true, false, true, false]);
}

#[test]
fn timestamp_partition_rollover() {
    let mut g = grinder_for(&single_node(), "local_node", 1);
    let day0 = 100 * DAY;
    let day1 = day0 + DAY;
    assert!(g.put_local(100, data(vec![0], day0 + 5)).is_ok());
    assert!(g.put_local(100, data(vec![1], day1 + 5)).is_ok());
    let group = g.backend.normal_group(0);
    // the holder made at start for time 5, and one for each day written
    assert_eq!(group.holders_count(), 3);
    let h1 = group.holder(1);
    let h2 = group.holder(2);
    assert_eq!((h1.start(), h1.end()), (day0, day1));
    assert_eq!((h2.start(), h2.end()), (day1, day1 + DAY));
    let d = g.get_local(100).unwrap();
    assert_eq!(d.data, vec![1]);
    assert_eq!(d.meta.timestamp, day1 + 5);
}

#[test]
fn full_quorum_needs_every_replica() {
    assert!(finish_put(3, 0, 3, 3).is_ok());
    match finish_put(2, 0, 3, 3) {
        Err(Error::QuorumFailed { ok, total, quorum }) => assert_eq!((ok, total, quorum), (2, 3, 3)),
        other => panic!("unexpected {:?}", other),
    }
}

#[test]
fn all_replicas_down_with_quorum_one() {
    let cluster = Cluster {
        nodes: vec![
            node("a", "10.0.0.1:20000", &[("d1", "/tmp/a1")]),
            node("b", "10.0.0.2:20000", &[("d1", "/tmp/b1")]),
            node("c", "10.0.0.3:20000", &[("d1", "/tmp/c1")]),
        ],
        vdisks: vec![vdisk(0, &[("b", "d1"), ("c", "d1")])],
    };
    let mut g = grinder_for(&cluster, "a", 1);
    let remote = vec![
        NodePutResult { node_name: "b".to_string(), ok: false },
        NodePutResult { node_name: "c".to_string(), ok: false },
    ];
    let (ok, total, spills) = match g.put_clustered(5, data(vec![5], 5), &remote) {
        ClusterPut::NeedSpills { ok, total, spills } => (ok, total, spills),
        other => panic!("unexpected {:?}", other),
    };
    assert_eq!((ok, total), (0, 2));
    assert!(spills.is_empty());
    match finish_put(ok, 0, total, 1) {
        Err(Error::QuorumFailed { ok, total, quorum }) => assert_eq!((ok, total, quorum), (0, 2, 1)),
        other => panic!("unexpected {:?}", other),
    }
}

#[test]
fn read_after_forced_write_is_as_recent() {
    let mut g = grinder_for(&single_node(), "local_node", 1);
    assert!(g.put_local(9, data(vec![7], 70)).is_ok());
    let d = g.get_local(9).unwrap();
    assert!(d.meta.timestamp >= 70);
    assert_eq!(d.data, vec![7]);
}

#[test]
fn routing_is_deterministic() {
    let m1 = VDiskMapper::new(&three_nodes(), &"a".to_string()).unwrap();
    let m2 = VDiskMapper::new(&three_nodes(), &"b".to_string()).unwrap();
    for k in [0u64, 1, 42, u64::MAX] {
        assert_eq!(m1.vdisk_id_for_key(k), m2.vdisk_id_for_key(k));
        assert_eq!(m1.get_target_nodes(k), m2.get_target_nodes(k));
    }
    assert_eq!(m1.get_target_nodes(42), vec!["a".to_string(), "b".to_string(), "c".to_string()]);
}

#[test]
fn facade_routes_by_force_node() {
    let mut g = grinder_for(&single_node(), "local_node", 1);
    let forced = BobOptions { force_node: true };
    let routed = BobOptions { force_node: false };
    assert!(matches!(g.put(5, data(vec![5], 50), forced, &vec![]), GrinderPut::Local(Ok(()))));
    assert!(matches!(g.put(6, data(vec![6], 60), routed, &vec![]), GrinderPut::Cluster(ClusterPut::Done(..))));
    match g.get(5, forced, vec![]) {
        GrinderGet::Local(Ok(d)) => assert_eq!(d.data, vec![5]),
        other => panic!("unexpected {:?}", other),
    }
    match g.get(6, routed, vec![]) {
        GrinderGet::Cluster(GetDecision::Value(d)) => assert_eq!(d.data, vec![6]),
        other => panic!("unexpected {:?}", other),
    }
    assert_eq!(g.exist(&vec![5, 6, 7], forced, &vec![]), vec![true, true, false]);
    assert_eq!(g.exist(&vec![5, 7], routed, &vec![vec![false, true]]), vec![true, true]);
}

#[test]
fn forced_write_without_local_replica_fails() {
    // key 0 lives on b and c only, so a has no group for it
    let cluster = Cluster {
        nodes: vec![
            node("a", "10.0.0.1:20000", &[("d1", "/tmp/a1")]),
            node("b", "10.0.0.2:20000", &[("d1", "/tmp/b1")]),
        ],
        vdisks: vec![vdisk(0, &[("b", "d1")])],
    };
    let mut a = grinder_for(&cluster, "a", 1);
    // routed to the alien area kept for b
    assert!(a.put_local(0, data(vec![1], 1)).is_ok());
    // a value whose partition cannot be represented fails with the backend's error
    assert!(matches!(a.put_local(0, data(vec![1], u64::MAX)), Err(bob::grinder::BobError::Local(Error::Failed(_)))));
}

#[test]
fn alien_area_answers_second_read_pass() {
    let cluster = three_nodes();
    let mut a = grinder_for(&cluster, "a", 2);
    let alien_op = Operation::new_alien(VDiskId::new(0), &"c".to_string());
    assert!(a.backend.put(&alien_op, 8, data(vec![8], 80)).is_ok());
    let d = a.get_clustered_alien(8, vec![]).unwrap();
    assert_eq!(d.data, vec![8]);
    assert!(matches!(a.get_clustered_alien(9, vec![]), Err(Error::KeyNotFound)));
    // a remote answer newer than the local alien copy wins
    let d = a.get_clustered_alien(8, vec![bob::quorum::GetOutcome::Found(data(vec![9], 90))]).unwrap();
    assert_eq!(d.data, vec![9]);
}
