use vstd::prelude::*;

use crate::address::{address_valid, dec_value, parse_address, splits_address};
use crate::config::{Cluster, Validatable};
use crate::data::{DiskPath, Node, NodeDisk, Operation, VDisk, VDiskId};
use crate::error::Error;

verus! {

/// Entries of `s` in order of first appearance, without repeats.
pub open spec fn dedup(s: Seq<Seq<char>>) -> Seq<Seq<char>>
    decreases s.len(),
{
    if s.len() == 0 {
        Seq::empty()
    } else {
        let d = dedup(s.drop_last());
        if d.contains(s.last()) {
            d
        } else {
            d.push(s.last())
        }
    }
}

/// `dedup` leaves no entry twice, and keeps only entries of its argument.
pub proof fn lemma_dedup_distinct(s: Seq<Seq<char>>)
    ensures
        crate::config::all_distinct(dedup(s)),
        forall|y: Seq<char>| dedup(s).contains(y) ==> s.contains(y),
    decreases s.len(),
{
    if s.len() > 0 {
        let t = s.drop_last();
        lemma_dedup_distinct(t);
        let d = dedup(t);
        assert forall|y: Seq<char>| d.contains(y) implies s.contains(y) by {
            assert(t.contains(y));
            let k = choose|k: int| 0 <= k < t.len() && t[k] == y;
            assert(s[k] == y);
        }
        if !d.contains(s.last()) {
            let nd = d.push(s.last());
            assert forall|a: int, b: int| 0 <= a < b < nd.len() implies nd[a] != nd[b] by {
                if b == nd.len() - 1 {
                    assert(d.contains(nd[a]));
                }
            }
            assert forall|y: Seq<char>| nd.contains(y) implies s.contains(y) by {
                let k = choose|k: int| 0 <= k < nd.len() && nd[k] == y;
                if k < d.len() {
                    assert(d.contains(y));
                } else {
                    assert(s[s.len() - 1] == y);
                }
            }
        }
    }
}

/// The node names of a vdisk's replicas, in replica order.
pub open spec fn replica_nodes(v: VDisk) -> Seq<Seq<char>> {
    v.replicas@.map_values(|r: NodeDisk| r.node_name@)
}

/// The replica stands on the disk `disk` of the node `node`.
pub open spec fn replica_on(r: NodeDisk, node: Seq<char>, disk: Seq<char>) -> bool {
    r.node_name@ == node && r.disk_name@ == disk
}

/// The ids, in vdisk order, of the vdisks with a replica on `disk` of `node`.
pub open spec fn vdisks_on(vdisks: Seq<VDisk>, node: Seq<char>, disk: Seq<char>) -> Seq<u32>
    decreases vdisks.len(),
{
    if vdisks.len() == 0 {
        Seq::empty()
    } else {
        let rest = vdisks_on(vdisks.drop_last(), node, disk);
        if exists|r: int|
            0 <= r < vdisks.last().replicas@.len() && replica_on(
                #[trigger] vdisks.last().replicas@[r],
                node,
                disk,
            ) {
            rest.push(vdisks.last().id.id)
        } else {
            rest
        }
    }
}

/// `r` is the configured vdisk `c`: same id, same replicas in the same order.
pub open spec fn converted(r: VDisk, c: crate::config::VDisk) -> bool {
    &&& r.id.id == c.id
    &&& r.replicas@.len() == c.replicas@.len()
    &&& forall|i: int|
        0 <= i < r.replicas@.len() ==> {
            &&& #[trigger] r.replicas@[i].node_name@ == c.replicas@[i].node@
            &&& r.replicas@[i].disk_name@ == c.replicas@[i].disk@
        }
}

/// Position `i` holds the first replica on `node`.
pub open spec fn first_on_node(reps: Seq<NodeDisk>, node: Seq<char>, i: int) -> bool {
    &&& 0 <= i < reps.len()
    &&& reps[i].node_name@ == node
    &&& forall|k: int| 0 <= k < i ==> reps[k].node_name@ != node
}

/// `op` writes to the disk of the first replica on the node `local`.
pub open spec fn served_by_first_local(reps: Seq<NodeDisk>, local: Seq<char>, op: Operation) -> bool {
    exists|i: int|
        #[trigger] first_on_node(reps, local, i) && op.disk_name_local.unwrap()@ == reps[i].disk_name@
}

/// The keys of one EXIST request that one vdisk serves, with their positions
/// in the request.
#[derive(Debug, Clone)]
pub struct ExistBucket {
    pub vdisk_id: VDiskId,
    pub keys: Vec<u64>,
    pub positions: Vec<usize>,
}

impl ExistBucket {
    pub open spec fn wf_for(&self, m: VDiskMapper, keys: Seq<u64>) -> bool {
        &&& self.keys@.len() == self.positions@.len()
        &&& forall|j: int|
            0 <= j < self.positions@.len() ==> (#[trigger] self.positions@[j]) < keys.len() && keys[self.positions@[j] as int]
                == self.keys@[j] && m.spec_vdisk_id_for_key(self.keys@[j]) == self.vdisk_id.id
    }
}

/// Position `p` of the request is in some bucket.
pub open spec fn placed(buckets: Seq<ExistBucket>, p: int) -> bool {
    exists|b: int, j: int|
        0 <= b < buckets.len() && 0 <= j < buckets[b].positions@.len() && #[trigger] buckets[b].positions@[j] == p
}

/// `disks` are the disks of the configured node `n`: names and paths, in order.
pub open spec fn local_disks_of(disks: Seq<DiskPath>, n: crate::config::Node) -> bool {
    &&& disks.len() == n.disks@.len()
    &&& forall|j: int|
        0 <= j < disks.len() ==> (#[trigger] disks[j]).name@ == n.disks@[j].name@ && disks[j].path@
            == n.disks@[j].path@
}

/// Static topology: vdisks, their replicas and the identity of this node.
#[derive(Debug, Clone)]
pub struct VDiskMapper {
    pub local_node_name: String,
    pub local_node_address: String,
    pub local_disks: Vec<DiskPath>,
    pub vdisks: Vec<VDisk>,
    pub nodes: Vec<Node>,
}

impl VDiskMapper {
    pub open spec fn wf(&self) -> bool {
        &&& self.vdisks@.len() > 0
        &&& self.vdisks@.len() <= u32::MAX
    }

    /// The vdisk that serves key `k`: `k mod N` for N vdisks.
    pub open spec fn spec_vdisk_id_for_key(&self, k: u64) -> u32 {
        (k % (self.vdisks@.len() as u64)) as u32
    }

    /// Position of the first vdisk with the given id.
    pub open spec fn is_first_with_id(&self, i: int, id: u32) -> bool {
        &&& 0 <= i < self.vdisks@.len()
        &&& self.vdisks@[i].id.id == id
        &&& forall|k: int| 0 <= k < i ==> self.vdisks@[k].id.id != id
    }

    pub open spec fn has_id(&self, id: u32) -> bool {
        exists|i: int| 0 <= i < self.vdisks@.len() && self.vdisks@[i].id.id == id
    }

    /// Builds the topology from the cluster configuration, as seen by the node
    /// `node_name`. Fails with `InvalidConfig` where the configuration is not
    /// valid, names no such node, or holds an address that is not `host:port`.
    pub fn new(cluster: &Cluster, node_name: &String) -> (r: Result<VDiskMapper, Error>)
        ensures
            r.is_ok() <==> {
                &&& cluster.valid()
                &&& exists|n: int|
                    0 <= n < cluster.nodes@.len() && #[trigger] cluster.nodes@[n].name@
                        == node_name@
                &&& forall|n: int|
                    0 <= n < cluster.nodes@.len() ==> address_valid(
                        #[trigger] cluster.nodes@[n].address@,
                    )
                &&& cluster.vdisks@.len() <= u32::MAX
            },
            r is Err ==> r->Err_0 is InvalidConfig,
            r matches Ok(m) ==> {
                &&& m.wf()
                &&& m.local_node_name@ == node_name@
                &&& exists|n: int|
                    0 <= n < cluster.nodes@.len() && #[trigger] cluster.nodes@[n].name@ == node_name@
                        && local_disks_of(m.local_disks@, cluster.nodes@[n])
                &&& m.vdisks@.len() == cluster.vdisks@.len()
                &&& forall|v: int|
                    0 <= v < m.vdisks@.len() ==> converted(#[trigger] m.vdisks@[v], cluster.vdisks@[v])
                &&& m.nodes@.len() == cluster.nodes@.len()
                &&& forall|n: int|
                    0 <= n < m.nodes@.len() ==> {
                        let a = cluster.nodes@[n].address@;
                        let h = (#[trigger] m.nodes@[n]).host@.len();
                        &&& m.nodes@[n].name@ == cluster.nodes@[n].name@
                        &&& splits_address(a, h as int)
                        &&& m.nodes@[n].host@ == a.subrange(0, h as int)
                        &&& m.nodes@[n].port as nat == dec_value(a.subrange((h + 1) as int, a.len() as int))
                    }
            },
    {
        if !cluster.validate() {
            return Err(Error::InvalidConfig(String::from_str("cluster configuration is not valid")));
        }
        let local = match cluster.find_node(node_name) {
            Some(i) => i,
            None => {
                return Err(Error::InvalidConfig(String::from_str("local node is not in the cluster")));
            },
        };
        if cluster.vdisks.len() > 4294967295 {
            return Err(Error::InvalidConfig(String::from_str("too many vdisks")));
        }
        let mut nodes: Vec<Node> = Vec::new();
        let mut n: usize = 0;
        while n < cluster.nodes.len()
            invariant
                n <= cluster.nodes@.len(),
                nodes@.len() == n,
                forall|k: int| 0 <= k < n ==> address_valid(#[trigger] cluster.nodes@[k].address@),
                forall|k: int|
                    0 <= k < n ==> {
                        let a = cluster.nodes@[k].address@;
                        let h = (#[trigger] nodes@[k]).host@.len();
                        &&& nodes@[k].name@ == cluster.nodes@[k].name@
                        &&& splits_address(a, h as int)
                        &&& nodes@[k].host@ == a.subrange(0, h as int)
                        &&& nodes@[k].port as nat == dec_value(a.subrange((h + 1) as int, a.len() as int))
                    },
            decreases cluster.nodes@.len() - n,
        {
            let cn = &cluster.nodes[n];
            match parse_address(&cn.address) {
                Some((host, port)) => {
                    nodes.push(Node { name: cn.name.clone(), host, port });
                },
                None => {
                    return Err(Error::InvalidConfig(String::from_str("node address is not host:port")));
                },
            }
            n = n + 1;
        }
        let local_node = &cluster.nodes[local];
        let mut local_disks: Vec<DiskPath> = Vec::new();
        let mut d: usize = 0;
        while d < local_node.disks.len()
            invariant
                d <= local_node.disks@.len(),
                local_disks@.len() == d,
                forall|j: int|
                    0 <= j < d ==> (#[trigger] local_disks@[j]).name@ == local_node.disks@[j].name@
                        && local_disks@[j].path@ == local_node.disks@[j].path@,
            decreases local_node.disks@.len() - d,
        {
            local_disks.push(
                DiskPath { name: local_node.disks[d].name.clone(), path: local_node.disks[d].path.clone() },
            );
            d = d + 1;
        }
        assert(local_disks_of(local_disks@, cluster.nodes@[local as int]));
        let vdisks = Self::convert_vdisks(cluster);
        Ok(VDiskMapper {
            local_node_name: node_name.clone(),
            local_node_address: local_node.address.clone(),
            local_disks,
            vdisks,
            nodes,
        })
    }

    /// The configured vdisks with each replica's disk path looked up in its node.
    pub fn convert_vdisks(cluster: &Cluster) -> (r: Vec<VDisk>)
        requires
            cluster.valid(),
        ensures
            r@.len() == cluster.vdisks@.len(),
            forall|v: int| 0 <= v < r@.len() ==> converted(#[trigger] r@[v], cluster.vdisks@[v]),
    {
        let mut result: Vec<VDisk> = Vec::with_capacity(cluster.vdisks.len());
        let mut v: usize = 0;
        while v < cluster.vdisks.len()
            invariant
                v <= cluster.vdisks@.len(),
                result@.len() == v,
                forall|k: int| 0 <= k < v ==> converted(#[trigger] result@[k], cluster.vdisks@[k]),
            decreases cluster.vdisks@.len() - v,
        {
            let cv = &cluster.vdisks[v];
            let mut replicas: Vec<NodeDisk> = Vec::with_capacity(cv.replicas.len());
            let mut i: usize = 0;
            while i < cv.replicas.len()
                invariant
                    i <= cv.replicas@.len(),
                    replicas@.len() == i,
                    forall|j: int|
                        0 <= j < i ==> {
                            &&& #[trigger] replicas@[j].node_name@ == cv.replicas@[j].node@
                            &&& replicas@[j].disk_name@ == cv.replicas@[j].disk@
                        },
                decreases cv.replicas@.len() - i,
            {
                let rep = &cv.replicas[i];
                let path = Self::disk_path_of(cluster, &rep.node, &rep.disk);
                replicas.push(
                    NodeDisk { node_name: rep.node.clone(), disk_name: rep.disk.clone(), disk_path: path },
                );
                i = i + 1;
            }
            let vd = VDisk { id: VDiskId { id: cv.id }, replicas };
            assert(converted(vd, *cv));
            result.push(vd);
            v = v + 1;
        }
        result
    }

    /// The path of the disk `disk` of the node `node`; empty where there is none.
    fn disk_path_of(cluster: &Cluster, node: &String, disk: &String) -> (r: String)
        ensures
            r@.len() > 0 ==> exists|n: int, d: int|
                0 <= n < cluster.nodes@.len() && 0 <= d < cluster.nodes@[n].disks@.len()
                    && cluster.nodes@[n].name@ == node@ && cluster.nodes@[n].disks@[d].name@
                    == disk@ && #[trigger] cluster.nodes@[n].disks@[d].path@ == r@,
    {
        match cluster.find_node(node) {
            Some(n) => {
                let nd = &cluster.nodes[n];
                let mut d: usize = 0;
                while d < nd.disks.len()
                    invariant
                        n < cluster.nodes@.len(),
                        *nd == cluster.nodes@[n as int],
                        nd.name@ == node@,
                        d <= nd.disks@.len(),
                    decreases nd.disks@.len() - d,
                {
                    if nd.disks[d].name == *disk {
                        assert(cluster.nodes@[n as int].disks@[d as int].path@ == nd.disks@[d as int].path@);
                        return nd.disks[d].path.clone();
                    }
                    d = d + 1;
                }
                String::new()
            },
            None => String::new(),
        }
    }

    pub fn vdisks_count(&self) -> (r: usize)
        ensures
            r == self.vdisks@.len(),
    {
        self.vdisks.len()
    }

    /// The vdisk that serves `key`.
    pub fn vdisk_id_for_key(&self, key: u64) -> (r: VDiskId)
        requires
            self.wf(),
        ensures
            r.id == self.spec_vdisk_id_for_key(key),
    {
        VDiskId { id: (key % (self.vdisks.len() as u64)) as u32 }
    }

    /// Position of the first vdisk with id `id`.
    pub fn find_vdisk(&self, id: VDiskId) -> (r: Option<usize>)
        ensures
            match r {
                Some(i) => self.is_first_with_id(i as int, id.id),
                None => !self.has_id(id.id),
            },
    {
        let mut i: usize = 0;
        while i < self.vdisks.len()
            invariant
                i <= self.vdisks@.len(),
                forall|k: int| 0 <= k < i ==> self.vdisks@[k].id.id != id.id,
            decreases self.vdisks@.len() - i,
        {
            if self.vdisks[i].id.id == id.id {
                return Some(i);
            }
            i = i + 1;
        }
        None
    }

    /// The distinct node names of the replicas of the vdisk that serves `key`,
    /// in replica order; empty where no vdisk has that id.
    pub fn get_target_nodes(&self, key: u64) -> (r: Vec<String>)
        requires
            self.wf(),
        ensures
            match self.spec_target_index(key) {
                Some(i) => r@.map_values(|s: String| s@) == dedup(replica_nodes(self.vdisks@[i])),
                None => r@.len() == 0,
            },
    {
        let id = self.vdisk_id_for_key(key);
        match self.find_vdisk(id) {
            Some(i) => Self::distinct_nodes(&self.vdisks[i]),
            None => Vec::new(),
        }
    }

    proof fn lemma_first_exists(&self, id: u32, w: int)
        requires
            0 <= w < self.vdisks@.len(),
            self.vdisks@[w].id.id == id,
        ensures
            exists|i: int| self.is_first_with_id(i, id),
        decreases w,
    {
        if exists|k: int| 0 <= k < w && self.vdisks@[k].id.id == id {
            let k = choose|k: int| 0 <= k < w && self.vdisks@[k].id.id == id;
            self.lemma_first_exists(id, k);
        } else {
            assert(self.is_first_with_id(w, id));
        }
    }

    proof fn lemma_first_unique(&self, v: int, id: u32)
        requires
            self.is_first_with_id(v, id),
        ensures
            self.has_id(id),
            forall|w: int| self.is_first_with_id(w, id) ==> w == v,
    {
        assert forall|w: int| self.is_first_with_id(w, id) implies w == v by {
            if w < v {
                assert(self.vdisks@[w].id.id != id);
            } else if w > v {
                assert(self.vdisks@[v].id.id != id);
            }
        }
    }

    /// Position of the vdisk that serves `key`, if the topology has it.
    pub open spec fn spec_target_index(&self, key: u64) -> Option<int> {
        let id = self.spec_vdisk_id_for_key(key);
        if self.has_id(id) {
            Some(choose|i: int| self.is_first_with_id(i, id))
        } else {
            None
        }
    }

    /// The node names of the vdisk's replicas, first appearances only.
    pub fn distinct_nodes(vdisk: &VDisk) -> (r: Vec<String>)
        ensures
            r@.map_values(|s: String| s@) == dedup(replica_nodes(*vdisk)),
    {
        let ghost names = replica_nodes(*vdisk);
        let mut out: Vec<String> = Vec::new();
        let mut i: usize = 0;
        while i < vdisk.replicas.len()
            invariant
                i <= vdisk.replicas@.len(),
                names == replica_nodes(*vdisk),
                out@.map_values(|s: String| s@) == dedup(names.subrange(0, i as int)),
            decreases vdisk.replicas@.len() - i,
        {
            let ghost prev = names.subrange(0, i as int);
            let name = &vdisk.replicas[i].node_name;
            let mut found = false;
            let mut j: usize = 0;
            while j < out.len()
                invariant
                    j <= out@.len(),
                    found == exists|k: int| 0 <= k < j && out@[k]@ == name@,
                decreases out@.len() - j,
            {
                if out[j] == *name {
                    found = true;
                }
                j = j + 1;
            }
            let ghost d = dedup(prev);
            assert(names.subrange(0, i + 1).drop_last() =~= prev);
            assert(names.subrange(0, i + 1).last() == name@);
            if found {
                let ghost k = choose|k: int| 0 <= k < j && out@[k]@ == name@;
                assert(d[k] == name@);
            } else {
                assert(!d.contains(name@)) by {
                    if d.contains(name@) {
                        let k = choose|k: int| 0 <= k < d.len() && d[k] == name@;
                        assert(out@[k]@ == name@);
                    }
                }
                out.push(name.clone());
                assert(out@.map_values(|s: String| s@) =~= d.push(name@));
            }
            i = i + 1;
        }
        assert(names.subrange(0, i as int) =~= names);
        out
    }

    /// Ids of the vdisks with a replica on the local disk `disk_name`, in vdisk order.
    pub fn get_vdisks_by_disk(&self, disk_name: &String) -> (r: Vec<VDiskId>)
        ensures
            r@.map_values(|v: VDiskId| v.id) == vdisks_on(
                self.vdisks@,
                self.local_node_name@,
                disk_name@,
            ),
    {
        let mut out: Vec<VDiskId> = Vec::new();
        let mut v: usize = 0;
        while v < self.vdisks.len()
            invariant
                v <= self.vdisks@.len(),
                out@.map_values(|x: VDiskId| x.id) == vdisks_on(
                    self.vdisks@.subrange(0, v as int),
                    self.local_node_name@,
                    disk_name@,
                ),
            decreases self.vdisks@.len() - v,
        {
            let vd = &self.vdisks[v];
            let found = Self::has_replica_on(vd, &self.local_node_name, disk_name);
            let ghost pre = self.vdisks@.subrange(0, v as int);
            assert(self.vdisks@.subrange(0, v + 1).drop_last() =~= pre);
            assert(self.vdisks@.subrange(0, v + 1).last() == *vd);
            if found {
                out.push(vd.id);
                assert(out@.map_values(|x: VDiskId| x.id) =~= vdisks_on(
                    pre,
                    self.local_node_name@,
                    disk_name@,
                ).push(vd.id.id));
            }
            v = v + 1;
        }
        assert(self.vdisks@.subrange(0, v as int) =~= self.vdisks@);
        out
    }

    /// Whether some replica of `vdisk` stands on `disk` of `node`.
    pub fn has_replica_on(vdisk: &VDisk, node: &String, disk: &String) -> (r: bool)
        ensures
            r == exists|i: int|
                0 <= i < vdisk.replicas@.len() && replica_on(
                    #[trigger] vdisk.replicas@[i],
                    node@,
                    disk@,
                ),
    {
        let mut i: usize = 0;
        while i < vdisk.replicas.len()
            invariant
                i <= vdisk.replicas@.len(),
                forall|k: int| 0 <= k < i ==> !replica_on(#[trigger] vdisk.replicas@[k], node@, disk@),
            decreases vdisk.replicas@.len() - i,
        {
            if vdisk.replicas[i].node_name == *node && vdisk.replicas[i].disk_name == *disk {
                return true;
            }
            i = i + 1;
        }
        false
    }

    /// Whether the node `node_name` holds a replica of the vdisk `vdisk_id`.
    pub fn is_vdisk_on_node(&self, node_name: &String, vdisk_id: VDiskId) -> (r: bool)
        ensures
            r == exists|v: int, i: int|
                0 <= v < self.vdisks@.len() && self.vdisks@[v].id == vdisk_id && 0 <= i
                    < self.vdisks@[v].replicas@.len()
                    && #[trigger] self.vdisks@[v].replicas@[i].node_name@ == node_name@,
    {
        let mut v: usize = 0;
        while v < self.vdisks.len()
            invariant
                v <= self.vdisks@.len(),
                forall|a: int, i: int|
                    0 <= a < v && self.vdisks@[a].id == vdisk_id && 0 <= i
                        < self.vdisks@[a].replicas@.len() ==> #[trigger] self.vdisks@[a].replicas@[i].node_name@
                        != node_name@,
            decreases self.vdisks@.len() - v,
        {
            if self.vdisks[v].id.id == vdisk_id.id {
                let vd = &self.vdisks[v];
                let mut i: usize = 0;
                while i < vd.replicas.len()
                    invariant
                        v < self.vdisks@.len(),
                        *vd == self.vdisks@[v as int],
                        self.vdisks@[v as int].id == vdisk_id,
                        forall|a: int, i: int|
                            0 <= a < v && self.vdisks@[a].id == vdisk_id && 0 <= i
                                < self.vdisks@[a].replicas@.len() ==> #[trigger] self.vdisks@[a].replicas@[i].node_name@
                                != node_name@,
                        i <= vd.replicas@.len(),
                        forall|k: int| 0 <= k < i ==> #[trigger] vd.replicas@[k].node_name@ != node_name@,
                    decreases vd.replicas@.len() - i,
                {
                    if vd.replicas[i].node_name == *node_name {
                        assert(self.vdisks@[v as int].replicas@[i as int].node_name@ == node_name@);
                        return true;
                    }
                    i = i + 1;
                }
            }
            v = v + 1;
        }
        false
    }

    /// Where this node serves `key`: on the disk of the first replica of the
    /// key's vdisk that lives on this node, else in the alien area of the first
    /// replica's node. `None` where the topology has no such vdisk or it has no
    /// replica.
    pub fn get_operation(&self, key: u64) -> (r: Option<Operation>)
        requires
            self.wf(),
        ensures
            self.spec_target_index(key) is None ==> r is None,
            self.spec_target_index(key) matches Some(v) ==> (r is None ==> self.vdisks@[v].replicas@.len() == 0),
            self.spec_target_index(key) matches Some(v) ==> (r matches Some(op) ==> {
                &&& op.wf()
                &&& op.vdisk_id == self.vdisks@[v].id
            }),
            self.spec_target_index(key) matches Some(v) ==> (r matches Some(op) ==> (op.alien ==> {
                let reps = self.vdisks@[v].replicas@;
                &&& 0 < reps.len()
                &&& forall|i: int| 0 <= i < reps.len() ==> #[trigger] reps[i].node_name@ != self.local_node_name@
                &&& op.remote_node_name.unwrap()@ == reps[0].node_name@
            })),
            self.spec_target_index(key) matches Some(v) ==> (r matches Some(op) ==> (!op.alien
                ==> served_by_first_local(self.vdisks@[v].replicas@, self.local_node_name@, op))),
    {
        let id = self.vdisk_id_for_key(key);
        let v = match self.find_vdisk(id) {
            Some(v) => v,
            None => {
                return None;
            },
        };
        proof {
            self.lemma_first_unique(v as int, id.id);
            assert(self.spec_target_index(key) == Some(v as int));
        }
        let vd = &self.vdisks[v];
        let mut i: usize = 0;
        while i < vd.replicas.len()
            invariant
                v < self.vdisks@.len(),
                self.spec_target_index(key) == Some(v as int),
                *vd == self.vdisks@[v as int],
                i <= vd.replicas@.len(),
                forall|k: int| 0 <= k < i ==> #[trigger] vd.replicas@[k].node_name@ != self.local_node_name@,
            decreases vd.replicas@.len() - i,
        {
            if vd.replicas[i].node_name == self.local_node_name {
                let op = Operation::new_local(vd.id, &vd.replicas[i].disk_name);
                assert(first_on_node(self.vdisks@[v as int].replicas@, self.local_node_name@, i as int));
                assert(op.disk_name_local.unwrap()@ == self.vdisks@[v as int].replicas@[i as int].disk_name@);
                assert(!op.alien);
                assert(op.vdisk_id == self.vdisks@[v as int].id);
                assert(self.spec_target_index(key) == Some(v as int));
                assert(first_on_node(self.vdisks@[v as int].replicas@, self.local_node_name@, i as int));
                assert(op.disk_name_local.unwrap()@ == self.vdisks@[v as int].replicas@[i as int].disk_name@);
                assert(served_by_first_local(self.vdisks@[v as int].replicas@, self.local_node_name@, op));
                assert(op.wf());
                return Some(op);
            }
            i = i + 1;
        }
        if vd.replicas.len() == 0 {
            None
        } else {
            Some(Operation::new_alien(vd.id, &vd.replicas[0].node_name))
        }
    }

    /// The local disk named `name`.
    pub fn get_disk(&self, name: &String) -> (r: Option<&DiskPath>)
        ensures
            r matches Some(d) ==> exists|i: int|
                0 <= i < self.local_disks@.len() && *d == self.local_disks@[i] && d.name@ == name@
                    && forall|k: int| 0 <= k < i ==> self.local_disks@[k].name@ != name@,
            r is None ==> forall|i: int|
                0 <= i < self.local_disks@.len() ==> self.local_disks@[i].name@ != name@,
    {
        let mut i: usize = 0;
        while i < self.local_disks.len()
            invariant
                i <= self.local_disks@.len(),
                forall|k: int| 0 <= k < i ==> self.local_disks@[k].name@ != name@,
            decreases self.local_disks@.len() - i,
        {
            if self.local_disks[i].name == *name {
                return Some(&self.local_disks[i]);
            }
            i = i + 1;
        }
        None
    }

    /// Some node of the topology is named `name`.
    pub open spec fn has_node(&self, name: Seq<char>) -> bool {
        exists|i: int| 0 <= i < self.nodes@.len() && self.nodes@[i].name@ == name
    }

    /// The node named `name`.
    pub fn get_node(&self, name: &String) -> (r: Option<&Node>)
        ensures
            r matches Some(n) ==> n.name@ == name@,
            r is Some <==> self.has_node(name@),
    {
        let mut i: usize = 0;
        while i < self.nodes.len()
            invariant
                i <= self.nodes@.len(),
                forall|k: int| 0 <= k < i ==> self.nodes@[k].name@ != name@,
            decreases self.nodes@.len() - i,
        {
            if self.nodes[i].name == *name {
                assert(self.nodes@[i as int].name@ == name@);
                return Some(&self.nodes[i]);
            }
            i = i + 1;
        }
        None
    }

    /// The keys of an EXIST request grouped by the vdisk that serves them:
    /// one bucket per vdisk, each position of the request in one bucket.
    pub fn exist_buckets(&self, keys: &Vec<u64>) -> (r: Vec<ExistBucket>)
        requires
            self.wf(),
        ensures
            forall|b: int| 0 <= b < r@.len() ==> (#[trigger] r@[b]).wf_for(*self, keys@),
            forall|p: int| 0 <= p < keys@.len() ==> placed(r@, p),
            forall|a: int, b: int| 0 <= a < b < r@.len() ==> r@[a].vdisk_id != r@[b].vdisk_id,
    {
        let mut buckets: Vec<ExistBucket> = Vec::new();
        let mut p: usize = 0;
        while p < keys.len()
            invariant
                self.wf(),
                p <= keys@.len(),
                forall|b: int| 0 <= b < buckets@.len() ==> (#[trigger] buckets@[b]).wf_for(*self, keys@),
                forall|q: int| 0 <= q < p ==> placed(buckets@, q),
                forall|a: int, b: int| 0 <= a < b < buckets@.len() ==> buckets@[a].vdisk_id != buckets@[b].vdisk_id,
            decreases keys@.len() - p,
        {
            let key = keys[p];
            let vid = self.vdisk_id_for_key(key);
            let mut b: usize = 0;
            while b < buckets.len() && buckets[b].vdisk_id.id != vid.id
                invariant
                    p < keys@.len(),
                    b <= buckets@.len(),
                    forall|c: int| 0 <= c < b ==> buckets@[c].vdisk_id.id != vid.id,
                    forall|c: int| 0 <= c < buckets@.len() ==> (#[trigger] buckets@[c]).wf_for(*self, keys@),
                    forall|q: int| 0 <= q < p ==> placed(buckets@, q),
                    forall|a: int, c: int| 0 <= a < c < buckets@.len() ==> buckets@[a].vdisk_id != buckets@[c].vdisk_id,
                decreases buckets@.len() - b,
            {
                b = b + 1;
            }
            let ghost before = buckets@;
            assert(forall|q: int| 0 <= q < p ==> placed(before, q));
            if b < buckets.len() {
                let mut bucket = buckets.remove(b);
                let ghost old_bucket = bucket;
                bucket.keys.push(key);
                bucket.positions.push(p);
                proof {
                    assert forall|j: int| 0 <= j < bucket.positions@.len() implies (#[trigger] bucket.positions@[j]) < keys@.len()
                        && keys@[bucket.positions@[j] as int] == bucket.keys@[j] && self.spec_vdisk_id_for_key(bucket.keys@[j])
                        == bucket.vdisk_id.id by {
                        if j < old_bucket.positions@.len() {
                            assert(bucket.positions@[j] == old_bucket.positions@[j]);
                            assert(bucket.keys@[j] == old_bucket.keys@[j]);
                        }
                    }
                }
                buckets.insert(b, bucket);
                proof {
                    assert(buckets@ == before.update(b as int, bucket));
                    assert forall|q: int| 0 <= q < p + 1 implies placed(buckets@, q) by {
                        if q < p {
                            assert(placed(before, q));
                            let (c, j) = choose|c: int, j: int|
                                0 <= c < before.len() && 0 <= j < before[c].positions@.len() && #[trigger] before[c].positions@[j] == q;
                            if c == b {
                                assert(buckets@[c].positions@[j] == q);
                            } else {
                                assert(buckets@[c] == before[c]);
                            }
                        } else {
                            assert(buckets@[b as int].positions@[old_bucket.positions@.len() as int] == q);
                        }
                    }
                }
            } else {
                let mut ks: Vec<u64> = Vec::new();
                ks.push(key);
                let mut ps: Vec<usize> = Vec::new();
                ps.push(p);
                buckets.push(ExistBucket { vdisk_id: vid, keys: ks, positions: ps });
                proof {
                    assert forall|q: int| 0 <= q < p + 1 implies placed(buckets@, q) by {
                        if q < p {
                            assert(placed(before, q));
                            let (c, j) = choose|c: int, j: int|
                                0 <= c < before.len() && 0 <= j < before[c].positions@.len() && #[trigger] before[c].positions@[j] == q;
                            assert(buckets@[c] == before[c]);
                        } else {
                            assert(buckets@[before.len() as int].positions@[0] == q);
                        }
                    }
                    assert forall|a: int, c: int| 0 <= a < c < buckets@.len() implies buckets@[a].vdisk_id != buckets@[c].vdisk_id by {
                        if c == before.len() {
                            assert(buckets@[a] == before[a]);
                        } else {
                            assert(buckets@[a] == before[a]);
                            assert(buckets@[c] == before[c]);
                        }
                    }
                }
            }
            p = p + 1;
        }
        buckets
    }

    /// Routing depends on the key and the topology alone: two mappers with
    /// the same vdisks send a key to the same vdisk and the same replicas.
    pub proof fn law_routing_deterministic(m1: VDiskMapper, m2: VDiskMapper, k: u64)
        requires
            m1.vdisks@ == m2.vdisks@,
        ensures
            m1.spec_vdisk_id_for_key(k) == m2.spec_vdisk_id_for_key(k),
            m1.spec_target_index(k) == m2.spec_target_index(k),
            m1.spec_target_index(k) matches Some(i) ==> dedup(replica_nodes(m1.vdisks@[i])) == dedup(
                replica_nodes(m2.vdisks@[i]),
            ),
    {
        let id = m1.spec_vdisk_id_for_key(k);
        if m1.has_id(id) {
            let w = choose|w: int| 0 <= w < m1.vdisks@.len() && m1.vdisks@[w].id.id == id;
            m1.lemma_first_exists(id, w);
            let i = choose|i: int| m1.is_first_with_id(i, id);
            assert(m2.is_first_with_id(i, id));
            m1.lemma_first_unique(i, id);
            m2.lemma_first_unique(i, id);
        } else {
            assert(!m2.has_id(id)) by {
                if m2.has_id(id) {
                    let i = choose|i: int| 0 <= i < m2.vdisks@.len() && m2.vdisks@[i].id.id == id;
                    assert(m1.vdisks@[i].id.id == id);
                }
            }
        }
    }
}

} // verus!
