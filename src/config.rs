use vstd::prelude::*;
use vstd::string::*;

verus! {

/// A name left empty, or written as the YAML null `~`.
pub open spec fn is_blank(s: Seq<char>) -> bool {
    s.len() == 0 || s == seq!['~']
}

/// No two entries are equal.
pub open spec fn all_distinct<T>(s: Seq<T>) -> bool {
    forall|i: int, j: int| 0 <= i < j < s.len() ==> s[i] != s[j]
}

/// Whether a configured name is left empty or written as `~`.
pub fn blank(s: &String) -> (r: bool)
    ensures
        r == is_blank(s@),
{
    let t = s.as_str();
    let n = t.unicode_len();
    if n == 0 {
        true
    } else if n == 1 {
        let c = t.get_char(0);
        assert(c == '~' ==> t@ =~= seq!['~']);
        c == '~'
    } else {
        false
    }
}

/// Contracts of configuration entries that can be checked on their own.
pub trait Validatable {
    spec fn valid(&self) -> bool;

    fn validate(&self) -> (r: bool)
        ensures
            r == self.valid(),
    ;
}

/// A disk of a node as written in the cluster configuration.
#[derive(Debug, Clone)]
pub struct NodeDisk {
    pub name: String,
    pub path: String,
}

impl Validatable for NodeDisk {
    open spec fn valid(&self) -> bool {
        !is_blank(self.name@) && !is_blank(self.path@)
    }

    fn validate(&self) -> (r: bool) {
        !blank(&self.path) && !blank(&self.name)
    }
}

/// A node as written in the cluster configuration.
#[derive(Debug, Clone)]
pub struct Node {
    pub name: String,
    pub address: String,
    pub disks: Vec<NodeDisk>,
}

impl Node {
    pub open spec fn disk_names(&self) -> Seq<Seq<char>> {
        self.disks@.map_values(|d: NodeDisk| d.name@)
    }
}

impl Validatable for Node {
    open spec fn valid(&self) -> bool {
        &&& !is_blank(self.name@)
        &&& !is_blank(self.address@)
        &&& forall|i: int| 0 <= i < self.disks@.len() ==> #[trigger] self.disks@[i].valid()
        &&& all_distinct(self.disk_names())
    }

    fn validate(&self) -> (r: bool) {
        if blank(&self.address) || blank(&self.name) {
            return false;
        }
        let n = self.disks.len();
        let mut i: usize = 0;
        while i < n
            invariant
                n == self.disks@.len(),
                i <= n,
                forall|k: int| 0 <= k < i ==> #[trigger] self.disks@[k].valid(),
                forall|a: int, b: int|
                    0 <= a < b < n && a < i ==> self.disk_names()[a] != self.disk_names()[b],
            decreases n - i,
        {
            if !self.disks[i].validate() {
                return false;
            }
            let mut j: usize = i + 1;
            while j < n
                invariant
                    n == self.disks@.len(),
                    i < j <= n,
                    forall|a: int, b: int|
                        0 <= a < b < n && a < i ==> self.disk_names()[a] != self.disk_names()[b],
                    forall|b: int| i < b < j ==> self.disk_names()[i as int] != self.disk_names()[b],
                decreases n - j,
            {
                if self.disks[i].name == self.disks[j].name {
                    assert(self.disk_names()[i as int] == self.disk_names()[j as int]);
                    return false;
                }
                j = j + 1;
            }
            i = i + 1;
        }
        true
    }
}

/// A replica of a vdisk as written in the cluster configuration.
#[derive(Debug, Clone)]
pub struct Replica {
    pub node: String,
    pub disk: String,
}

impl Replica {
    pub open spec fn same_place(&self, other: &Replica) -> bool {
        self.node@ == other.node@ && self.disk@ == other.disk@
    }
}

impl Validatable for Replica {
    open spec fn valid(&self) -> bool {
        !is_blank(self.node@) && !is_blank(self.disk@)
    }

    fn validate(&self) -> (r: bool) {
        !blank(&self.node) && !blank(&self.disk)
    }
}

/// A vdisk as written in the cluster configuration.
#[derive(Debug, Clone)]
pub struct VDisk {
    pub id: u32,
    pub replicas: Vec<Replica>,
}

impl Validatable for VDisk {
    open spec fn valid(&self) -> bool {
        &&& forall|i: int| 0 <= i < self.replicas@.len() ==> #[trigger] self.replicas@[i].valid()
        &&& forall|i: int, j: int|
            0 <= i < j < self.replicas@.len() ==> !self.replicas@[i].same_place(
                &self.replicas@[j],
            )
    }

    fn validate(&self) -> (r: bool) {
        let n = self.replicas.len();
        let mut i: usize = 0;
        while i < n
            invariant
                n == self.replicas@.len(),
                i <= n,
                forall|k: int| 0 <= k < i ==> #[trigger] self.replicas@[k].valid(),
                forall|a: int, b: int|
                    0 <= a < b < n && a < i ==> !self.replicas@[a].same_place(&self.replicas@[b]),
            decreases n - i,
        {
            if !self.replicas[i].validate() {
                return false;
            }
            let mut j: usize = i + 1;
            while j < n
                invariant
                    n == self.replicas@.len(),
                    i < j <= n,
                    forall|a: int, b: int|
                        0 <= a < b < n && a < i ==> !self.replicas@[a].same_place(
                            &self.replicas@[b],
                        ),
                    forall|b: int| i < b < j ==> !self.replicas@[i as int].same_place(&self.replicas@[b]),
                decreases n - j,
            {
                if self.replicas[i].node == self.replicas[j].node && self.replicas[i].disk
                    == self.replicas[j].disk {
                    assert(self.replicas@[i as int].same_place(&self.replicas@[j as int]));
                    return false;
                }
                j = j + 1;
            }
            i = i + 1;
        }
        true
    }
}

/// The cluster topology as written in its configuration file.
#[derive(Debug, Clone)]
pub struct Cluster {
    pub nodes: Vec<Node>,
    pub vdisks: Vec<VDisk>,
}

impl Cluster {
    /// Some node is named `node` and has a disk named `disk`.
    pub open spec fn resolves(&self, node: Seq<char>, disk: Seq<char>) -> bool {
        exists|n: int|
            0 <= n < self.nodes@.len() && #[trigger] self.nodes@[n].name@ == node && exists|d: int|
                0 <= d < self.nodes@[n].disks@.len() && #[trigger] self.nodes@[n].disks@[d].name@
                    == disk
    }

    pub open spec fn node_names(&self) -> Seq<Seq<char>> {
        self.nodes@.map_values(|n: Node| n.name@)
    }

    pub open spec fn vdisk_ids(&self) -> Seq<u32> {
        self.vdisks@.map_values(|v: VDisk| v.id)
    }

    /// Index of the first node named `name`, if any.
    pub fn find_node(&self, name: &String) -> (r: Option<usize>)
        ensures
            match r {
                Some(i) => i < self.nodes@.len() && self.nodes@[i as int].name@ == name@
                    && forall|k: int| 0 <= k < i ==> self.nodes@[k].name@ != name@,
                None => forall|k: int| 0 <= k < self.nodes@.len() ==> self.nodes@[k].name@ != name@,
            },
    {
        let mut i: usize = 0;
        while i < self.nodes.len()
            invariant
                i <= self.nodes@.len(),
                forall|k: int| 0 <= k < i ==> self.nodes@[k].name@ != name@,
            decreases self.nodes@.len() - i,
        {
            if self.nodes[i].name == *name {
                return Some(i);
            }
            i = i + 1;
        }
        None
    }

    fn has_disk(node: &Node, disk: &String) -> (r: bool)
        ensures
            r == exists|d: int| 0 <= d < node.disks@.len() && #[trigger] node.disks@[d].name@ == disk@,
    {
        let mut d: usize = 0;
        while d < node.disks.len()
            invariant
                d <= node.disks@.len(),
                forall|k: int| 0 <= k < d ==> node.disks@[k].name@ != disk@,
            decreases node.disks@.len() - d,
        {
            if node.disks[d].name == *disk {
                return true;
            }
            d = d + 1;
        }
        false
    }
}

impl Validatable for Cluster {
    open spec fn valid(&self) -> bool {
        &&& self.nodes@.len() > 0
        &&& self.vdisks@.len() > 0
        &&& forall|i: int| 0 <= i < self.nodes@.len() ==> #[trigger] self.nodes@[i].valid()
        &&& forall|i: int| 0 <= i < self.vdisks@.len() ==> #[trigger] self.vdisks@[i].valid()
        &&& all_distinct(self.vdisk_ids())
        &&& all_distinct(self.node_names())
        &&& forall|v: int, r: int|
            0 <= v < self.vdisks@.len() && 0 <= r < self.vdisks@[v].replicas@.len()
                ==> self.resolves(
                #[trigger] self.vdisks@[v].replicas@[r].node@,
                self.vdisks@[v].replicas@[r].disk@,
            )
    }

    fn validate(&self) -> (r: bool) {
        if self.nodes.len() == 0 || self.vdisks.len() == 0 {
            return false;
        }
        let mut i: usize = 0;
        while i < self.nodes.len()
            invariant
                i <= self.nodes@.len(),
                forall|k: int| 0 <= k < i ==> #[trigger] self.nodes@[k].valid(),
            decreases self.nodes@.len() - i,
        {
            if !self.nodes[i].validate() {
                return false;
            }
            i = i + 1;
        }
        let mut i: usize = 0;
        while i < self.vdisks.len()
            invariant
                i <= self.vdisks@.len(),
                forall|k: int| 0 <= k < i ==> #[trigger] self.vdisks@[k].valid(),
            decreases self.vdisks@.len() - i,
        {
            if !self.vdisks[i].validate() {
                return false;
            }
            i = i + 1;
        }
        // duplicate vdisk ids
        let n = self.vdisks.len();
        let mut i: usize = 0;
        while i < n
            invariant
                n == self.vdisks@.len(),
                i <= n,
                forall|a: int, b: int|
                    0 <= a < b < n && a < i ==> self.vdisks@[a].id != self.vdisks@[b].id,
            decreases n - i,
        {
            let mut j: usize = i + 1;
            while j < n
                invariant
                    n == self.vdisks@.len(),
                    i < j <= n,
                    forall|a: int, b: int|
                        0 <= a < b < n && a < i ==> self.vdisks@[a].id != self.vdisks@[b].id,
                    forall|b: int| i < b < j ==> self.vdisks@[i as int].id != self.vdisks@[b].id,
                decreases n - j,
            {
                if self.vdisks[i].id == self.vdisks[j].id {
                    assert(self.vdisk_ids()[i as int] == self.vdisk_ids()[j as int]);
                    return false;
                }
                j = j + 1;
            }
            i = i + 1;
        }
        // duplicate node names
        let n = self.nodes.len();
        let mut i: usize = 0;
        while i < n
            invariant
                n == self.nodes@.len(),
                i <= n,
                forall|a: int, b: int|
                    0 <= a < b < n && a < i ==> self.node_names()[a] != self.node_names()[b],
            decreases n - i,
        {
            let mut j: usize = i + 1;
            while j < n
                invariant
                    n == self.nodes@.len(),
                    i < j <= n,
                    forall|a: int, b: int|
                        0 <= a < b < n && a < i ==> self.node_names()[a] != self.node_names()[b],
                    forall|b: int| i < b < j ==> self.node_names()[i as int] != self.node_names()[b],
                decreases n - j,
            {
                if self.nodes[i].name == self.nodes[j].name {
                    assert(self.node_names()[i as int] == self.node_names()[j as int]);
                    return false;
                }
                j = j + 1;
            }
            i = i + 1;
        }
        assert(all_distinct(self.node_names()));
        // every replica names a known disk of a known node
        let mut v: usize = 0;
        while v < self.vdisks.len()
            invariant
                v <= self.vdisks@.len(),
                all_distinct(self.node_names()),
                forall|a: int, r: int|
                    0 <= a < v && 0 <= r < self.vdisks@[a].replicas@.len() ==> self.resolves(
                        #[trigger] self.vdisks@[a].replicas@[r].node@,
                        self.vdisks@[a].replicas@[r].disk@,
                    ),
            decreases self.vdisks@.len() - v,
        {
            let vdisk = &self.vdisks[v];
            let mut r: usize = 0;
            while r < vdisk.replicas.len()
                invariant
                    v < self.vdisks@.len(),
                    all_distinct(self.node_names()),
                    *vdisk == self.vdisks@[v as int],
                    r <= vdisk.replicas@.len(),
                    forall|a: int, b: int|
                        0 <= a < v && 0 <= b < self.vdisks@[a].replicas@.len() ==> self.resolves(
                            #[trigger] self.vdisks@[a].replicas@[b].node@,
                            self.vdisks@[a].replicas@[b].disk@,
                        ),
                    forall|b: int|
                        0 <= b < r ==> self.resolves(
                            #[trigger] vdisk.replicas@[b].node@,
                            vdisk.replicas@[b].disk@,
                        ),
                decreases vdisk.replicas@.len() - r,
            {
                let replica = &vdisk.replicas[r];
                match self.find_node(&replica.node) {
                    Some(n) => {
                        if !Self::has_disk(&self.nodes[n], &replica.disk) {
                            assert forall|m: int|
                                0 <= m < self.nodes@.len() && #[trigger] self.nodes@[m].name@
                                    == replica.node@ implies !exists|d: int|
                                0 <= d < self.nodes@[m].disks@.len()
                                    && #[trigger] self.nodes@[m].disks@[d].name@ == replica.disk@ by {
                                if m < n {
                                    assert(self.node_names()[m] == self.node_names()[n as int]);
                                } else if m > n {
                                    assert(self.node_names()[n as int] == self.node_names()[m]);
                                }
                            }
                            assert(self.vdisks@[v as int].replicas@[r as int].node@ == replica.node@);
                            assert(!self.resolves(replica.node@, replica.disk@));
                            return false;
                        }
                    },
                    None => {
                        assert(self.vdisks@[v as int].replicas@[r as int].node@ == replica.node@);
                        assert(!self.resolves(replica.node@, replica.disk@));
                        return false;
                    },
                }
                r = r + 1;
            }
            v = v + 1;
        }
        true
    }
}

/// Reads the cluster topology out of a parsed configuration.
#[derive(Debug, Clone, Copy)]
pub struct YamlConfig {}

impl YamlConfig {
    /// The vdisks of a valid configuration, each replica with its disk path.
    pub fn convert_to_data(&self, cluster: &Cluster) -> (r: Vec<crate::data::VDisk>)
        requires
            cluster.valid(),
        ensures
            r@.len() == cluster.vdisks@.len(),
            forall|v: int| 0 <= v < r@.len() ==> crate::mapper::converted(#[trigger] r@[v], cluster.vdisks@[v]),
    {
        crate::mapper::VDiskMapper::convert_vdisks(cluster)
    }

    /// The vdisks of the configuration; `None` where it is not valid.
    pub fn get_cluster_config(&self, cluster: &Cluster) -> (r: Option<Vec<crate::data::VDisk>>)
        ensures
            r is Some <==> cluster.valid(),
            r matches Some(v) ==> v@.len() == cluster.vdisks@.len() && forall|i: int|
                0 <= i < v@.len() ==> crate::mapper::converted(#[trigger] v@[i], cluster.vdisks@[i]),
    {
        if !cluster.validate() {
            return None;
        }
        Some(self.convert_to_data(cluster))
    }
}

} // verus!
