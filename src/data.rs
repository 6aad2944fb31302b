use vstd::prelude::*;
use vstd::string::*;

use crate::settings::{dec_text, decimal};

verus! {

/// Identifier of a blob.
#[derive(Debug, Clone, Copy, PartialEq, Eq, Structural, Hash)]
pub struct BobKey {
    pub key: u64,
}

impl BobKey {
    pub fn new(key: u64) -> (r: BobKey)
        ensures
            r.key == key,
    {
        BobKey { key }
    }
}

/// Logical version of a value: the higher timestamp wins on reconciliation.
#[derive(Debug, Clone, Copy, PartialEq, Eq, Structural)]
pub struct BobMeta {
    pub timestamp: u64,
}

impl BobMeta {
    pub fn new(timestamp: u64) -> (r: BobMeta)
        ensures
            r.timestamp == timestamp,
    {
        BobMeta { timestamp }
    }

    pub fn new_value(timestamp: u64) -> (r: BobMeta)
        ensures
            r.timestamp == timestamp,
    {
        BobMeta { timestamp }
    }

    /// The meta of placeholder values.
    pub fn new_stub() -> (r: BobMeta)
        ensures
            r.timestamp == 1,
    {
        BobMeta { timestamp: 1 }
    }
}

/// What a value looks like to contracts: its bytes and its timestamp.
pub struct DataView {
    pub bytes: Seq<u8>,
    pub timestamp: u64,
}

/// A stored value: bytes with their meta.
#[derive(Debug, Clone)]
pub struct BobData {
    pub data: Vec<u8>,
    pub meta: BobMeta,
}

impl View for BobData {
    type V = DataView;

    open spec fn view(&self) -> DataView {
        DataView { bytes: self.data@, timestamp: self.meta.timestamp }
    }
}

impl BobData {
    pub fn new(data: Vec<u8>, meta: BobMeta) -> (r: BobData)
        ensures
            r.data@ == data@,
            r.meta == meta,
    {
        BobData { data, meta }
    }

    /// A copy of the value with the same bytes and timestamp.
    pub fn duplicate(&self) -> (r: BobData)
        ensures
            r@ == self@,
    {
        let mut bytes: Vec<u8> = Vec::with_capacity(self.data.len());
        let mut i: usize = 0;
        while i < self.data.len()
            invariant
                i <= self.data@.len(),
                bytes@ == self.data@.subrange(0, i as int),
            decreases self.data@.len() - i,
        {
            bytes.push(self.data[i]);
            i = i + 1;
            assert(bytes@ =~= self.data@.subrange(0, i as int));
        }
        assert(bytes@ =~= self.data@);
        BobData { data: bytes, meta: self.meta }
    }

    pub fn timestamp(&self) -> (r: u64)
        ensures
            r == self.meta.timestamp,
    {
        self.meta.timestamp
    }
}

/// Identifier of a virtual disk, stable across the cluster.
#[derive(Debug, Clone, Copy, PartialEq, Eq, Structural, Hash)]
pub struct VDiskId {
    pub id: u32,
}

impl VDiskId {
    pub fn new(id: u32) -> (r: VDiskId)
        ensures
            r.id == id,
    {
        VDiskId { id }
    }
}

/// A named mount on one node.
#[derive(Debug, Clone)]
pub struct DiskPath {
    pub name: String,
    pub path: String,
}

impl DiskPath {
    pub fn new(name: &str, path: &str) -> (r: DiskPath)
        ensures
            r.name@ == name@,
            r.path@ == path@,
    {
        DiskPath { name: String::from_str(name), path: String::from_str(path) }
    }
}

/// Identity of a cluster node: its name and transport address.
#[derive(Debug, Clone)]
pub struct Node {
    pub name: String,
    pub host: String,
    pub port: u16,
}

impl Node {
    pub fn new(name: &str, host: &str, port: u16) -> (r: Node)
        ensures
            r.name@ == name@,
            r.host@ == host@,
            r.port == port,
    {
        Node { name: String::from_str(name), host: String::from_str(host), port }
    }

    /// `http://<host>:<port>`
    pub fn get_uri(&self) -> (r: String)
        ensures
            r@ == "http://"@ + self.host@ + ":"@ + dec_text(self.port as nat),
    {
        let mut s = String::from_str("http://");
        s.append(self.host.as_str());
        s.append(":");
        s.append(decimal(self.port as u64).as_str());
        s
    }

    /// `<host>:<port>` with the dots of the host turned into underscores, as
    /// metric names want it.
    pub fn counter_display(&self) -> (r: String)
        ensures
            r@ == undotted(self.host@) + ":"@ + dec_text(self.port as nat),
    {
        let h = self.host.as_str();
        let n = h.unicode_len();
        let mut s = String::new();
        let mut i: usize = 0;
        while i < n
            invariant
                n == h@.len(),
                h@ == self.host@,
                i <= n,
                s@ == undotted(h@.subrange(0, i as int)),
            decreases n - i,
        {
            let c = h.substring_char(i, i + 1);
            proof {
                reveal_strlit("_");
                assert(c@.len() == 1 && c@[0] == h@[i as int]);
            }
            if h.get_char(i) == '.' {
                s.append("_");
            } else {
                s.append(c);
            }
            proof {
                assert(h@.subrange(0, i + 1).drop_last() =~= h@.subrange(0, i as int));
                assert(s@ =~= undotted(h@.subrange(0, i + 1)));
            }
            i = i + 1;
        }
        assert(h@.subrange(0, i as int) =~= h@);
        s.append(":");
        s.append(decimal(self.port as u64).as_str());
        s
    }
}

/// `s` with each `.` replaced by `_`.
pub open spec fn undotted(s: Seq<char>) -> Seq<char>
    decreases s.len(),
{
    if s.len() == 0 {
        Seq::empty()
    } else {
        undotted(s.drop_last()) + if s.last() == '.' {
            seq!['_']
        } else {
            seq![s.last()]
        }
    }
}

/// One replica of a vdisk: a disk of a node.
#[derive(Debug, Clone)]
pub struct NodeDisk {
    pub node_name: String,
    pub disk_name: String,
    pub disk_path: String,
}

/// A vdisk with its ordered replica list.
#[derive(Debug, Clone)]
pub struct VDisk {
    pub id: VDiskId,
    pub replicas: Vec<NodeDisk>,
}

/// Flags of a client request.
#[derive(Debug, Clone, Copy, PartialEq, Eq, Structural, Default)]
pub struct BobOptions {
    /// Handle the request on this node only.
    pub force_node: bool,
}

/// Which storage area a read consults.
#[derive(Debug, Clone, Copy, PartialEq, Eq, Structural)]
pub enum GetSource {
    All,
    Normal,
    Alien,
}

/// Options of a PUT sent to a peer.
#[derive(Debug, Clone)]
pub struct PutOptions {
    pub remote_nodes: Vec<String>,
    pub force_node: bool,
    pub overwrite: bool,
}

impl PutOptions {
    /// Options of a replica write: handled by the peer itself, no alien owner.
    pub fn new_client() -> (r: PutOptions)
        ensures
            r.remote_nodes@.len() == 0,
            r.force_node,
            !r.overwrite,
    {
        PutOptions { remote_nodes: Vec::new(), force_node: true, overwrite: false }
    }

    /// Options of an alien spill: the peer keeps the value for `owner`.
    pub fn new_alien(owner: &String) -> (r: PutOptions)
        ensures
            r.remote_nodes@.len() == 1,
            r.remote_nodes@[0]@ == owner@,
            !r.force_node,
            !r.overwrite,
    {
        let mut remote_nodes: Vec<String> = Vec::new();
        remote_nodes.push(owner.clone());
        PutOptions { remote_nodes, force_node: false, overwrite: false }
    }
}

/// Options of a GET sent to a peer.
#[derive(Debug, Clone, Copy, PartialEq, Eq, Structural)]
pub struct GetOptions {
    pub force_node: bool,
    pub source: GetSource,
}

impl GetOptions {
    pub fn new_normal() -> (r: GetOptions)
        ensures
            r.force_node,
            r.source == GetSource::Normal,
    {
        GetOptions { force_node: true, source: GetSource::Normal }
    }

    pub fn new_alien() -> (r: GetOptions)
        ensures
            r.force_node,
            r.source == GetSource::Alien,
    {
        GetOptions { force_node: true, source: GetSource::Alien }
    }

    pub fn new_all() -> (r: GetOptions)
        ensures
            r.force_node,
            r.source == GetSource::All,
    {
        GetOptions { force_node: true, source: GetSource::All }
    }
}

/// Where a backend operation is served: a local disk, or the alien area of a remote node.
#[derive(Debug, Clone)]
pub struct Operation {
    pub vdisk_id: VDiskId,
    pub disk_name_local: Option<String>,
    pub remote_node_name: Option<String>,
    pub alien: bool,
}

impl Operation {
    pub open spec fn wf(&self) -> bool {
        if self.alien {
            self.disk_name_local.is_none() && self.remote_node_name.is_some()
        } else {
            self.disk_name_local.is_some() && self.remote_node_name.is_none()
        }
    }

    pub fn new_local(vdisk_id: VDiskId, disk_name: &String) -> (r: Operation)
        ensures
            r.wf(),
            !r.alien,
            r.vdisk_id == vdisk_id,
            r.disk_name_local.unwrap()@ == disk_name@,
    {
        Operation {
            vdisk_id,
            disk_name_local: Some(disk_name.clone()),
            remote_node_name: None,
            alien: false,
        }
    }

    pub fn new_alien(vdisk_id: VDiskId, remote_node_name: &String) -> (r: Operation)
        ensures
            r.wf(),
            r.alien,
            r.vdisk_id == vdisk_id,
            r.remote_node_name.unwrap()@ == remote_node_name@,
    {
        Operation {
            vdisk_id,
            disk_name_local: None,
            remote_node_name: Some(remote_node_name.clone()),
            alien: true,
        }
    }
}

/// A result attributed to the node that produced it.
#[derive(Debug, Clone)]
pub struct NodeOutput<T> {
    pub node_name: String,
    pub value: T,
}

/// The items joined by commas.
pub open spec fn joined(items: Seq<Seq<char>>) -> Seq<char>
    decreases items.len(),
{
    if items.len() == 0 {
        Seq::empty()
    } else if items.len() == 1 {
        items[0]
    } else {
        joined(items.drop_last()) + seq![','] + items.last()
    }
}

/// Renders a list of names as one comma-separated line.
pub fn print_vec(items: &Vec<String>) -> (r: String)
    ensures
        r@ == joined(items@.map_values(|s: String| s@)),
{
    let mut out = String::new();
    let mut i: usize = 0;
    while i < items.len()
        invariant
            i <= items@.len(),
            out@ == joined(items@.subrange(0, i as int).map_values(|s: String| s@)),
        decreases items@.len() - i,
    {
        let ghost prev = items@.subrange(0, i as int).map_values(|s: String| s@);
        if i > 0 {
            out.append(",");
            proof { reveal_strlit(","); }
        }
        out.append(items[i].as_str());
        i = i + 1;
        let ghost next = items@.subrange(0, i as int).map_values(|s: String| s@);
        assert(next.drop_last() =~= prev);
        assert(next.last() == items@[i - 1]@);
    }
    assert(items@.subrange(0, i as int) =~= items@);
    out
}

} // verus!
