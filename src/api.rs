use vstd::prelude::*;
use vstd::string::*;

use crate::data::{NodeDisk, VDisk};
use crate::group::PearlGroup;
use crate::holder::HolderView;
use crate::mapper::VDiskMapper;
use crate::settings::{dec_text, decimal};

verus! {

/// What the admin surface can do to a partition.
#[derive(Debug, Clone, Copy, PartialEq, Eq, Structural)]
pub enum Action {
    Attach,
    Detach,
}

impl Action {
    /// `attach` or `detach`; `None` for any other word.
    pub fn from_param(param: &str) -> (r: Option<Action>)
        ensures
            r == (if param@ == "attach"@ {
                Some(Action::Attach)
            } else if param@ == "detach"@ {
                Some(Action::Detach)
            } else {
                None
            }),
    {
        if str_eq(param, "attach") {
            Some(Action::Attach)
        } else if str_eq(param, "detach") {
            Some(Action::Detach)
        } else {
            None
        }
    }

    pub open spec fn spec_name(self) -> Seq<char> {
        match self {
            Action::Attach => "Attach"@,
            Action::Detach => "Detach"@,
        }
    }

    pub fn name(self) -> (r: &'static str)
        ensures
            r@ == self.spec_name(),
    {
        match self {
            Action::Attach => "Attach",
            Action::Detach => "Detach",
        }
    }
}

/// Whether two strings hold the same characters.
pub fn str_eq(a: &str, b: &str) -> (r: bool)
    ensures
        r == (a@ == b@),
{
    let n = a.unicode_len();
    if n != b.unicode_len() {
        return false;
    }
    let mut i: usize = 0;
    while i < n
        invariant
            n == a@.len(),
            n == b@.len(),
            i <= n,
            forall|j: int| 0 <= j < i ==> a@[j] == b@[j],
        decreases n - i,
    {
        if a.get_char(i) != b.get_char(i) {
            return false;
        }
        i = i + 1;
    }
    assert(a@ =~= b@);
    true
}

/// A replica as the admin surface shows it.
#[derive(Debug, Clone)]
pub struct Replica {
    pub node: String,
    pub disk: String,
    pub path: String,
}

/// A partition as the admin surface shows it: named by its start timestamp.
#[derive(Debug, Clone)]
pub struct Partition {
    pub name: String,
}

/// The replicas of a vdisk as the admin surface shows them.
pub fn collect_replicas_info(replicas: &Vec<NodeDisk>) -> (r: Vec<Replica>)
    ensures
        r@.len() == replicas@.len(),
        forall|i: int|
            0 <= i < r@.len() ==> {
                &&& (#[trigger] r@[i]).node@ == replicas@[i].node_name@
                &&& r@[i].disk@ == replicas@[i].disk_name@
                &&& r@[i].path@ == replicas@[i].disk_path@
            },
{
    let mut out: Vec<Replica> = Vec::new();
    let mut i: usize = 0;
    while i < replicas.len()
        invariant
            i <= replicas@.len(),
            out@.len() == i,
            forall|j: int|
                0 <= j < i ==> {
                    &&& (#[trigger] out@[j]).node@ == replicas@[j].node_name@
                    &&& out@[j].disk@ == replicas@[j].disk_name@
                    &&& out@[j].path@ == replicas@[j].disk_path@
                },
        decreases replicas@.len() - i,
    {
        let r = &replicas[i];
        out.push(Replica { node: r.node_name.clone(), disk: r.disk_name.clone(), path: r.disk_path.clone() });
        i = i + 1;
    }
    out
}

/// The vdisk with id `id`.
pub fn find_vdisk(mapper: &VDiskMapper, id: u32) -> (r: Option<&VDisk>)
    ensures
        r matches Some(v) ==> mapper.is_first_with_id(
            choose|i: int| mapper.is_first_with_id(i, id),
            id,
        ) && *v == mapper.vdisks@[choose|i: int| mapper.is_first_with_id(i, id)],
        r is None ==> !mapper.has_id(id),
{
    match mapper.find_vdisk(crate::data::VDiskId { id }) {
        Some(i) => {
            proof {
                assert(mapper.is_first_with_id(i as int, id));
                assert forall|w: int| mapper.is_first_with_id(w, id) implies w == i by {
                    if w < i {
                        assert(mapper.vdisks@[w].id.id != id);
                    } else if w > i {
                        assert(mapper.vdisks@[i as int].id.id != id);
                    }
                }
            }
            Some(&mapper.vdisks[i])
        },
        None => None,
    }
}

/// The partitions of a group, named by their start timestamps, in order.
pub fn partitions(group: &PearlGroup) -> (r: Vec<Partition>)
    ensures
        r@.len() == group.partitions().len(),
        forall|i: int|
            0 <= i < r@.len() ==> (#[trigger] r@[i]).name@ == dec_text(
                group.partitions()[i].start as nat,
            ),
{
    let mut out: Vec<Partition> = Vec::new();
    let mut i: usize = 0;
    while i < group.holders_count()
        invariant
            i <= group.partitions().len(),
            out@.len() == i,
            forall|j: int|
                0 <= j < i ==> (#[trigger] out@[j]).name@ == dec_text(group.partitions()[j].start as nat),
        decreases group.partitions().len() - i,
    {
        let h = group.holder(i);
        out.push(Partition { name: decimal(h.start()) });
        i = i + 1;
    }
    out
}

/// `partition <p> of vdisk <v>`
pub fn partition_by_id(vdisk_id: u64, partition_id: u64) -> (r: String)
    ensures
        r@ == "partition "@ + dec_text(partition_id as nat) + " of vdisk "@ + dec_text(
            vdisk_id as nat,
        ),
{
    let mut s = String::from_str("partition ");
    s.append(decimal(partition_id).as_str());
    s.append(" of vdisk ");
    s.append(decimal(vdisk_id).as_str());
    s
}

/// `<Action> partition <p> of vdisk <v>`
pub fn change_partition_state(vdisk_id: u64, partition_id: u64, action: Action) -> (r: String)
    ensures
        r@ == action.spec_name() + " partition "@ + dec_text(partition_id as nat) + " of vdisk "@
            + dec_text(vdisk_id as nat),
{
    let mut s = String::from_str(action.name());
    s.append(" partition ");
    s.append(decimal(partition_id).as_str());
    s.append(" of vdisk ");
    s.append(decimal(vdisk_id).as_str());
    s
}

/// Where a benchmark client sends its requests.
#[derive(Debug, Clone)]
pub struct NetConfig {
    pub port: u16,
    pub target: String,
}

impl NetConfig {
    /// `http://<target>:<port>`
    pub fn get_uri(&self) -> (r: String)
        ensures
            r@ == "http://"@ + self.target@ + ":"@ + dec_text(self.port as nat),
    {
        let mut s = String::from_str("http://");
        s.append(self.target.as_str());
        s.append(":");
        s.append(decimal(self.port as u64).as_str());
        s
    }
}

/// The answer of the alien endpoint.
pub fn alien() -> (r: &'static str)
    ensures
        r@ == "alien"@,
{
    "alien"
}

} // verus!
