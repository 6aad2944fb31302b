use vstd::prelude::*;

use crate::backend::{backend_put_error, Backend};
use crate::config::all_distinct;
use crate::data::{BobData, BobOptions, Operation, VDisk};
use crate::error::Error;
use crate::group::{is_latest, put_post, some_has};
use crate::mapper::{dedup, first_on_node, replica_nodes, served_by_first_local, VDiskMapper};
use crate::quorum::{
    count_ok, found_values, count_successes, finish_put, plan_alien_spills, reconcile_alien, reconcile_get,
    spill_plan, AlienSpill, GetDecision, GetOutcome, NodePutResult, PutSummary,
};

verus! {

/// An error as the request handlers see it: where it came from.
#[derive(Debug, Clone)]
pub enum BobError {
    /// From the cluster layer.
    Cluster(Error),
    /// From the local backend.
    Local(Error),
    NotFound,
    Other,
}

impl BobError {
    /// The error an answer carries: `NotFound` for a missing key, `Other` else.
    pub fn error(&self) -> (r: BobError)
        requires
            self is Cluster || self is Local,
        ensures
            r == (match self {
                BobError::Cluster(e) | BobError::Local(e) => if e is KeyNotFound {
                    BobError::NotFound
                } else {
                    BobError::Other
                },
                _ => BobError::Other,
            }),
    {
        match self {
            BobError::Cluster(err) => Self::match_error(err),
            BobError::Local(err) => Self::match_error(err),
            _ => BobError::Other,
        }
    }

    pub fn match_error(err: &Error) -> (r: BobError)
        ensures
            r == (if *err is KeyNotFound {
                BobError::NotFound
            } else {
                BobError::Other
            }),
    {
        match err {
            Error::KeyNotFound => BobError::NotFound,
            _ => BobError::Other,
        }
    }

    pub fn is_cluster(&self) -> (r: bool)
        requires
            self is Cluster || self is Local,
        ensures
            r == self is Cluster,
    {
        match self {
            BobError::Cluster(_) => true,
            _ => false,
        }
    }

    pub fn is_local(&self) -> (r: bool)
        requires
            self is Cluster || self is Local,
        ensures
            r == self is Local,
    {
        !self.is_cluster()
    }
}

/// What the cluster write path does after the replicas answered.
#[derive(Debug, Clone)]
pub enum ClusterPut {
    /// The quorum is met; the spills for the failed replicas may run in the
    /// background.
    Done(PutSummary, Vec<AlienSpill>),
    /// The quorum is not met yet: send these spills, then call `finish_put`
    /// with the number that succeeded.
    NeedSpills { ok: u64, total: u64, spills: Vec<AlienSpill> },
}

/// `op` is the operation that the mapper gives for `key`.
pub open spec fn operation_for(m: VDiskMapper, key: u64, op: Operation) -> bool {
    match m.spec_target_index(key) {
        None => false,
        Some(v) => {
            &&& op.wf()
            &&& op.vdisk_id == m.vdisks@[v].id
            &&& op.alien ==> 0 < m.vdisks@[v].replicas@.len()
            &&& op.alien ==> op.remote_node_name.unwrap()@ == m.vdisks@[v].replicas@[0].node_name@
            &&& op.alien ==> forall|i: int|
                0 <= i < m.vdisks@[v].replicas@.len() ==> #[trigger] m.vdisks@[v].replicas@[i].node_name@
                    != m.local_node_name@
            &&& !op.alien ==> served_by_first_local(m.vdisks@[v].replicas@, m.local_node_name@, op)
        },
    }
}

pub proof fn lemma_operation_for_unique(m: VDiskMapper, key: u64, a: Operation, b: Operation)
    requires
        operation_for(m, key, a),
        operation_for(m, key, b),
    ensures
        a.alien == b.alien,
        a.vdisk_id == b.vdisk_id,
        a.alien ==> a.remote_node_name.unwrap()@ == b.remote_node_name.unwrap()@,
        !a.alien ==> a.disk_name_local.unwrap()@ == b.disk_name_local.unwrap()@,
{
    let v = m.spec_target_index(key).unwrap();
    let reps = m.vdisks@[v].replicas@;
    if a.alien && !b.alien {
        let i = choose|i: int| #[trigger] first_on_node(reps, m.local_node_name@, i) && b.disk_name_local.unwrap()@ == reps[i].disk_name@;
        assert(reps[i].node_name@ == m.local_node_name@);
    } else if !a.alien && b.alien {
        let i = choose|i: int| #[trigger] first_on_node(reps, m.local_node_name@, i) && a.disk_name_local.unwrap()@ == reps[i].disk_name@;
        assert(reps[i].node_name@ == m.local_node_name@);
    } else if !a.alien && !b.alien {
        let i = choose|i: int| #[trigger] first_on_node(reps, m.local_node_name@, i) && a.disk_name_local.unwrap()@ == reps[i].disk_name@;
        let j = choose|j: int| #[trigger] first_on_node(reps, m.local_node_name@, j) && b.disk_name_local.unwrap()@ == reps[j].disk_name@;
        if i < j {
            assert(reps[i].node_name@ != m.local_node_name@);
        } else if j < i {
            assert(reps[j].node_name@ != m.local_node_name@);
        }
    }
}

/// The entries of `s` other than `x`, in order.
pub open spec fn without(s: Seq<Seq<char>>, x: Seq<char>) -> Seq<Seq<char>>
    decreases s.len(),
{
    if s.len() == 0 {
        Seq::empty()
    } else if s.last() == x {
        without(s.drop_last(), x)
    } else {
        without(s.drop_last(), x).push(s.last())
    }
}

/// What the cluster write did on this node: where this node holds a replica
/// of `key`, one answer under its name, and a successful answer wrote the
/// value to that replica; elsewhere no answer and no change.
pub open spec fn local_write(
    m: VDiskMapper,
    old_b: Backend,
    new_b: Backend,
    key: u64,
    v: crate::data::DataView,
    local: Seq<NodePutResult>,
) -> bool {
    &&& local.len() <= 1
    &&& (local.len() == 1 <==> exists|op: Operation| #[trigger] operation_for(m, key, op) && !op.alien)
    &&& local.len() == 1 ==> local[0].node_name@ == m.local_node_name@
    &&& local.len() == 0 ==> new_b == old_b
    &&& local.len() == 1 ==> forall|op: Operation|
        #[trigger] operation_for(m, key, op) && !op.alien ==> (local[0].ok <==> old_b.put_succeeds(op, v.timestamp))
    &&& local.len() == 1 && local[0].ok ==> exists|op: Operation|
        #[trigger] operation_for(m, key, op) && !op.alien && put_post(
            old_b.parts(op),
            new_b.parts(op),
            key,
            v,
            new_b.group_period(op),
            new_b.group_dir(op),
        )
}

/// What this node's replica answered to a read of `key` from `parts`.
pub open spec fn local_answer(o: GetOutcome, parts: Seq<crate::holder::HolderView>, key: u64) -> bool {
    &&& (o matches GetOutcome::Found(d) ==> is_latest(parts, key, d@))
    &&& (some_has(parts, key) ==> o is Found)
    &&& (o is NotFound ==> !some_has(parts, key))
}

/// The answer of this node's replica of `key` to a read, where it holds one.
pub open spec fn local_read(m: VDiskMapper, b: Backend, key: u64, local: Seq<GetOutcome>) -> bool {
    &&& local.len() <= 1
    &&& (local.len() == 1 <==> exists|op: Operation| #[trigger] operation_for(m, key, op) && !op.alien)
    &&& local.len() == 1 ==> forall|op: Operation|
        #[trigger] operation_for(m, key, op) && !op.alien && b.has_normal(op) ==> local_answer(
            local[0],
            b.parts(op),
            key,
        )
}

/// `g1` is `g0` after a successful write of `v` under `key` on this node: the
/// holders of the operation the mapper routes `key` to took it.
pub open spec fn local_put_post(g0: Grinder, g1: Grinder, key: u64, v: crate::data::DataView) -> bool {
    &&& g1.mapper == g0.mapper
    &&& exists|op: Operation|
        #[trigger] operation_for(g0.mapper, key, op) && (op.alien || g1.backend.has_normal(op)) && put_post(
            g0.backend.parts(op),
            g1.backend.parts(op),
            key,
            v,
            g1.backend.group_period(op),
            g1.backend.group_dir(op),
        )
}

/// What a write of `v` under `key` on this node did, `ok` telling whether it
/// succeeded: it succeeds exactly when the backend's write for the routed
/// operation does, and then the holders of that operation took the value.
pub open spec fn local_put_outcome(g0: Grinder, g1: Grinder, key: u64, v: crate::data::DataView, ok: bool) -> bool {
    &&& g1.mapper == g0.mapper
    &&& (forall|op: Operation| !#[trigger] operation_for(g0.mapper, key, op)) ==> !ok
    &&& forall|op: Operation|
        #[trigger] operation_for(g0.mapper, key, op) ==> (ok <==> g0.backend.put_succeeds(op, v.timestamp))
    &&& ok ==> local_put_post(g0, g1, key, v)
}

/// A failed write on this node fails with `Local`, carrying the backend's
/// error for the routed operation, or `VDiskNotFound` where the key routes
/// to no operation.
pub open spec fn local_put_error(g0: Grinder, key: u64, t: u64, r: Result<(), BobError>) -> bool {
    &&& r is Err ==> r->Err_0 is Local
    &&& r matches Err(BobError::Local(e)) ==> forall|op: Operation|
        #[trigger] operation_for(g0.mapper, key, op) ==> backend_put_error(g0.backend, op, t, e)
    &&& r matches Err(BobError::Local(e)) ==> (forall|op: Operation| !#[trigger] operation_for(g0.mapper, key, op))
        ==> e == Error::VDiskNotFound(g0.mapper.spec_vdisk_id_for_key(key))
}

/// What a read of `key` on this node from `g` answers: the most recent value
/// of the routed operation's holders, whenever one of them has the key.
pub open spec fn local_get_outcome(g: Grinder, key: u64, r: Result<BobData, BobError>) -> bool {
    &&& g.mapper.spec_target_index(key) is None ==> r is Err
    &&& r matches Ok(d) ==> local_get_post(g, key, d@)
    &&& forall|op: Operation|
        operation_for(g.mapper, key, op) && (op.alien || g.backend.has_normal(op)) && some_has(
            #[trigger] g.backend.parts(op),
            key,
        ) ==> r is Ok
}

/// After a successful write on this node, a read there succeeds with a value
/// at least as recent.
pub proof fn law_forced_read_after_write(
    g0: Grinder,
    g1: Grinder,
    key: u64,
    v: crate::data::DataView,
    r: Result<BobData, BobError>,
)
    requires
        local_put_outcome(g0, g1, key, v, true),
        local_get_outcome(g1, key, r),
    ensures
        r is Ok,
        r->Ok_0.meta.timestamp >= v.timestamp,
{
    let op = choose|op: Operation|
        #[trigger] operation_for(g0.mapper, key, op) && (op.alien || g1.backend.has_normal(op)) && put_post(
            g0.backend.parts(op),
            g1.backend.parts(op),
            key,
            v,
            g1.backend.group_period(op),
            g1.backend.group_dir(op),
        );
    crate::group::lemma_put_post_values(
        g0.backend.parts(op),
        g1.backend.parts(op),
        key,
        v,
        g1.backend.group_period(op),
        g1.backend.group_dir(op),
    );
    assert(operation_for(g1.mapper, key, op));
    let d = r->Ok_0;
    let op2 = choose|op2: Operation| #[trigger] operation_for(g1.mapper, key, op2) && is_latest(g1.backend.parts(op2), key, d@);
    lemma_operation_for_unique(g1.mapper, key, op2, op);
    g1.backend.lemma_parts_same(op2, op);
    crate::group::law_read_after_write(
        g0.backend.parts(op),
        g1.backend.parts(op),
        key,
        v,
        g1.backend.group_period(op),
        g1.backend.group_dir(op),
        d@,
    );
}

/// Two successful writes of one key on this node, the second newer than the
/// first and than anything held before: a read there returns the second.
pub proof fn law_forced_newer_write_wins(
    g0: Grinder,
    g1: Grinder,
    g2: Grinder,
    key: u64,
    v1: crate::data::DataView,
    v2: crate::data::DataView,
    r: Result<BobData, BobError>,
)
    requires
        local_put_outcome(g0, g1, key, v1, true),
        local_put_outcome(g1, g2, key, v2, true),
        v1.timestamp < v2.timestamp,
        forall|op: Operation, i: int|
            operation_for(g0.mapper, key, op) && 0 <= i < g0.backend.parts(op).len() && (
            #[trigger] g0.backend.parts(op)[i]).has(key) ==> g0.backend.parts(op)[i].contents[key].timestamp
                < v2.timestamp,
        local_get_outcome(g2, key, r),
    ensures
        r is Ok,
        r->Ok_0@ == v2,
{
    law_forced_read_after_write(g1, g2, key, v2, r);
    let op1 = choose|op: Operation|
        #[trigger] operation_for(g0.mapper, key, op) && (op.alien || g1.backend.has_normal(op)) && put_post(
            g0.backend.parts(op),
            g1.backend.parts(op),
            key,
            v1,
            g1.backend.group_period(op),
            g1.backend.group_dir(op),
        );
    let op2 = choose|op: Operation|
        #[trigger] operation_for(g1.mapper, key, op) && (op.alien || g2.backend.has_normal(op)) && put_post(
            g1.backend.parts(op),
            g2.backend.parts(op),
            key,
            v2,
            g2.backend.group_period(op),
            g2.backend.group_dir(op),
        );
    let d = r->Ok_0;
    let op3 = choose|op3: Operation| #[trigger] operation_for(g2.mapper, key, op3) && is_latest(g2.backend.parts(op3), key, d@);
    lemma_operation_for_unique(g0.mapper, key, op2, op1);
    lemma_operation_for_unique(g0.mapper, key, op3, op1);
    g1.backend.lemma_parts_same(op2, op1);
    g2.backend.lemma_parts_same(op2, op1);
    g2.backend.lemma_parts_same(op3, op1);
    assert forall|i: int| 0 <= i < g0.backend.parts(op1).len() && (#[trigger] g0.backend.parts(op1)[i]).has(key)
        implies g0.backend.parts(op1)[i].contents[key].timestamp < v2.timestamp by {}
    crate::group::law_newer_write_wins(
        g0.backend.parts(op1),
        g1.backend.parts(op1),
        g2.backend.parts(op1),
        key,
        v1,
        v2,
        g1.backend.group_period(op1),
        g1.backend.group_dir(op1),
        g2.backend.group_period(op2),
        g2.backend.group_dir(op2),
        d@,
    );
}

/// With the quorum equal to the number of answers, a cluster write is done
/// exactly when every replica stored the value.
pub proof fn law_full_quorum_cluster(r: ClusterPut, all: Seq<NodePutResult>, local: Seq<char>)
    requires
        all.len() <= u64::MAX,
        cluster_put_outcome(r, all, local, all.len() as u64),
    ensures
        r is Done <==> forall|i: int| 0 <= i < all.len() ==> (#[trigger] all[i]).ok,
{
    lemma_count_ok_full(all);
    crate::quorum::lemma_count_ok_le(all);
}

/// With quorum one and every replica down, a cluster write is not done:
/// nothing was stored and no spill is planned, so `finish_put(0, 0, n, 1)`
/// reports `QuorumFailed { ok: 0, total: n, quorum: 1 }`.
pub proof fn law_all_down_cluster(r: ClusterPut, all: Seq<NodePutResult>, local: Seq<char>)
    requires
        cluster_put_outcome(r, all, local, 1),
        forall|i: int| 0 <= i < all.len() ==> !(#[trigger] all[i]).ok,
    ensures
        r matches ClusterPut::NeedSpills { ok, total, spills } && ok == 0 && total == all.len() && spills@.len() == 0,
{
    crate::quorum::law_all_down(all, local);
}

/// All answers say stored exactly when the count of stored is the number of answers.
pub proof fn lemma_count_ok_full(all: Seq<NodePutResult>)
    ensures
        count_ok(all) == all.len() <==> forall|i: int| 0 <= i < all.len() ==> (#[trigger] all[i]).ok,
    decreases all.len(),
{
    if all.len() > 0 {
        let t = all.drop_last();
        lemma_count_ok_full(t);
        crate::quorum::lemma_count_ok_le(t);
        if forall|i: int| 0 <= i < all.len() ==> (#[trigger] all[i]).ok {
            assert forall|i: int| 0 <= i < t.len() implies (#[trigger] t[i]).ok by {
                assert(t[i] == all[i]);
            }
        }
        if count_ok(all) == all.len() {
            assert forall|i: int| 0 <= i < all.len() implies (#[trigger] all[i]).ok by {
                if i < all.len() - 1 {
                    assert(t[i] == all[i]);
                }
            }
        }
    }
}

/// `d` is what a read of `key` on this node may return from `g`.
pub open spec fn local_get_post(g: Grinder, key: u64, d: crate::data::DataView) -> bool {
    exists|op: Operation| #[trigger] operation_for(g.mapper, key, op) && is_latest(g.backend.parts(op), key, d)
}

/// The nodes other than this one that hold replicas of `key`, distinct, in
/// replica order.
pub open spec fn remote_target_names(m: VDiskMapper, key: u64) -> Seq<Seq<char>> {
    match m.spec_target_index(key) {
        Some(v) => without(dedup(replica_nodes(m.vdisks@[v])), m.local_node_name@),
        None => Seq::empty(),
    }
}

/// `o` names the alien area this node keeps for some node, for the vdisk of `key`.
pub open spec fn kept_for(m: VDiskMapper, key: u64, o: Operation) -> bool {
    &&& o.alien
    &&& o.remote_node_name is Some
    &&& o.disk_name_local is None
    &&& o.vdisk_id.id == m.spec_vdisk_id_for_key(key)
}

/// The node names of the answers, in order.
pub open spec fn answer_names(s: Seq<NodePutResult>) -> Seq<Seq<char>> {
    s.map_values(|r: NodePutResult| r.node_name@)
}

/// The remote replicas of a key are distinct and exclude this node.
pub proof fn lemma_remote_targets_distinct(m: VDiskMapper, key: u64)
    ensures
        all_distinct(remote_target_names(m, key)),
        !remote_target_names(m, key).contains(m.local_node_name@),
{
    if let Some(v) = m.spec_target_index(key) {
        crate::mapper::lemma_dedup_distinct(replica_nodes(m.vdisks@[v]));
        lemma_without(dedup(replica_nodes(m.vdisks@[v])), m.local_node_name@);
    }
}

/// Leaving `x` out keeps the entries distinct, and `x` is gone.
pub proof fn lemma_without(s: Seq<Seq<char>>, x: Seq<char>)
    requires
        all_distinct(s),
    ensures
        all_distinct(without(s, x)),
        !without(s, x).contains(x),
        forall|y: Seq<char>| without(s, x).contains(y) ==> s.contains(y),
    decreases s.len(),
{
    if s.len() > 0 {
        let t = s.drop_last();
        assert(all_distinct(t)) by {
            assert forall|a: int, b: int| 0 <= a < b < t.len() implies t[a] != t[b] by {
                assert(t[a] == s[a] && t[b] == s[b]);
            }
        }
        lemma_without(t, x);
        let w = without(t, x);
        assert forall|y: Seq<char>| w.contains(y) implies s.contains(y) by {
            assert(t.contains(y));
            let k = choose|k: int| 0 <= k < t.len() && t[k] == y;
            assert(s[k] == y);
        }
        if s.last() != x {
            let nw = w.push(s.last());
            assert(!t.contains(s.last())) by {
                if t.contains(s.last()) {
                    let k = choose|k: int| 0 <= k < t.len() && t[k] == s.last();
                    assert(s[k] == s[s.len() - 1]);
                }
            }
            assert forall|a: int, b: int| 0 <= a < b < nw.len() implies nw[a] != nw[b] by {
                if b == nw.len() - 1 {
                    assert(w.contains(nw[a]));
                }
            }
            assert forall|y: Seq<char>| nw.contains(y) implies s.contains(y) by {
                let k = choose|k: int| 0 <= k < nw.len() && nw[k] == y;
                if k < w.len() {
                    assert(w.contains(y));
                } else {
                    assert(s[s.len() - 1] == y);
                }
            }
            assert(!nw.contains(x)) by {
                if nw.contains(x) {
                    let k = choose|k: int| 0 <= k < nw.len() && nw[k] == x;
                    if k < w.len() {
                        assert(w.contains(x));
                    }
                }
            }
        }
    }
}

/// This node's alien area keeps `v` under `key` for a remote replica of it.
pub open spec fn local_alien_value(g: Grinder, key: u64, v: crate::data::DataView) -> bool {
    exists|o: Operation, j: int|
        kept_for(g.mapper, key, o) && remote_target_names(g.mapper, key).contains(o.remote_node_name.unwrap()@)
            && 0 <= j < g.backend.parts(o).len() && (#[trigger] g.backend.parts(o)[j]).has(key)
            && g.backend.parts(o)[j].contents[key] == v
}

/// This node's alien area keeps some value under `key` for a remote replica of it.
pub open spec fn local_alien_has(g: Grinder, key: u64) -> bool {
    exists|o: Operation, j: int|
        kept_for(g.mapper, key, o) && remote_target_names(g.mapper, key).contains(o.remote_node_name.unwrap()@)
            && 0 <= j < g.backend.parts(o).len() && (#[trigger] g.backend.parts(o)[j]).has(key)
}

/// Each value found comes from some answer.
pub proof fn lemma_found_from(all: Seq<GetOutcome>, m: int)
    requires
        0 <= m < found_values(all).len(),
    ensures
        exists|q: int| 0 <= q < all.len() && all[q] == GetOutcome::Found(found_values(all)[m]),
    decreases all.len(),
{
    let t = all.drop_last();
    if m < found_values(t).len() {
        lemma_found_from(t, m);
        let q = choose|q: int| 0 <= q < t.len() && t[q] == GetOutcome::Found(found_values(t)[m]);
        assert(all[q] == t[q]);
        match all.last() {
            GetOutcome::Found(d) => {
                assert(found_values(all)[m] == found_values(t)[m]);
            },
            _ => {},
        }
    } else {
        match all.last() {
            GetOutcome::Found(d) => {
                assert(all[all.len() - 1] == GetOutcome::Found(found_values(all)[m]));
            },
            _ => {},
        }
    }
}

/// Some answer found a value at least `t` recent.
pub open spec fn seen(all: Seq<GetOutcome>, t: u64) -> bool {
    exists|q: int| 0 <= q < all.len() && all[q] is Found && all[q]->Found_0.meta.timestamp >= t
}

/// This node's replica of `key` holds it.
pub open spec fn local_has(m: VDiskMapper, b: Backend, key: u64) -> bool {
    exists|op: Operation| #[trigger] operation_for(m, key, op) && !op.alien && some_has(b.parts(op), key)
}

/// What the facade did with a PUT.
#[derive(Debug)]
pub enum GrinderPut {
    /// Written on this node only.
    Local(Result<(), BobError>),
    /// The cluster write, to be finished as `ClusterPut` says.
    Cluster(ClusterPut),
}

/// What the facade did with a GET.
#[derive(Debug)]
pub enum GrinderGet {
    /// Read on this node only.
    Local(Result<BobData, BobError>),
    /// The decision of the first cluster pass.
    Cluster(GetDecision),
}

/// `r` is what the cluster write path decides on the answers `all`.
pub open spec fn cluster_put_outcome(r: ClusterPut, all: Seq<NodePutResult>, local: Seq<char>, quorum: u64) -> bool {
    let plan = spill_plan(all, local);
    match r {
        ClusterPut::Done(s, spills) => {
            &&& s.ok == count_ok(all)
            &&& s.total == all.len()
            &&& s.quorum == quorum
            &&& s.ok >= quorum
            &&& spills@.len() == plan.len()
            &&& forall|j: int| 0 <= j < plan.len() ==> ((#[trigger] spills@[j]).target@, spills@[j].owner@) == plan[j]
        },
        ClusterPut::NeedSpills { ok, total, spills } => {
            &&& ok == count_ok(all)
            &&& total == all.len()
            &&& ok < quorum
            &&& spills@.len() == plan.len()
            &&& forall|j: int| 0 <= j < plan.len() ==> ((#[trigger] spills@[j]).target@, spills@[j].owner@) == plan[j]
        },
    }
}

/// `r` is what the first read pass decides on the answers `all`.
pub open spec fn get_decision_for(r: GetDecision, all: Seq<GetOutcome>) -> bool {
    let found = crate::quorum::found_values(all);
    let any_not_found = exists|i: int| 0 <= i < all.len() && all[i] is NotFound;
    &&& (found.len() > 0 <==> r is Value)
    &&& (r matches GetDecision::Value(d) ==> exists|i: int|
        crate::settings::is_most_recent(found, i) && found[i] == d)
    &&& (found.len() == 0 ==> (r is RetryAlien <==> any_not_found))
    &&& (found.len() == 0 && !any_not_found ==> (r is GetFailed <==> all.len() > 0))
}

/// A value found anywhere among the answers is among the values found.
pub proof fn lemma_found_in(all: Seq<GetOutcome>, i: int)
    requires
        0 <= i < all.len(),
        all[i] is Found,
    ensures
        found_values(all).contains(all[i]->Found_0),
    decreases all.len(),
{
    if i < all.len() - 1 {
        lemma_found_in(all.drop_last(), i);
        let j = choose|j: int| 0 <= j < found_values(all.drop_last()).len() && found_values(all.drop_last())[j]
            == all[i]->Found_0;
        assert(found_values(all)[j] == all[i]->Found_0);
    } else {
        assert(found_values(all).last() == all[i]->Found_0);
    }
}

/// A copy of the flags.
pub fn copy_flags(v: &Vec<bool>) -> (r: Vec<bool>)
    ensures
        r@ == v@,
{
    let mut out: Vec<bool> = Vec::new();
    let mut i: usize = 0;
    while i < v.len()
        invariant
            i <= v@.len(),
            out@ == v@.subrange(0, i as int),
        decreases v@.len() - i,
    {
        out.push(v[i]);
        i = i + 1;
        assert(out@ =~= v@.subrange(0, i as int));
    }
    assert(out@ =~= v@);
    out
}

/// A cluster write reported done had at least `quorum` answers that stored
/// the value, from pairwise distinct replicas.
pub proof fn law_done_meets_quorum(r: ClusterPut, all: Seq<NodePutResult>, local: Seq<char>, quorum: u64)
    requires
        cluster_put_outcome(r, all, local, quorum),
        all_distinct(answer_names(all)),
        r is Done,
    ensures
        count_ok(all) >= quorum,
        forall|a: int, b: int| 0 <= a < b < all.len() ==> all[a].node_name@ != all[b].node_name@,
{
    assert forall|a: int, b: int| 0 <= a < b < all.len() implies all[a].node_name@ != all[b].node_name@ by {
        assert(answer_names(all)[a] != answer_names(all)[b]);
    }
}

/// Facade that joins the topology, the local backend and the quorum rules.
pub struct Grinder {
    pub mapper: VDiskMapper,
    pub backend: Backend,
    /// Replicas that must acknowledge a cluster write.
    pub quorum: u64,
}

impl Grinder {
    pub open spec fn wf(&self) -> bool {
        self.mapper.wf() && self.backend.wf()
    }

    pub fn new(mapper: VDiskMapper, backend: Backend, quorum: u64) -> (r: Grinder)
        ensures
            r.mapper == mapper,
            r.backend == backend,
            r.quorum == quorum,
    {
        Grinder { mapper, backend, quorum }
    }

    /// Writes on this node only, where the mapper routes `key`: succeeds
    /// exactly when the backend's write for that operation does.
    pub fn put_local(&mut self, key: u64, data: BobData) -> (r: Result<(), BobError>)
        requires
            old(self).wf(),
        ensures
            final(self).wf(),
            final(self).quorum == old(self).quorum,
            old(self).mapper.spec_target_index(key) is None ==> r is Err,
            local_put_outcome(*old(self), *final(self), key, data@, r is Ok),
            local_put_error(*old(self), key, data.meta.timestamp, r),
    {
        match self.mapper.get_operation(key) {
            Some(op) => {
                let ghost v = data@;
                let r = self.backend.put(&op, key, data);
                proof {
                    assert(operation_for(old(self).mapper, key, op));
                    assert forall|o: Operation|
                        #[trigger] operation_for(old(self).mapper, key, o) implies (r is Ok
                            <==> old(self).backend.put_succeeds(o, v.timestamp)) by {
                        lemma_operation_for_unique(old(self).mapper, key, o, op);
                        old(self).backend.lemma_parts_same(o, op);
                    }
                    if r is Err {
                        assert forall|o: Operation| #[trigger] operation_for(old(self).mapper, key, o) implies backend_put_error(
                            old(self).backend,
                            o,
                            v.timestamp,
                            r->Err_0,
                        ) by {
                            lemma_operation_for_unique(old(self).mapper, key, o, op);
                            old(self).backend.lemma_parts_same(o, op);
                        }
                    }
                    if r is Ok {
                        if !op.alien {
                            let i = choose|i: int|
                                0 <= i < old(self).backend.normal_groups().len()
                                    && (#[trigger] old(self).backend.normal_groups()[i]).serves(op);
                            assert(self.backend.normal_groups()[i].spec_meta() == old(self).backend.normal_groups()[i].spec_meta());
                            assert(self.backend.normal_groups()[i].serves(op));
                        }
                        assert(local_put_post(*old(self), *self, key, v));
                    }
                }
                match r {
                    Ok(()) => Ok(()),
                    Err(e) => Err(BobError::Local(e)),
                }
            },
            None => {
                proof {
                    assert forall|o: Operation| !#[trigger] operation_for(old(self).mapper, key, o) by {
                        if operation_for(old(self).mapper, key, o) && !o.alien {
                            let v = self.mapper.spec_target_index(key).unwrap();
                            let reps = self.mapper.vdisks@[v].replicas@;
                            let i = choose|i: int| #[trigger] first_on_node(reps, self.mapper.local_node_name@, i)
                                && o.disk_name_local.unwrap()@ == reps[i].disk_name@;
                            assert(0 <= i < reps.len());
                        }
                    }
                }
                let id = self.mapper.vdisk_id_for_key(key);
                Err(BobError::Local(Error::VDiskNotFound(id.id)))
            },
        }
    }

    /// Reads on this node only, where the mapper routes `key`.
    pub fn get_local(&self, key: u64) -> (r: Result<BobData, BobError>)
        requires
            self.wf(),
        ensures
            local_get_outcome(*self, key, r),
    {
        match self.mapper.get_operation(key) {
            Some(op) => {
                let r = self.backend.get(&op, key);
                proof {
                    assert(operation_for(self.mapper, key, op));
                    assert forall|o: Operation|
                        operation_for(self.mapper, key, o) && (o.alien || self.backend.has_normal(o))
                            && some_has(#[trigger] self.backend.parts(o), key) implies r is Ok by {
                        lemma_operation_for_unique(self.mapper, key, o, op);
                        self.backend.lemma_parts_same(o, op);
                    }
                }
                match r {
                    Ok(d) => Ok(d),
                    Err(e) => Err(BobError::Local(e)),
                }
            },
            None => {
                let id = self.mapper.vdisk_id_for_key(key);
                Err(BobError::Local(Error::VDiskNotFound(id.id)))
            },
        }
    }

    /// A PUT as clients send it: with `force_node`, written on this node only;
    /// otherwise the cluster write, given the remote replicas' answers.
    pub fn put(&mut self, key: u64, data: BobData, opts: BobOptions, remote: &Vec<NodePutResult>) -> (r: GrinderPut)
        requires
            old(self).wf(),
            remote@.len() < u64::MAX,
            !opts.force_node ==> answer_names(remote@) == remote_target_names(old(self).mapper, key),
        ensures
            final(self).wf(),
            final(self).mapper == old(self).mapper,
            final(self).quorum == old(self).quorum,
            opts.force_node ==> (r matches GrinderPut::Local(res) && local_put_outcome(
                *old(self),
                *final(self),
                key,
                data@,
                res is Ok,
            ) && local_put_error(*old(self), key, data.meta.timestamp, res)),
            !opts.force_node ==> (r matches GrinderPut::Cluster(c) && exists|local: Seq<NodePutResult>|
                #[trigger] cluster_put_outcome(c, local + remote@, old(self).mapper.local_node_name@, old(self).quorum)
                    && local_write(old(self).mapper, old(self).backend, final(self).backend, key, data@, local)),
    {
        if opts.force_node {
            GrinderPut::Local(self.put_local(key, data))
        } else {
            GrinderPut::Cluster(self.put_clustered(key, data, remote))
        }
    }

    /// A GET as clients send it: with `force_node`, read on this node only;
    /// otherwise the first cluster pass, given the remote replicas' answers.
    pub fn get(&self, key: u64, opts: BobOptions, remote: Vec<GetOutcome>) -> (r: GrinderGet)
        requires
            self.wf(),
        ensures
            opts.force_node ==> (r matches GrinderGet::Local(res) && local_get_outcome(*self, key, res)),
            !opts.force_node ==> (r matches GrinderGet::Cluster(dec) && exists|local: Seq<GetOutcome>|
                #[trigger] get_decision_for(dec, local + remote@) && local_read(self.mapper, self.backend, key, local)),
    {
        if opts.force_node {
            GrinderGet::Local(self.get_local(key))
        } else {
            GrinderGet::Cluster(self.get_clustered(key, remote))
        }
    }

    /// An EXIST as clients send it: with `force_node`, this node's replicas
    /// only; otherwise also the remote replicas' answers.
    pub fn exist(&self, keys: &Vec<u64>, opts: BobOptions, remote: &Vec<Vec<bool>>) -> (r: Vec<bool>)
        requires
            self.wf(),
        ensures
            r@.len() == keys@.len(),
            forall|k: int, op: Operation|
                #![trigger r@[k], self.backend.parts(op)]
                0 <= k < keys@.len() && operation_for(self.mapper, keys@[k], op) && !op.alien
                    && self.backend.has_normal(op) && some_has(self.backend.parts(op), keys@[k]) ==> r@[k],
            opts.force_node ==> forall|k: int| 0 <= k < keys@.len() && #[trigger] r@[k] ==> local_has(self.mapper, self.backend, keys@[k]),
            !opts.force_node ==> forall|k: int, a: int|
                0 <= k < keys@.len() && 0 <= a < remote@.len() && remote@[a]@.len() == keys@.len()
                    && (#[trigger] remote@[a]@[k]) ==> r@[k],
            !opts.force_node ==> forall|k: int|
                0 <= k < keys@.len() && #[trigger] r@[k] ==> local_has(self.mapper, self.backend, keys@[k])
                    || exists|a: int|
                    0 <= a < remote@.len() && remote@[a]@.len() == keys@.len() && remote@[a]@[k],
    {
        if opts.force_node {
            self.exist_local(keys)
        } else {
            self.exist_clustered(keys, remote)
        }
    }

    /// The distinct replica nodes of `key` other than this node, in replica order.
    pub fn remote_targets(&self, key: u64) -> (r: Vec<String>)
        requires
            self.wf(),
        ensures
            match self.mapper.spec_target_index(key) {
                Some(v) => r@.map_values(|s: String| s@) == without(
                    dedup(replica_nodes(self.mapper.vdisks@[v])),
                    self.mapper.local_node_name@,
                ),
                None => r@.len() == 0,
            },
    {
        let all = self.mapper.get_target_nodes(key);
        let ghost names = all@.map_values(|s: String| s@);
        let ghost local = self.mapper.local_node_name@;
        let mut out: Vec<String> = Vec::new();
        let mut i: usize = 0;
        while i < all.len()
            invariant
                i <= all@.len(),
                names == all@.map_values(|s: String| s@),
                local == self.mapper.local_node_name@,
                out@.map_values(|s: String| s@) == without(names.subrange(0, i as int), local),
            decreases all@.len() - i,
        {
            assert(names.subrange(0, i + 1).drop_last() =~= names.subrange(0, i as int));
            assert(names.subrange(0, i + 1).last() == all@[i as int]@);
            if all[i] != self.mapper.local_node_name {
                out.push(all[i].clone());
                assert(out@.map_values(|s: String| s@) =~= without(names.subrange(0, i as int), local).push(all@[i as int]@));
            }
            i = i + 1;
        }
        assert(names.subrange(0, i as int) =~= names);
        out
    }

    /// The operation on this node's own disk for `key`, where this node holds
    /// one of its replicas.
    fn local_operation(&self, key: u64) -> (r: Option<Operation>)
        requires
            self.wf(),
        ensures
            r matches Some(op) ==> !op.alien && operation_for(self.mapper, key, op),
            r is None ==> forall|o: Operation| !(#[trigger] operation_for(self.mapper, key, o) && !o.alien),
    {
        match self.mapper.get_operation(key) {
            Some(op) => {
                if op.alien {
                    proof {
                        assert forall|o: Operation| !(#[trigger] operation_for(self.mapper, key, o) && !o.alien) by {
                            if operation_for(self.mapper, key, o) && !o.alien {
                                let v = self.mapper.spec_target_index(key).unwrap();
                                let reps = self.mapper.vdisks@[v].replicas@;
                                let i = choose|i: int| #[trigger] first_on_node(reps, self.mapper.local_node_name@, i)
                                    && o.disk_name_local.unwrap()@ == reps[i].disk_name@;
                                assert(reps[i].node_name@ != self.mapper.local_node_name@);
                            }
                        }
                    }
                    None
                } else {
                    Some(op)
                }
            },
            None => {
                proof {
                    assert forall|o: Operation| !(#[trigger] operation_for(self.mapper, key, o) && !o.alien) by {
                        if operation_for(self.mapper, key, o) && !o.alien {
                            let v = self.mapper.spec_target_index(key).unwrap();
                            let reps = self.mapper.vdisks@[v].replicas@;
                            let i = choose|i: int| #[trigger] first_on_node(reps, self.mapper.local_node_name@, i)
                                && o.disk_name_local.unwrap()@ == reps[i].disk_name@;
                            assert(0 <= i < reps.len());
                        }
                    }
                }
                None
            },
        }
    }

    /// The cluster write, once the remote replicas answered `remote`: writes
    /// the local replica where this node holds one, counts the replicas that
    /// stored the value, and plans the alien spills for the failed ones.
    pub fn put_clustered(&mut self, key: u64, data: BobData, remote: &Vec<NodePutResult>) -> (r: ClusterPut)
        requires
            old(self).wf(),
            remote@.len() < u64::MAX,
            answer_names(remote@) == remote_target_names(old(self).mapper, key),
        ensures
            final(self).wf(),
            final(self).mapper == old(self).mapper,
            final(self).quorum == old(self).quorum,
            exists|local: Seq<NodePutResult>|
                #[trigger] cluster_put_outcome(
                    r,
                    local + remote@,
                    old(self).mapper.local_node_name@,
                    old(self).quorum,
                ) && local_write(old(self).mapper, old(self).backend, final(self).backend, key, data@, local)
                    && all_distinct(answer_names(local + remote@)),
    {
        let mut results: Vec<NodePutResult> = Vec::new();
        let ghost v = data@;
        match self.local_operation(key) {
            Some(op) => {
                let ok = self.backend.put(&op, key, data).is_ok();
                results.push(NodePutResult { node_name: self.mapper.local_node_name.clone(), ok });
                proof {
                    assert forall|o: Operation|
                        #[trigger] operation_for(old(self).mapper, key, o) && !o.alien implies (ok
                            <==> old(self).backend.put_succeeds(o, v.timestamp)) by {
                        lemma_operation_for_unique(old(self).mapper, key, o, op);
                        old(self).backend.lemma_parts_same(o, op);
                    }
                    if ok {
                        assert(operation_for(old(self).mapper, key, op) && !op.alien && put_post(
                            old(self).backend.parts(op),
                            self.backend.parts(op),
                            key,
                            v,
                            self.backend.group_period(op),
                            self.backend.group_dir(op),
                        ));
                    }
                }
            },
            None => {},
        }
        let ghost local = results@;
        assert(local_write(old(self).mapper, old(self).backend, self.backend, key, v, local));
        proof {
            lemma_remote_targets_distinct(old(self).mapper, key);
            let names = answer_names(local + remote@);
            let rn = answer_names(remote@);
            assert forall|a: int, b: int| 0 <= a < b < names.len() implies names[a] != names[b] by {
                if a < local.len() {
                    assert(names[a] == old(self).mapper.local_node_name@);
                    assert(names[b] == rn[b - local.len()]);
                    assert(rn.contains(names[b]));
                } else {
                    assert(names[a] == rn[a - local.len()]);
                    assert(names[b] == rn[b - local.len()]);
                }
            }
        }
        let mut i: usize = 0;
        while i < remote.len()
            invariant
                i <= remote@.len(),
                results@ == local + remote@.subrange(0, i as int),
            decreases remote@.len() - i,
        {
            results.push(remote[i].clone_result());
            i = i + 1;
            assert(results@ =~= local + remote@.subrange(0, i as int));
        }
        assert(remote@.subrange(0, i as int) =~= remote@);
        let total = results.len() as u64;
        let ok = count_successes(&results);
        proof {
            crate::quorum::lemma_count_ok_le(results@);
        }
        let spills = plan_alien_spills(&results, &self.mapper.local_node_name);
        let r = if ok >= self.quorum {
            ClusterPut::Done(PutSummary { ok, total, quorum: self.quorum }, spills)
        } else {
            ClusterPut::NeedSpills { ok, total, spills }
        };
        assert(cluster_put_outcome(r, local + remote@, self.mapper.local_node_name@, self.quorum));
        r
    }

    /// The first pass of a cluster read, once the remote replicas answered
    /// `remote`: adds the answer of the local replica where this node holds
    /// one, and decides.
    pub fn get_clustered(&self, key: u64, remote: Vec<GetOutcome>) -> (r: GetDecision)
        requires
            self.wf(),
        ensures
            exists|local: Seq<GetOutcome>|
                #[trigger] get_decision_for(r, local + remote@) && local_read(self.mapper, self.backend, key, local),
    {
        let ghost rem = remote@;
        let total = remote.len();
        let mut all: Vec<GetOutcome> = Vec::new();
        match self.local_operation(key) {
            Some(op) => {
                let got = self.backend.get(&op, key);
                let o = match got {
                    Ok(d) => GetOutcome::Found(d),
                    Err(Error::KeyNotFound) => GetOutcome::NotFound,
                    Err(_) => GetOutcome::Failed,
                };
                proof {
                    assert forall|x: Operation|
                        #[trigger] operation_for(self.mapper, key, x) && !x.alien && self.backend.has_normal(x)
                            implies local_answer(o, self.backend.parts(x), key) by {
                        lemma_operation_for_unique(self.mapper, key, x, op);
                        self.backend.lemma_parts_same(x, op);
                    }
                }
                all.push(o);
            },
            None => {},
        }
        let ghost local = all@;
        assert(local_read(self.mapper, self.backend, key, local));
        let mut rest = remote;
        let mut i: usize = 0;
        while rest.len() > 0
            invariant
                rem.len() == total,
                i <= rem.len(),
                rest@ == rem.subrange(i as int, rem.len() as int),
                all@ == local + rem.subrange(0, i as int),
            decreases rest@.len(),
        {
            let o = rest.remove(0);
            assert(rem[i as int] == o);
            all.push(o);
            i = i + 1;
            assert(all@ =~= local + rem.subrange(0, i as int));
            assert(rest@ =~= rem.subrange(i as int, rem.len() as int));
        }
        assert(rem.subrange(0, i as int) =~= rem);
        let ghost everything = all@;
        let r = reconcile_get(all);
        assert(get_decision_for(r, everything));
        r
    }

    /// The second pass of a cluster read, once the remote replicas answered
    /// `remote` from their alien areas: adds what this node keeps in its own
    /// alien area for the replicas of `key`, and returns the most recent value.
    pub fn get_clustered_alien(&self, key: u64, remote: Vec<GetOutcome>) -> (r: Result<BobData, Error>)
        requires
            self.wf(),
        ensures
            forall|i: int|
                0 <= i < remote@.len() && (#[trigger] remote@[i]) is Found ==> r is Ok,
            forall|i: int|
                0 <= i < remote@.len() && (#[trigger] remote@[i]) is Found ==> r->Ok_0.meta.timestamp
                    >= remote@[i]->Found_0.meta.timestamp,
            r matches Err(e) ==> e is KeyNotFound,
            forall|o: Operation, j: int|
                #![trigger remote_target_names(self.mapper, key).contains(o.remote_node_name.unwrap()@), self.backend.parts(o)[j]]
                kept_for(self.mapper, key, o) && remote_target_names(self.mapper, key).contains(
                    o.remote_node_name.unwrap()@,
                ) && 0 <= j < self.backend.parts(o).len() && self.backend.parts(o)[j].has(key) ==> r is Ok
                    && r->Ok_0.meta.timestamp >= self.backend.parts(o)[j].contents[key].timestamp,
            r matches Ok(d) ==> (exists|i: int| 0 <= i < remote@.len() && remote@[i] == GetOutcome::Found(d))
                || local_alien_value(*self, key, d@),
            r is Err <==> (forall|i: int| 0 <= i < remote@.len() ==> !(#[trigger] remote@[i] is Found))
                && !local_alien_has(*self, key),
    {
        let mut all = remote;
        let ghost rem = all@;
        let id = self.mapper.vdisk_id_for_key(key);
        let owners = self.remote_targets(key);
        let ghost names = owners@.map_values(|s: String| s@);
        let mut i: usize = 0;
        while i < owners.len()
            invariant
                self.wf(),
                i <= owners@.len(),
                all@.len() >= rem.len(),
                all@.subrange(0, rem.len() as int) == rem,
                id.id == self.mapper.spec_vdisk_id_for_key(key),
                names == owners@.map_values(|s: String| s@),
                names == remote_target_names(self.mapper, key),
                forall|q: int|
                    rem.len() <= q < all@.len() ==> (#[trigger] all@[q]) is Found && local_alien_value(
                        *self,
                        key,
                        all@[q]->Found_0@,
                    ),
                forall|x: int, o: Operation, j: int|
                    #![trigger owners@[x], self.backend.parts(o)[j]]
                    0 <= x < i && kept_for(self.mapper, key, o) && o.remote_node_name.unwrap()@ == owners@[x]@
                        && 0 <= j < self.backend.parts(o).len() && self.backend.parts(o)[j].has(key) ==> seen(
                        all@,
                        self.backend.parts(o)[j].contents[key].timestamp,
                    ),
            decreases owners@.len() - i,
        {
            let op = Operation::new_alien(id, &owners[i]);
            let ghost before = all@;
            match self.backend.get(&op, key) {
                Ok(d) => {
                    proof {
                        let j = choose|j: int| 0 <= j < self.backend.parts(op).len() && (#[trigger] self.backend.parts(op)[j]).has(key)
                            && self.backend.parts(op)[j].contents[key] == d@;
                        assert(names[i as int] == owners@[i as int]@);
                        assert(remote_target_names(self.mapper, key).contains(op.remote_node_name.unwrap()@));
                        assert(kept_for(self.mapper, key, op));
                        assert(local_alien_value(*self, key, d@));
                    }
                    all.push(GetOutcome::Found(d));
                    assert(all@.subrange(0, rem.len() as int) =~= before.subrange(0, rem.len() as int));
                    proof {
                        assert forall|q: int|
                            rem.len() <= q < all@.len() implies (#[trigger] all@[q]) is Found && local_alien_value(
                                *self,
                                key,
                                all@[q]->Found_0@,
                            ) by {
                            if q < before.len() {
                                assert(all@[q] == before[q]);
                            }
                        }
                        assert forall|x: int, o: Operation, j: int|
                            #![trigger owners@[x], self.backend.parts(o)[j]]
                            0 <= x < i + 1 && kept_for(self.mapper, key, o) && o.remote_node_name.unwrap()@ == owners@[x]@
                                && 0 <= j < self.backend.parts(o).len() && self.backend.parts(o)[j].has(key) implies seen(
                                all@,
                                self.backend.parts(o)[j].contents[key].timestamp,
                            ) by {
                            if x < i {
                                let q = choose|q: int| 0 <= q < before.len() && before[q] is Found
                                    && before[q]->Found_0.meta.timestamp >= self.backend.parts(o)[j].contents[key].timestamp;
                                assert(all@[q] == before[q]);
                            } else {
                                assert(o.vdisk_id == op.vdisk_id);
                                self.backend.lemma_parts_same(o, op);
                                assert(all@[before.len() as int] == GetOutcome::Found(d));
                            }
                        }
                    }
                },
                Err(_) => {
                    proof {
                        assert forall|x: int, o: Operation, j: int|
                            #![trigger owners@[x], self.backend.parts(o)[j]]
                            0 <= x < i + 1 && kept_for(self.mapper, key, o) && o.remote_node_name.unwrap()@ == owners@[x]@
                                && 0 <= j < self.backend.parts(o).len() && self.backend.parts(o)[j].has(key) implies seen(
                                all@,
                                self.backend.parts(o)[j].contents[key].timestamp,
                            ) by {
                            if x == i {
                                assert(o.vdisk_id == op.vdisk_id);
                                self.backend.lemma_parts_same(o, op);
                                assert(some_has(self.backend.parts(op), key));
                            }
                        }
                    }
                },
            }
            i = i + 1;
        }
        let ghost everything = all@;
        proof {
            assert forall|i: int| 0 <= i < rem.len() && (#[trigger] rem[i]) is Found implies found_values(everything).contains(
                rem[i]->Found_0,
            ) by {
                assert(everything[i] == rem[i]);
                lemma_found_in(everything, i);
            }
        }
        let r = reconcile_alien(all);
        proof {
            assert forall|o: Operation, j: int|
                #![trigger remote_target_names(self.mapper, key).contains(o.remote_node_name.unwrap()@), self.backend.parts(o)[j]]
                kept_for(self.mapper, key, o) && remote_target_names(self.mapper, key).contains(
                    o.remote_node_name.unwrap()@,
                ) && 0 <= j < self.backend.parts(o).len() && self.backend.parts(o)[j].has(key) implies r is Ok
                    && r->Ok_0.meta.timestamp >= self.backend.parts(o)[j].contents[key].timestamp by {
                let x = choose|x: int| 0 <= x < names.len() && names[x] == o.remote_node_name.unwrap()@;
                assert(owners@[x]@ == names[x]);
                let q = choose|q: int| 0 <= q < everything.len() && everything[q] is Found
                    && everything[q]->Found_0.meta.timestamp >= self.backend.parts(o)[j].contents[key].timestamp;
                lemma_found_in(everything, q);
                if r is Ok {
                    let d = r->Ok_0;
                    let m = choose|m: int| crate::settings::is_most_recent(found_values(everything), m)
                        && found_values(everything)[m] == d;
                    let k = choose|k: int| 0 <= k < found_values(everything).len() && found_values(everything)[k]
                        == everything[q]->Found_0;
                    assert(found_values(everything)[k].meta.timestamp <= found_values(everything)[m].meta.timestamp);
                }
            }
            if r is Ok {
                let d = r->Ok_0;
                let m = choose|m: int| crate::settings::is_most_recent(found_values(everything), m)
                    && found_values(everything)[m] == d;
                lemma_found_from(everything, m);
                let q = choose|q: int| 0 <= q < everything.len() && everything[q] == GetOutcome::Found(found_values(everything)[m]);
                if q < rem.len() {
                    assert(everything[q] == rem[q]);
                }
                if local_alien_value(*self, key, d@) {
                    let (o, j) = choose|o: Operation, j: int|
                        kept_for(self.mapper, key, o) && remote_target_names(self.mapper, key).contains(
                            o.remote_node_name.unwrap()@,
                        ) && 0 <= j < self.backend.parts(o).len() && (#[trigger] self.backend.parts(o)[j]).has(key)
                            && self.backend.parts(o)[j].contents[key] == d@;
                    assert(local_alien_has(*self, key));
                }
                assert forall|i: int| 0 <= i < rem.len() && (#[trigger] rem[i]) is Found implies d.meta.timestamp
                    >= rem[i]->Found_0.meta.timestamp by {
                    let j = choose|j: int| 0 <= j < found_values(everything).len() && found_values(everything)[j]
                        == rem[i]->Found_0;
                    assert(found_values(everything)[j].meta.timestamp <= found_values(everything)[m].meta.timestamp);
                }
            } else {
                assert forall|i: int| 0 <= i < rem.len() && (#[trigger] rem[i]) is Found implies false by {
                    let j = choose|j: int| 0 <= j < found_values(everything).len() && found_values(everything)[j]
                        == rem[i]->Found_0;
                }
            }
        }
        r
    }

    /// For each key, whether this node's replica or a remote one (`remote`,
    /// one answer per replica, aligned with `keys`) reports it.
    pub fn exist_clustered(&self, keys: &Vec<u64>, remote: &Vec<Vec<bool>>) -> (r: Vec<bool>)
        requires
            self.wf(),
        ensures
            r@.len() == keys@.len(),
            forall|k: int, a: int|
                0 <= k < keys@.len() && 0 <= a < remote@.len() && remote@[a]@.len() == keys@.len()
                    && (#[trigger] remote@[a]@[k]) ==> r@[k],
            forall|k: int, op: Operation|
                #![trigger r@[k], self.backend.parts(op)]
                0 <= k < keys@.len() && operation_for(self.mapper, keys@[k], op) && !op.alien
                    && self.backend.has_normal(op) && some_has(self.backend.parts(op), keys@[k]) ==> r@[k],
            forall|k: int|
                0 <= k < keys@.len() && #[trigger] r@[k] ==> local_has(self.mapper, self.backend, keys@[k])
                    || exists|a: int|
                    0 <= a < remote@.len() && remote@[a]@.len() == keys@.len() && remote@[a]@[k],
    {
        let local = self.exist_local(keys);
        let mut answers: Vec<Vec<bool>> = Vec::new();
        let mut a: usize = 0;
        while a < remote.len()
            invariant
                a <= remote@.len(),
                answers@.len() == a,
                forall|b: int| 0 <= b < a ==> (#[trigger] answers@[b])@ == remote@[b]@,
            decreases remote@.len() - a,
        {
            answers.push(copy_flags(&remote[a]));
            a = a + 1;
        }
        let ghost local_view = local@;
        answers.push(local);
        let r = crate::quorum::merge_exist(keys.len(), &answers);
        let ghost n = remote@.len() as int;
        assert forall|k: int, b: int|
            0 <= k < keys@.len() && 0 <= b < remote@.len() && remote@[b]@.len() == keys@.len()
                && (#[trigger] remote@[b]@[k]) implies r@[k] by {
            assert(answers@[b]@ == remote@[b]@);
        }
        assert forall|k: int, op: Operation|
            #![trigger r@[k], self.backend.parts(op)]
            0 <= k < keys@.len() && operation_for(self.mapper, keys@[k], op) && !op.alien
                && self.backend.has_normal(op) && some_has(self.backend.parts(op), keys@[k]) implies r@[k] by {
            assert(answers@[n]@[k]);
        }
        assert forall|k: int|
            0 <= k < keys@.len() && #[trigger] r@[k] implies local_has(self.mapper, self.backend, keys@[k])
                || exists|a: int|
                0 <= a < remote@.len() && remote@[a]@.len() == keys@.len() && remote@[a]@[k] by {
            let b = choose|b: int| 0 <= b < answers@.len() && (#[trigger] answers@[b])@.len() == keys@.len() && answers@[b]@[k];
            if b < n {
                assert(answers@[b]@ == remote@[b]@);
            } else {
                assert(answers@[b]@ == local_view);
            }
        }
        r
    }

    /// For each key, whether this node's own replica of it holds the key;
    /// false for keys this node holds no replica of.
    pub fn exist_local(&self, keys: &Vec<u64>) -> (r: Vec<bool>)
        requires
            self.wf(),
        ensures
            r@.len() == keys@.len(),
            forall|k: int, op: Operation|
                #![trigger r@[k], self.backend.parts(op)]
                0 <= k < keys@.len() && operation_for(self.mapper, keys@[k], op) && !op.alien
                    && self.backend.has_normal(op) ==> r@[k] == some_has(self.backend.parts(op), keys@[k]),
            forall|k: int| 0 <= k < keys@.len() && #[trigger] r@[k] ==> local_has(self.mapper, self.backend, keys@[k]),
    {
        let mut out: Vec<bool> = Vec::new();
        let mut k: usize = 0;
        while k < keys.len()
            invariant
                self.wf(),
                k <= keys@.len(),
                out@.len() == k,
                forall|q: int, op: Operation|
                    #![trigger out@[q], self.backend.parts(op)]
                    0 <= q < k && operation_for(self.mapper, keys@[q], op) && !op.alien
                        && self.backend.has_normal(op) ==> out@[q] == some_has(self.backend.parts(op), keys@[q]),
                forall|q: int| 0 <= q < k && #[trigger] out@[q] ==> local_has(self.mapper, self.backend, keys@[q]),
            decreases keys@.len() - k,
        {
            let key = keys[k];
            let mut one: Vec<u64> = Vec::new();
            one.push(key);
            let lop = self.local_operation(key);
            let b = match &lop {
                Some(op) => match self.backend.exist(op, &one) {
                    Ok(v) => {
                        assert(v@.len() == 1);
                        v[0]
                    },
                    Err(_) => false,
                },
                None => false,
            };
            proof {
                assert forall|o: Operation|
                    operation_for(self.mapper, key, o) && !o.alien && self.backend.has_normal(o) implies b
                        == some_has(#[trigger] self.backend.parts(o), key) by {
                    if let Some(op) = lop {
                        lemma_operation_for_unique(self.mapper, key, o, op);
                        self.backend.lemma_parts_same(o, op);
                    }
                }
                if b {
                    let op = lop.unwrap();
                    assert(operation_for(self.mapper, key, op) && !op.alien && some_has(self.backend.parts(op), key));
                }
            }
            out.push(b);
            k = k + 1;
        }
        out
    }
}

} // verus!
