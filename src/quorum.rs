use vstd::prelude::*;

use crate::data::{BobData, DataView};
use crate::error::Error;
use crate::mapper::ExistBucket;
use crate::settings::{choose_most_recent_data, is_most_recent};

verus! {

/// How a replica answered a write: `ok` where it stored the value (a
/// duplicate key counts as stored).
#[derive(Debug, Clone)]
pub struct NodePutResult {
    pub node_name: String,
    pub ok: bool,
}

impl NodePutResult {
    pub fn clone_result(&self) -> (r: NodePutResult)
        ensures
            r == *self,
    {
        NodePutResult { node_name: self.node_name.clone(), ok: self.ok }
    }
}

/// An alien write: `target` keeps the value for `owner`, which failed.
#[derive(Debug, Clone)]
pub struct AlienSpill {
    pub target: String,
    pub owner: String,
}

/// The counts of a PUT that reached its quorum.
#[derive(Debug, Clone, Copy, PartialEq, Eq, Structural)]
pub struct PutSummary {
    pub ok: u64,
    pub total: u64,
    pub quorum: u64,
}

/// How a replica answered a read.
#[derive(Debug, Clone)]
pub enum GetOutcome {
    Found(BobData),
    NotFound,
    Failed,
}

/// What the read path does with the answers of the replicas.
#[derive(Debug, Clone)]
pub enum GetDecision {
    /// The most recent value found.
    Value(BobData),
    /// Nothing found, some replica answered "not found": ask the alien areas.
    RetryAlien,
    /// Every replica failed.
    GetFailed,
    /// No replica was asked.
    KeyNotFound,
}

/// How a call to a peer ended.
#[derive(Debug, Clone, Copy, PartialEq, Eq, Structural)]
pub enum CallStatus {
    Success,
    /// The peer has no record under the key.
    NotFound,
    /// The peer's backend is not ready.
    Unavailable,
    InvalidArgument,
    Internal,
    /// The per-call deadline elapsed.
    TimedOut,
    /// No live connection to the peer.
    NoConnection,
}

/// The error of a call that did not succeed: `Timeout`, `Unreachable`,
/// `KeyNotFound` for "not found", else `RemoteError` with the peer's message.
pub fn call_error(status: CallStatus, message: String) -> (r: Error)
    requires
        status != CallStatus::Success,
    ensures
        status == CallStatus::TimedOut ==> r is Timeout,
        status == CallStatus::NoConnection ==> r is Unreachable,
        status == CallStatus::NotFound ==> r is KeyNotFound,
        status != CallStatus::TimedOut && status != CallStatus::NoConnection && status
            != CallStatus::NotFound ==> r == Error::RemoteError(message),
{
    match status {
        CallStatus::TimedOut => Error::Timeout,
        CallStatus::NoConnection => Error::Unreachable,
        CallStatus::NotFound => Error::KeyNotFound,
        _ => Error::RemoteError(message),
    }
}

/// A replica's answer to a write: stored exactly when the call succeeded.
pub fn put_outcome(node_name: String, status: CallStatus) -> (r: NodePutResult)
    ensures
        r.node_name@ == node_name@,
        r.ok == (status == CallStatus::Success),
{
    NodePutResult { node_name, ok: status == CallStatus::Success }
}

/// A replica's answer to a read: the value where the call succeeded with
/// one, "not found" where the peer has no record, else a failure.
pub fn get_outcome(status: CallStatus, data: Option<BobData>) -> (r: GetOutcome)
    ensures
        status == CallStatus::Success && data is Some ==> r == GetOutcome::Found(data.unwrap()),
        status == CallStatus::NotFound ==> r is NotFound,
        !(status == CallStatus::Success && data is Some) && status != CallStatus::NotFound ==> r is Failed,
{
    match (status, data) {
        (CallStatus::Success, Some(d)) => GetOutcome::Found(d),
        (CallStatus::NotFound, _) => GetOutcome::NotFound,
        _ => GetOutcome::Failed,
    }
}

/// Number of replicas that stored the value.
pub open spec fn count_ok(s: Seq<NodePutResult>) -> nat
    decreases s.len(),
{
    if s.len() == 0 {
        0
    } else {
        count_ok(s.drop_last()) + if s.last().ok {
            1nat
        } else {
            0nat
        }
    }
}

/// Names of the replicas that failed, in order.
pub open spec fn failed_names(s: Seq<NodePutResult>) -> Seq<Seq<char>>
    decreases s.len(),
{
    if s.len() == 0 {
        Seq::empty()
    } else if s.last().ok {
        failed_names(s.drop_last())
    } else {
        failed_names(s.drop_last()).push(s.last().node_name@)
    }
}

/// Names of the remote replicas that stored the value, in order.
pub open spec fn survivor_names(s: Seq<NodePutResult>, local: Seq<char>) -> Seq<Seq<char>>
    decreases s.len(),
{
    if s.len() == 0 {
        Seq::empty()
    } else if s.last().ok && s.last().node_name@ != local {
        survivor_names(s.drop_last(), local).push(s.last().node_name@)
    } else {
        survivor_names(s.drop_last(), local)
    }
}

/// The spills for the failed replicas: the j-th failed replica goes to the
/// surviving remote replica number `j mod (number of survivors)`; none where
/// no remote replica survived.
pub open spec fn spill_plan(s: Seq<NodePutResult>, local: Seq<char>) -> Seq<(Seq<char>, Seq<char>)> {
    let f = failed_names(s);
    let v = survivor_names(s, local);
    if v.len() == 0 {
        Seq::empty()
    } else {
        Seq::new(f.len(), |j: int| (v[j % (v.len() as int)], f[j]))
    }
}

pub proof fn lemma_count_ok_le(s: Seq<NodePutResult>)
    ensures
        count_ok(s) <= s.len(),
    decreases s.len(),
{
    if s.len() > 0 {
        lemma_count_ok_le(s.drop_last());
    }
}

/// Number of replicas that stored the value.
pub fn count_successes(results: &Vec<NodePutResult>) -> (r: u64)
    requires
        results@.len() <= u64::MAX,
    ensures
        r == count_ok(results@),
{
    let mut n: u64 = 0;
    let mut i: usize = 0;
    while i < results.len()
        invariant
            i <= results@.len() <= u64::MAX,
            n == count_ok(results@.subrange(0, i as int)),
            n <= i,
        decreases results@.len() - i,
    {
        assert(results@.subrange(0, i + 1).drop_last() =~= results@.subrange(0, i as int));
        if results[i].ok {
            n = n + 1;
        }
        i = i + 1;
    }
    assert(results@.subrange(0, i as int) =~= results@);
    n
}

/// Whether `ok` acknowledgements meet the quorum.
pub fn put_quorum_reached(ok: u64, quorum: u64) -> (r: bool)
    ensures
        r == (ok >= quorum),
{
    ok >= quorum
}

/// The alien writes that stand in for the failed replicas of a PUT, sent to
/// the remote replicas that succeeded, round-robin.
pub fn plan_alien_spills(results: &Vec<NodePutResult>, local_node_name: &String) -> (r: Vec<AlienSpill>)
    ensures
        r@.len() == spill_plan(results@, local_node_name@).len(),
        forall|j: int|
            0 <= j < r@.len() ==> ((#[trigger] r@[j]).target@, r@[j].owner@) == spill_plan(
                results@,
                local_node_name@,
            )[j],
{
    let mut failed: Vec<String> = Vec::new();
    let mut survivors: Vec<String> = Vec::new();
    let mut i: usize = 0;
    while i < results.len()
        invariant
            i <= results@.len(),
            failed@.map_values(|x: String| x@) == failed_names(results@.subrange(0, i as int)),
            survivors@.map_values(|x: String| x@) == survivor_names(
                results@.subrange(0, i as int),
                local_node_name@,
            ),
        decreases results@.len() - i,
    {
        let ghost pre = results@.subrange(0, i as int);
        assert(results@.subrange(0, i + 1).drop_last() =~= pre);
        let res = &results[i];
        if !res.ok {
            failed.push(res.node_name.clone());
            assert(failed@.map_values(|x: String| x@) =~= failed_names(pre).push(res.node_name@));
        } else if res.node_name != *local_node_name {
            survivors.push(res.node_name.clone());
            assert(survivors@.map_values(|x: String| x@) =~= survivor_names(pre, local_node_name@).push(
                res.node_name@,
            ));
        }
        i = i + 1;
    }
    assert(results@.subrange(0, i as int) =~= results@);
    let ghost f = failed_names(results@);
    let ghost v = survivor_names(results@, local_node_name@);
    let mut out: Vec<AlienSpill> = Vec::new();
    if survivors.len() == 0 {
        return out;
    }
    let mut j: usize = 0;
    while j < failed.len()
        invariant
            0 < survivors@.len(),
            f == failed_names(results@),
            v == survivor_names(results@, local_node_name@),
            failed@.map_values(|x: String| x@) == f,
            survivors@.map_values(|x: String| x@) == v,
            j <= failed@.len(),
            out@.len() == j,
            forall|k: int|
                0 <= k < j ==> ((#[trigger] out@[k]).target@, out@[k].owner@) == (
                    v[k % (v.len() as int)],
                    f[k],
                ),
        decreases failed@.len() - j,
    {
        let t = j % survivors.len();
        assert(survivors@[t as int]@ == v[t as int]);
        assert(failed@[j as int]@ == f[j as int]);
        out.push(AlienSpill { target: survivors[t].clone(), owner: failed[j].clone() });
        j = j + 1;
    }
    out
}

/// Enough replicas stored the value, directly or through alien spills.
pub open spec fn quorum_met(ok: nat, spilled_ok: nat, quorum: nat) -> bool {
    ok + spilled_ok >= quorum
}

/// A PUT that succeeds has at least `quorum` replicas, normal or alien, that
/// stored the value.
pub proof fn law_success_means_quorum(ok: nat, spilled_ok: nat, quorum: nat)
    requires
        quorum_met(ok, spilled_ok, quorum),
    ensures
        ok + spilled_ok >= quorum,
{
}

/// With the quorum equal to the number of replicas and no alien spill, a PUT
/// succeeds exactly when every replica stored the value.
pub proof fn law_full_quorum(ok: nat, n: nat)
    requires
        ok <= n,
    ensures
        quorum_met(ok, 0, n) <==> ok == n,
{
}

/// When every replica failed, none counts as stored and no remote replica is
/// left to take an alien spill.
pub proof fn law_all_down(all: Seq<NodePutResult>, local: Seq<char>)
    requires
        forall|i: int| 0 <= i < all.len() ==> !(#[trigger] all[i]).ok,
    ensures
        count_ok(all) == 0,
        spill_plan(all, local).len() == 0,
    decreases all.len(),
{
    if all.len() > 0 {
        let t = all.drop_last();
        assert forall|i: int| 0 <= i < t.len() implies !(#[trigger] t[i]).ok by {
            assert(t[i] == all[i]);
        }
        law_all_down(t, local);
    }
    assert(survivor_names(all, local).len() == 0) by {
        lemma_no_survivors(all, local);
    }
}

proof fn lemma_no_survivors(all: Seq<NodePutResult>, local: Seq<char>)
    requires
        forall|i: int| 0 <= i < all.len() ==> !(#[trigger] all[i]).ok,
    ensures
        survivor_names(all, local).len() == 0,
    decreases all.len(),
{
    if all.len() > 0 {
        let t = all.drop_last();
        assert forall|i: int| 0 <= i < t.len() implies !(#[trigger] t[i]).ok by {
            assert(t[i] == all[i]);
        }
        lemma_no_survivors(t, local);
    }
}

/// The end of a PUT: success where the replicas that stored the value,
/// directly (`ok`) or through alien spills (`spilled_ok`), meet the quorum;
/// else `QuorumFailed` with those counts.
pub fn finish_put(ok: u64, spilled_ok: u64, total: u64, quorum: u64) -> (r: Result<PutSummary, Error>)
    requires
        ok + spilled_ok <= u64::MAX,
    ensures
        r is Ok <==> quorum_met(ok as nat, spilled_ok as nat, quorum as nat),
        r matches Ok(s) ==> s == (PutSummary { ok: (ok + spilled_ok) as u64, total, quorum }),
        r matches Err(e) ==> e == (Error::QuorumFailed { ok: (ok + spilled_ok) as u64, total, quorum }),
{
    let n = ok + spilled_ok;
    if n >= quorum {
        Ok(PutSummary { ok: n, total, quorum })
    } else {
        Err(Error::QuorumFailed { ok: n, total, quorum })
    }
}

/// The values found, in order of the answers.
pub open spec fn found_values(s: Seq<GetOutcome>) -> Seq<BobData>
    decreases s.len(),
{
    if s.len() == 0 {
        Seq::empty()
    } else {
        match s.last() {
            GetOutcome::Found(d) => found_values(s.drop_last()).push(d),
            _ => found_values(s.drop_last()),
        }
    }
}

/// The values that replicas found.
pub fn collect_found(outcomes: Vec<GetOutcome>) -> (r: (Vec<BobData>, bool, bool))
    ensures
        r.0@ == found_values(outcomes@),
        r.1 == exists|i: int| 0 <= i < outcomes@.len() && outcomes@[i] is NotFound,
        r.2 == exists|i: int| 0 <= i < outcomes@.len() && outcomes@[i] is Failed,
{
    let ghost all = outcomes@;
    let total = outcomes.len();
    let mut rest = outcomes;
    let mut found: Vec<BobData> = Vec::new();
    let mut not_found = false;
    let mut failed = false;
    let mut i: usize = 0;
    while rest.len() > 0
        invariant
            all.len() == total,
            i <= all.len(),
            rest@ == all.subrange(i as int, all.len() as int),
            found@ == found_values(all.subrange(0, i as int)),
            not_found == exists|k: int| 0 <= k < i && all[k] is NotFound,
            failed == exists|k: int| 0 <= k < i && all[k] is Failed,
        decreases rest@.len(),
    {
        let o = rest.remove(0);
        assert(all[i as int] == o);
        assert(all.subrange(0, i + 1).drop_last() =~= all.subrange(0, i as int));
        match o {
            GetOutcome::Found(d) => {
                found.push(d);
            },
            GetOutcome::NotFound => {
                not_found = true;
            },
            GetOutcome::Failed => {
                failed = true;
            },
        }
        i = i + 1;
        assert(rest@ =~= all.subrange(i as int, all.len() as int));
    }
    assert(all.subrange(0, i as int) =~= all);
    (found, not_found, failed)
}

/// What to do with the answers of the first pass of a GET: return the most
/// recent value found; else ask the alien areas where some replica answered
/// "not found"; else fail where every replica failed; else `KeyNotFound`.
pub fn reconcile_get(outcomes: Vec<GetOutcome>) -> (r: GetDecision)
    ensures
        found_values(outcomes@).len() > 0 <==> r is Value,
        r matches GetDecision::Value(d) ==> exists|i: int| is_most_recent(found_values(outcomes@), i)
            && found_values(outcomes@)[i] == d,
        found_values(outcomes@).len() == 0 ==> (r is RetryAlien <==> exists|i: int|
            0 <= i < outcomes@.len() && outcomes@[i] is NotFound),
        found_values(outcomes@).len() == 0 && !(exists|i: int| 0 <= i < outcomes@.len() && outcomes@[i] is NotFound)
            ==> (r is GetFailed <==> outcomes@.len() > 0),
{
    let ghost all = outcomes@;
    let n = outcomes.len();
    let (found, not_found, failed) = collect_found(outcomes);
    if found.len() > 0 {
        match choose_most_recent_data(found) {
            Some(d) => GetDecision::Value(d),
            None => GetDecision::KeyNotFound,
        }
    } else if not_found {
        GetDecision::RetryAlien
    } else if n > 0 {
        GetDecision::GetFailed
    } else {
        GetDecision::KeyNotFound
    }
}

/// The end of the second pass of a GET, over the alien areas: the most
/// recent value found, else `KeyNotFound`.
pub fn reconcile_alien(outcomes: Vec<GetOutcome>) -> (r: Result<BobData, Error>)
    ensures
        r is Ok <==> found_values(outcomes@).len() > 0,
        r matches Ok(d) ==> exists|i: int| is_most_recent(found_values(outcomes@), i)
            && found_values(outcomes@)[i] == d,
        r matches Err(e) ==> e is KeyNotFound,
{
    let (found, _not_found, _failed) = collect_found(outcomes);
    match choose_most_recent_data(found) {
        Some(d) => Ok(d),
        None => Err(Error::KeyNotFound),
    }
}

/// A key exists where some replica reports it; answers of the wrong length
/// are ignored.
pub fn merge_exist(n: usize, answers: &Vec<Vec<bool>>) -> (r: Vec<bool>)
    ensures
        r@.len() == n,
        forall|k: int|
            0 <= k < n ==> r@[k] == exists|a: int|
                0 <= a < answers@.len() && (#[trigger] answers@[a])@.len() == n && answers@[a]@[k],
{
    let mut out: Vec<bool> = Vec::new();
    let mut k: usize = 0;
    while k < n
        invariant
            k <= n,
            out@.len() == k,
            forall|q: int| 0 <= q < k ==> !out@[q],
        decreases n - k,
    {
        out.push(false);
        k = k + 1;
    }
    let mut a: usize = 0;
    while a < answers.len()
        invariant
            a <= answers@.len(),
            out@.len() == n,
            forall|q: int|
                0 <= q < n ==> out@[q] == exists|b: int|
                    0 <= b < a && (#[trigger] answers@[b])@.len() == n && answers@[b]@[q],
        decreases answers@.len() - a,
    {
        if answers[a].len() == n {
            let ghost before = out@;
            out = crate::group::or_flags(&out, &answers[a]);
            assert forall|q: int| 0 <= q < n implies out@[q] == exists|b: int|
                0 <= b < a + 1 && (#[trigger] answers@[b])@.len() == n && answers@[b]@[q] by {
                if answers@[a as int]@[q] {
                    assert(answers@[a as int]@.len() == n);
                }
            }
        }
        a = a + 1;
    }
    out
}

/// Marks as existing the request positions whose keys a replica of the
/// bucket's vdisk reported; an answer of the wrong length is ignored.
pub fn apply_bucket_answer(acc: &Vec<bool>, bucket: &ExistBucket, answer: &Vec<bool>) -> (r: Vec<bool>)
    requires
        forall|j: int| 0 <= j < bucket.positions@.len() ==> (#[trigger] bucket.positions@[j]) < acc@.len(),
    ensures
        r@.len() == acc@.len(),
        forall|p: int|
            0 <= p < acc@.len() ==> #[trigger] r@[p] == (acc@[p] || (answer@.len() == bucket.positions@.len()
                && exists|j: int| 0 <= j < bucket.positions@.len() && bucket.positions@[j] == p && answer@[j])),
{
    let mut out = crate::grinder::copy_flags(acc);
    if answer.len() != bucket.positions.len() {
        return out;
    }
    let mut j: usize = 0;
    while j < answer.len()
        invariant
            answer@.len() == bucket.positions@.len(),
            forall|x: int| 0 <= x < bucket.positions@.len() ==> (#[trigger] bucket.positions@[x]) < acc@.len(),
            j <= answer@.len(),
            out@.len() == acc@.len(),
            forall|p: int|
                0 <= p < acc@.len() ==> #[trigger] out@[p] == (acc@[p] || exists|x: int|
                    0 <= x < j && bucket.positions@[x] == p && answer@[x]),
        decreases answer@.len() - j,
    {
        if answer[j] {
            let p = bucket.positions[j];
            out.set(p, true);
        }
        j = j + 1;
    }
    out
}

} // verus!
