use vstd::prelude::*;

use crate::data::{BobData, DataView, Operation, VDiskId};
use crate::error::Error;
use crate::holder::{Holder, HolderView};
use crate::store::Record;
use crate::settings::{
    choose_most_recent_data, get_start_timestamp, holder_path, is_most_recent, lemma_aligned_gap,
    lemma_start_of, spec_holder_path, TimestampPeriod,
};
use crate::sync::PearlSync;

verus! {

/// The intervals are in ascending order and pairwise disjoint.
pub open spec fn sorted_disjoint(s: Seq<HolderView>) -> bool {
    forall|i: int, j: int| 0 <= i < j < s.len() ==> s[i].end <= s[j].start
}

/// Every interval is one calendar-aligned period.
pub open spec fn all_aligned(s: Seq<HolderView>, p: TimestampPeriod) -> bool {
    forall|i: int|
        0 <= i < s.len() ==> p.aligned((#[trigger] s[i]).start as int) && s[i].end == s[i].start
            + p.len()
}

/// Some holder serves a value for `k`.
pub open spec fn some_has(s: Seq<HolderView>, k: u64) -> bool {
    exists|i: int| 0 <= i < s.len() && (#[trigger] s[i]).has(k)
}

/// Some holder's interval contains `t`.
pub open spec fn some_covers(s: Seq<HolderView>, t: u64) -> bool {
    exists|i: int| 0 <= i < s.len() && (#[trigger] s[i]).covers(t)
}

/// Every holder is Ready.
pub open spec fn all_ready(s: Seq<HolderView>) -> bool {
    forall|i: int| 0 <= i < s.len() ==> (#[trigger] s[i]).ready
}

/// `d` is a value for `k` that no holder beats on timestamp.
pub open spec fn is_latest(s: Seq<HolderView>, k: u64, d: DataView) -> bool {
    &&& exists|i: int| 0 <= i < s.len() && (#[trigger] s[i]).has(k) && s[i].contents[k] == d
    &&& forall|j: int|
        0 <= j < s.len() && (#[trigger] s[j]).has(k) ==> s[j].contents[k].timestamp <= d.timestamp
}

/// The holder for the period that starts at `start`, Ready, holding `contents`.
pub open spec fn fresh_holder(
    dir: Seq<char>,
    p: TimestampPeriod,
    start: int,
    contents: Map<u64, DataView>,
) -> HolderView {
    HolderView {
        path: spec_holder_path(dir, start as u64),
        start: start as u64,
        end: (start + p.len()) as u64,
        ready: true,
        contents,
    }
}

/// `new` is `old` after a successful write of `v` under `k`: the holder whose
/// interval contains the timestamp took it, or a new Ready holder for that
/// period was inserted in order with it.
pub open spec fn put_post(
    old: Seq<HolderView>,
    new: Seq<HolderView>,
    k: u64,
    v: DataView,
    p: TimestampPeriod,
    dir: Seq<char>,
) -> bool {
    ||| exists|i: int|
        0 <= i < old.len() && (#[trigger] old[i]).covers(v.timestamp) && old[i].ready && new
            == old.update(i, HolderView { contents: old[i].contents.insert(k, v), ..old[i] })
    ||| exists|i: int|
        0 <= i <= old.len() && !some_covers(old, v.timestamp) && p.representable(v.timestamp as int)
            && new == #[trigger] old.insert(
            i,
            fresh_holder(dir, p, p.start_of(v.timestamp as int), Map::empty().insert(k, v)),
        )
}

/// What identifies a group and how it partitions time.
#[derive(Debug, Clone)]
pub struct GroupMeta {
    pub vdisk_id: VDiskId,
    /// The node that owns the data (this node for normal groups).
    pub node_name: String,
    /// The local disk (the alien disk for alien groups).
    pub disk_name: String,
    pub directory_path: String,
    pub period: TimestampPeriod,
    /// Alien groups keep data for `node_name`.
    pub alien: bool,
}

/// Each flag of `a` or-ed with the flag of `b` at the same position.
pub fn or_flags(a: &Vec<bool>, b: &Vec<bool>) -> (r: Vec<bool>)
    requires
        a@.len() == b@.len(),
    ensures
        r@.len() == a@.len(),
        forall|x: int| 0 <= x < a@.len() ==> r@[x] == (a@[x] || b@[x]),
{
    let mut out: Vec<bool> = Vec::with_capacity(a.len());
    let mut q: usize = 0;
    while q < a.len()
        invariant
            a@.len() == b@.len(),
            q <= a@.len(),
            out@.len() == q,
            forall|x: int| 0 <= x < q ==> out@[x] == (a@[x] || b@[x]),
        decreases a@.len() - q,
    {
        out.push(a[q] || b[q]);
        q = q + 1;
    }
    out
}

/// After a write, each value served for `k` is the written one or one that
/// some holder served before.
pub proof fn lemma_put_post_values(
    old: Seq<HolderView>,
    new: Seq<HolderView>,
    k: u64,
    v: DataView,
    p: TimestampPeriod,
    dir: Seq<char>,
)
    requires
        put_post(old, new, k, v, p, dir),
    ensures
        forall|j: int|
            0 <= j < new.len() && (#[trigger] new[j]).has(k) ==> new[j].contents[k] == v || exists|j0: int|
                0 <= j0 < old.len() && old[j0].has(k) && old[j0].contents[k] == new[j].contents[k],
        some_has(new, k),
        exists|i: int| 0 <= i < new.len() && (#[trigger] new[i]).has(k) && new[i].contents[k] == v,
{
    if exists|i: int|
        0 <= i < old.len() && (#[trigger] old[i]).covers(v.timestamp) && old[i].ready && new
            == old.update(i, HolderView { contents: old[i].contents.insert(k, v), ..old[i] }) {
        let i = choose|i: int|
            0 <= i < old.len() && (#[trigger] old[i]).covers(v.timestamp) && old[i].ready && new
                == old.update(i, HolderView { contents: old[i].contents.insert(k, v), ..old[i] });
        assert(new[i].has(k));
        assert forall|j: int|
            0 <= j < new.len() && (#[trigger] new[j]).has(k) implies new[j].contents[k] == v || exists|j0: int|
                0 <= j0 < old.len() && old[j0].has(k) && old[j0].contents[k] == new[j].contents[k] by {
            if j != i {
                assert(new[j] == old[j]);
            }
        }
    } else {
        let i = choose|i: int|
            0 <= i <= old.len() && !some_covers(old, v.timestamp) && p.representable(v.timestamp as int)
                && new == #[trigger] old.insert(
                i,
                fresh_holder(dir, p, p.start_of(v.timestamp as int), Map::empty().insert(k, v)),
            );
        assert(new[i].has(k));
        assert forall|j: int|
            0 <= j < new.len() && (#[trigger] new[j]).has(k) implies new[j].contents[k] == v || exists|j0: int|
                0 <= j0 < old.len() && old[j0].has(k) && old[j0].contents[k] == new[j].contents[k] by {
            if j < i {
                assert(new[j] == old[j]);
            } else if j > i {
                assert(new[j] == old[j - 1]);
            }
        }
    }
}

/// After a successful write of `v` under `k`, a read of `k` succeeds, and
/// what it returns is at least as recent as `v`.
pub proof fn law_read_after_write(
    old: Seq<HolderView>,
    new: Seq<HolderView>,
    k: u64,
    v: DataView,
    p: TimestampPeriod,
    dir: Seq<char>,
    d: DataView,
)
    requires
        put_post(old, new, k, v, p, dir),
    ensures
        some_has(new, k),
        is_latest(new, k, d) ==> d.timestamp >= v.timestamp,
{
    lemma_put_post_values(old, new, k, v, p, dir);
    if is_latest(new, k, d) {
        let i = choose|i: int| 0 <= i < new.len() && (#[trigger] new[i]).has(k) && new[i].contents[k] == v;
        assert(new[i].contents[k].timestamp <= d.timestamp);
    }
}

/// Two writes of one key, the second newer than the first and than anything
/// held before: a read returns the second.
pub proof fn law_newer_write_wins(
    s0: Seq<HolderView>,
    s1: Seq<HolderView>,
    s2: Seq<HolderView>,
    k: u64,
    v1: DataView,
    v2: DataView,
    p1: TimestampPeriod,
    dir1: Seq<char>,
    p2: TimestampPeriod,
    dir2: Seq<char>,
    d: DataView,
)
    requires
        put_post(s0, s1, k, v1, p1, dir1),
        put_post(s1, s2, k, v2, p2, dir2),
        v1.timestamp < v2.timestamp,
        forall|i: int| 0 <= i < s0.len() && (#[trigger] s0[i]).has(k) ==> s0[i].contents[k].timestamp < v2.timestamp,
        is_latest(s2, k, d),
    ensures
        d == v2,
{
    lemma_put_post_values(s0, s1, k, v1, p1, dir1);
    lemma_put_post_values(s1, s2, k, v2, p2, dir2);
    let i2 = choose|i: int| 0 <= i < s2.len() && (#[trigger] s2[i]).has(k) && s2[i].contents[k] == v2;
    assert(v2.timestamp <= d.timestamp);
    let j = choose|j: int| 0 <= j < s2.len() && (#[trigger] s2[j]).has(k) && s2[j].contents[k] == d;
    if d != v2 {
        let j1 = choose|j1: int| 0 <= j1 < s1.len() && s1[j1].has(k) && s1[j1].contents[k] == s2[j].contents[k];
        assert(s1[j1].has(k));
        if d != v1 {
            let j0 = choose|j0: int| 0 <= j0 < s0.len() && s0[j0].has(k) && s0[j0].contents[k] == s1[j1].contents[k];
            assert(s0[j0].has(k));
        }
    }
}

/// After a successful write of `v` under `k`, an existence check finds `k`.
pub proof fn law_exist_after_write(
    old: Seq<HolderView>,
    new: Seq<HolderView>,
    k: u64,
    v: DataView,
    p: TimestampPeriod,
    dir: Seq<char>,
)
    requires
        put_post(old, new, k, v, p, dir),
    ensures
        some_has(new, k),
{
    lemma_put_post_values(old, new, k, v, p, dir);
}

/// Some holder serves the record's value under its key.
pub open spec fn served_record(s: Seq<HolderView>, rec: Record) -> bool {
    exists|j: int| 0 <= j < s.len() && (#[trigger] s[j]).has(rec.key) && s[j].contents[rec.key] == rec.data@
}

/// The holders, each marked Ready.
pub open spec fn readied(s: Seq<HolderView>) -> Seq<HolderView> {
    s.map_values(|h: HolderView| HolderView { ready: true, ..h })
}

/// `new` is `old` after a start at time `now`: the same holders, all Ready,
/// and where none covered `now`, possibly the Ready holder of its period.
pub open spec fn run_post(
    old: Seq<HolderView>,
    new: Seq<HolderView>,
    p: TimestampPeriod,
    dir: Seq<char>,
    now: u64,
) -> bool {
    ||| new == readied(old)
    ||| exists|i: int|
        0 <= i <= old.len() && !some_covers(old, now) && new == #[trigger] readied(old).insert(
            i,
            fresh_holder(dir, p, p.start_of(now as int), Map::empty()),
        )
}

/// The time-partitioned holders of one vdisk for one owner: a local disk, or
/// a remote node in the alien area.
pub struct PearlGroup {
    meta: GroupMeta,
    holders: Vec<Holder>,
    pearl_sync: PearlSync,
}

impl PearlGroup {
    pub closed spec fn spec_meta(&self) -> GroupMeta {
        self.meta
    }

    /// The state of the latch that guards holder creation.
    pub closed spec fn latch(&self) -> crate::sync::SyncState {
        self.pearl_sync.state
    }

    pub fn meta(&self) -> (r: &GroupMeta)
        ensures
            *r == self.spec_meta(),
    {
        &self.meta
    }

    /// The holders, in order.
    pub closed spec fn partitions(&self) -> Seq<HolderView> {
        self.holders@.map_values(|h: Holder| h.view())
    }

    pub closed spec fn wf(&self) -> bool {
        &&& forall|i: int| 0 <= i < self.holders@.len() ==> (#[trigger] self.holders@[i]).wf()
        &&& sorted_disjoint(self.partitions())
        &&& all_aligned(self.partitions(), self.meta.period)
    }

    /// The intervals of a group's holders are pairwise disjoint and in
    /// ascending order.
    pub proof fn law_sorted_disjoint(&self)
        requires
            self.wf(),
        ensures
            sorted_disjoint(self.partitions()),
            all_aligned(self.partitions(), self.spec_meta().period),
    {
    }

    /// An empty group.
    pub fn new(
        vdisk_id: VDiskId,
        node_name: String,
        disk_name: String,
        directory_path: String,
        period: TimestampPeriod,
        alien: bool,
    ) -> (r: PearlGroup)
        ensures
            r.wf(),
            r.partitions().len() == 0,
            r.spec_meta().vdisk_id == vdisk_id,
            r.spec_meta().node_name@ == node_name@,
            r.spec_meta().disk_name@ == disk_name@,
            r.spec_meta().directory_path@ == directory_path@,
            r.spec_meta().period == period,
            r.spec_meta().alien == alien,
            r.latch() == crate::sync::SyncState::Idle,
    {
        let g = PearlGroup {
            meta: GroupMeta { vdisk_id, node_name, disk_name, directory_path, period, alien },
            holders: Vec::new(),
            pearl_sync: PearlSync::new(),
        };
        assert(g.partitions() =~= Seq::<HolderView>::empty());
        g
    }

    /// The group serves `op`: a normal operation on its disk and vdisk, or an
    /// alien operation for its owner node and vdisk.
    pub open spec fn serves(&self, op: Operation) -> bool {
        if op.alien {
            self.spec_meta().alien && op.remote_node_name is Some && op.remote_node_name.unwrap()@
                == self.spec_meta().node_name@ && op.vdisk_id == self.spec_meta().vdisk_id
        } else {
            !self.spec_meta().alien && op.disk_name_local is Some && op.disk_name_local.unwrap()@
                == self.spec_meta().disk_name@ && op.vdisk_id == self.spec_meta().vdisk_id
        }
    }

    pub fn can_process_operation(&self, op: &Operation) -> (r: bool)
        ensures
            r == self.serves(*op),
    {
        if op.alien {
            match &op.remote_node_name {
                Some(name) => self.meta.alien && *name == self.meta.node_name && op.vdisk_id.id
                    == self.meta.vdisk_id.id,
                None => false,
            }
        } else {
            match &op.disk_name_local {
                Some(name) => !self.meta.alien && *name == self.meta.disk_name && op.vdisk_id.id
                    == self.meta.vdisk_id.id,
                None => false,
            }
        }
    }

    /// A holder at `path` for the period of this group that starts at
    /// `start`; `None` where `start` does not start a representable period.
    pub fn create_pearl_by_path(&self, path: String, start: u64) -> (r: Option<Holder>)
        ensures
            r is Some <==> self.spec_meta().period.representable(start as int)
                && self.spec_meta().period.start_of(start as int) == start,
            r matches Some(h) ==> h.wf() && h.view() == (HolderView {
                path: path@,
                start,
                end: (start + self.spec_meta().period.len()) as u64,
                ready: false,
                contents: Map::empty(),
            }),
    {
        match get_start_timestamp(self.meta.period, start) {
            Some(s) => {
                if s != start {
                    return None;
                }
                proof {
                    lemma_start_of(self.meta.period, start as int);
                }
                let end = start + self.meta.period.as_secs();
                Some(Holder::new(path, start, end))
            },
            None => None,
        }
    }

    pub fn holders_count(&self) -> (r: usize)
        ensures
            r == self.partitions().len(),
    {
        self.holders.len()
    }

    pub fn holder(&self, i: usize) -> (r: &Holder)
        requires
            i < self.partitions().len(),
        ensures
            r.view() == self.partitions()[i as int],
    {
        &self.holders[i]
    }

    /// The holder whose interval contains `t`.
    pub fn find_actual_holder(&self, t: u64) -> (r: Option<usize>)
        requires
            self.wf(),
        ensures
            r matches Some(i) ==> i < self.partitions().len() && self.partitions()[i as int].covers(t),
            r is None ==> !some_covers(self.partitions(), t),
    {
        let mut i: usize = 0;
        while i < self.holders.len()
            invariant
                self.wf(),
                i <= self.holders@.len(),
                forall|j: int| 0 <= j < i ==> !(#[trigger] self.partitions()[j]).covers(t),
            decreases self.holders@.len() - i,
        {
            assert(self.partitions()[i as int] == self.holders@[i as int].view());
            if self.holders[i].start() <= t && t < self.holders[i].end() {
                return Some(i);
            }
            i = i + 1;
        }
        None
    }

    /// Where a holder starting at `s` goes to keep the order.
    fn insert_position(&self, s: u64) -> (r: usize)
        requires
            self.wf(),
        ensures
            r <= self.partitions().len(),
            forall|j: int| 0 <= j < r ==> (#[trigger] self.partitions()[j]).start < s,
            forall|j: int| r <= j < self.partitions().len() ==> (#[trigger] self.partitions()[j]).start >= s,
    {
        let mut i: usize = 0;
        while i < self.holders.len()
            invariant
                self.wf(),
                i <= self.holders@.len(),
                forall|j: int| 0 <= j < i ==> (#[trigger] self.partitions()[j]).start < s,
            decreases self.holders@.len() - i,
        {
            assert(self.partitions()[i as int] == self.holders@[i as int].view());
            if self.holders[i].start() >= s {
                assert forall|j: int| i <= j < self.partitions().len() implies (#[trigger] self.partitions()[j]).start >= s by {
                    if j > i {
                        assert(self.partitions()[i as int].end <= self.partitions()[j].start);
                        self.holders@[i as int].lemma_wf();
                    }
                }
                return i;
            }
            i = i + 1;
        }
        i
    }

    /// Inserts the holder `h` for the period that starts at `s`, which no
    /// holder covers yet; returns its position.
    fn insert_holder(&mut self, h: Holder, s: u64) -> (r: usize)
        requires
            old(self).wf(),
            h.wf(),
            h.view().start == s,
            old(self).spec_meta().period.aligned(s as int),
            h.view().end == s + old(self).spec_meta().period.len(),
            !some_covers(old(self).partitions(), s),
        ensures
            final(self).wf(),
            r <= old(self).partitions().len(),
            final(self).partitions() == old(self).partitions().insert(r as int, h.view()),
            final(self).spec_meta() == old(self).spec_meta(),
    {
        let pos = self.insert_position(s);
        let ghost olds = self.partitions();
        let ghost hv = h.view();
        let ghost p = self.meta.period;
        proof {
            assert forall|j: int| 0 <= j < olds.len() implies olds[j].end <= s || s + p.len()
                <= olds[j].start by {
                assert(p.aligned(olds[j].start as int));
                assert(olds[j].end == olds[j].start + p.len());
                if olds[j].start < s {
                    lemma_aligned_gap(p, olds[j].start as int, s as int);
                } else if olds[j].start > s {
                    lemma_aligned_gap(p, s as int, olds[j].start as int);
                } else {
                    assert(olds[j].covers(s));
                }
            }
        }
        self.holders.insert(pos, h);
        proof {
            let news = self.partitions();
            assert(news =~= olds.insert(pos as int, hv));
            assert forall|i: int| 0 <= i < self.holders@.len() implies (#[trigger] self.holders@[i]).wf() by {
                if i < pos {
                    assert(self.holders@[i] == old(self).holders@[i]);
                } else if i > pos {
                    assert(self.holders@[i] == old(self).holders@[i - 1]);
                }
            }
            assert forall|a: int, b: int| 0 <= a < b < news.len() implies news[a].end <= news[b].start by {
                if a < pos && b < pos {
                } else if a < pos && b == pos {
                    assert(olds[a].start < s);
                } else if a < pos && b > pos {
                    assert(news[b] == olds[b - 1]);
                } else if a == pos {
                    assert(news[b] == olds[b - 1]);
                    assert(olds[b - 1].start >= s);
                } else {
                    assert(news[a] == olds[a - 1]);
                    assert(news[b] == olds[b - 1]);
                }
            }
            assert forall|i: int| 0 <= i < news.len() implies p.aligned((#[trigger] news[i]).start as int)
                && news[i].end == news[i].start + p.len() by {
                if i < pos {
                    assert(news[i] == olds[i]);
                } else if i > pos {
                    assert(news[i] == olds[i - 1]);
                }
            }
        }
        pos
    }

    /// Creates, prepares and inserts the holder for the period of `t`, which
    /// no holder covers; fails with `Failed` where that period cannot be
    /// written with `u64` bounds.
    pub fn create_current_pearl(&mut self, t: u64) -> (r: Result<usize, Error>)
        requires
            old(self).wf(),
            !some_covers(old(self).partitions(), t),
        ensures
            final(self).wf(),
            r is Ok <==> old(self).spec_meta().period.representable(t as int),
            r is Err ==> r->Err_0 is Failed && final(self).partitions() == old(self).partitions(),
            r matches Ok(i) ==> i <= old(self).partitions().len() && final(self).partitions()
                == old(self).partitions().insert(
                i as int,
                fresh_holder(
                    old(self).spec_meta().directory_path@,
                    old(self).spec_meta().period,
                    old(self).spec_meta().period.start_of(t as int),
                    Map::empty(),
                ),
            ),
            final(self).spec_meta() == old(self).spec_meta(),
    {
        let s = match get_start_timestamp(self.meta.period, t) {
            Some(s) => s,
            None => {
                return Err(Error::Failed(String::from_str("timestamp outside of representable partitions")));
            },
        };
        proof {
            lemma_start_of(self.meta.period, t as int);
        }
        let creator = self.pearl_sync.try_init();
        let end = s + self.meta.period.as_secs();
        let path = holder_path(&self.meta.directory_path, s);
        let mut h = Holder::new(path, s, end);
        h.prepare();
        proof {
            assert(!some_covers(self.partitions(), s)) by {
                if some_covers(self.partitions(), s) {
                    let j = choose|j: int| 0 <= j < self.partitions().len() && (#[trigger] self.partitions()[j]).covers(s);
                    let hs = self.partitions()[j].start;
                    assert(self.meta.period.aligned(hs as int));
                    if hs < s {
                        lemma_aligned_gap(self.meta.period, hs as int, s as int);
                    }
                    assert(self.partitions()[j].covers(t));
                }
            }
        }
        let pos = self.insert_holder(h, s);
        if creator {
            self.pearl_sync.mark_as_created();
        }
        Ok(pos)
    }

    /// Adds the holder for the period that starts at `start`, as found on
    /// disk; it stays Initializing until `run`. Returns the position of the
    /// holder of that period. Fails with `Failed` where `start` is not the
    /// start of a representable period.
    pub fn add(&mut self, start: u64) -> (r: Result<usize, Error>)
        requires
            old(self).wf(),
        ensures
            final(self).wf(),
            r is Ok <==> old(self).spec_meta().period.representable(start as int) && old(self).spec_meta().period.start_of(
                start as int,
            ) == start,
            r is Err ==> r->Err_0 is Failed && final(self).partitions() == old(self).partitions(),
            r matches Ok(i) ==> i < final(self).partitions().len() && final(self).partitions()[i as int].covers(
                start,
            ),
            r matches Ok(i) ==> some_covers(old(self).partitions(), start) ==> final(self).partitions()
                == old(self).partitions(),
            r matches Ok(i) ==> !some_covers(old(self).partitions(), start) ==> i <= old(self).partitions().len(),
            r matches Ok(i) ==> !some_covers(old(self).partitions(), start) ==> final(self).partitions()
                == old(self).partitions().insert(
                i as int,
                HolderView {
                    path: spec_holder_path(old(self).spec_meta().directory_path@, start),
                    start,
                    end: (start + old(self).spec_meta().period.len()) as u64,
                    ready: false,
                    contents: Map::empty(),
                },
            ),
            final(self).spec_meta() == old(self).spec_meta(),
    {
        match get_start_timestamp(self.meta.period, start) {
            Some(s) => {
                if s != start {
                    return Err(Error::Failed(String::from_str("not the start of a partition")));
                }
            },
            None => {
                return Err(Error::Failed(String::from_str("timestamp outside of representable partitions")));
            },
        }
        proof {
            lemma_start_of(self.meta.period, start as int);
        }
        match self.find_actual_holder(start) {
            Some(i) => {
                return Ok(i);
            },
            None => {},
        }
        let end = start + self.meta.period.as_secs();
        let path = holder_path(&self.meta.directory_path, start);
        let h = Holder::new(path, start, end);
        let pos = self.insert_holder(h, start);
        assert(self.partitions()[pos as int].covers(start));
        Ok(pos)
    }

    /// Adds the holders found on disk for the periods starting at `starts`;
    /// fails with `Failed`, adding nothing, where one of them does not start a
    /// representable period.
    pub fn add_range(&mut self, starts: &Vec<u64>) -> (r: Result<(), Error>)
        requires
            old(self).wf(),
        ensures
            final(self).wf(),
            final(self).spec_meta() == old(self).spec_meta(),
            r is Ok <==> forall|k: int|
                0 <= k < starts@.len() ==> old(self).spec_meta().period.representable(#[trigger] starts@[k] as int)
                    && old(self).spec_meta().period.start_of(starts@[k] as int) == starts@[k],
            r is Err ==> r->Err_0 is Failed && final(self).partitions() == old(self).partitions(),
            r is Ok ==> forall|k: int| 0 <= k < starts@.len() ==> some_covers(final(self).partitions(), #[trigger] starts@[k]),
            r is Ok ==> forall|i: int|
                0 <= i < old(self).partitions().len() ==> final(self).partitions().contains(
                    #[trigger] old(self).partitions()[i],
                ),
    {
        let mut k: usize = 0;
        while k < starts.len()
            invariant
                *self == *old(self),
                self.wf(),
                k <= starts@.len(),
                forall|q: int|
                    0 <= q < k ==> self.meta.period.representable(#[trigger] starts@[q] as int)
                        && self.meta.period.start_of(starts@[q] as int) == starts@[q],
            decreases starts@.len() - k,
        {
            match get_start_timestamp(self.meta.period, starts[k]) {
                Some(s) => {
                    if s != starts[k] {
                        return Err(Error::Failed(String::from_str("not the start of a partition")));
                    }
                },
                None => {
                    return Err(Error::Failed(String::from_str("timestamp outside of representable partitions")));
                },
            }
            k = k + 1;
        }
        let ghost olds = self.partitions();
        let mut k: usize = 0;
        while k < starts.len()
            invariant
                self.wf(),
                self.meta == old(self).meta,
                olds == old(self).partitions(),
                k <= starts@.len(),
                forall|q: int|
                    0 <= q < starts@.len() ==> self.meta.period.representable(#[trigger] starts@[q] as int)
                        && self.meta.period.start_of(starts@[q] as int) == starts@[q],
                forall|q: int| 0 <= q < k ==> some_covers(self.partitions(), #[trigger] starts@[q]),
                forall|i: int| 0 <= i < olds.len() ==> self.partitions().contains(#[trigger] olds[i]),
            decreases starts@.len() - k,
        {
            let ghost before = self.partitions();
            let added = self.add(starts[k]);
            proof {
                let after = self.partitions();
                let pos = added->Ok_0 as int;
                if !some_covers(before, starts@[k as int]) {
                    assert(after == before.insert(pos, after[pos]));
                    assert forall|q: int| 0 <= q < k + 1 implies some_covers(after, #[trigger] starts@[q]) by {
                        if q < k {
                            let j = choose|j: int| 0 <= j < before.len() && (#[trigger] before[j]).covers(starts@[q]);
                            if j < pos {
                                assert(after[j] == before[j]);
                            } else {
                                assert(after[j + 1] == before[j]);
                            }
                        }
                    }
                    assert forall|i: int| 0 <= i < olds.len() implies after.contains(#[trigger] olds[i]) by {
                        let j = choose|j: int| 0 <= j < before.len() && before[j] == olds[i];
                        if j < pos {
                            assert(after[j] == before[j]);
                        } else {
                            assert(after[j + 1] == before[j]);
                        }
                    }
                }
            }
            k = k + 1;
        }
        Ok(())
    }

    /// Prepares every holder; then, where no holder covers `now` and its
    /// period is representable, creates the current one.
    pub fn run(&mut self, now: u64)
        requires
            old(self).wf(),
        ensures
            final(self).wf(),
            all_ready(final(self).partitions()),
            final(self).spec_meta().period.representable(now as int) ==> some_covers(final(self).partitions(), now),
            final(self).spec_meta() == old(self).spec_meta(),
            run_post(
                old(self).partitions(),
                final(self).partitions(),
                old(self).spec_meta().period,
                old(self).spec_meta().directory_path@,
                now,
            ),
    {
        let ghost start_parts = self.partitions();
        let n = self.holders.len();
        let mut i: usize = 0;
        while i < n
            invariant
                self.wf(),
                n == self.holders@.len(),
                i <= n,
                forall|j: int| 0 <= j < i ==> (#[trigger] self.partitions()[j]).ready,
                self.meta == old(self).meta,
                start_parts == old(self).partitions(),
                self.partitions().len() == start_parts.len(),
                forall|j: int| 0 <= j < i ==> #[trigger] self.partitions()[j] == (HolderView { ready: true, ..start_parts[j] }),
                forall|j: int| i <= j < n ==> #[trigger] self.partitions()[j] == start_parts[j],
            decreases n - i,
        {
            let ghost olds = self.partitions();
            let ghost old_holders = self.holders@;
            let mut h = self.holders.remove(i);
            h.prepare();
            self.holders.insert(i, h);
            proof {
                let news = self.partitions();
                assert(news =~= olds.update(i as int, HolderView { ready: true, ..olds[i as int] }));
                assert forall|j: int| 0 <= j < self.holders@.len() implies (#[trigger] self.holders@[j]).wf() by {
                    if j != i {
                        assert(self.holders@[j] == old_holders[j]);
                    }
                }
                assert(sorted_disjoint(news)) by {
                    assert forall|a: int, b: int| 0 <= a < b < news.len() implies news[a].end <= news[b].start by {
                        assert(olds[a].end <= olds[b].start);
                    }
                }
                assert(all_aligned(news, self.meta.period)) by {
                    assert forall|a: int| 0 <= a < news.len() implies self.meta.period.aligned((#[trigger] news[a]).start as int)
                        && news[a].end == news[a].start + self.meta.period.len() by {
                        assert(self.meta.period.aligned(olds[a].start as int));
                    }
                }
            }
            i = i + 1;
        }
        assert(self.partitions() =~= readied(start_parts));
        if self.find_actual_holder(now).is_none() {
            let ghost olds = self.partitions();
            proof {
                assert(!some_covers(start_parts, now)) by {
                    if some_covers(start_parts, now) {
                        let j = choose|j: int| 0 <= j < start_parts.len() && (#[trigger] start_parts[j]).covers(now);
                        assert(olds[j].covers(now));
                    }
                }
            }
            let created = self.create_current_pearl(now);
            proof {
                if let Ok(pos) = created {
                    let news = self.partitions();
                    lemma_start_of(self.meta.period, now as int);
                    assert(news[pos as int].covers(now));
                    assert forall|j: int| 0 <= j < news.len() implies (#[trigger] news[j]).ready by {
                        if j < pos {
                            assert(news[j] == olds[j]);
                        } else if j > pos {
                            assert(news[j] == olds[j - 1]);
                        }
                    }
                }
            }
        }
    }

    /// Writes `data` under `key` to the holder whose interval contains the
    /// data's timestamp, creating that holder first where there is none.
    /// Fails with `VDiskIsNotReady` where that holder is not Ready, and with
    /// `Failed` where the period cannot be written with `u64` bounds.
    pub fn put(&mut self, key: u64, data: BobData) -> (r: Result<(), Error>)
        requires
            old(self).wf(),
        ensures
            final(self).wf(),
            final(self).spec_meta() == old(self).spec_meta(),
            r is Ok <==> (exists|i: int|
                0 <= i < old(self).partitions().len() && (#[trigger] old(self).partitions()[i]).covers(
                    data.meta.timestamp,
                ) && old(self).partitions()[i].ready) || (!some_covers(
                old(self).partitions(),
                data.meta.timestamp,
            ) && old(self).spec_meta().period.representable(data.meta.timestamp as int)),
            r is Ok ==> put_post(
                old(self).partitions(),
                final(self).partitions(),
                key,
                data@,
                old(self).spec_meta().period,
                old(self).spec_meta().directory_path@,
            ),
            r is Err ==> final(self).partitions() == old(self).partitions(),
            r is Err && some_covers(old(self).partitions(), data.meta.timestamp) ==> r->Err_0 is VDiskIsNotReady,
            r is Err && !some_covers(old(self).partitions(), data.meta.timestamp) ==> r->Err_0 is Failed,
    {
        let t = data.meta.timestamp;
        let ghost olds = self.partitions();
        let ghost v = data@;
        proof {
            lemma_start_of(self.meta.period, t as int);
        }
        match self.find_actual_holder(t) {
            Some(i) => {
                proof {
                    assert forall|j: int| 0 <= j < olds.len() && (#[trigger] olds[j]).covers(t) implies j == i by {
                        if j < i {
                            assert(olds[j].end <= olds[i as int].start);
                        } else if j > i {
                            assert(olds[i as int].end <= olds[j].start);
                        }
                    }
                }
                let r = self.put_common(i, key, data);
                proof {
                    if r is Ok {
                        assert(olds[i as int].covers(t));
                        assert(put_post(olds, self.partitions(), key, v, self.meta.period, self.meta.directory_path@));
                    }
                }
                r
            },
            None => {
                match self.create_current_pearl(t) {
                    Ok(i) => {
                        let ghost mid = self.partitions();
                        proof {
                            assert(mid[i as int].covers(t));
                        }
                        let r = self.put_common(i, key, data);
                        proof {
                            let news = self.partitions();
                            let fresh = fresh_holder(
                                old(self).spec_meta().directory_path@,
                                old(self).spec_meta().period,
                                old(self).spec_meta().period.start_of(t as int),
                                Map::empty().insert(key, v),
                            );
                            assert(news =~= olds.insert(i as int, fresh));
                            if r is Ok {
                                assert(v.timestamp == t);
                                assert(!some_covers(olds, v.timestamp));
                                assert(self.meta.period.representable(v.timestamp as int));
                                assert(self.meta.directory_path@ == old(self).spec_meta().directory_path@);
                                assert(self.meta.period == old(self).spec_meta().period);
                                assert(put_post(olds, news, key, v, self.meta.period, self.meta.directory_path@));
                            }
                        }
                        r
                    },
                    Err(e) => Err(e),
                }
            },
        }
    }

    /// Writes to the holder at `i`; an error that calls for it reinitialises
    /// the holder.
    fn put_common(&mut self, i: usize, key: u64, data: BobData) -> (r: Result<(), Error>)
        requires
            old(self).wf(),
            i < old(self).partitions().len(),
        ensures
            final(self).wf(),
            final(self).spec_meta() == old(self).spec_meta(),
            r is Ok <==> old(self).partitions()[i as int].ready,
            r is Err ==> r->Err_0 is VDiskIsNotReady && final(self).partitions() == old(self).partitions(),
            r is Ok ==> final(self).partitions() == old(self).partitions().update(
                i as int,
                HolderView {
                    contents: old(self).partitions()[i as int].contents.insert(key, data@),
                    ..old(self).partitions()[i as int]
                },
            ),
    {
        let ghost olds = self.partitions();
        let ghost old_holders = self.holders@;
        let mut h = self.holders.remove(i);
        let r = h.write(key, data);
        if Error::is_put_error_need_restart(r.as_ref().err()) && h.try_reinit() {
            h.prepare();
        }
        self.holders.insert(i, h);
        proof {
            let news = self.partitions();
            if r is Ok {
                assert(news =~= olds.update(i as int, HolderView { contents: olds[i as int].contents.insert(key, data@), ..olds[i as int] }));
            } else {
                assert(news =~= olds);
            }
            assert forall|j: int| 0 <= j < self.holders@.len() implies (#[trigger] self.holders@[j]).wf() by {
                if j != i {
                    assert(self.holders@[j] == old_holders[j]);
                }
            }
            assert(sorted_disjoint(news)) by {
                assert forall|a: int, b: int| 0 <= a < b < news.len() implies news[a].end <= news[b].start by {
                    assert(olds[a].end <= olds[b].start);
                }
            }
            assert(all_aligned(news, self.meta.period)) by {
                assert forall|a: int| 0 <= a < news.len() implies self.meta.period.aligned((#[trigger] news[a]).start as int)
                    && news[a].end == news[a].start + self.meta.period.len() by {
                    assert(self.meta.period.aligned(olds[a].start as int));
                }
            }
        }
        r
    }

    /// The most recent value under `key` over all holders. Where no holder
    /// serves one: `Failed` if some holder is not Ready, else `KeyNotFound`.
    pub fn get(&self, key: u64) -> (r: Result<BobData, Error>)
        requires
            self.wf(),
        ensures
            some_has(self.partitions(), key) ==> r is Ok,
            r matches Ok(d) ==> is_latest(self.partitions(), key, d@),
            !some_has(self.partitions(), key) && !all_ready(self.partitions()) ==> r is Err
                && r->Err_0 is Failed,
            !some_has(self.partitions(), key) && all_ready(self.partitions()) ==> r is Err
                && r->Err_0 is KeyNotFound,
    {
        let ghost s = self.partitions();
        let mut results: Vec<BobData> = Vec::new();
        let ghost mut src: Seq<int> = Seq::empty();
        let mut has_error = false;
        let mut i: usize = 0;
        while i < self.holders.len()
            invariant
                self.wf(),
                s == self.partitions(),
                i <= s.len(),
                src.len() == results@.len(),
                forall|m: int|
                    0 <= m < src.len() ==> 0 <= #[trigger] src[m] < i && s[src[m]].has(key)
                        && s[src[m]].contents[key] == results@[m]@,
                forall|j: int|
                    0 <= j < i && (#[trigger] s[j]).has(key) ==> exists|m: int|
                        0 <= m < src.len() && #[trigger] src[m] == j,
                has_error == exists|j: int| 0 <= j < i && !(#[trigger] s[j]).ready,
            decreases s.len() - i,
        {
            assert(s[i as int] == self.holders@[i as int].view());
            let h = &self.holders[i];
            match h.read(key) {
                Ok(d) => {
                    let ghost old_src = src;
                    results.push(d);
                    proof {
                        src = src.push(i as int);
                        assert forall|j: int|
                            0 <= j < i + 1 && (#[trigger] s[j]).has(key) implies exists|m: int|
                                0 <= m < src.len() && #[trigger] src[m] == j by {
                            if j < i {
                                let m = choose|m: int| 0 <= m < old_src.len() && #[trigger] old_src[m] == j;
                                assert(src[m] == j);
                            } else {
                                assert(src[src.len() - 1] == j);
                            }
                        }
                    }
                },
                Err(e) => {
                    if !e.is_key_not_found() {
                        has_error = true;
                    }
                },
            }
            i = i + 1;
        }
        if results.len() == 0 {
            if has_error {
                Err(Error::Failed(String::from_str("cannot read from some pearls")))
            } else {
                Err(Error::KeyNotFound)
            }
        } else {
            let ghost rs = results@;
            let best = choose_most_recent_data(results);
            match best {
                Some(d) => {
                    proof {
                        let m = choose|m: int| is_most_recent(rs, m) && rs[m] == d;
                        let j = src[m];
                        assert(s[j].has(key) && s[j].contents[key] == d@);
                        assert forall|j2: int| 0 <= j2 < s.len() && (#[trigger] s[j2]).has(key) implies s[j2].contents[key].timestamp <= d@.timestamp by {
                            let m2 = choose|m2: int| 0 <= m2 < src.len() && #[trigger] src[m2] == j2;
                            assert(rs[m2].meta.timestamp <= rs[m].meta.timestamp);
                        }
                    }
                    Ok(d)
                },
                None => Err(Error::KeyNotFound),
            }
        }
    }

    /// For each key, whether some Ready holder has it.
    pub fn exist(&self, keys: &Vec<u64>) -> (r: Vec<bool>)
        requires
            self.wf(),
        ensures
            r@.len() == keys@.len(),
            forall|m: int| 0 <= m < keys@.len() ==> r@[m] == some_has(self.partitions(), keys@[m]),
    {
        let ghost s = self.partitions();
        let mut acc: Vec<bool> = Vec::new();
        let mut m: usize = 0;
        while m < keys.len()
            invariant
                m <= keys@.len(),
                acc@.len() == m,
                forall|q: int| 0 <= q < m ==> !acc@[q],
            decreases keys@.len() - m,
        {
            acc.push(false);
            m = m + 1;
        }
        let mut i: usize = 0;
        while i < self.holders.len()
            invariant
                self.wf(),
                s == self.partitions(),
                i <= s.len(),
                acc@.len() == keys@.len(),
                forall|q: int|
                    0 <= q < keys@.len() ==> acc@[q] == exists|j: int|
                        0 <= j < i && (#[trigger] s[j]).has(keys@[q]),
            decreases s.len() - i,
        {
            assert(s[i as int] == self.holders@[i as int].view());
            match self.holders[i].exist(keys) {
                Ok(found) => {
                    let ghost before = acc@;
                    acc = or_flags(&acc, &found);
                    proof {
                        assert forall|x: int| 0 <= x < keys@.len() implies acc@[x] == exists|j: int|
                            0 <= j < i + 1 && (#[trigger] s[j]).has(keys@[x]) by {
                            assert(acc@[x] == (before[x] || found@[x]));
                            if s[i as int].has(keys@[x]) {
                                assert(found@[x]);
                            }
                        }
                    }
                },
                Err(_) => {
                    proof {
                        assert forall|x: int| 0 <= x < keys@.len() implies acc@[x] == exists|j: int|
                            0 <= j < i + 1 && (#[trigger] s[j]).has(keys@[x]) by {
                            assert(!s[i as int].has(keys@[x]));
                        }
                    }
                },
            }
            i = i + 1;
        }
        acc
    }

    /// Every blob that some holder serves, holder by holder.
    pub fn records(&self) -> (r: Vec<Record>)
        requires
            self.wf(),
        ensures
            forall|i: int| 0 <= i < r@.len() ==> served_record(self.partitions(), #[trigger] r@[i]),
            forall|j: int, k: u64|
                0 <= j < self.partitions().len() && #[trigger] self.partitions()[j].has(k) ==> exists|i: int|
                    0 <= i < r@.len() && (#[trigger] r@[i]).key == k && r@[i].data@ == self.partitions()[j].contents[k],
    {
        let ghost s = self.partitions();
        let mut out: Vec<Record> = Vec::new();
        let mut h: usize = 0;
        while h < self.holders.len()
            invariant
                self.wf(),
                s == self.partitions(),
                h <= s.len(),
                forall|i: int| 0 <= i < out@.len() ==> served_record(s, #[trigger] out@[i]),
                forall|j: int, k: u64|
                    0 <= j < h && #[trigger] s[j].has(k) ==> exists|i: int|
                        0 <= i < out@.len() && (#[trigger] out@[i]).key == k && out@[i].data@ == s[j].contents[k],
            decreases s.len() - h,
        {
            assert(s[h as int] == self.holders@[h as int].view());
            let mut recs = self.holders[h].records();
            let ghost before = out@;
            let ghost added = recs@;
            out.append(&mut recs);
            proof {
                assert(out@ == before + added);
                assert forall|i: int| 0 <= i < out@.len() implies served_record(s, #[trigger] out@[i]) by {
                    if i < before.len() {
                        assert(out@[i] == before[i]);
                    } else {
                        assert(out@[i] == added[i - before.len()]);
                        assert(s[h as int].has(added[i - before.len()].key));
                    }
                }
                assert forall|j: int, k: u64|
                    0 <= j < h + 1 && #[trigger] s[j].has(k) implies exists|i: int|
                        0 <= i < out@.len() && (#[trigger] out@[i]).key == k && out@[i].data@ == s[j].contents[k] by {
                    if j < h {
                        let i = choose|i: int| 0 <= i < before.len() && (#[trigger] before[i]).key == k && before[i].data@ == s[j].contents[k];
                        assert(out@[i] == before[i]);
                    } else {
                        assert(self.holders@[h as int].view().has(k));
                        let i = choose|i: int| 0 <= i < added.len() && added[i].key == k;
                        assert(out@[before.len() + i] == added[i]);
                    }
                }
            }
            h = h + 1;
        }
        out
    }
}

} // verus!
