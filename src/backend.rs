use vstd::prelude::*;

use crate::data::{BobData, Operation, VDiskId};
use crate::error::Error;
use crate::group::{GroupMeta, all_ready, run_post, is_latest, put_post, served_record, some_has, PearlGroup};
use crate::store::Record;
use crate::holder::HolderView;
use crate::mapper::{vdisks_on, VDiskMapper};
use crate::settings::{lemma_start_of, spec_normal_path, Settings};

verus! {

/// `i` is the first group of `gs` that serves `op`.
pub open spec fn first_serving(gs: Seq<PearlGroup>, op: Operation, i: int) -> bool {
    &&& 0 <= i < gs.len()
    &&& gs[i].serves(op)
    &&& forall|j: int| 0 <= j < i ==> !gs[j].serves(op)
}

/// The holders of the group that serves `op`; empty where there is none.
pub open spec fn parts_for(gs: Seq<PearlGroup>, op: Operation) -> Seq<HolderView> {
    if exists|i: int| first_serving(gs, op, i) {
        gs[choose|i: int| first_serving(gs, op, i)].partitions()
    } else {
        Seq::empty()
    }
}

pub proof fn lemma_first_serving_unique(gs: Seq<PearlGroup>, op: Operation, i: int)
    requires
        first_serving(gs, op, i),
    ensures
        parts_for(gs, op) == gs[i].partitions(),
        (choose|c: int| first_serving(gs, op, c)) == i,
{
    let c = choose|c: int| first_serving(gs, op, c);
    if c < i {
        assert(!gs[c].serves(op));
    } else if c > i {
        assert(!gs[i].serves(op));
    }
}

pub proof fn lemma_first_serving_exists(gs: Seq<PearlGroup>, op: Operation, w: int)
    requires
        0 <= w < gs.len(),
        gs[w].serves(op),
    ensures
        exists|i: int| first_serving(gs, op, i),
    decreases w,
{
    if exists|k: int| 0 <= k < w && gs[k].serves(op) {
        let k = choose|k: int| 0 <= k < w && gs[k].serves(op);
        lemma_first_serving_exists(gs, op, k);
    } else {
        assert(first_serving(gs, op, w));
    }
}

/// Index of the first group of `gs` that serves `op`.
fn find_serving(gs: &Vec<PearlGroup>, op: &Operation) -> (r: Option<usize>)
    ensures
        r matches Some(i) ==> first_serving(gs@, *op, i as int),
        r is None ==> forall|j: int| 0 <= j < gs@.len() ==> !gs@[j].serves(*op),
{
    let mut i: usize = 0;
    while i < gs.len()
        invariant
            i <= gs@.len(),
            forall|j: int| 0 <= j < i ==> !gs@[j].serves(*op),
        decreases gs@.len() - i,
    {
        if gs[i].can_process_operation(op) {
            return Some(i);
        }
        i = i + 1;
    }
    None
}

/// A value kept in the alien area that should go to its owner node.
#[derive(Debug, Clone)]
pub struct DrainTask {
    pub owner: String,
    pub vdisk_id: VDiskId,
    pub key: u64,
    pub data: BobData,
}

/// The task carries a value that the alien group `g` serves for its owner.
pub open spec fn drains_from(g: PearlGroup, t: DrainTask) -> bool {
    &&& t.owner@ == g.spec_meta().node_name@
    &&& t.vdisk_id == g.spec_meta().vdisk_id
    &&& served_record(g.partitions(), Record { key: t.key, data: t.data })
}

/// Some group of `gs` serves what the task carries.
pub open spec fn drained_by(gs: Seq<PearlGroup>, t: DrainTask) -> bool {
    exists|i: int| 0 <= i < gs.len() && drains_from(gs[i], t)
}

/// `meta` names the normal group of a vdisk on a local disk of this node,
/// rooted at `<disk>/<root>/<vdisk>/`.
pub open spec fn normal_group_of(m: VDiskMapper, settings: Settings, meta: GroupMeta) -> bool {
    &&& meta.node_name@ == m.local_node_name@
    &&& meta.period == settings.timestamp_period
    &&& !meta.alien
    &&& exists|d: int|
        0 <= d < m.local_disks@.len() && (#[trigger] m.local_disks@[d]).name@ == meta.disk_name@
            && meta.directory_path@ == spec_normal_path(
            m.local_disks@[d].path@,
            settings.root_dir_name@,
            meta.vdisk_id.id,
        ) && vdisks_on(m.vdisks@, m.local_node_name@, m.local_disks@[d].name@).contains(meta.vdisk_id.id)
}

/// Once the owner stored what a drain task carried, the owner serves the key
/// with a value at least as recent as the one the alien area kept.
pub proof fn law_drain_delivers(
    g: PearlGroup,
    t: DrainTask,
    owner_before: Seq<HolderView>,
    owner_after: Seq<HolderView>,
    p: crate::settings::TimestampPeriod,
    dir: Seq<char>,
    d: crate::data::DataView,
)
    requires
        drains_from(g, t),
        put_post(owner_before, owner_after, t.key, t.data@, p, dir),
    ensures
        some_has(owner_after, t.key),
        is_latest(owner_after, t.key, d) ==> d.timestamp >= t.data.meta.timestamp,
{
    crate::group::law_read_after_write(owner_before, owner_after, t.key, t.data@, p, dir, d);
}

/// `e` is the error a write for `op` of a value with timestamp `t` fails
/// with: no group for a normal operation, the holder of `t` not Ready, or a
/// period that cannot be represented.
pub open spec fn backend_put_error(b: Backend, op: Operation, t: u64, e: Error) -> bool {
    &&& (!op.alien && !b.has_normal(op)) ==> e == Error::VDiskNotFound(op.vdisk_id.id)
    &&& ((op.alien || b.has_normal(op)) && crate::group::some_covers(b.parts(op), t)) ==> e is VDiskIsNotReady
    &&& ((op.alien || b.has_normal(op)) && !crate::group::some_covers(b.parts(op), t)) ==> e is Failed
}

/// Container of the normal groups of the local disks and of the alien groups
/// kept for remote nodes; dispatches operations to them.
pub struct Backend {
    settings: Settings,
    /// The disk that holds alien groups.
    alien_disk_name: String,
    groups: Vec<PearlGroup>,
    aliens: Vec<PearlGroup>,
}

impl Backend {
    pub closed spec fn normal_groups(&self) -> Seq<PearlGroup> {
        self.groups@
    }

    pub closed spec fn alien_groups(&self) -> Seq<PearlGroup> {
        self.aliens@
    }

    pub closed spec fn wf(&self) -> bool {
        &&& forall|i: int| 0 <= i < self.groups@.len() ==> (#[trigger] self.groups@[i]).wf()
        &&& forall|i: int| 0 <= i < self.aliens@.len() ==> (#[trigger] self.aliens@[i]).wf()
        &&& forall|i: int|
            0 <= i < self.aliens@.len() ==> (#[trigger] self.aliens@[i]).spec_meta().alien
                && self.aliens@[i].spec_meta().period == self.settings.timestamp_period
    }

    /// The holders that serve `op`.
    pub open spec fn parts(&self, op: Operation) -> Seq<HolderView> {
        if op.alien {
            parts_for(self.alien_groups(), op)
        } else {
            parts_for(self.normal_groups(), op)
        }
    }

    /// Some group serves `op`.
    pub open spec fn has_group(&self, op: Operation) -> bool {
        if op.alien {
            exists|i: int| first_serving(self.alien_groups(), op, i)
        } else {
            exists|i: int| first_serving(self.normal_groups(), op, i)
        }
    }

    /// Some group serves the normal operation `op`.
    pub open spec fn has_normal(&self, op: Operation) -> bool {
        exists|i: int| 0 <= i < self.normal_groups().len() && (#[trigger] self.normal_groups()[i]).serves(op)
    }

    /// One normal group for each vdisk with a replica on a local disk of this
    /// node, rooted at `<disk>/<root>/<vdisk>/`; no alien group yet.
    pub fn new(mapper: &VDiskMapper, settings: Settings, alien_disk_name: &String) -> (r: Backend)
        ensures
            r.wf(),
            r.alien_groups().len() == 0,
            forall|i: int|
                0 <= i < r.normal_groups().len() ==> !(#[trigger] r.normal_groups()[i]).spec_meta().alien
                    && r.normal_groups()[i].partitions().len() == 0 && normal_group_of(
                    *mapper,
                    settings,
                    r.normal_groups()[i].spec_meta(),
                ),
            forall|d: int, x: u32|
                0 <= d < mapper.local_disks@.len() && #[trigger] vdisks_on(
                    mapper.vdisks@,
                    mapper.local_node_name@,
                    mapper.local_disks@[d].name@,
                ).contains(x) ==> exists|i: int|
                    0 <= i < r.normal_groups().len() && (#[trigger] r.normal_groups()[i]).spec_meta().disk_name@
                        == mapper.local_disks@[d].name@ && r.normal_groups()[i].spec_meta().vdisk_id.id == x,
    {
        let mut groups: Vec<PearlGroup> = Vec::new();
        let mut d: usize = 0;
        while d < mapper.local_disks.len()
            invariant
                d <= mapper.local_disks@.len(),
                forall|i: int| 0 <= i < groups@.len() ==> (#[trigger] groups@[i]).wf() && !groups@[i].spec_meta().alien
                    && groups@[i].partitions().len() == 0 && normal_group_of(*mapper, settings, groups@[i].spec_meta()),
                forall|e: int, x: u32|
                    0 <= e < d && #[trigger] vdisks_on(
                        mapper.vdisks@,
                        mapper.local_node_name@,
                        mapper.local_disks@[e].name@,
                    ).contains(x) ==> exists|i: int|
                        0 <= i < groups@.len() && (#[trigger] groups@[i]).spec_meta().disk_name@
                            == mapper.local_disks@[e].name@ && groups@[i].spec_meta().vdisk_id.id == x,
            decreases mapper.local_disks@.len() - d,
        {
            let disk = &mapper.local_disks[d];
            let vdisks = mapper.get_vdisks_by_disk(&disk.name);
            let ghost ids = vdisks@.map_values(|x: VDiskId| x.id);
            let ghost groups_before = groups@;
            let mut v: usize = 0;
            while v < vdisks.len()
                invariant
                    d < mapper.local_disks@.len(),
                    *disk == mapper.local_disks@[d as int],
                    ids == vdisks@.map_values(|x: VDiskId| x.id),
                    ids == vdisks_on(mapper.vdisks@, mapper.local_node_name@, disk.name@),
                    v <= vdisks@.len(),
                    groups@.len() >= groups_before.len(),
                    groups@.subrange(0, groups_before.len() as int) == groups_before,
                    forall|i: int| 0 <= i < groups@.len() ==> (#[trigger] groups@[i]).wf() && !groups@[i].spec_meta().alien
                        && groups@[i].partitions().len() == 0 && normal_group_of(*mapper, settings, groups@[i].spec_meta()),
                    forall|w: int| 0 <= w < v ==> exists|i: int|
                        0 <= i < groups@.len() && (#[trigger] groups@[i]).spec_meta().disk_name@
                            == disk.name@ && groups@[i].spec_meta().vdisk_id.id == #[trigger] ids[w],
                decreases vdisks@.len() - v,
            {
                let path = settings.normal_path(&disk.path, vdisks[v]);
                let g = PearlGroup::new(
                    vdisks[v],
                    mapper.local_node_name.clone(),
                    disk.name.clone(),
                    path,
                    settings.timestamp_period,
                    false,
                );
                let ghost before = groups@;
                proof {
                    assert(ids[v as int] == vdisks@[v as int].id);
                    assert(ids.contains(vdisks@[v as int].id));
                    assert(normal_group_of(*mapper, settings, g.spec_meta()));
                }
                groups.push(g);
                proof {
                    assert(groups@.subrange(0, groups_before.len() as int) =~= before.subrange(0, groups_before.len() as int));
                    assert forall|w: int| 0 <= w < v + 1 implies exists|i: int|
                        0 <= i < groups@.len() && (#[trigger] groups@[i]).spec_meta().disk_name@
                            == disk.name@ && groups@[i].spec_meta().vdisk_id.id == #[trigger] ids[w] by {
                        if w < v {
                            let i = choose|i: int|
                                0 <= i < before.len() && (#[trigger] before[i]).spec_meta().disk_name@
                                    == disk.name@ && before[i].spec_meta().vdisk_id.id == ids[w];
                            assert(groups@[i] == before[i]);
                        } else {
                            assert(groups@[before.len() as int] == g);
                        }
                    }
                }
                v = v + 1;
            }
            proof {
                assert forall|e: int, x: u32|
                    0 <= e < d + 1 && #[trigger] vdisks_on(
                        mapper.vdisks@,
                        mapper.local_node_name@,
                        mapper.local_disks@[e].name@,
                    ).contains(x) implies exists|i: int|
                        0 <= i < groups@.len() && (#[trigger] groups@[i]).spec_meta().disk_name@
                            == mapper.local_disks@[e].name@ && groups@[i].spec_meta().vdisk_id.id == x by {
                    if e < d {
                        let i = choose|i: int|
                            0 <= i < groups_before.len() && (#[trigger] groups_before[i]).spec_meta().disk_name@
                                == mapper.local_disks@[e].name@ && groups_before[i].spec_meta().vdisk_id.id == x;
                        assert(groups@[i] == groups_before[i]);
                    } else {
                        let w = choose|w: int| 0 <= w < ids.len() && ids[w] == x;
                        assert(ids[w] == x);
                    }
                }
            }
            d = d + 1;
        }
        Backend { settings, alien_disk_name: alien_disk_name.clone(), groups, aliens: Vec::new() }
    }

    pub closed spec fn spec_settings(&self) -> Settings {
        self.settings
    }

    pub fn settings(&self) -> (r: &Settings)
        ensures
            *r == self.spec_settings(),
    {
        &self.settings
    }

    pub fn normal_count(&self) -> (r: usize)
        ensures
            r == self.normal_groups().len(),
    {
        self.groups.len()
    }

    pub fn alien_count(&self) -> (r: usize)
        ensures
            r == self.alien_groups().len(),
    {
        self.aliens.len()
    }

    pub fn normal_group(&self, i: usize) -> (r: &PearlGroup)
        requires
            i < self.normal_groups().len(),
        ensures
            *r == self.normal_groups()[i as int],
    {
        &self.groups[i]
    }

    pub fn alien_group(&self, i: usize) -> (r: &PearlGroup)
        requires
            i < self.alien_groups().len(),
        ensures
            *r == self.alien_groups()[i as int],
    {
        &self.aliens[i]
    }

    /// Adds to the group that serves `op` the holder found on disk for the
    /// period starting at `start`.
    pub fn load_partition(&mut self, op: &Operation, start: u64) -> (r: Result<(), Error>)
        requires
            old(self).wf(),
        ensures
            final(self).wf(),
            !old(self).has_group(*op) ==> r is Err && r->Err_0 == Error::VDiskNotFound(op.vdisk_id.id),
            old(self).has_group(*op) ==> (r is Ok <==> final(self).group_period(*op).representable(start as int)
                && final(self).group_period(*op).start_of(start as int) == start),
            r is Ok ==> crate::group::some_covers(final(self).parts(*op), start),
            r is Err ==> final(self).parts(*op) == old(self).parts(*op),
    {
        let (is_alien, i) = if op.alien {
            match find_serving(&self.aliens, op) {
                Some(i) => (true, i),
                None => {
                    return Err(Error::VDiskNotFound(op.vdisk_id.id));
                },
            }
        } else {
            match find_serving(&self.groups, op) {
                Some(i) => (false, i),
                None => {
                    return Err(Error::VDiskNotFound(op.vdisk_id.id));
                },
            }
        };
        if is_alien {
            let ghost prev = *self;
            proof { lemma_first_serving_unique(self.aliens@, *op, i as int); }
            let mut g = self.aliens.remove(i);
            let ghost before_add = g.partitions();
            let r = g.add(start);
            let ghost gp = g.partitions();
            proof {
                if let Ok(pos) = r {
                    assert(gp[pos as int].covers(start));
                }
            }
            self.aliens.insert(i, g);
            proof {
                assert(first_serving(prev.alien_groups(), *op, i as int));
                assert(self.aliens@[i as int].partitions() == gp);
                self.lemma_aliens_wf_after_swap(&prev, i as int);
                assert(first_serving(self.aliens@, *op, i as int)) by {
                    assert forall|j: int| 0 <= j < i implies !self.aliens@[j].serves(*op) by {
                        assert(self.aliens@[j] == prev.aliens@[j]);
                    }
                }
                lemma_first_serving_unique(self.aliens@, *op, i as int);
            }
            match r {
                Ok(_) => Ok(()),
                Err(e) => Err(e),
            }
        } else {
            let ghost prev = *self;
            proof { lemma_first_serving_unique(self.groups@, *op, i as int); }
            let mut g = self.groups.remove(i);
            let ghost before_add = g.partitions();
            let r = g.add(start);
            let ghost gp = g.partitions();
            proof {
                if let Ok(pos) = r {
                    assert(gp[pos as int].covers(start));
                }
            }
            self.groups.insert(i, g);
            proof {
                assert(first_serving(prev.normal_groups(), *op, i as int));
                assert(self.groups@[i as int].partitions() == gp);
                self.lemma_groups_wf_after_swap(&prev, i as int);
                assert(first_serving(self.groups@, *op, i as int)) by {
                    assert forall|j: int| 0 <= j < i implies !self.groups@[j].serves(*op) by {
                        assert(self.groups@[j] == prev.groups@[j]);
                    }
                }
                lemma_first_serving_unique(self.groups@, *op, i as int);
            }
            match r {
                Ok(_) => Ok(()),
                Err(e) => Err(e),
            }
        }
    }

    proof fn lemma_groups_wf_after_swap(&self, prev: &Backend, i: int)
        requires
            prev.wf(),
            0 <= i < prev.groups@.len(),
            self.groups@.len() == prev.groups@.len(),
            self.groups@[i].wf(),
            forall|j: int| 0 <= j < self.groups@.len() && j != i ==> self.groups@[j] == prev.groups@[j],
            self.aliens == prev.aliens,
            self.settings == prev.settings,
        ensures
            self.wf(),
    {
        assert forall|j: int| 0 <= j < self.groups@.len() implies (#[trigger] self.groups@[j]).wf() by {
            if j != i {
                assert(self.groups@[j] == prev.groups@[j]);
            }
        }
    }

    proof fn lemma_aliens_wf_after_swap(&self, prev: &Backend, i: int)
        requires
            prev.wf(),
            0 <= i < prev.aliens@.len(),
            self.aliens@.len() == prev.aliens@.len(),
            self.aliens@[i].wf(),
            self.aliens@[i].spec_meta() == prev.aliens@[i].spec_meta(),
            forall|j: int| 0 <= j < self.aliens@.len() && j != i ==> self.aliens@[j] == prev.aliens@[j],
            self.groups == prev.groups,
            self.settings == prev.settings,
        ensures
            self.wf(),
    {
        assert forall|j: int| 0 <= j < self.aliens@.len() implies (#[trigger] self.aliens@[j]).wf() by {
            if j != i {
                assert(self.aliens@[j] == prev.aliens@[j]);
            }
        }
        assert forall|j: int| 0 <= j < self.aliens@.len() implies (#[trigger] self.aliens@[j]).spec_meta().alien
            && self.aliens@[j].spec_meta().period == self.settings.timestamp_period by {
            if j != i {
                assert(self.aliens@[j] == prev.aliens@[j]);
            }
        }
    }

    /// Prepares every group and creates its holder for `now` where it can.
    pub fn run(&mut self, now: u64)
        requires
            old(self).wf(),
        ensures
            final(self).wf(),
            forall|i: int| 0 <= i < final(self).normal_groups().len() ==> all_ready(
                (#[trigger] final(self).normal_groups()[i]).partitions(),
            ),
            final(self).alien_groups() == old(self).alien_groups(),
            final(self).spec_settings() == old(self).spec_settings(),
            final(self).normal_groups().len() == old(self).normal_groups().len(),
            forall|i: int|
                0 <= i < old(self).normal_groups().len() ==> (#[trigger] final(self).normal_groups()[i]).spec_meta()
                    == old(self).normal_groups()[i].spec_meta() && run_post(
                    old(self).normal_groups()[i].partitions(),
                    final(self).normal_groups()[i].partitions(),
                    old(self).normal_groups()[i].spec_meta().period,
                    old(self).normal_groups()[i].spec_meta().directory_path@,
                    now,
                ),
    {
        let n = self.groups.len();
        let mut i: usize = 0;
        while i < n
            invariant
                self.wf(),
                n == self.groups@.len(),
                i <= n,
                forall|j: int| 0 <= j < i ==> all_ready((#[trigger] self.groups@[j]).partitions()),
                self.aliens == old(self).aliens,
                self.settings == old(self).settings,
                n == old(self).groups@.len(),
                forall|j: int|
                    0 <= j < i ==> (#[trigger] self.groups@[j]).spec_meta() == old(self).groups@[j].spec_meta()
                        && run_post(
                        old(self).groups@[j].partitions(),
                        self.groups@[j].partitions(),
                        old(self).groups@[j].spec_meta().period,
                        old(self).groups@[j].spec_meta().directory_path@,
                        now,
                    ),
                forall|j: int| i <= j < n ==> #[trigger] self.groups@[j] == old(self).groups@[j],
            decreases n - i,
        {
            let ghost prev = *self;
            let mut g = self.groups.remove(i);
            g.run(now);
            self.groups.insert(i, g);
            proof {
                self.lemma_groups_wf_after_swap(&prev, i as int);
                assert forall|j: int| 0 <= j < i + 1 implies all_ready((#[trigger] self.groups@[j]).partitions()) by {
                    if j < i {
                        assert(self.groups@[j] == prev.groups@[j]);
                    }
                }
                assert forall|j: int|
                    0 <= j < i + 1 implies (#[trigger] self.groups@[j]).spec_meta() == old(self).groups@[j].spec_meta()
                        && run_post(
                        old(self).groups@[j].partitions(),
                        self.groups@[j].partitions(),
                        old(self).groups@[j].spec_meta().period,
                        old(self).groups@[j].spec_meta().directory_path@,
                        now,
                    ) by {
                    if j < i {
                        assert(self.groups@[j] == prev.groups@[j]);
                    }
                }
                assert forall|j: int| i + 1 <= j < n implies #[trigger] self.groups@[j] == old(self).groups@[j] by {
                    assert(self.groups@[j] == prev.groups@[j]);
                }
            }
            i = i + 1;
        }
    }

    /// Index of the alien group for `op`, created empty where there is none.
    fn get_or_create_alien(&mut self, op: &Operation) -> (r: usize)
        requires
            old(self).wf(),
            op.wf(),
            op.alien,
        ensures
            final(self).wf(),
            first_serving(final(self).aliens@, *op, r as int),
            final(self).groups == old(self).groups,
            final(self).settings == old(self).settings,
            parts_for(old(self).aliens@, *op) == final(self).aliens@[r as int].partitions(),
            old(self).aliens@.len() <= final(self).aliens@.len() <= old(self).aliens@.len() + 1,
            forall|j: int| 0 <= j < old(self).aliens@.len() ==> #[trigger] final(self).aliens@[j] == old(self).aliens@[j],
    {
        match find_serving(&self.aliens, op) {
            Some(i) => {
                proof { lemma_first_serving_unique(self.aliens@, *op, i as int); }
                i
            },
            None => {
                let node_name = match &op.remote_node_name {
                    Some(n) => n.clone(),
                    None => String::new(),
                };
                let path = self.settings.alien_path(op.vdisk_id, &node_name);
                let g = PearlGroup::new(
                    op.vdisk_id,
                    node_name,
                    self.alien_disk_name.clone(),
                    path,
                    self.settings.timestamp_period,
                    true,
                );
                self.aliens.push(g);
                let i = self.aliens.len() - 1;
                proof {
                    assert(first_serving(self.aliens@, *op, i as int)) by {
                        assert forall|j: int| 0 <= j < i implies !self.aliens@[j].serves(*op) by {
                            assert(self.aliens@[j] == old(self).aliens@[j]);
                        }
                    }
                    assert(!exists|c: int| first_serving(old(self).aliens@, *op, c));
                    assert(self.aliens@[i as int].partitions() =~= Seq::<HolderView>::empty());
                    assert forall|j: int| 0 <= j < self.aliens@.len() implies (#[trigger] self.aliens@[j]).wf()
                        && self.aliens@[j].spec_meta().alien && self.aliens@[j].spec_meta().period
                        == self.settings.timestamp_period by {
                        if j < i {
                            assert(self.aliens@[j] == old(self).aliens@[j]);
                        }
                    }
                }
                i
            },
        }
    }

    /// Registers the alien group found on disk for the node `node_name` and
    /// the vdisk `vdisk_id`; fails with `Failed` where the topology has no
    /// such node or that node holds no replica of that vdisk.
    pub fn add_alien_group(&mut self, mapper: &VDiskMapper, node_name: &String, vdisk_id: VDiskId) -> (r: Result<usize, Error>)
        requires
            old(self).wf(),
        ensures
            final(self).wf(),
            r is Ok <==> mapper.has_node(node_name@) && exists|v: int, i: int|
                0 <= v < mapper.vdisks@.len() && mapper.vdisks@[v].id == vdisk_id && 0 <= i
                    < mapper.vdisks@[v].replicas@.len()
                    && #[trigger] mapper.vdisks@[v].replicas@[i].node_name@ == node_name@,
            r matches Ok(i) ==> i < final(self).alien_groups().len() && final(self).alien_groups()[i as int].spec_meta().node_name@
                == node_name@ && final(self).alien_groups()[i as int].spec_meta().vdisk_id == vdisk_id,
            r is Err ==> final(self).alien_groups() == old(self).alien_groups(),
    {
        if mapper.get_node(node_name).is_none() {
            return Err(Error::Failed(String::from_str("cannot find node for alien directory")));
        }
        if !mapper.is_vdisk_on_node(node_name, vdisk_id) {
            return Err(Error::Failed(String::from_str("node does not hold a replica of the vdisk")));
        }
        let op = Operation::new_alien(vdisk_id, node_name);
        let i = self.get_or_create_alien(&op);
        Ok(i)
    }

    /// Writes `data` under `key` to the group that serves `op`: a normal
    /// group, or the alien group for the remote node, created on first use.
    /// Fails with `VDiskNotFound` where no normal group serves `op`, else as
    /// the group's write fails.
    pub fn put(&mut self, op: &Operation, key: u64, data: BobData) -> (r: Result<(), Error>)
        requires
            old(self).wf(),
            op.wf(),
        ensures
            final(self).wf(),
            !op.alien && !old(self).has_normal(*op) ==> r is Err && r->Err_0 == Error::VDiskNotFound(op.vdisk_id.id),
            r is Err ==> final(self).parts(*op) == old(self).parts(*op),
            r is Ok ==> put_post(
                old(self).parts(*op),
                final(self).parts(*op),
                key,
                data@,
                final(self).group_period(*op),
                final(self).group_dir(*op),
            ),
            r is Ok <==> old(self).put_succeeds(*op, data.meta.timestamp),
            r matches Err(e) ==> backend_put_error(*old(self), *op, data.meta.timestamp, e),
            final(self).spec_settings() == old(self).spec_settings(),
            !op.alien ==> final(self).alien_groups() == old(self).alien_groups(),
            !op.alien ==> final(self).normal_groups().len() == old(self).normal_groups().len(),
            !op.alien ==> forall|j: int|
                0 <= j < old(self).normal_groups().len() ==> (#[trigger] final(self).normal_groups()[j]).spec_meta()
                    == old(self).normal_groups()[j].spec_meta(),
            !op.alien ==> forall|j: int|
                0 <= j < old(self).normal_groups().len() && !old(self).normal_groups()[j].serves(*op)
                    ==> #[trigger] final(self).normal_groups()[j] == old(self).normal_groups()[j],
            op.alien ==> final(self).normal_groups() == old(self).normal_groups(),
            op.alien ==> old(self).alien_groups().len() <= final(self).alien_groups().len() <= old(self).alien_groups().len() + 1,
            op.alien ==> forall|j: int|
                0 <= j < old(self).alien_groups().len() && !old(self).alien_groups()[j].serves(*op)
                    ==> #[trigger] final(self).alien_groups()[j] == old(self).alien_groups()[j],
    {
        if op.alien {
            let i = self.get_or_create_alien(op);
            let ghost mid = *self;
            let mut g = self.aliens.remove(i);
            let r = g.put(key, data);
            self.aliens.insert(i, g);
            proof {
                self.lemma_aliens_wf_after_swap(&mid, i as int);
                assert(first_serving(self.aliens@, *op, i as int)) by {
                    assert forall|j: int| 0 <= j < i implies !self.aliens@[j].serves(*op) by {
                        assert(self.aliens@[j] == mid.aliens@[j]);
                    }
                }
                lemma_first_serving_unique(self.aliens@, *op, i as int);
                lemma_first_serving_unique(mid.aliens@, *op, i as int);
                assert(old(self).parts(*op) == mid.aliens@[i as int].partitions());
                assert(self.group_period(*op) == self.aliens@[i as int].spec_meta().period);
                assert(self.aliens@[i as int].spec_meta() == mid.aliens@[i as int].spec_meta());
                assert(self.aliens@[i as int].spec_meta().period == self.settings.timestamp_period);
                assert forall|j: int|
                    0 <= j < old(self).alien_groups().len() && !old(self).alien_groups()[j].serves(*op)
                        implies #[trigger] self.alien_groups()[j] == old(self).alien_groups()[j] by {
                    assert(j != i);
                    assert(self.aliens@[j] == mid.aliens@[j]);
                }
            }
            r
        } else {
            match find_serving(&self.groups, op) {
                None => {
                    Err(Error::VDiskNotFound(op.vdisk_id.id))
                },
                Some(i) => {
                    let ghost prev = *self;
                    proof {
                        lemma_first_serving_unique(self.groups@, *op, i as int);
                        assert(self.normal_groups()[i as int].serves(*op));
                    }
                    let mut g = self.groups.remove(i);
                    let r = g.put(key, data);
                    self.groups.insert(i, g);
                    proof {
                        self.lemma_groups_wf_after_swap(&prev, i as int);
                        assert(first_serving(self.groups@, *op, i as int)) by {
                            assert forall|j: int| 0 <= j < i implies !self.groups@[j].serves(*op) by {
                                assert(self.groups@[j] == prev.groups@[j]);
                            }
                        }
                        lemma_first_serving_unique(self.groups@, *op, i as int);
                        assert(old(self).parts(*op) == prev.groups@[i as int].partitions());
                        assert(self.group_period(*op) == self.groups@[i as int].spec_meta().period);
                        assert(old(self).group_period(*op) == prev.groups@[i as int].spec_meta().period);
                        assert forall|j: int|
                            0 <= j < old(self).normal_groups().len() implies (#[trigger] self.normal_groups()[j]).spec_meta()
                                == old(self).normal_groups()[j].spec_meta() by {
                            if j != i {
                                assert(self.groups@[j] == prev.groups@[j]);
                            }
                        }
                        assert forall|j: int|
                            0 <= j < old(self).normal_groups().len() && !old(self).normal_groups()[j].serves(*op)
                                implies #[trigger] self.normal_groups()[j] == old(self).normal_groups()[j] by {
                            assert(j != i);
                            assert(self.groups@[j] == prev.groups@[j]);
                        }
                    }
                    r
                },
            }
        }
    }

    /// The partition period that applies to `op`: the settings' for the alien
    /// area, the serving group's for a local disk.
    pub open spec fn op_period(&self, op: Operation) -> crate::settings::TimestampPeriod {
        if op.alien {
            self.spec_settings().timestamp_period
        } else {
            self.group_period(op)
        }
    }

    /// A write of a value with timestamp `t` for `op` succeeds: a group serves
    /// `op` (or it is alien, and one is made), and the holder of `t` is Ready,
    /// or there is none yet and the period of `t` is representable.
    pub open spec fn put_succeeds(&self, op: Operation, t: u64) -> bool {
        &&& (op.alien || self.has_normal(op))
        &&& ((exists|i: int|
            0 <= i < self.parts(op).len() && (#[trigger] self.parts(op)[i]).covers(t) && self.parts(op)[i].ready)
            || (!crate::group::some_covers(self.parts(op), t) && self.op_period(op).representable(t as int)))
    }

    /// The directory of the group that serves `op`.
    pub open spec fn group_dir(&self, op: Operation) -> Seq<char> {
        let gs = if op.alien { self.alien_groups() } else { self.normal_groups() };
        gs[choose|i: int| first_serving(gs, op, i)].spec_meta().directory_path@
    }

    /// The partition period of the group that serves `op`.
    pub open spec fn group_period(&self, op: Operation) -> crate::settings::TimestampPeriod {
        let gs = if op.alien { self.alien_groups() } else { self.normal_groups() };
        gs[choose|i: int| first_serving(gs, op, i)].spec_meta().period
    }

    /// The most recent value under `key` in the group that serves `op`. Fails
    /// with `VDiskNotFound` where no normal group serves `op`, with
    /// `KeyNotFound` where no alien group serves it, else as the group's read.
    pub fn get(&self, op: &Operation, key: u64) -> (r: Result<BobData, Error>)
        requires
            self.wf(),
        ensures
            !op.alien && !self.has_normal(*op) ==> r is Err && r->Err_0 == Error::VDiskNotFound(op.vdisk_id.id),
            (op.alien || self.has_normal(*op)) && some_has(self.parts(*op), key) ==> r is Ok,
            r matches Ok(d) ==> is_latest(self.parts(*op), key, d@),
            (op.alien || self.has_normal(*op)) && !some_has(self.parts(*op), key) && all_ready(self.parts(*op))
                ==> r is Err && r->Err_0 is KeyNotFound,
    {
        if op.alien {
            match find_serving(&self.aliens, op) {
                Some(i) => {
                    proof { lemma_first_serving_unique(self.aliens@, *op, i as int); }
                    self.aliens[i].get(key)
                },
                None => {
                    proof {
                        assert(!exists|c: int| first_serving(self.aliens@, *op, c));
                        assert(self.parts(*op) =~= Seq::<HolderView>::empty());
                    }
                    Err(Error::KeyNotFound)
                },
            }
        } else {
            match find_serving(&self.groups, op) {
                Some(i) => {
                    proof {
                        lemma_first_serving_unique(self.groups@, *op, i as int);
                        assert(self.normal_groups()[i as int].serves(*op));
                    }
                    self.groups[i].get(key)
                },
                None => Err(Error::VDiskNotFound(op.vdisk_id.id)),
            }
        }
    }

    /// For each key, whether the group that serves `op` has it. Fails with
    /// `VDiskNotFound` where no normal group serves `op`; an alien operation
    /// with no group finds nothing.
    pub fn exist(&self, op: &Operation, keys: &Vec<u64>) -> (r: Result<Vec<bool>, Error>)
        requires
            self.wf(),
        ensures
            !op.alien && !self.has_normal(*op) ==> r is Err && r->Err_0 == Error::VDiskNotFound(op.vdisk_id.id),
            (op.alien || self.has_normal(*op)) ==> r is Ok,
            r matches Ok(v) ==> v@.len() == keys@.len() && forall|m: int|
                0 <= m < keys@.len() ==> v@[m] == some_has(self.parts(*op), keys@[m]),
    {
        let gs = if op.alien { &self.aliens } else { &self.groups };
        match find_serving(gs, op) {
            Some(i) => {
                proof {
                    lemma_first_serving_unique(gs@, *op, i as int);
                    if !op.alien {
                        assert(self.normal_groups()[i as int].serves(*op));
                    }
                }
                Ok(gs[i].exist(keys))
            },
            None => {
                if !op.alien {
                    return Err(Error::VDiskNotFound(op.vdisk_id.id));
                }
                proof {
                    assert(!exists|c: int| first_serving(gs@, *op, c));
                    assert(self.parts(*op) =~= Seq::<HolderView>::empty());
                }
                let mut out: Vec<bool> = Vec::new();
                let mut m: usize = 0;
                while m < keys.len()
                    invariant
                        m <= keys@.len(),
                        out@.len() == m,
                        forall|q: int| 0 <= q < m ==> !out@[q],
                    decreases keys@.len() - m,
                {
                    out.push(false);
                    m = m + 1;
                }
                Ok(out)
            },
        }
    }

    /// The values the alien area keeps, each with the node that owns it:
    /// what a drain sends to the owners, with `force_node` set.
    pub fn alien_drain_tasks(&self) -> (r: Vec<DrainTask>)
        requires
            self.wf(),
        ensures
            forall|t: int| 0 <= t < r@.len() ==> drained_by(self.alien_groups(), #[trigger] r@[t]),
            forall|i: int, j: int, k: u64|
                0 <= i < self.alien_groups().len() && 0 <= j < self.alien_groups()[i].partitions().len()
                    && #[trigger] self.alien_groups()[i].partitions()[j].has(k) ==> exists|t: int|
                    0 <= t < r@.len() && (#[trigger] r@[t]).key == k && r@[t].owner@
                        == self.alien_groups()[i].spec_meta().node_name@,
    {
        let mut out: Vec<DrainTask> = Vec::new();
        let mut i: usize = 0;
        while i < self.aliens.len()
            invariant
                self.wf(),
                i <= self.aliens@.len(),
                forall|t: int| 0 <= t < out@.len() ==> drained_by(self.aliens@.subrange(0, i as int), #[trigger] out@[t]),
                forall|a: int, j: int, k: u64|
                    0 <= a < i && 0 <= j < self.aliens@[a].partitions().len()
                        && #[trigger] self.aliens@[a].partitions()[j].has(k) ==> exists|t: int|
                        0 <= t < out@.len() && (#[trigger] out@[t]).key == k && out@[t].owner@
                            == self.aliens@[a].spec_meta().node_name@,
            decreases self.aliens@.len() - i,
        {
            let g = &self.aliens[i];
            let recs = g.records();
            let meta = g.meta();
            let ghost before = out@;
            let mut q: usize = 0;
            while q < recs.len()
                invariant
                    i < self.aliens@.len(),
                    *g == self.aliens@[i as int],
                    *meta == g.spec_meta(),
                    q <= recs@.len(),
                    out@.len() == before.len() + q,
                    out@.subrange(0, before.len() as int) == before,
                    forall|x: int| 0 <= x < recs@.len() ==> served_record(g.partitions(), #[trigger] recs@[x]),
                    forall|x: int|
                        0 <= x < q ==> (#[trigger] out@[before.len() + x]).key == recs@[x].key
                            && out@[before.len() + x].data@ == recs@[x].data@ && out@[before.len() + x].owner@
                            == meta.node_name@ && out@[before.len() + x].vdisk_id == meta.vdisk_id,
                decreases recs@.len() - q,
            {
                let rec = &recs[q];
                let ghost prev = out@;
                out.push(DrainTask {
                    owner: meta.node_name.clone(),
                    vdisk_id: meta.vdisk_id,
                    key: rec.key,
                    data: rec.data.duplicate(),
                });
                assert(out@.subrange(0, before.len() as int) =~= prev.subrange(0, before.len() as int));
                q = q + 1;
            }
            proof {
                let gs = self.aliens@.subrange(0, i + 1);
                assert forall|t: int| 0 <= t < out@.len() implies drained_by(gs, #[trigger] out@[t]) by {
                    if t < before.len() {
                        assert(out@[t] == before[t]);
                        let a = choose|a: int| 0 <= a < i && drains_from(self.aliens@.subrange(0, i as int)[a], before[t]);
                        assert(gs[a] == self.aliens@.subrange(0, i as int)[a]);
                    } else {
                        let x = t - before.len();
                        assert(out@[before.len() + x] == out@[t]);
                        let rec = recs@[x];
                        assert(served_record(g.partitions(), rec));
                        let j = choose|j: int| 0 <= j < g.partitions().len() && (#[trigger] g.partitions()[j]).has(rec.key)
                            && g.partitions()[j].contents[rec.key] == rec.data@;
                        let task_rec = Record { key: out@[t].key, data: out@[t].data };
                        assert(g.partitions()[j].has(task_rec.key) && g.partitions()[j].contents[task_rec.key] == task_rec.data@);
                        assert(drains_from(self.aliens@[i as int], out@[t]));
                        assert(gs[i as int] == self.aliens@[i as int]);
                    }
                }
                assert forall|a: int, j: int, k: u64|
                    0 <= a < i + 1 && 0 <= j < self.aliens@[a].partitions().len()
                        && #[trigger] self.aliens@[a].partitions()[j].has(k) implies exists|t: int|
                        0 <= t < out@.len() && (#[trigger] out@[t]).key == k && out@[t].owner@
                            == self.aliens@[a].spec_meta().node_name@ by {
                    if a < i {
                        let t = choose|t: int| 0 <= t < before.len() && (#[trigger] before[t]).key == k && before[t].owner@
                            == self.aliens@[a].spec_meta().node_name@;
                        assert(out@[t] == before[t]);
                    } else {
                        assert(g.partitions()[j].has(k));
                        let x = choose|x: int| 0 <= x < recs@.len() && recs@[x].key == k;
                        assert(out@[before.len() + x].key == k);
                    }
                }
            }
            i = i + 1;
        }
        assert(self.aliens@.subrange(0, i as int) =~= self.aliens@);
        out
    }

    /// The vdisk ids of the normal groups, in order.
    pub fn vdisk_ids(&self) -> (r: Vec<VDiskId>)
        ensures
            r@.len() == self.normal_groups().len(),
            forall|i: int| 0 <= i < r@.len() ==> #[trigger] r@[i] == self.normal_groups()[i].spec_meta().vdisk_id,
    {
        let mut out: Vec<VDiskId> = Vec::new();
        let mut i: usize = 0;
        while i < self.groups.len()
            invariant
                i <= self.groups@.len(),
                out@.len() == i,
                forall|j: int| 0 <= j < i ==> #[trigger] out@[j] == self.groups@[j].spec_meta().vdisk_id,
            decreases self.groups@.len() - i,
        {
            out.push(self.groups[i].meta().vdisk_id);
            i = i + 1;
        }
        out
    }

    /// Operations that name the same group are served by the same holders.
    pub proof fn lemma_parts_same(&self, a: Operation, b: Operation)
        requires
            a.alien == b.alien,
            a.vdisk_id == b.vdisk_id,
            a.alien ==> a.remote_node_name is Some && b.remote_node_name is Some
                && a.remote_node_name.unwrap()@ == b.remote_node_name.unwrap()@,
            !a.alien ==> a.disk_name_local is Some && b.disk_name_local is Some
                && a.disk_name_local.unwrap()@ == b.disk_name_local.unwrap()@,
        ensures
            self.parts(a) == self.parts(b),
            self.has_normal(a) == self.has_normal(b),
            (a.alien || self.has_normal(a)) ==> self.op_period(a) == self.op_period(b),
            forall|t: u64| #[trigger] self.put_succeeds(a, t) == self.put_succeeds(b, t),
    {
        let gs = if a.alien { self.alien_groups() } else { self.normal_groups() };
        assert forall|g: PearlGroup| g.serves(a) == g.serves(b) by {}
        assert forall|i: int| first_serving(gs, a, i) == first_serving(gs, b, i) by {
            if first_serving(gs, a, i) {
                assert forall|j: int| 0 <= j < i implies !gs[j].serves(b) by {
                    assert(!gs[j].serves(a));
                }
            }
            if first_serving(gs, b, i) {
                assert forall|j: int| 0 <= j < i implies !gs[j].serves(a) by {
                    assert(!gs[j].serves(b));
                }
            }
        }
        if exists|i: int| first_serving(gs, a, i) {
            let i = choose|i: int| first_serving(gs, a, i);
            lemma_first_serving_unique(gs, a, i);
            lemma_first_serving_unique(gs, b, i);
        }
        if self.has_normal(a) {
            let i = choose|i: int| 0 <= i < self.normal_groups().len() && (#[trigger] self.normal_groups()[i]).serves(a);
            assert(self.normal_groups()[i].serves(b));
            lemma_first_serving_exists(self.normal_groups(), a, i);
            let f = choose|f: int| first_serving(self.normal_groups(), a, f);
            assert(first_serving(self.normal_groups(), b, f));
            lemma_first_serving_unique(self.normal_groups(), a, f);
            lemma_first_serving_unique(self.normal_groups(), b, f);
        }
        if self.has_normal(b) {
            let i = choose|i: int| 0 <= i < self.normal_groups().len() && (#[trigger] self.normal_groups()[i]).serves(b);
            assert(self.normal_groups()[i].serves(a));
        }
    }
}

/// A backend that accepts every write and answers every read with a
/// placeholder value, for wiring tests of the layers above.
#[derive(Debug, Clone, Copy)]
pub struct StubBackend {}

impl StubBackend {
    pub fn put(&self, _op: &Operation, _key: u64, _data: BobData) -> (r: Result<(), Error>)
        ensures
            r is Ok,
    {
        Ok(())
    }

    /// One zero byte with the placeholder timestamp.
    pub fn get(&self, _op: &Operation, _key: u64) -> (r: Result<BobData, Error>)
        ensures
            r matches Ok(d) && d@.bytes == seq![0u8] && d@.timestamp == 1,
    {
        let mut bytes: Vec<u8> = Vec::new();
        bytes.push(0);
        Ok(BobData { data: bytes, meta: crate::data::BobMeta::new_stub() })
    }

    /// Knows of no key: one `false` for each key, in order.
    pub fn exist(&self, _op: &Operation, keys: &Vec<u64>) -> (r: Result<Vec<bool>, Error>)
        ensures
            r matches Ok(v) && v@.len() == keys@.len() && forall|i: int| 0 <= i < v@.len() ==> !v@[i],
    {
        let mut out: Vec<bool> = Vec::new();
        let mut i: usize = 0;
        while i < keys.len()
            invariant
                i <= keys@.len(),
                out@.len() == i,
                forall|j: int| 0 <= j < i ==> !out@[j],
            decreases keys@.len() - i,
        {
            out.push(false);
            i = i + 1;
        }
        Ok(out)
    }
}

} // verus!
