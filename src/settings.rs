use vstd::arithmetic::div_mod::{
    lemma_add_mod_noop, lemma_fundamental_div_mod, lemma_fundamental_div_mod_converse_mod,
    lemma_small_mod,
};
use vstd::prelude::*;

use crate::data::{BobData, VDiskId};

verus! {

pub const SECONDS_PER_DAY: u64 = 86400;

pub const SECONDS_PER_WEEK: u64 = 604800;

/// Seconds from the Monday 00:00 UTC before the epoch to the epoch (a Thursday).
pub const WEEK_EPOCH_OFFSET: u64 = 259200;

/// Width of one time partition, aligned to the UTC calendar.
#[derive(Debug, Clone, Copy, PartialEq, Eq, Structural)]
pub enum TimestampPeriod {
    /// From 00:00 UTC to the next 00:00 UTC.
    Day,
    /// From Monday 00:00 UTC to the next Monday 00:00 UTC.
    Week,
}

impl TimestampPeriod {
    pub open spec fn len(self) -> u64 {
        match self {
            TimestampPeriod::Day => SECONDS_PER_DAY,
            TimestampPeriod::Week => SECONDS_PER_WEEK,
        }
    }

    /// The partitions start where `t + offset` is a multiple of the length.
    pub open spec fn offset(self) -> u64 {
        match self {
            TimestampPeriod::Day => 0,
            TimestampPeriod::Week => WEEK_EPOCH_OFFSET,
        }
    }

    /// `s` is the start of a partition of this width.
    pub open spec fn aligned(self, s: int) -> bool {
        (s + self.offset()) % (self.len() as int) == 0
    }

    /// The start of the partition that holds `t` (possibly before the epoch).
    pub open spec fn start_of(self, t: int) -> int {
        t - (t + self.offset()) % (self.len() as int)
    }

    /// The partition that holds `t` can be written with `u64` bounds.
    pub open spec fn representable(self, t: int) -> bool {
        0 <= self.start_of(t) && self.start_of(t) + self.len() <= u64::MAX
    }

    /// The period named in the configuration: `1d` or `1w`; `None` for any
    /// other cadence, which the engine does not support.
    pub fn from_config(name: &str) -> (r: Option<TimestampPeriod>)
        ensures
            r == (if name@ == "1d"@ {
                Some(TimestampPeriod::Day)
            } else if name@ == "1w"@ {
                Some(TimestampPeriod::Week)
            } else {
                None
            }),
    {
        if crate::api::str_eq(name, "1d") {
            Some(TimestampPeriod::Day)
        } else if crate::api::str_eq(name, "1w") {
            Some(TimestampPeriod::Week)
        } else {
            None
        }
    }

    pub fn as_secs(self) -> (r: u64)
        ensures
            r == self.len(),
    {
        match self {
            TimestampPeriod::Day => SECONDS_PER_DAY,
            TimestampPeriod::Week => SECONDS_PER_WEEK,
        }
    }
}

/// The partition that holds `t` is aligned, holds `t`, and is one period wide.
pub proof fn lemma_start_of(p: TimestampPeriod, t: int)
    ensures
        p.aligned(p.start_of(t)),
        p.start_of(t) <= t < p.start_of(t) + p.len(),
{
    let len = p.len() as int;
    let x = t + p.offset();
    lemma_fundamental_div_mod(x, len);
    let q = x / len;
    assert(p.start_of(t) + p.offset() == q * len + 0) by (nonlinear_arith)
        requires
            x == len * q + x % len,
            p.start_of(t) == t - x % len,
            x == t + p.offset(),
    ;
    lemma_fundamental_div_mod_converse_mod(p.start_of(t) + p.offset(), len, q, 0);
    assert(0 <= x % len < len);
}

/// Two partition starts are equal or at least one period apart.
pub proof fn lemma_aligned_gap(p: TimestampPeriod, a: int, b: int)
    requires
        p.aligned(a),
        p.aligned(b),
        a < b,
    ensures
        a + p.len() <= b,
{
    let len = p.len() as int;
    lemma_fundamental_div_mod(a + p.offset(), len);
    lemma_fundamental_div_mod(b + p.offset(), len);
    let qa = (a + p.offset()) / len;
    let qb = (b + p.offset()) / len;
    assert(a + p.offset() == len * qa);
    assert(b + p.offset() == len * qb);
    assert(qa < qb) by (nonlinear_arith)
        requires
            a + p.offset() == len * qa,
            b + p.offset() == len * qb,
            a < b,
            len > 0,
    ;
    assert(len * qa + len <= len * qb) by (nonlinear_arith)
        requires
            qa < qb,
            len > 0,
    ;
}

/// A timestamp one second before the end of a partition stays in it; the
/// end itself starts the next partition.
pub proof fn law_period_boundary(p: TimestampPeriod, start: int)
    requires
        p.aligned(start),
    ensures
        p.start_of(start + p.len() - 1) == start,
        p.start_of(start + p.len()) == start + p.len(),
{
    let len = p.len() as int;
    lemma_start_of(p, start + len - 1);
    lemma_start_of(p, start + len);
    let a = p.start_of(start + len - 1);
    let b = p.start_of(start + len);
    if a < start {
        lemma_aligned_gap(p, a, start);
    } else if a > start {
        lemma_aligned_gap(p, start, a);
    }
    assert(p.aligned(start + len)) by {
        lemma_fundamental_div_mod(start + p.offset(), len);
        let q = (start + p.offset()) / len;
        assert(start + len + p.offset() == (q + 1) * len + 0) by (nonlinear_arith)
            requires
                start + p.offset() == len * q + 0,
        ;
        lemma_fundamental_div_mod_converse_mod(start + len + p.offset(), len, q + 1, 0);
    }
    if b < start + len {
        lemma_aligned_gap(p, b, start + len);
    } else if b > start + len {
        lemma_aligned_gap(p, start + len, b);
    }
}

/// The start of the partition that holds `t`; `None` where that partition
/// begins before the epoch or ends past `u64::MAX`.
pub fn get_start_timestamp(period: TimestampPeriod, t: u64) -> (r: Option<u64>)
    ensures
        r.is_some() == period.representable(t as int),
        r matches Some(s) ==> s == period.start_of(t as int),
{
    let len = period.as_secs();
    let off: u64 = match period {
        TimestampPeriod::Day => 0,
        TimestampPeriod::Week => WEEK_EPOCH_OFFSET,
    };
    let rem: u64 = (t % len + off) % len;
    proof {
        lemma_small_mod(off as nat, len as nat);
        lemma_add_mod_noop(t as int, off as int, len as int);
        assert(rem == (t as int + off as int) % (len as int));
    }
    if rem > t {
        return None;
    }
    let start = t - rem;
    if start > u64::MAX - len {
        return None;
    }
    Some(start)
}

pub open spec fn digit_char(d: nat) -> char {
    if d == 0 {
        '0'
    } else if d == 1 {
        '1'
    } else if d == 2 {
        '2'
    } else if d == 3 {
        '3'
    } else if d == 4 {
        '4'
    } else if d == 5 {
        '5'
    } else if d == 6 {
        '6'
    } else if d == 7 {
        '7'
    } else if d == 8 {
        '8'
    } else {
        '9'
    }
}

/// The decimal text of `n`, without leading zeros.
pub open spec fn dec_text(n: nat) -> Seq<char>
    decreases n,
{
    if n < 10 {
        seq![digit_char(n)]
    } else {
        dec_text(n / 10).push(digit_char(n % 10))
    }
}

fn digit_str(d: u64) -> (r: &'static str)
    requires
        d < 10,
    ensures
        r@ == seq![digit_char(d as nat)],
{
    proof {
        reveal_strlit("0");
        reveal_strlit("1");
        reveal_strlit("2");
        reveal_strlit("3");
        reveal_strlit("4");
        reveal_strlit("5");
        reveal_strlit("6");
        reveal_strlit("7");
        reveal_strlit("8");
        reveal_strlit("9");
    }
    let r = if d == 0 {
        "0"
    } else if d == 1 {
        "1"
    } else if d == 2 {
        "2"
    } else if d == 3 {
        "3"
    } else if d == 4 {
        "4"
    } else if d == 5 {
        "5"
    } else if d == 6 {
        "6"
    } else if d == 7 {
        "7"
    } else if d == 8 {
        "8"
    } else {
        "9"
    };
    assert(r@ =~= seq![digit_char(d as nat)]);
    r
}

/// `n` written in decimal.
pub fn decimal(n: u64) -> (r: String)
    ensures
        r@ == dec_text(n as nat),
    decreases n,
{
    if n < 10 {
        String::from_str(digit_str(n))
    } else {
        let mut s = decimal(n / 10);
        s.append(digit_str(n % 10));
        proof {
            assert(s@ =~= dec_text(n as nat));
        }
        s
    }
}

/// `<disk_path>/<root>/<vdisk_id>/`
pub open spec fn spec_normal_path(disk_path: Seq<char>, root: Seq<char>, vdisk_id: u32) -> Seq<char> {
    disk_path + seq!['/'] + root + seq!['/'] + dec_text(vdisk_id as nat) + seq!['/']
}

/// `<alien_folder><node_name>/<vdisk_id>/`
pub open spec fn spec_alien_path(alien_folder: Seq<char>, node_name: Seq<char>, vdisk_id: u32) -> Seq<char> {
    alien_folder + node_name + seq!['/'] + dec_text(vdisk_id as nat) + seq!['/']
}

/// `<group_path><start>/`
pub open spec fn spec_holder_path(group_path: Seq<char>, start: u64) -> Seq<char> {
    group_path + dec_text(start as nat) + seq!['/']
}

/// How the storage engine lays out its directories and partitions.
#[derive(Debug, Clone)]
pub struct Settings {
    /// Name of the directory under each disk that holds normal groups.
    pub root_dir_name: String,
    /// `<alien disk path>/<alien root>/`: where alien groups live.
    pub alien_folder: String,
    pub timestamp_period: TimestampPeriod,
}

impl Settings {
    /// Settings whose alien groups live under `<alien_disk_path>/<alien_root_dir_name>/`.
    pub fn new(
        root_dir_name: &String,
        alien_disk_path: &String,
        alien_root_dir_name: &String,
        timestamp_period: TimestampPeriod,
    ) -> (r: Settings)
        ensures
            r.root_dir_name@ == root_dir_name@,
            r.alien_folder@ == alien_disk_path@ + seq!['/'] + alien_root_dir_name@ + seq!['/'],
            r.timestamp_period == timestamp_period,
    {
        let mut alien_folder = alien_disk_path.clone();
        alien_folder.append("/");
        alien_folder.append(alien_root_dir_name.as_str());
        alien_folder.append("/");
        proof {
            reveal_strlit("/");
            assert(alien_folder@ =~= alien_disk_path@ + seq!['/'] + alien_root_dir_name@ + seq!['/']);
        }
        Settings { root_dir_name: root_dir_name.clone(), alien_folder, timestamp_period }
    }

    pub fn timestamp_period(&self) -> (r: TimestampPeriod)
        ensures
            r == self.timestamp_period,
    {
        self.timestamp_period
    }

    pub fn timestamp_period_as_secs(&self) -> (r: u64)
        ensures
            r == self.timestamp_period.len(),
    {
        self.timestamp_period.as_secs()
    }

    /// The start of the partition that holds `t` under these settings.
    pub fn get_actual_timestamp_start(&self, t: u64) -> (r: Option<u64>)
        ensures
            r.is_some() == self.timestamp_period.representable(t as int),
            r matches Some(s) ==> s == self.timestamp_period.start_of(t as int),
    {
        get_start_timestamp(self.timestamp_period, t)
    }

    /// Directory of the normal group of `vdisk_id` on the disk mounted at `disk_path`.
    pub fn normal_path(&self, disk_path: &String, vdisk_id: VDiskId) -> (r: String)
        ensures
            r@ == spec_normal_path(disk_path@, self.root_dir_name@, vdisk_id.id),
    {
        let mut p = disk_path.clone();
        p.append("/");
        p.append(self.root_dir_name.as_str());
        p.append("/");
        let id = decimal(vdisk_id.id as u64);
        p.append(id.as_str());
        p.append("/");
        proof {
            reveal_strlit("/");
            assert(p@ =~= spec_normal_path(disk_path@, self.root_dir_name@, vdisk_id.id));
        }
        p
    }

    /// Directory of the alien group that keeps `vdisk_id` for the node `node_name`.
    pub fn alien_path(&self, vdisk_id: VDiskId, node_name: &String) -> (r: String)
        ensures
            r@ == spec_alien_path(self.alien_folder@, node_name@, vdisk_id.id),
    {
        let mut p = self.alien_folder.clone();
        p.append(node_name.as_str());
        p.append("/");
        let id = decimal(vdisk_id.id as u64);
        p.append(id.as_str());
        p.append("/");
        proof {
            reveal_strlit("/");
            assert(p@ =~= spec_alien_path(self.alien_folder@, node_name@, vdisk_id.id));
        }
        p
    }
}

/// Directory of the partition starting at `start` inside the group directory.
pub fn holder_path(group_path: &String, start: u64) -> (r: String)
    ensures
        r@ == spec_holder_path(group_path@, start),
{
    let mut p = group_path.clone();
    let s = decimal(start);
    p.append(s.as_str());
    p.append("/");
    proof {
        reveal_strlit("/");
        assert(p@ =~= spec_holder_path(group_path@, start));
    }
    p
}

/// `i` holds a most recent record: none has a larger timestamp, and none after
/// it has the same.
pub open spec fn is_most_recent(records: Seq<BobData>, i: int) -> bool {
    &&& 0 <= i < records.len()
    &&& forall|j: int| 0 <= j < records.len() ==> records[j].meta.timestamp <= records[i].meta.timestamp
    &&& forall|j: int| i < j < records.len() ==> records[j].meta.timestamp < records[i].meta.timestamp
}

/// Index of the record with the largest timestamp (the last of equals).
pub fn most_recent_index(records: &Vec<BobData>) -> (r: Option<usize>)
    ensures
        r is None <==> records@.len() == 0,
        r matches Some(i) ==> is_most_recent(records@, i as int),
{
    if records.len() == 0 {
        return None;
    }
    let mut best: usize = 0;
    let mut i: usize = 1;
    while i < records.len()
        invariant
            0 < records@.len(),
            best < i <= records@.len(),
            forall|j: int| 0 <= j < i ==> records@[j].meta.timestamp <= records@[best as int].meta.timestamp,
            forall|j: int| best < j < i ==> records@[j].meta.timestamp < records@[best as int].meta.timestamp,
        decreases records@.len() - i,
    {
        if records[i].meta.timestamp >= records[best].meta.timestamp {
            best = i;
        }
        i = i + 1;
    }
    Some(best)
}

/// The record with the largest timestamp; of equals, the last.
pub fn choose_most_recent_data(records: Vec<BobData>) -> (r: Option<BobData>)
    ensures
        r is None <==> records@.len() == 0,
        r matches Some(d) ==> exists|i: int| is_most_recent(records@, i) && records@[i] == d,
{
    let mut records = records;
    match most_recent_index(&records) {
        Some(i) => {
            let ghost old_records = records@;
            let d = records.remove(i);
            assert(old_records[i as int] == d);
            Some(d)
        },
        None => None,
    }
}

} // verus!
