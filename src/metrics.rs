use vstd::prelude::*;

use crate::settings::{dec_text, decimal};

verus! {

/// One measurement pushed to the metrics sink.
#[derive(Debug, Clone)]
pub struct MetricInner {
    pub key: String,
    pub value: u64,
    pub timestamp: u64,
}

/// A counter: the sum of the values seen since start.
#[derive(Debug, Clone)]
pub struct CounterEntry {
    pub key: String,
    pub sum: u64,
    pub timestamp: u64,
}

impl CounterEntry {
    pub fn new(key: String, timestamp: u64) -> (r: CounterEntry)
        ensures
            r.key@ == key@,
            r.sum == 0,
            r.timestamp == timestamp,
    {
        CounterEntry { key, sum: 0, timestamp }
    }
}

/// A gauge: the last value seen.
#[derive(Debug, Clone)]
pub struct GaugeEntry {
    pub key: String,
    pub value: u64,
    pub timestamp: u64,
}

impl GaugeEntry {
    pub fn new(key: String, value: u64, timestamp: u64) -> (r: GaugeEntry)
        ensures
            r.key@ == key@,
            r.value == value,
            r.timestamp == timestamp,
    {
        GaugeEntry { key, value, timestamp }
    }
}

/// A timer: the values seen since the last flush, and the mean sent then.
#[derive(Debug, Clone)]
pub struct TimeEntry {
    pub key: String,
    pub summary_time: u64,
    pub measurements_amount: u64,
    pub timestamp: u64,
    pub mean: Option<u64>,
}

impl TimeEntry {
    pub fn new(key: String, timestamp: u64) -> (r: TimeEntry)
        ensures
            r.key@ == key@,
            r.summary_time == 0,
            r.measurements_amount == 0,
            r.timestamp == timestamp,
            r.mean is None,
    {
        TimeEntry { key, summary_time: 0, measurements_amount: 0, timestamp, mean: None }
    }
}

/// `a + b`, or `u64::MAX` where that does not fit.
pub open spec fn sat_add(a: u64, b: u64) -> u64 {
    if a + b > u64::MAX {
        u64::MAX
    } else {
        (a + b) as u64
    }
}

fn saturating(a: u64, b: u64) -> (r: u64)
    ensures
        r == sat_add(a, b),
{
    if a > u64::MAX - b {
        u64::MAX
    } else {
        a + b
    }
}

/// Position of the first entry with the given key.
pub open spec fn first_key(keys: Seq<Seq<char>>, key: Seq<char>, i: int) -> bool {
    &&& 0 <= i < keys.len()
    &&& keys[i] == key
    &&& forall|j: int| 0 <= j < i ==> keys[j] != key
}

pub open spec fn counter_keys(s: Seq<CounterEntry>) -> Seq<Seq<char>> {
    s.map_values(|e: CounterEntry| e.key@)
}

pub open spec fn time_keys(s: Seq<TimeEntry>) -> Seq<Seq<char>> {
    s.map_values(|e: TimeEntry| e.key@)
}

pub open spec fn gauge_keys(s: Seq<GaugeEntry>) -> Seq<Seq<char>> {
    s.map_values(|e: GaugeEntry| e.key@)
}

/// Adds the value to the counter of its key, created where there is none.
pub fn process_counter(counters: &mut Vec<CounterEntry>, counter: MetricInner)
    ensures
        (exists|i: int|
            first_key(counter_keys(old(counters)@), counter.key@, i) && final(counters)@ == old(counters)@.update(
                i,
                CounterEntry {
                    sum: sat_add(old(counters)@[i].sum, counter.value),
                    timestamp: counter.timestamp,
                    ..old(counters)@[i]
                },
            )) || (forall|j: int|
                0 <= j < old(counters)@.len() ==> old(counters)@[j].key@ != counter.key@)
                && final(counters)@.len() == old(counters)@.len() + 1 && final(counters)@.subrange(
                0,
                old(counters)@.len() as int,
            ) == old(counters)@ && final(counters)@.last().key@ == counter.key@ && final(counters)@.last().sum
                == counter.value && final(counters)@.last().timestamp == counter.timestamp,
{
    let mut i: usize = 0;
    while i < counters.len()
        invariant
            i <= counters@.len(),
            counters@ == old(counters)@,
            forall|j: int| 0 <= j < i ==> counters@[j].key@ != counter.key@,
        decreases counters@.len() - i,
    {
        if counters[i].key == counter.key {
            let e = CounterEntry {
                key: counters[i].key.clone(),
                sum: saturating(counters[i].sum, counter.value),
                timestamp: counter.timestamp,
            };
            assert(first_key(counter_keys(old(counters)@), counter.key@, i as int));
            counters.set(i, e);
            return;
        }
        i = i + 1;
    }
    let MetricInner { key, value, timestamp } = counter;
    counters.push(CounterEntry { key, sum: value, timestamp });
    assert(counters@.subrange(0, old(counters)@.len() as int) =~= old(counters)@);
}

/// Sets the gauge of its key to the value, created where there is none.
pub fn process_gauge(gauges: &mut Vec<GaugeEntry>, gauge: MetricInner)
    ensures
        (exists|i: int|
            first_key(gauge_keys(old(gauges)@), gauge.key@, i) && final(gauges)@.len() == old(gauges)@.len()
                && final(gauges)@[i].value == gauge.value && final(gauges)@[i].timestamp == gauge.timestamp
                && final(gauges)@[i].key@ == gauge.key@ && (forall|j: int|
                0 <= j < old(gauges)@.len() && j != i ==> final(gauges)@[j] == old(gauges)@[j]))
            || (forall|j: int| 0 <= j < old(gauges)@.len() ==> old(gauges)@[j].key@ != gauge.key@)
                && final(gauges)@.len() == old(gauges)@.len() + 1 && final(gauges)@.subrange(
                0,
                old(gauges)@.len() as int,
            ) == old(gauges)@ && final(gauges)@.last().key@ == gauge.key@ && final(gauges)@.last().value
                == gauge.value && final(gauges)@.last().timestamp == gauge.timestamp,
{
    let mut i: usize = 0;
    while i < gauges.len()
        invariant
            i <= gauges@.len(),
            gauges@ == old(gauges)@,
            forall|j: int| 0 <= j < i ==> gauges@[j].key@ != gauge.key@,
        decreases gauges@.len() - i,
    {
        if gauges[i].key == gauge.key {
            let e = GaugeEntry { key: gauges[i].key.clone(), value: gauge.value, timestamp: gauge.timestamp };
            assert(first_key(gauge_keys(old(gauges)@), gauge.key@, i as int));
            gauges.set(i, e);
            return;
        }
        i = i + 1;
    }
    let MetricInner { key, value, timestamp } = gauge;
    gauges.push(GaugeEntry { key, value, timestamp });
    assert(gauges@.subrange(0, old(gauges)@.len() as int) =~= old(gauges)@);
}

/// Adds the measurement to the timer of its key, created where there is none.
pub fn process_time(times: &mut Vec<TimeEntry>, time: MetricInner)
    ensures
        (exists|i: int|
            first_key(time_keys(old(times)@), time.key@, i) && final(times)@ == old(times)@.update(
                i,
                TimeEntry {
                    summary_time: sat_add(old(times)@[i].summary_time, time.value),
                    measurements_amount: sat_add(old(times)@[i].measurements_amount, 1),
                    timestamp: time.timestamp,
                    ..old(times)@[i]
                },
            )) || (forall|j: int| 0 <= j < old(times)@.len() ==> old(times)@[j].key@ != time.key@)
                && final(times)@.len() == old(times)@.len() + 1 && final(times)@.subrange(
                0,
                old(times)@.len() as int,
            ) == old(times)@ && final(times)@.last().key@ == time.key@ && final(times)@.last().summary_time
                == time.value && final(times)@.last().measurements_amount == 1
                && final(times)@.last().timestamp == time.timestamp && final(times)@.last().mean is None,
{
    let mut i: usize = 0;
    while i < times.len()
        invariant
            i <= times@.len(),
            times@ == old(times)@,
            forall|j: int| 0 <= j < i ==> times@[j].key@ != time.key@,
        decreases times@.len() - i,
    {
        if times[i].key == time.key {
            let e = TimeEntry {
                key: times[i].key.clone(),
                summary_time: saturating(times[i].summary_time, time.value),
                measurements_amount: saturating(times[i].measurements_amount, 1),
                timestamp: time.timestamp,
                mean: times[i].mean,
            };
            assert(first_key(time_keys(old(times)@), time.key@, i as int));
            times.set(i, e);
            return;
        }
        i = i + 1;
    }
    let MetricInner { key, value, timestamp } = time;
    times.push(TimeEntry { key, summary_time: value, measurements_amount: 1, timestamp, mean: None });
    assert(times@.subrange(0, old(times)@.len() as int) =~= old(times)@);
}

/// The line protocol: `<key> <value> <timestamp>` and a newline.
pub open spec fn spec_line(key: Seq<char>, value: u64, timestamp: u64) -> Seq<char> {
    key + seq![' '] + dec_text(value as nat) + seq![' '] + dec_text(timestamp as nat) + seq!['\n']
}

pub fn metric_line(key: &String, value: u64, timestamp: u64) -> (r: String)
    ensures
        r@ == spec_line(key@, value, timestamp),
{
    let mut s = key.clone();
    s.append(" ");
    s.append(decimal(value).as_str());
    s.append(" ");
    s.append(decimal(timestamp).as_str());
    s.append("\n");
    proof {
        reveal_strlit(" ");
        reveal_strlit("\n");
        assert(s@ =~= spec_line(key@, value, timestamp));
    }
    s
}

/// The value a timer reports at a flush: the mean of the measurements since
/// the last flush, else the mean reported then.
pub open spec fn timer_report(e: TimeEntry) -> Option<u64> {
    if e.measurements_amount > 0 {
        Some((e.summary_time / e.measurements_amount) as u64)
    } else {
        e.mean
    }
}

/// The lines a flush sends for the timers: one per timer that has a value
/// to report, in order.
pub open spec fn timer_lines(s: Seq<TimeEntry>) -> Seq<Seq<char>>
    decreases s.len(),
{
    if s.len() == 0 {
        Seq::empty()
    } else {
        match timer_report(s.last()) {
            Some(v) => timer_lines(s.drop_last()).push(spec_line(s.last().key@, v, s.last().timestamp)),
            None => timer_lines(s.drop_last()),
        }
    }
}

/// The lines of a flush of the timers; each timer starts a new interval and
/// keeps the mean it reported.
pub fn flush_times(times: &mut Vec<TimeEntry>) -> (r: Vec<String>)
    ensures
        final(times)@.len() == old(times)@.len(),
        forall|i: int|
            0 <= i < old(times)@.len() ==> {
                let e = #[trigger] old(times)@[i];
                &&& final(times)@[i].key == e.key
                &&& final(times)@[i].measurements_amount == 0
                &&& final(times)@[i].summary_time == 0
                &&& final(times)@[i].timestamp == e.timestamp
                &&& final(times)@[i].mean == timer_report(e)
            },
        r@.map_values(|l: String| l@) == timer_lines(old(times)@),
{
    let mut lines: Vec<String> = Vec::new();
    let mut i: usize = 0;
    while i < times.len()
        invariant
            i <= times@.len(),
            times@.len() == old(times)@.len(),
            lines@.map_values(|l: String| l@) == timer_lines(old(times)@.subrange(0, i as int)),
            forall|j: int|
                0 <= j < i ==> {
                    let e = #[trigger] old(times)@[j];
                    &&& times@[j].key == e.key
                    &&& times@[j].measurements_amount == 0
                    &&& times@[j].summary_time == 0
                    &&& times@[j].timestamp == e.timestamp
                    &&& times@[j].mean == timer_report(e)
                },
            forall|j: int| i <= j < times@.len() ==> times@[j] == old(times)@[j],
        decreases times@.len() - i,
    {
        let e = &times[i];
        assert(old(times)@.subrange(0, i + 1).drop_last() =~= old(times)@.subrange(0, i as int));
        assert(*e == old(times)@[i as int]);
        let ghost before = lines@;
        let report = if e.measurements_amount > 0 {
            Some(e.summary_time / e.measurements_amount)
        } else {
            e.mean
        };
        if let Some(v) = report {
            lines.push(metric_line(&e.key, v, e.timestamp));
            assert(lines@.map_values(|l: String| l@) =~= before.map_values(|l: String| l@).push(
                spec_line(e.key@, v, e.timestamp),
            ));
        }
        let ne = TimeEntry {
            key: e.key.clone(),
            summary_time: 0,
            measurements_amount: 0,
            timestamp: e.timestamp,
            mean: report,
        };
        times.set(i, ne);
        i = i + 1;
    }
    assert(old(times)@.subrange(0, i as int) =~= old(times)@);
    lines
}

/// The lines of a flush of the counters, in order.
pub fn flush_counters(counters: &Vec<CounterEntry>) -> (r: Vec<String>)
    ensures
        r@.len() == counters@.len(),
        forall|i: int|
            0 <= i < counters@.len() ==> (#[trigger] r@[i])@ == spec_line(
                counters@[i].key@,
                counters@[i].sum,
                counters@[i].timestamp,
            ),
{
    let mut lines: Vec<String> = Vec::new();
    let mut i: usize = 0;
    while i < counters.len()
        invariant
            i <= counters@.len(),
            lines@.len() == i,
            forall|j: int|
                0 <= j < i ==> (#[trigger] lines@[j])@ == spec_line(
                    counters@[j].key@,
                    counters@[j].sum,
                    counters@[j].timestamp,
                ),
        decreases counters@.len() - i,
    {
        lines.push(metric_line(&counters[i].key, counters[i].sum, counters[i].timestamp));
        i = i + 1;
    }
    lines
}

/// The lines of a flush of the gauges, in order.
pub fn flush_gauges(gauges: &Vec<GaugeEntry>) -> (r: Vec<String>)
    ensures
        r@.len() == gauges@.len(),
        forall|i: int|
            0 <= i < gauges@.len() ==> (#[trigger] r@[i])@ == spec_line(
                gauges@[i].key@,
                gauges@[i].value,
                gauges@[i].timestamp,
            ),
{
    let mut lines: Vec<String> = Vec::new();
    let mut i: usize = 0;
    while i < gauges.len()
        invariant
            i <= gauges@.len(),
            lines@.len() == i,
            forall|j: int|
                0 <= j < i ==> (#[trigger] lines@[j])@ == spec_line(
                    gauges@[j].key@,
                    gauges@[j].value,
                    gauges@[j].timestamp,
                ),
        decreases gauges@.len() - i,
    {
        lines.push(metric_line(&gauges[i].key, gauges[i].value, gauges[i].timestamp));
        i = i + 1;
    }
    lines
}

/// Names the metrics of one peer client: `<prefix>.<name>`.
#[derive(Debug, Clone)]
pub struct MetricsContainer {
    pub duration_ms: u64,
    pub prefix: String,
}

impl MetricsContainer {
    pub fn new(duration_ms: u64, prefix: String) -> (r: MetricsContainer)
        ensures
            r.duration_ms == duration_ms,
            r.prefix@ == prefix@,
    {
        MetricsContainer { duration_ms, prefix }
    }

    /// The metric prefix of the client named `name`.
    pub fn get_metrics(&self, name: &String) -> (r: String)
        ensures
            r@ == self.prefix@ + seq!['.'] + name@,
    {
        let mut s = self.prefix.clone();
        s.append(".");
        s.append(name.as_str());
        proof {
            reveal_strlit(".");
            assert(s@ =~= self.prefix@ + seq!['.'] + name@);
        }
        s
    }
}

} // verus!
