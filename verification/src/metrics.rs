//! Typed metric events and the registry that accumulates them: counters and
//! timings as per-name sample lists, gauges as per-name levels, with every
//! overflow rejected rather than wrapped. Finalizing a registry yields an
//! immutable time frame of per-series statistics.

use crate::maps::NameMap;
use crate::stats::Statistics;
use crate::stats::sorted;
use crate::stats::sum_seq;
use vstd::prelude::*;

verus! {

/// The resolution a timing sample was reported in; storage normalizes every
/// sample to nanoseconds.
#[derive(Debug, Clone, PartialEq)]
pub enum TimerResolution {
    Seconds,
    MilliSeconds,
    MicroSeconds,
    NanoSeconds,
}

/// An operation on a gauge: overwrite the level, shift it by a signed delta,
/// or forget it.
#[derive(Debug, PartialEq)]
pub enum GaugeOperation {
    Assign(i64),
    Modify(i64),
    Remove,
}

/// The payload of a metric event.
#[derive(Debug, PartialEq)]
pub enum MetricKind {
    Counter(u64),
    Timing(u64, TimerResolution),
    Gauge(GaugeOperation),
}

/// A single metric event: a series name together with its payload.
#[derive(Debug, PartialEq)]
pub struct Metric {
    pub name: String,
    pub kind: MetricKind,
}

/// Mathematical image of a [`Metric`]: the name as a character sequence.
/// The kind needs no abstraction, it carries only integers.
pub struct MetricModel {
    pub name: Seq<char>,
    pub kind: MetricKind,
}

impl View for Metric {
    type V = MetricModel;

    open spec fn view(&self) -> MetricModel {
        MetricModel { name: self.name@, kind: self.kind }
    }
}

/// Nanoseconds per unit of the given resolution.
pub open spec fn ns_multiplier(resolution: TimerResolution) -> u64 {
    match resolution {
        TimerResolution::Seconds => 1_000_000_000,
        TimerResolution::MilliSeconds => 1_000_000,
        TimerResolution::MicroSeconds => 1_000,
        TimerResolution::NanoSeconds => 1,
    }
}

/// Executable counterpart of [`ns_multiplier`].
pub fn resolution_factor(resolution: &TimerResolution) -> (factor: u64)
    ensures
        factor == ns_multiplier(*resolution),
{
    match resolution {
        TimerResolution::Seconds => 1_000_000_000,
        TimerResolution::MilliSeconds => 1_000_000,
        TimerResolution::MicroSeconds => 1_000,
        TimerResolution::NanoSeconds => 1,
    }
}

/// Mathematical image of a [`Registry`]: three maps from names to the
/// accumulated samples or level.
pub struct RegistryModel {
    pub counters: Map<Seq<char>, Seq<u64>>,
    pub gauges: Map<Seq<char>, i64>,
    pub timings: Map<Seq<char>, Seq<u64>>,
}

/// What one event does to a registry: the registry afterwards, and whether
/// the event was accepted. A rejected event (a timing whose normalization
/// or a gauge shift whose new level overflows) leaves the registry as it was.
pub open spec fn spec_add(r: RegistryModel, m: MetricModel) -> (RegistryModel, bool) {
    match m.kind {
        MetricKind::Counter(value) => {
            let samples = if r.counters.contains_key(m.name) {
                r.counters[m.name]
            } else {
                Seq::empty()
            };
            (
                RegistryModel {
                    counters: r.counters.insert(m.name, samples.push(value)),
                    gauges: r.gauges,
                    timings: r.timings,
                },
                true,
            )
        },
        MetricKind::Timing(value, resolution) => {
            if value * ns_multiplier(resolution) > u64::MAX {
                (r, false)
            } else {
                let ns = (value * ns_multiplier(resolution)) as u64;
                let samples = if r.timings.contains_key(m.name) {
                    r.timings[m.name]
                } else {
                    Seq::empty()
                };
                (
                    RegistryModel {
                        counters: r.counters,
                        gauges: r.gauges,
                        timings: r.timings.insert(m.name, samples.push(ns)),
                    },
                    true,
                )
            }
        },
        MetricKind::Gauge(op) => match op {
            GaugeOperation::Assign(value) => (
                RegistryModel {
                    counters: r.counters,
                    gauges: r.gauges.insert(m.name, value),
                    timings: r.timings,
                },
                true,
            ),
            GaugeOperation::Modify(delta) => {
                let current = if r.gauges.contains_key(m.name) {
                    r.gauges[m.name] as int
                } else {
                    0
                };
                if current + delta > i64::MAX || current + delta < i64::MIN {
                    (r, false)
                } else {
                    (
                        RegistryModel {
                            counters: r.counters,
                            gauges: r.gauges.insert(m.name, (current + delta) as i64),
                            timings: r.timings,
                        },
                        true,
                    )
                }
            },
            GaugeOperation::Remove => (
                RegistryModel {
                    counters: r.counters,
                    gauges: r.gauges.remove(m.name),
                    timings: r.timings,
                },
                true,
            ),
        },
    }
}

/// The mutable accumulator for the current frame. Counter and timing
/// samples are kept per name in arrival order; gauges keep one level per
/// name. Consumed once by [`Registry::finalize`].
#[derive(Debug)]
pub struct Registry {
    counters: NameMap<Vec<u64>>,
    gauges: NameMap<i64>,
    timings: NameMap<Vec<u64>>,
}

impl View for Registry {
    type V = RegistryModel;

    closed spec fn view(&self) -> RegistryModel {
        RegistryModel {
            counters: self.counters@.map_values(|v: Vec<u64>| v@),
            gauges: self.gauges@,
            timings: self.timings@.map_values(|v: Vec<u64>| v@),
        }
    }
}

impl Registry {
    /// The tables are well formed and every stored sample list is
    /// non-empty: a name present in a map has been observed.
    pub closed spec fn wf(&self) -> bool {
        &&& self.counters.wf()
        &&& self.gauges.wf()
        &&& self.timings.wf()
        &&& forall|k: Seq<char>| #[trigger] self.counters@.contains_key(k)
            ==> self.counters@[k]@.len() > 0
        &&& forall|k: Seq<char>| #[trigger] self.timings@.contains_key(k)
            ==> self.timings@[k]@.len() > 0
    }

    /// Record one event. Returns `false` exactly when the event is
    /// rejected for overflow, in which case nothing changed.
    pub fn add(&mut self, metric: &Metric) -> (ok: bool)
        requires
            old(self).wf(),
        ensures
            final(self).wf(),
            final(self)@ == spec_add(old(self)@, metric@).0,
            ok == spec_add(old(self)@, metric@).1,
    {
        match &metric.kind {
            MetricKind::Counter(value) => {
                let mut list = match self.counters.take(metric.name.as_str()) {
                    Some(l) => l,
                    None => Vec::new(),
                };
                list.push(*value);
                self.counters.insert(metric.name.clone(), list);
                proof {
                    assert(self.counters@ =~= old(self).counters@.insert(metric.name@, list));
                    assert(self@.counters =~= spec_add(old(self)@, metric@).0.counters);
                    assert(self@ == spec_add(old(self)@, metric@).0);
                }
                true
            },
            MetricKind::Timing(value, resolution) => {
                let factor = resolution_factor(resolution);
                proof {
                    assert((*value as int) * (factor as int) <= u128::MAX) by (nonlinear_arith)
                        requires
                            0 <= (*value as int),
                            (*value as int) < 0x1_0000_0000_0000_0000,
                            0 <= (factor as int),
                            (factor as int) < 0x1_0000_0000_0000_0000,
                    ;
                }
                let wide: u128 = (*value as u128) * (factor as u128);
                if wide > u64::MAX as u128 {
                    false
                } else {
                    let ns: u64 = wide as u64;
                    let mut list = match self.timings.take(metric.name.as_str()) {
                        Some(l) => l,
                        None => Vec::new(),
                    };
                    list.push(ns);
                    self.timings.insert(metric.name.clone(), list);
                    proof {
                        assert(self.timings@ =~= old(self).timings@.insert(metric.name@, list));
                        assert(self@.timings =~= spec_add(old(self)@, metric@).0.timings);
                        assert(self@ == spec_add(old(self)@, metric@).0);
                    }
                    true
                }
            },
            MetricKind::Gauge(op) => match op {
                GaugeOperation::Assign(value) => {
                    self.gauges.insert(metric.name.clone(), *value);
                    proof {
                        assert(self@ == spec_add(old(self)@, metric@).0);
                    }
                    true
                },
                GaugeOperation::Modify(delta) => {
                    let current: i64 = match self.gauges.get(metric.name.as_str()) {
                        Some(v) => *v,
                        None => 0,
                    };
                    let wide: i128 = current as i128 + *delta as i128;
                    if wide > i64::MAX as i128 || wide < i64::MIN as i128 {
                        false
                    } else {
                        self.gauges.insert(metric.name.clone(), wide as i64);
                        proof {
                            assert(self@ == spec_add(old(self)@, metric@).0);
                        }
                        true
                    }
                },
                GaugeOperation::Remove => {
                    let removed = self.gauges.take(metric.name.as_str());
                    proof {
                        if removed is None {
                            assert(old(self).gauges@.remove(metric.name@) =~= old(self).gauges@);
                        }
                        assert(self@ == spec_add(old(self)@, metric@).0);
                    }
                    true
                },
            },
        }
    }

    /// A fresh registry for the next frame: counters and timings start
    /// empty, the gauge levels are carried over by value.
    pub fn new_with_gauges(&self) -> (r: Self)
        requires
            self.wf(),
        ensures
            r.wf(),
            r@.gauges == self@.gauges,
            r@.counters == Map::<Seq<char>, Seq<u64>>::empty(),
            r@.timings == Map::<Seq<char>, Seq<u64>>::empty(),
    {
        let r = Registry {
            counters: NameMap::new(),
            gauges: self.gauges.duplicate(),
            timings: NameMap::new(),
        };
        proof {
            assert(r@.counters =~= Map::<Seq<char>, Seq<u64>>::empty());
            assert(r@.timings =~= Map::<Seq<char>, Seq<u64>>::empty());
        }
        r
    }

    /// Seal the registry into a time frame: each counter and timing series
    /// becomes a statistics bucket, silently skipped when its sum
    /// overflows; gauge levels are carried verbatim.
    pub fn finalize(self) -> (r: Option<TimeFrame>)
        requires
            self.wf(),
        ensures
            match r {
                Some(tf) => {
                    &&& tf.wf()
                    &&& tf@.gauges == self@.gauges
                    &&& forall|n: Seq<char>| #[trigger] tf@.counters.contains_key(n)
                        <==> self@.counters.contains_key(n) && sum_seq(self@.counters[n])
                        <= u64::MAX
                    &&& forall|n: Seq<char>| #[trigger] tf@.counters.contains_key(n)
                        ==> tf@.counters[n].to_multiset() == self@.counters[n].to_multiset()
                        && sorted(tf@.counters[n])
                    &&& forall|n: Seq<char>| #[trigger] tf@.timings.contains_key(n)
                        <==> self@.timings.contains_key(n) && sum_seq(self@.timings[n])
                        <= u64::MAX
                    &&& forall|n: Seq<char>| #[trigger] tf@.timings.contains_key(n)
                        ==> tf@.timings[n].to_multiset() == self@.timings[n].to_multiset()
                        && sorted(tf@.timings[n])
                },
                None => false,
            },
    {
        let Registry { counters, gauges, timings } = self;
        let frame_counters = build_stats(counters);
        let frame_timings = build_stats(timings);
        Some(TimeFrame { counters: frame_counters, gauges, timings: frame_timings })
    }

    /// The accumulated counter samples, for inspection.
    pub fn counters(&self) -> (r: &NameMap<Vec<u64>>)
        requires
            self.wf(),
        ensures
            r.wf(),
            r@.map_values(|v: Vec<u64>| v@) == self@.counters,
    {
        &self.counters
    }

    /// The current gauge levels, for inspection.
    pub fn gauges(&self) -> (r: &NameMap<i64>)
        requires
            self.wf(),
        ensures
            r.wf(),
            r@ == self@.gauges,
    {
        &self.gauges
    }

    /// The accumulated timing samples, normalized to nanoseconds.
    pub fn timings(&self) -> (r: &NameMap<Vec<u64>>)
        requires
            self.wf(),
        ensures
            r.wf(),
            r@.map_values(|v: Vec<u64>| v@) == self@.timings,
    {
        &self.timings
    }
}

impl Default for Registry {
    /// An empty registry.
    fn default() -> (r: Self)
        ensures
            r.wf(),
            r@.counters == Map::<Seq<char>, Seq<u64>>::empty(),
            r@.gauges == Map::<Seq<char>, i64>::empty(),
            r@.timings == Map::<Seq<char>, Seq<u64>>::empty(),
    {
        let r = Registry { counters: NameMap::new(), gauges: NameMap::new(), timings: NameMap::new() };
        proof {
            assert(r@.counters =~= Map::<Seq<char>, Seq<u64>>::empty());
            assert(r@.timings =~= Map::<Seq<char>, Seq<u64>>::empty());
        }
        r
    }
}

/// The immutable snapshot a registry finalizes into.
#[derive(Debug)]
pub struct TimeFrame {
    pub counters: NameMap<Statistics>,
    pub gauges: NameMap<i64>,
    pub timings: NameMap<Statistics>,
}

/// Mathematical image of a [`TimeFrame`]: the statistics buckets stand as
/// their ascending sample lists.
pub struct TimeFrameModel {
    pub counters: Map<Seq<char>, Seq<u64>>,
    pub gauges: Map<Seq<char>, i64>,
    pub timings: Map<Seq<char>, Seq<u64>>,
}

impl View for TimeFrame {
    type V = TimeFrameModel;

    closed spec fn view(&self) -> TimeFrameModel {
        TimeFrameModel {
            counters: self.counters@.map_values(|s: Statistics| s@),
            gauges: self.gauges@,
            timings: self.timings@.map_values(|s: Statistics| s@),
        }
    }
}

impl TimeFrame {
    /// The tables are well formed and every bucket is a valid statistics
    /// value.
    pub closed spec fn wf(&self) -> bool {
        &&& self.counters.wf()
        &&& self.gauges.wf()
        &&& self.timings.wf()
        &&& forall|k: Seq<char>| #[trigger] self.counters@.contains_key(k)
            ==> self.counters@[k].wf()
        &&& forall|k: Seq<char>| #[trigger] self.timings@.contains_key(k)
            ==> self.timings@[k].wf()
    }
}

/// Applying a run of events in order; a rejected event leaves the
/// registry unchanged.
pub open spec fn spec_add_all(r: RegistryModel, ms: Seq<MetricModel>) -> RegistryModel
    decreases ms.len(),
{
    if ms.len() == 0 {
        r
    } else {
        spec_add(spec_add_all(r, ms.drop_last()), ms.last()).0
    }
}

/// An event that assigns a gauge level.
pub open spec fn gauge_assign(name: Seq<char>, v: i64) -> MetricModel {
    MetricModel { name, kind: MetricKind::Gauge(GaugeOperation::Assign(v)) }
}

/// An event that shifts a gauge level.
pub open spec fn gauge_modify(name: Seq<char>, d: i64) -> MetricModel {
    MetricModel { name, kind: MetricKind::Gauge(GaugeOperation::Modify(d)) }
}

/// An event that records a timing sample.
pub open spec fn timing_event(name: Seq<char>, v: u64, res: TimerResolution) -> MetricModel {
    MetricModel { name, kind: MetricKind::Timing(v, res) }
}

/// A run of assignments to one gauge.
pub open spec fn gauge_assign_run(name: Seq<char>, vs: Seq<i64>) -> Seq<MetricModel> {
    Seq::new(vs.len(), |i: int| gauge_assign(name, vs[i]))
}

/// The level a gauge shift starts from: the stored level, or zero for a
/// gauge never observed.
pub open spec fn gauge_level(r: RegistryModel, name: Seq<char>) -> int {
    if r.gauges.contains_key(name) {
        r.gauges[name] as int
    } else {
        0
    }
}

/// Law: after any run of assignments to one gauge, its level is the
/// argument of the last assignment, and nothing else has changed.
pub proof fn lemma_gauge_last_assign_wins(r: RegistryModel, name: Seq<char>, vs: Seq<i64>)
    requires
        vs.len() > 0,
    ensures
        ({
            let after = spec_add_all(r, gauge_assign_run(name, vs));
            &&& after.gauges == r.gauges.insert(name, vs.last())
            &&& after.counters == r.counters
            &&& after.timings == r.timings
        }),
    decreases vs.len(),
{
    let ms = gauge_assign_run(name, vs);
    if vs.len() == 1 {
        assert(ms.drop_last() =~= Seq::<MetricModel>::empty());
        assert(spec_add_all(r, Seq::<MetricModel>::empty()) == r);
        assert(ms.last() == gauge_assign(name, vs.last()));
        assert(spec_add_all(r, ms) == spec_add(r, gauge_assign(name, vs.last())).0);
    } else {
        let vs2 = vs.drop_last();
        let ms2 = gauge_assign_run(name, vs2);
        assert(ms.drop_last() =~= ms2);
        lemma_gauge_last_assign_wins(r, name, vs2);
        assert(ms.last() == gauge_assign(name, vs.last()));
        assert(r.gauges.insert(name, vs2.last()).insert(name, vs.last()) =~= r.gauges.insert(
            name,
            vs.last(),
        ));
    }
}

/// Law: two gauge shifts compose into the shift by their sum whenever
/// neither the intermediate level, the final level, nor the summed delta
/// overflows the signed 64-bit range. Both shifts are accepted.
pub proof fn lemma_gauge_modify_composes(r: RegistryModel, name: Seq<char>, a: i64, b: i64)
    requires
        i64::MIN <= gauge_level(r, name) + a <= i64::MAX,
        i64::MIN <= gauge_level(r, name) + a + b <= i64::MAX,
        i64::MIN <= a + b <= i64::MAX,
    ensures
        spec_add(spec_add(r, gauge_modify(name, a)).0, gauge_modify(name, b)).0 == spec_add(
            r,
            gauge_modify(name, ((a + b) as i64)),
        ).0,
        spec_add(r, gauge_modify(name, a)).1,
        spec_add(spec_add(r, gauge_modify(name, a)).0, gauge_modify(name, b)).1,
{
    let r1 = spec_add(r, gauge_modify(name, a)).0;
    assert(r1.gauges == r.gauges.insert(name, (gauge_level(r, name) + a) as i64));
    assert(gauge_level(r1, name) == gauge_level(r, name) + a);
    let r2 = spec_add(r1, gauge_modify(name, b)).0;
    let r3 = spec_add(r, gauge_modify(name, ((a + b) as i64))).0;
    assert(r2.gauges =~= r3.gauges);
}

/// Law: a timing sample in any resolution is stored exactly as the
/// equivalent nanosecond sample, whenever the normalization fits the
/// unsigned 64-bit range.
pub proof fn lemma_timing_normalization(
    r: RegistryModel,
    name: Seq<char>,
    v: u64,
    res: TimerResolution,
)
    requires
        v * ns_multiplier(res) <= u64::MAX,
    ensures
        spec_add(r, timing_event(name, v, res)) == spec_add(
            r,
            timing_event(name, (v * ns_multiplier(res)) as u64, TimerResolution::NanoSeconds),
        ),
{
    assert(ns_multiplier(TimerResolution::NanoSeconds) == 1);
    let ns = v * ns_multiplier(res);
    assert((ns as u64) as int == ns);
    assert(((ns as u64) as int) * 1 == ns);
}

/// Build the statistics table of a frame from accumulated sample lists,
/// omitting every series whose sum overflows.
fn build_stats(source: NameMap<Vec<u64>>) -> (r: NameMap<Statistics>)
    requires
        source.wf(),
        forall|k: Seq<char>| #[trigger] source@.contains_key(k) ==> source@[k]@.len() > 0,
    ensures
        r.wf(),
        forall|k: Seq<char>| #[trigger] r@.contains_key(k) <==> source@.contains_key(k)
            && sum_seq(source@[k]@) <= u64::MAX,
        forall|k: Seq<char>| #[trigger] r@.contains_key(k) ==> r@[k].wf()
            && r@[k]@.to_multiset() == source@[k]@.to_multiset() && sorted(r@[k]@),
{
    let ghost source_map = source@;
    let (mut keys, mut vals) = source.into_parts();
    let ghost okeys = keys@;
    let ghost ovals = vals@;
    let n = keys.len();
    let mut out: NameMap<Statistics> = NameMap::new();
    let mut j: usize = n;
    proof {
        assert(okeys.take(n as int) =~= okeys);
        assert(ovals.take(n as int) =~= ovals);
        assert forall|i: int| 0 <= i < n implies #[trigger] ovals[i]@.len() > 0 by {
            assert(source_map.contains_key(okeys[i]@));
            assert(source_map[okeys[i]@] == ovals[i]);
        }
    }
    while j > 0
        invariant
            j <= n,
            n == okeys.len(),
            n == ovals.len(),
            keys@ == okeys.take(j as int),
            vals@ == ovals.take(j as int),
            forall|p: int, q: int| 0 <= p < q < n ==> okeys[p]@ != okeys[q]@,
            forall|i: int| 0 <= i < n ==> source_map.contains_key(#[trigger] okeys[i]@)
                && source_map[okeys[i]@] == ovals[i],
            forall|i: int| 0 <= i < n ==> ovals[i]@.len() > 0,
            out.wf(),
            forall|i: int| j <= i < n && sum_seq(#[trigger] ovals[i]@) <= u64::MAX
                ==> out@.contains_key(okeys[i]@) && out@[okeys[i]@].wf()
                && out@[okeys[i]@]@.to_multiset() == ovals[i]@.to_multiset()
                && sorted(out@[okeys[i]@]@),
            forall|k: Seq<char>| #[trigger] out@.contains_key(k) ==> exists|i: int|
                j <= i < n && okeys[i]@ == k && sum_seq(ovals[i]@) <= u64::MAX,
        decreases j,
    {
        j -= 1;
        let name = match keys.pop() {
            Some(s) => s,
            None => {
                proof {
                    assert(false);
                }
                String::new()
            },
        };
        let list = match vals.pop() {
            Some(l) => l,
            None => {
                proof {
                    assert(false);
                }
                Vec::new()
            },
        };
        proof {
            assert(okeys.take(j + 1).last() == okeys[j as int]);
            assert(okeys.take(j + 1).drop_last() =~= okeys.take(j as int));
            assert(ovals.take(j + 1).last() == ovals[j as int]);
            assert(ovals.take(j + 1).drop_last() =~= ovals.take(j as int));
        }
        match Statistics::new(list) {
            Ok(stats) => {
                out.insert(name, stats);
            },
            Err(_) => {},
        }
    }
    proof {
        assert forall|k: Seq<char>| source_map.contains_key(k) && sum_seq(source_map[k]@)
            <= u64::MAX implies out@.contains_key(k) by {
            let i = choose|i: int| 0 <= i < n && okeys[i]@ == k;
        }
    }
    out
}

} // verus!
