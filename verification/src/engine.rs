//! The ingest-side flush decisions: events accumulate in the live
//! registry; an event rejected for overflow flushes the registry and the
//! run continues on a fresh one that inherits the gauge levels. The caller
//! hands each flushed registry to the publisher and runs the clock-driven
//! flush itself.

use crate::metrics::Metric;
use crate::metrics::MetricModel;
use crate::metrics::Registry;
use crate::metrics::RegistryModel;
use crate::metrics::spec_add;
use crate::protocol::views_of;
use vstd::prelude::*;

verus! {

/// The registry a flush leaves behind: no samples, the gauges kept.
pub open spec fn fresh_with_gauges(r: RegistryModel) -> RegistryModel {
    RegistryModel {
        counters: Map::empty(),
        gauges: r.gauges,
        timings: Map::empty(),
    }
}

/// What a run of events does to the live registry: the registries flushed
/// along the way, in order, and the live registry afterwards. An accepted
/// event accumulates; a rejected one is dropped, the untouched registry is
/// flushed, and the run continues on a fresh registry with the same gauges.
pub open spec fn spec_ingest(r: RegistryModel, ms: Seq<MetricModel>) -> (
    Seq<RegistryModel>,
    RegistryModel,
)
    decreases ms.len(),
{
    if ms.len() == 0 {
        (Seq::empty(), r)
    } else {
        let first = spec_add(r, ms.first());
        if first.1 {
            spec_ingest(first.0, ms.drop_first())
        } else {
            let rest = spec_ingest(fresh_with_gauges(r), ms.drop_first());
            (seq![r] + rest.0, rest.1)
        }
    }
}

/// The images of a sequence of registries.
pub open spec fn registry_views(rs: Seq<Registry>) -> Seq<RegistryModel> {
    Seq::new(rs.len(), |i: int| rs[i]@)
}

/// Feed a decoded payload into the live registry. The returned registries
/// are those rotated out by overflow, oldest first, each ready to be
/// finalized and published; the returned registry is the new live one.
pub fn ingest(registry: Registry, metrics: &Vec<Metric>) -> (r: (Vec<Registry>, Registry))
    requires
        registry.wf(),
    ensures
        r.1.wf(),
        forall|i: int| 0 <= i < r.0@.len() ==> (#[trigger] r.0@[i]).wf(),
        registry_views(r.0@) == spec_ingest(registry@, views_of(metrics@)).0,
        r.1@ == spec_ingest(registry@, views_of(metrics@)).1,
{
    let ghost initial = registry@;
    let ghost mviews = views_of(metrics@);
    let mut live = registry;
    let mut flushed: Vec<Registry> = Vec::new();
    let n = metrics.len();
    let mut i: usize = 0;
    proof {
        assert(mviews.skip(0) =~= mviews);
        assert(registry_views(flushed@) =~= Seq::<RegistryModel>::empty());
        assert(Seq::<RegistryModel>::empty() + spec_ingest(live@, mviews).0 =~= spec_ingest(
            live@,
            mviews,
        ).0);
    }
    while i < n
        invariant
            i <= n,
            n == metrics@.len(),
            mviews == views_of(metrics@),
            live.wf(),
            forall|j: int| 0 <= j < flushed@.len() ==> (#[trigger] flushed@[j]).wf(),
            spec_ingest(initial, mviews).0 == registry_views(flushed@) + spec_ingest(
                live@,
                mviews.skip(i as int),
            ).0,
            spec_ingest(initial, mviews).1 == spec_ingest(live@, mviews.skip(i as int)).1,
        decreases n - i,
    {
        let ghost suffix = mviews.skip(i as int);
        proof {
            assert(suffix.first() == mviews[i as int]);
            assert(suffix.drop_first() =~= mviews.skip(i + 1));
            assert(mviews[i as int] == metrics@[i as int]@);
        }
        let ok = live.add(&metrics[i]);
        if !ok {
            let next = live.new_with_gauges();
            proof {
                assert(next@ == fresh_with_gauges(live@)) by {
                    assert(next@.counters =~= Map::<Seq<char>, Seq<u64>>::empty());
                    assert(next@.timings =~= Map::<Seq<char>, Seq<u64>>::empty());
                }
            }
            let ghost prev_flushed = flushed@;
            flushed.push(live);
            proof {
                assert(registry_views(flushed@) =~= registry_views(prev_flushed).push(
                    flushed@.last()@,
                ));
                assert(registry_views(prev_flushed) + (seq![flushed@.last()@] + spec_ingest(
                    next@,
                    mviews.skip(i + 1),
                ).0) =~= registry_views(flushed@) + spec_ingest(next@, mviews.skip(i + 1)).0);
            }
            live = next;
        }
        i += 1;
    }
    proof {
        assert(mviews.skip(n as int) =~= Seq::<MetricModel>::empty());
        assert(registry_views(flushed@) + Seq::<RegistryModel>::empty() =~= registry_views(
            flushed@,
        ));
    }
    (flushed, live)
}

} // verus!
