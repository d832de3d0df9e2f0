//! The samples that are kept, as a mathematical object.
use crate::sample::SampleModel;
use vstd::prelude::*;

verus! {

/// The samples that the dashboard has kept, oldest first, and the latest one.
pub struct Telemetry {
    pub history: Seq<SampleModel>,
    pub latest: Option<SampleModel>,
}

impl Telemetry {
    /// The telemetry before the first sample.
    pub open spec fn nothing() -> Telemetry {
        Telemetry { history: Seq::empty(), latest: None }
    }

    /// The telemetry after one more sample: it is kept, and the oldest one is
    /// given up where there are now more than `max`.
    pub open spec fn with(self, sample: SampleModel, max: nat) -> Telemetry {
        let longer = self.history.push(sample);
        Telemetry {
            history: if longer.len() > max {
                longer.drop_first()
            } else {
                longer
            },
            latest: Some(sample),
        }
    }

    /// The telemetry after some more samples, in their order.
    pub open spec fn with_all(self, samples: Seq<SampleModel>, max: nat) -> Telemetry
        decreases samples.len(),
    {
        if samples.len() == 0 {
            self
        } else {
            self.with_all(samples.drop_last(), max).with(samples.last(), max)
        }
    }

    /// No more than `max` samples are kept, and the latest is the last of them.
    pub open spec fn in_order(self, max: nat) -> bool {
        &&& max > 0
        &&& self.history.len() <= max
        &&& self.latest == (if self.history.len() > 0 {
            Some(self.history.last())
        } else {
            None
        })
    }
}

/// The last `max` items of a run, or all of it where it is shorter.
pub open spec fn newest<A>(items: Seq<A>, max: nat) -> Seq<A> {
    if items.len() > max {
        items.skip(items.len() - max)
    } else {
        items
    }
}

/// One more sample never makes the history longer than its limit, and the sample
/// becomes both the latest and the last.
pub proof fn order_is_kept(t: Telemetry, sample: SampleModel, max: nat)
    requires
        t.in_order(max),
    ensures
        t.with(sample, max).in_order(max),
        t.with(sample, max).history.len() > 0,
        t.with(sample, max).history.last() == sample,
{
}

/// One more sample comes behind those that are kept. Only the oldest is given up, and
/// only where as many as the limit allows are kept already.
pub proof fn only_the_oldest_is_given_up(t: Telemetry, sample: SampleModel, max: nat)
    requires
        max > 0,
        t.history.len() <= max,
    ensures
        t.history.len() < max ==> t.with(sample, max).history == t.history.push(sample),
        t.history.len() == max ==> t.with(sample, max).history == t.history.subrange(
            1,
            max as int,
        ).push(sample),
        t.with(sample, max).latest == Some(sample),
{
    if t.history.len() == max {
        assert(t.history.push(sample).drop_first() =~= t.history.subrange(1, max as int).push(
            sample,
        ));
    }
}

/// The newest items are the last ones, in their order: all of them where they are no
/// more than the limit, and else as many as the limit.
pub proof fn newest_are_the_last<A>(items: Seq<A>, max: nat)
    ensures
        items.len() <= max ==> newest(items, max) == items,
        items.len() >= max ==> newest(items, max).len() == max,
        forall|i: int|
            0 <= i < newest(items, max).len() ==> #[trigger] newest(items, max)[i]
                == items[items.len() - newest(items, max).len() + i],
{
}

/// However many samples come in, those kept are the newest ones, oldest first,
/// no more than the limit; the latest is the last that came.
pub proof fn newest_samples_are_kept(t: Telemetry, samples: Seq<SampleModel>, max: nat)
    requires
        t.in_order(max),
    ensures
        t.with_all(samples, max).in_order(max),
        t.with_all(samples, max).history == newest(t.history + samples, max),
        t.with_all(samples, max).latest == (if samples.len() > 0 {
            Some(samples.last())
        } else {
            t.latest
        }),
    decreases samples.len(),
{
    if samples.len() == 0 {
        assert(t.history + samples == t.history);
    } else {
        let rest = samples.drop_last();
        newest_samples_are_kept(t, rest, max);
        let before = t.with_all(rest, max);
        order_is_kept(before, samples.last(), max);
        assert(t.history + samples == (t.history + rest).push(samples.last()));
        let all = t.history + rest;
        let longer = newest(all, max).push(samples.last());
        if longer.len() > max {
            assert(longer.drop_first() == newest(all.push(samples.last()), max));
        } else {
            assert(longer == newest(all.push(samples.last()), max));
        }
    }
}

/// It makes no difference in how many batches samples are taken in.
pub proof fn batches_do_not_matter(
    t: Telemetry,
    first: Seq<SampleModel>,
    second: Seq<SampleModel>,
    max: nat,
)
    ensures
        t.with_all(first, max).with_all(second, max) == t.with_all(first + second, max),
    decreases second.len(),
{
    if second.len() == 0 {
        assert(first + second == first);
    } else {
        batches_do_not_matter(t, first, second.drop_last(), max);
        assert((first + second).drop_last() == first + second.drop_last());
    }
}

} // verus!
