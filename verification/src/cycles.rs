//! The worker over a whole run: one sample in each cycle, until nobody listens.
use crate::sample::SampleModel;
use crate::series::chronological;
use crate::worker::{
    next_step, no_sensor_reports, temperatures_keep_their_bands, temperatures_stay_warm, NextStep,
    Readings, TelemetryWorker,
};
use vstd::prelude::*;

verus! {

/// A cycle of the worker: what it reads, and whether the sample that it sends is
/// delivered.
pub struct Cycle {
    pub readings: Readings,
    pub delivered: bool,
}

/// What a worker does that is seen from outside.
pub enum WorkerAct {
    Send { sample: SampleModel },
    Sleep { ms: u64 },
    End,
}

/// What a worker does that has these samples to send: it sends one after the other,
/// and does after each what follows from its delivery.
pub open spec fn acts(samples: Seq<SampleModel>, delivered: Seq<bool>, interval_ms: u64) -> Seq<
    WorkerAct,
>
    decreases samples.len(),
{
    if samples.len() == 0 {
        Seq::empty()
    } else {
        let sent = WorkerAct::Send { sample: samples[0] };
        match next_step(delivered[0], interval_ms) {
            NextStep::Wait { ms } => seq![sent, WorkerAct::Sleep { ms }] + acts(
                samples.drop_first(),
                delivered.drop_first(),
                interval_ms,
            ),
            NextStep::Stop => seq![sent, WorkerAct::End],
        }
    }
}

/// The worker at the start of cycle `i`.
pub open spec fn worker_at(worker: TelemetryWorker, cycles: Seq<Cycle>, i: int) -> TelemetryWorker
    decreases i,
{
    if i <= 0 {
        worker
    } else {
        worker_at(worker, cycles, i - 1).after(cycles[i - 1].readings)
    }
}

/// The sample of cycle `i`.
pub open spec fn sample_at(worker: TelemetryWorker, cycles: Seq<Cycle>, i: int) -> SampleModel {
    worker_at(worker, cycles, i).sample_of(cycles[i].readings)
}

/// Whether each cycle, up to the given one, has a sample: nothing in it overflows.
pub open spec fn runs(worker: TelemetryWorker, cycles: Seq<Cycle>, last: int) -> bool {
    forall|i: int|
        0 <= i <= last && i < cycles.len() ==> #[trigger] worker_at(worker, cycles, i).can_take(
            cycles[i].readings,
        )
}

/// Whether `acts` holds, for cycle `i`, the sample and the pause behind it.
pub open spec fn holds_cycle(
    acts: Seq<WorkerAct>,
    i: int,
    sample: SampleModel,
    interval_ms: u64,
) -> bool {
    &&& acts[2 * i] == (WorkerAct::Send { sample })
    &&& acts[2 * i + 1] == (WorkerAct::Sleep { ms: interval_ms })
}

/// Whether a run holds so many full cycles, and, where there are more, one send that
/// fails, and the end.
pub open spec fn ends_at_first_failure(
    run: Seq<WorkerAct>,
    samples: Seq<SampleModel>,
    interval_ms: u64,
    delivered: int,
) -> bool {
    &&& forall|i: int|
        0 <= i < delivered ==> #[trigger] holds_cycle(run, i, samples[i], interval_ms)
    &&& if delivered < samples.len() {
        &&& run.len() == 2 * delivered + 2
        &&& run[2 * delivered] == (WorkerAct::Send { sample: samples[delivered] })
        &&& run[2 * delivered + 1] == WorkerAct::End
    } else {
        run.len() == 2 * delivered
    }
}

/// The samples of a run, in their order.
pub open spec fn samples_of(worker: TelemetryWorker, cycles: Seq<Cycle>) -> Seq<SampleModel> {
    Seq::new(cycles.len(), |i: int| sample_at(worker, cycles, i))
}

/// What a worker does in a run of cycles.
pub open spec fn acts_of(worker: TelemetryWorker, cycles: Seq<Cycle>, interval_ms: u64) -> Seq<
    WorkerAct,
> {
    acts(
        samples_of(worker, cycles),
        Seq::new(cycles.len(), |i: int| cycles[i].delivered),
        interval_ms,
    )
}

proof fn lemma_run(
    samples: Seq<SampleModel>,
    flags: Seq<bool>,
    interval_ms: u64,
    delivered: int,
)
    requires
        samples.len() == flags.len(),
        0 <= delivered <= flags.len(),
        forall|i: int| 0 <= i < delivered ==> #[trigger] flags[i],
        delivered < flags.len() ==> !flags[delivered],
    ensures
        ends_at_first_failure(
            acts(samples, flags, interval_ms),
            samples,
            interval_ms,
            delivered,
        ),
    decreases samples.len(),
{
    let run = acts(samples, flags, interval_ms);
    if delivered > 0 {
        let rest = samples.drop_first();
        let later = acts(rest, flags.drop_first(), interval_ms);
        assert(flags[0]);
        assert forall|i: int| 0 <= i < delivered - 1 implies #[trigger] flags.drop_first()[i] by {
            assert(flags.drop_first()[i] == flags[i + 1]);
        }
        lemma_run(rest, flags.drop_first(), interval_ms, delivered - 1);
        assert forall|i: int| 0 <= i < delivered implies #[trigger] holds_cycle(
            run,
            i,
            samples[i],
            interval_ms,
        ) by {
            if i > 0 {
                assert(holds_cycle(later, i - 1, rest[i - 1], interval_ms));
                assert(run[2 * i] == later[2 * (i - 1)]);
                assert(run[2 * i + 1] == later[2 * (i - 1) + 1]);
            }
        }
        if delivered < samples.len() {
            assert(run[2 * delivered] == later[2 * (delivered - 1)]);
            assert(run[2 * delivered + 1] == later[2 * (delivered - 1) + 1]);
        }
    }
}

/// A worker sends one sample in each cycle, and sleeps for the interval after each
/// one that is delivered. It ends at the first one that is not, without another
/// send, and it does not end before. `delivered` is the number of samples that are
/// delivered before that.
pub proof fn worker_runs_until_nobody_listens(
    worker: TelemetryWorker,
    cycles: Seq<Cycle>,
    interval_ms: u64,
    delivered: int,
)
    requires
        0 <= delivered <= cycles.len(),
        forall|i: int| 0 <= i < delivered ==> (#[trigger] cycles[i]).delivered,
        delivered < cycles.len() ==> !cycles[delivered].delivered,
        runs(worker, cycles, delivered),
    ensures
        ends_at_first_failure(
            acts_of(worker, cycles, interval_ms),
            samples_of(worker, cycles),
            interval_ms,
            delivered,
        ),
{
    let flags = Seq::new(cycles.len(), |i: int| cycles[i].delivered);
    assert forall|i: int| 0 <= i < delivered implies #[trigger] flags[i] by {
        assert(cycles[i].delivered);
    }
    lemma_run(samples_of(worker, cycles), flags, interval_ms, delivered);
}

/// The samples of a run bear the times at which they were made, so none is older
/// than the one before where the clock does not go back.
pub proof fn samples_follow_the_clock(worker: TelemetryWorker, cycles: Seq<Cycle>)
    requires
        forall|i: int, j: int|
            0 <= i < j < cycles.len() ==> (#[trigger] cycles[j]).readings.elapsed_sec.reaches(
                (#[trigger] cycles[i]).readings.elapsed_sec,
            ),
    ensures
        chronological(samples_of(worker, cycles)),
        forall|i: int|
            0 <= i < cycles.len() ==> (#[trigger] samples_of(worker, cycles)[i]).timestamp_sec
                == cycles[i].readings.elapsed_sec,
{
    let samples = samples_of(worker, cycles);
    assert forall|i: int, j: int| 0 <= i < j < samples.len() implies (
    #[trigger] samples[j]).timestamp_sec.reaches((#[trigger] samples[i]).timestamp_sec) by {
        assert(cycles[j].readings.elapsed_sec.reaches(cycles[i].readings.elapsed_sec));
    }
}

proof fn lemma_worker_stays_well_formed(worker: TelemetryWorker, cycles: Seq<Cycle>, i: int)
    requires
        worker.well_formed(),
        0 <= i <= cycles.len(),
    ensures
        worker_at(worker, cycles, i).well_formed(),
    decreases i,
{
    if i > 0 {
        lemma_worker_stays_well_formed(worker, cycles, i - 1);
        temperatures_stay_warm(worker_at(worker, cycles, i - 1), cycles[i - 1].readings);
    }
}

/// No temperature of a run is below zero, or no number.
pub proof fn run_stays_warm(worker: TelemetryWorker, cycles: Seq<Cycle>, i: int)
    requires
        worker.well_formed(),
        0 <= i < cycles.len(),
    ensures
        sample_at(worker, cycles, i).cpu_temp_c.reaches_whole(0),
        sample_at(worker, cycles, i).gpu_temp_c.reaches_whole(0),
{
    lemma_worker_stays_well_formed(worker, cycles, i);
    temperatures_stay_warm(worker_at(worker, cycles, i), cycles[i].readings);
}

proof fn lemma_worker_stays_in_band(worker: TelemetryWorker, cycles: Seq<Cycle>, i: int)
    requires
        worker.in_band(),
        forall|k: int|
            0 <= k < cycles.len() ==> no_sensor_reports((#[trigger] cycles[k]).readings.sensors@),
        0 <= i <= cycles.len(),
    ensures
        worker_at(worker, cycles, i).in_band(),
    decreases i,
{
    if i > 0 {
        lemma_worker_stays_in_band(worker, cycles, i - 1);
        assert(no_sensor_reports(cycles[i - 1].readings.sensors@));
        temperatures_keep_their_bands(worker_at(worker, cycles, i - 1), cycles[i - 1].readings);
    }
}

/// If no sensor ever reports, every sample of a run shows from 38 to 82 degrees for
/// the processor, and from 42 to 78 for the graphics card.
pub proof fn run_keeps_the_bands(worker: TelemetryWorker, cycles: Seq<Cycle>, i: int)
    requires
        worker.in_band(),
        forall|k: int|
            0 <= k < cycles.len() ==> no_sensor_reports((#[trigger] cycles[k]).readings.sensors@),
        0 <= i < cycles.len(),
    ensures
        sample_at(worker, cycles, i).cpu_temp_c.within(38, 82),
        sample_at(worker, cycles, i).gpu_temp_c.within(42, 78),
{
    lemma_worker_stays_in_band(worker, cycles, i);
    assert(no_sensor_reports(cycles[i].readings.sensors@));
    temperatures_keep_their_bands(worker_at(worker, cycles, i), cycles[i].readings);
}

} // verus!
