//! The curves of the plots: what was measured over the last minute.
use crate::accuracy::{apart, double_difference_is_near};
use crate::number::{lemma_magnitude_zero, Double, Single};
use crate::sample::{MetricSample, SampleModel};
use std::collections::VecDeque;
use vstd::arithmetic::power2::pow2;
use vstd::prelude::*;

verus! {

/// A figure that is plotted over time.
#[derive(Clone, Copy, PartialEq, Eq, Structural, Debug)]
pub enum Metric {
    CpuUsage,
    RamUsage,
    DiskRead,
    NetReceived,
    NetSent,
    GpuUsage,
    CpuTemperature,
    GpuTemperature,
}

impl Metric {
    /// The figure in a sample.
    pub open spec fn figure(self, sample: SampleModel) -> Single {
        match self {
            Metric::CpuUsage => sample.cpu_usage_pct,
            Metric::RamUsage => sample.ram_pct,
            Metric::DiskRead => sample.disk_read_kbps,
            Metric::NetReceived => sample.net_rx_kbps,
            Metric::NetSent => sample.net_tx_kbps,
            Metric::GpuUsage => sample.gpu_usage_pct,
            Metric::CpuTemperature => sample.cpu_temp_c,
            Metric::GpuTemperature => sample.gpu_temp_c,
        }
    }

    /// The figure in a sample.
    pub fn of(self, sample: &MetricSample) -> (r: Single)
        ensures
            r == self.figure(sample@),
            self == Metric::CpuUsage ==> r == sample.cpu_usage_pct,
            self == Metric::RamUsage ==> r == sample.ram_pct,
            self == Metric::DiskRead ==> r == sample.disk_read_kbps,
            self == Metric::NetReceived ==> r == sample.net_rx_kbps,
            self == Metric::NetSent ==> r == sample.net_tx_kbps,
            self == Metric::GpuUsage ==> r == sample.gpu_usage_pct,
            self == Metric::CpuTemperature ==> r == sample.cpu_temp_c,
            self == Metric::GpuTemperature ==> r == sample.gpu_temp_c,
    {
        match self {
            Metric::CpuUsage => sample.cpu_usage_pct,
            Metric::RamUsage => sample.ram_pct,
            Metric::DiskRead => sample.disk_read_kbps,
            Metric::NetReceived => sample.net_rx_kbps,
            Metric::NetSent => sample.net_tx_kbps,
            Metric::GpuUsage => sample.gpu_usage_pct,
            Metric::CpuTemperature => sample.cpu_temp_c,
            Metric::GpuTemperature => sample.gpu_temp_c,
        }
    }
}

/// A point of a curve: when, and how much.
#[derive(Clone, Copy, PartialEq, Eq, Structural, Debug)]
pub struct Point {
    pub timestamp_sec: Double,
    pub figure: Single,
}

/// The samples that are not older than `start`, in their order.
pub open spec fn since(history: Seq<SampleModel>, start: Double) -> Seq<SampleModel> {
    history.filter(|s: SampleModel| s.timestamp_sec.reaches(start))
}

/// The curve of a figure from `start` on.
pub open spec fn curve(history: Seq<SampleModel>, metric: Metric, start: Double) -> Seq<Point> {
    since(history, start).map_values(
        |s: SampleModel| Point { timestamp_sec: s.timestamp_sec, figure: metric.figure(s) },
    )
}

/// The curve of a figure from `start` on.
pub fn plot_points(history: &VecDeque<MetricSample>, metric: Metric, start: Double) -> (r: Vec<
    Point,
>)
    ensures
        r@ == curve(history@.map_values(|s: MetricSample| s@), metric, start),
{
    let ghost models = history@.map_values(|s: MetricSample| s@);
    let mut points: Vec<Point> = Vec::new();
    let mut i: usize = 0;
    proof {
        reveal(Seq::filter);
        assert(points@ == curve(models.take(0), metric, start));
    }
    while i < history.len()
        invariant
            i <= history@.len(),
            models == history@.map_values(|s: MetricSample| s@),
            points@ == curve(models.take(i as int), metric, start),
        decreases history@.len() - i,
    {
        let ghost before = points@;
        let sample = &history[i];
        if sample.timestamp_sec.has_reached(start) {
            points.push(Point { timestamp_sec: sample.timestamp_sec, figure: metric.of(sample) });
        }
        proof {
            reveal(Seq::filter);
            let next = models.take(i + 1);
            assert(next.drop_last() == models.take(i as int));
            assert(next.last() == sample@);
            assert(points@ =~= curve(next, metric, start));
        }
        i = i + 1;
    }
    assert(models.take(i as int) == models);
    points
}

/// The start of the time that is plotted: so long before its end, and no sooner
/// than the start of the program.
pub open spec fn plot_start(end: Double, duration: Double) -> Double {
    end.difference(duration).raised(Double::nought())
}

/// The start of the time that is plotted. Start and duration make up the end, but for
/// rounding: one part in 2^52 of the start, and the smallest number above zero. Where
/// that is before the start of the program, it is the start of the program.
pub fn window_start(end: Double, duration: Double) -> (r: Double)
    ensures
        r == plot_start(end, duration),
        !r.nan(),
        r.value() >= 0,
        !end.nan() && !end.infinite() && !duration.nan() && !duration.infinite() ==> {
            let length = end.value() - duration.value();
            &&& 0 <= length <= pow2(2098) ==> 0x10_0000_0000_0000 * apart(
                r.value() + duration.value(),
                end.value(),
            ) <= length + 0x10_0000_0000_0000
            &&& length <= 0 ==> r.value() == 0
        },
        end.nan() || duration.nan() ==> r.value() == 0,
{
    proof {
        window_is_as_long_as_the_duration(end, duration);
    }
    end.minus(duration).at_least(Double { bits: 0 })
}

/// The time that is plotted is as long as the duration asked for: start and duration
/// make up the end, but for rounding, which is one part in 2^52 of the start and the
/// smallest number above zero. Where the end is not that late, the start is zero.
pub proof fn window_is_as_long_as_the_duration(end: Double, duration: Double)
    ensures
        ({
            let start = plot_start(end, duration);
            let length = end.value() - duration.value();
            let finite = !end.nan() && !end.infinite() && !duration.nan() && !duration.infinite();
            &&& !start.nan()
            &&& start.value() >= 0
            &&& finite && 0 <= length <= pow2(2098) ==> 0x10_0000_0000_0000 * apart(
                start.value() + duration.value(),
                end.value(),
            ) <= length + 0x10_0000_0000_0000
            &&& finite && length <= 0 ==> start.value() == 0
            &&& end.nan() || duration.nan() ==> start.value() == 0
        }),
{
    lemma_magnitude_zero(52);
    if !end.nan() && !end.infinite() && !duration.nan() && !duration.infinite() {
        double_difference_is_near(end, duration);
    }
}

/// Whether no sample is older than the one before it.
pub open spec fn chronological(samples: Seq<SampleModel>) -> bool {
    forall|i: int, j: int|
        0 <= i < j < samples.len() ==> (#[trigger] samples[j]).timestamp_sec.reaches(
            (#[trigger] samples[i]).timestamp_sec,
        )
}

/// A curve grows at its end: one more sample adds the point of its time and its
/// figure where it is not older than the start, and nothing where it is. Before the
/// first sample there is none.
pub proof fn curve_grows_at_its_end(
    history: Seq<SampleModel>,
    sample: SampleModel,
    metric: Metric,
    start: Double,
)
    ensures
        curve(Seq::empty(), metric, start).len() == 0,
        curve(history.push(sample), metric, start) == (if !sample.timestamp_sec.nan()
            && !start.nan() && sample.timestamp_sec.value() >= start.value() {
            curve(history, metric, start).push(
                Point { timestamp_sec: sample.timestamp_sec, figure: metric.figure(sample) },
            )
        } else {
            curve(history, metric, start)
        }),
{
    reveal(Seq::filter);
    assert(history.push(sample).drop_last() =~= history);
}

/// Each figure is that of its own name.
pub proof fn figures_go_by_their_names(sample: SampleModel)
    ensures
        Metric::CpuUsage.figure(sample) == sample.cpu_usage_pct,
        Metric::RamUsage.figure(sample) == sample.ram_pct,
        Metric::DiskRead.figure(sample) == sample.disk_read_kbps,
        Metric::NetReceived.figure(sample) == sample.net_rx_kbps,
        Metric::NetSent.figure(sample) == sample.net_tx_kbps,
        Metric::GpuUsage.figure(sample) == sample.gpu_usage_pct,
        Metric::CpuTemperature.figure(sample) == sample.cpu_temp_c,
        Metric::GpuTemperature.figure(sample) == sample.gpu_temp_c,
{
}

/// A sample is on the curve exactly where it is in the history and not older
/// than the start.
pub proof fn curve_holds_the_window(history: Seq<SampleModel>, start: Double, sample: SampleModel)
    ensures
        since(history, start).contains(sample) <==> history.contains(sample)
            && sample.timestamp_sec.reaches(start),
    decreases history.len(),
{
    reveal(Seq::filter);
    if history.len() > 0 {
        let rest = history.drop_last();
        curve_holds_the_window(rest, start, sample);
        let kept = since(rest, start);
        if history.contains(sample) {
            let i = choose|i: int| 0 <= i < history.len() && history[i] == sample;
            if i < rest.len() {
                assert(rest[i] == sample);
            }
        }
        if rest.contains(sample) {
            let i = choose|i: int| 0 <= i < rest.len() && rest[i] == sample;
            assert(history[i] == sample);
        }
        let last = history.last();
        assert(history[history.len() - 1] == last);
        if last.timestamp_sec.reaches(start) {
            let all = kept.push(last);
            assert(all[kept.len() as int] == last);
            if kept.contains(sample) {
                let i = choose|i: int| 0 <= i < kept.len() && kept[i] == sample;
                assert(all[i] == sample);
            }
            if all.contains(sample) {
                let i = choose|i: int| 0 <= i < all.len() && all[i] == sample;
                if i < kept.len() {
                    assert(kept[i] == sample);
                }
            }
        }
    }
}

/// A curve runs forward in time where the history does.
pub proof fn curve_runs_forward(history: Seq<SampleModel>, start: Double)
    requires
        chronological(history),
    ensures
        chronological(since(history, start)),
    decreases history.len(),
{
    reveal(Seq::filter);
    if history.len() > 0 {
        let rest = history.drop_last();
        let last = history.last();
        assert forall|i: int, j: int| 0 <= i < j < rest.len() implies (
        #[trigger] rest[j]).timestamp_sec.reaches((#[trigger] rest[i]).timestamp_sec) by {
            assert(history[i] == rest[i] && history[j] == rest[j]);
        }
        curve_runs_forward(rest, start);
        let kept = since(rest, start);
        if last.timestamp_sec.reaches(start) {
            assert forall|i: int| 0 <= i < kept.len() implies last.timestamp_sec.reaches(
                (#[trigger] kept[i]).timestamp_sec,
            ) by {
                assert(kept.contains(kept[i]));
                curve_holds_the_window(rest, start, kept[i]);
                let k = choose|k: int| 0 <= k < rest.len() && rest[k] == kept[i];
                assert(history[k] == kept[i]);
                assert(history[history.len() - 1] == last);
            }
        }
    }
}

} // verus!
