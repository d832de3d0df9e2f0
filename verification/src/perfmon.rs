//! The dashboard's state: which screen it shows, and the telemetry behind it.
use crate::accuracy::{apart, filling_is_the_share, lemma_finite, lemma_infinity};
use crate::arithmetic::{DOUBLE_INFINITY, SINGLE_INFINITY};
use crate::bounds::{
    filling_lies_between_none_and_all, fillings_keep_order, rounded_result_is_a_number,
};
use crate::channel::Inbox;
use crate::cpu::{logical_core_count, SystemProcessorPerformanceInformation};
use crate::formulas::{gigabytes, to_gigabytes};
use crate::number::{
    double_one, lemma_magnitude_zero, magnitude_value, single_one, Double, Single,
};
use crate::rounding::{lemma_nearest_is_bounded, lemma_pattern_value, rounding_keeps_numbers};
use crate::sample::{MetricSample, SampleModel};
use crate::telemetry::{
    batches_do_not_matter, newest, newest_samples_are_kept, order_is_kept, Telemetry,
};
use crate::theme::ThemeMode;
use crossbeam_channel::Sender;
use std::collections::VecDeque;
use vstd::arithmetic::power2::{
    lemma2_to64, lemma2_to64_rest, lemma_pow2_adds, lemma_pow2_pos, pow2,
};
use vstd::prelude::*;

verus! {

/// The screen that is shown.
#[derive(Clone, Copy, PartialEq, Eq, Structural, Debug)]
pub enum ViewMode {
    Splash,
    Dashboard,
}

/// The tab of the dashboard that is shown.
#[derive(Clone, Copy, PartialEq, Eq, Structural, Debug)]
pub enum DashboardTab {
    Tiles,
    TabularGrid,
}

/// What does not change while the program runs.
#[derive(Debug)]
pub struct SystemStaticInfo {
    pub hostname: String,
    pub os_name: String,
    pub cpu_brand: String,
    pub cpu_physical_cores: usize,
    pub cpu_logical_cores: usize,
    pub total_ram_gb: Single,
}

impl Clone for SystemStaticInfo {
    fn clone(&self) -> (r: Self)
        ensures
            r == *self,
    {
        SystemStaticInfo {
            hostname: self.hostname.clone(),
            os_name: self.os_name.clone(),
            cpu_brand: self.cpu_brand.clone(),
            cpu_physical_cores: self.cpu_physical_cores,
            cpu_logical_cores: self.cpu_logical_cores,
            total_ram_gb: self.total_ram_gb,
        }
    }
}

/// What the system says of itself at start-up.
#[derive(Debug)]
pub struct MachineFacts {
    pub host_name: Option<String>,
    pub long_os_version: Option<String>,
    /// The brand of the first processor in the system's list.
    pub cpu_brand: Option<String>,
    pub physical_core_count: Option<usize>,
    /// The number of processors in the system's list.
    pub listed_cpus: usize,
    pub processor_times: Vec<SystemProcessorPerformanceInformation>,
    /// The memory, in bytes.
    pub total_memory: u64,
}

/// The text, or a default where there is none.
pub open spec fn text_or(text: Option<String>, default: Seq<char>) -> Seq<char> {
    match text {
        Some(s) => s@,
        None => default,
    }
}

fn string_or(text: Option<String>, default: &str) -> (r: String)
    ensures
        r@ == text_or(text, default@),
{
    match text {
        Some(s) => s,
        None => default.to_owned(),
    }
}

/// Whether `info` is what the facts amount to.
pub open spec fn describes(info: SystemStaticInfo, facts: MachineFacts) -> bool {
    &&& info.hostname@ == text_or(facts.host_name, "Windows PC"@)
    &&& info.os_name@ == text_or(facts.long_os_version, "Windows 11"@)
    &&& info.cpu_brand@ == text_or(facts.cpu_brand, "AMD Ryzen / Intel Core Processor"@)
    &&& info.cpu_physical_cores == (match facts.physical_core_count {
        Some(n) => n,
        None => 8,
    })
    &&& info.cpu_logical_cores == (if facts.processor_times@.len() > 0 {
        facts.processor_times@.len()
    } else {
        facts.listed_cpus as nat
    })
    &&& info.total_ram_gb == gigabytes(facts.total_memory)
}

/// What is known of the machine, with a default for each fact that the system
/// does not give.
pub fn static_info(facts: MachineFacts) -> (r: SystemStaticInfo)
    ensures
        describes(r, facts),
        facts.host_name matches Some(name) ==> r.hostname@ == name@,
        facts.host_name is None ==> r.hostname@ == "Windows PC"@,
        facts.long_os_version matches Some(name) ==> r.os_name@ == name@,
        facts.long_os_version is None ==> r.os_name@ == "Windows 11"@,
        facts.cpu_brand matches Some(brand) ==> r.cpu_brand@ == brand@,
        facts.cpu_brand is None ==> r.cpu_brand@ == "AMD Ryzen / Intel Core Processor"@,
        facts.physical_core_count matches Some(n) ==> r.cpu_physical_cores == n,
        facts.physical_core_count is None ==> r.cpu_physical_cores == 8,
        facts.processor_times@.len() > 0 ==> r.cpu_logical_cores == facts.processor_times@.len(),
        facts.processor_times@.len() == 0 ==> r.cpu_logical_cores == facts.listed_cpus,
        r.total_ram_gb == gigabytes(facts.total_memory),
{
    let cpu_logical_cores = logical_core_count(&facts.processor_times, facts.listed_cpus);
    let cpu_physical_cores = match facts.physical_core_count {
        Some(n) => n,
        None => 8,
    };
    SystemStaticInfo {
        hostname: string_or(facts.host_name, "Windows PC"),
        os_name: string_or(facts.long_os_version, "Windows 11"),
        cpu_brand: string_or(facts.cpu_brand, "AMD Ryzen / Intel Core Processor"),
        cpu_physical_cores,
        cpu_logical_cores,
        total_ram_gb: to_gigabytes(facts.total_memory),
    }
}

/// The state of the dashboard.
pub struct PerfmonApp {
    pub view_mode: ViewMode,
    pub current_tab: DashboardTab,
    pub theme: ThemeMode,
    pub splash_duration_sec: Single,
    pub splash_elapsed_sec: Single,
    pub receiver: Inbox,
    pub latest_sample: Option<MetricSample>,
    pub history: VecDeque<MetricSample>,
    pub max_history_samples: usize,
    pub history_duration_sec: Double,
    pub static_info: SystemStaticInfo,
    pub refresh_rate_ms: u64,
}

impl PerfmonApp {
    /// The samples behind what is shown.
    pub open spec fn telemetry(self) -> Telemetry {
        Telemetry {
            history: self.history@.map_values(|s: MetricSample| s@),
            latest: match self.latest_sample {
                Some(s) => Some(s@),
                None => None,
            },
        }
    }

    /// No more samples are kept than the limit allows, and the latest is the last
    /// of them.
    pub open spec fn well_formed(self) -> bool {
        self.telemetry().in_order(self.max_history_samples as nat)
    }

    /// Whether the two differ in their telemetry, and in what came in, at most.
    pub open spec fn same_but_telemetry(self, other: PerfmonApp) -> bool {
        &&& self.view_mode == other.view_mode
        &&& self.splash_elapsed_sec == other.splash_elapsed_sec
        &&& self.same_settings(other)
    }

    /// Whether the two differ at most in what time and samples change.
    pub open spec fn same_settings(self, other: PerfmonApp) -> bool {
        &&& self.current_tab == other.current_tab
        &&& self.theme == other.theme
        &&& self.splash_duration_sec == other.splash_duration_sec
        &&& self.max_history_samples == other.max_history_samples
        &&& self.history_duration_sec == other.history_duration_sec
        &&& self.static_info == other.static_info
        &&& self.refresh_rate_ms == other.refresh_rate_ms
    }

    /// Whether this is the dashboard at start-up, on a machine with these facts.
    pub open spec fn starts(self, facts: MachineFacts) -> bool {
        &&& self.view_mode == ViewMode::Splash
        &&& self.current_tab == DashboardTab::Tiles
        &&& self.theme == ThemeMode::CleanLight
        &&& self.splash_duration_sec == Single::fraction(5, 2)
        &&& self.splash_elapsed_sec == Single::nought()
        &&& self.telemetry() == Telemetry::nothing()
        &&& self.receiver.taken().len() == 0
        &&& self.receiver.waiting().len() == 0
        &&& self.max_history_samples == 300
        &&& self.history_duration_sec == Double::of_int(60)
        &&& describes(self.static_info, facts)
        &&& self.refresh_rate_ms == 500
    }

    /// Whether the telemetry is what the samples taken out of the channel make of
    /// it: every one of them, in their order, and nothing else.
    pub open spec fn is_faithful(self) -> bool {
        &&& self.max_history_samples > 0
        &&& self.telemetry() == Telemetry::nothing().with_all(
            self.receiver.taken(),
            self.max_history_samples as nat,
        )
    }

    /// The samples that were taken out of the channel between this state and a
    /// later one.
    pub open spec fn news(self, after: PerfmonApp) -> Seq<SampleModel> {
        after.receiver.taken().skip(self.receiver.taken().len() as int)
    }

    /// Whether the channel was emptied between this state and the later one:
    /// what had come in is followed by what was sent meanwhile, everything that
    /// was taken out was taken in, in its order, and nothing waits any more. The
    /// last is not promised once 2^64 - 1 samples come in while one call empties
    /// the channel.
    pub open spec fn emptied_to(self, after: PerfmonApp) -> bool {
        &&& self.receiver.taken().is_prefix_of(after.receiver.taken())
        &&& self.receiver.arrived().is_prefix_of(after.receiver.arrived())
        &&& after.telemetry() == self.telemetry().with_all(
            self.news(after),
            self.max_history_samples as nat,
        )
        &&& after.receiver.waiting().len() == 0 || self.news(after).len() >= u64::MAX
        &&& forall|sender: Sender<MetricSample>| #[trigger]
            after.receiver.fed_by(sender) == self.receiver.fed_by(sender)
    }

    /// Whether a frame, `elapsed` seconds after the start, leads from this state to
    /// the next: the channel was emptied, and the screen is the one that the time
    /// asks for, or the dashboard where that was asked for by hand.
    pub open spec fn frames_to(self, elapsed: Single, next: PerfmonApp) -> bool {
        &&& self.emptied_to(next)
        &&& next.splash_duration_sec == self.splash_duration_sec
        &&& next.max_history_samples == self.max_history_samples
        &&& next.view_mode == ViewMode::Dashboard || next.view_mode == view_after(
            self.view_mode,
            elapsed,
            self.splash_duration_sec,
        )
    }

    /// The dashboard at start-up, and the end of the channel through which it
    /// gets its samples. It opens on the splash screen, for two and a half
    /// seconds; behind it wait the tiles, in the light theme. Up to 300 samples
    /// are kept, and the last minute of them is plotted.
    pub fn new(facts: MachineFacts) -> (r: (Self, Sender<MetricSample>))
        ensures
            r.0.starts(facts),
            r.0.view_mode == ViewMode::Splash,
            r.0.current_tab == DashboardTab::Tiles,
            r.0.theme == ThemeMode::CleanLight,
            2 * r.0.splash_duration_sec.value() == 5 * single_one(),
            r.0.splash_elapsed_sec == (Single { bits: 0 }),
            r.0.latest_sample is None,
            r.0.history@.len() == 0,
            r.0.max_history_samples == 300,
            r.0.history_duration_sec.value() == 60 * double_one(),
            r.0.refresh_rate_ms == 500,
            describes(r.0.static_info, facts),
            facts.host_name matches Some(name) ==> r.0.static_info.hostname@ == name@,
            facts.long_os_version matches Some(name) ==> r.0.static_info.os_name@ == name@,
            facts.cpu_brand matches Some(brand) ==> r.0.static_info.cpu_brand@ == brand@,
            facts.physical_core_count matches Some(n) ==> r.0.static_info.cpu_physical_cores == n,
            facts.processor_times@.len() > 0 ==> r.0.static_info.cpu_logical_cores
                == facts.processor_times@.len(),
            facts.processor_times@.len() == 0 ==> r.0.static_info.cpu_logical_cores
                == facts.listed_cpus,
            r.0.static_info.total_ram_gb == gigabytes(facts.total_memory),
            r.0.receiver.fed_by(r.1),
            r.0.well_formed(),
            r.0.is_faithful(),
    {
        let (sender, receiver) = Inbox::new();
        let app = PerfmonApp {
            view_mode: ViewMode::Splash,
            current_tab: DashboardTab::Tiles,
            theme: ThemeMode::CleanLight,
            splash_duration_sec: Single::ratio(5, 2),
            splash_elapsed_sec: Single::zero(),
            receiver,
            latest_sample: None,
            history: VecDeque::with_capacity(600),
            max_history_samples: 300,
            history_duration_sec: Double::from_u64(60),
            static_info: static_info(facts),
            refresh_rate_ms: 500,
        };
        proof {
            lemma_two_and_a_half();
            lemma_sixty();
        }
        assert(app.telemetry().history =~= Telemetry::nothing().history);
        (app, sender)
    }

    /// Takes in one sample.
    pub fn take_in(&mut self, sample: MetricSample)
        ensures
            final(self).telemetry() == old(self).telemetry().with(
                sample@,
                old(self).max_history_samples as nat,
            ),
            final(self).same_but_telemetry(*old(self)),
            final(self).receiver == old(self).receiver,
            final(self).view_mode == old(self).view_mode,
            final(self).splash_elapsed_sec == old(self).splash_elapsed_sec,
            final(self).current_tab == old(self).current_tab,
            final(self).theme == old(self).theme,
            final(self).splash_duration_sec == old(self).splash_duration_sec,
            final(self).max_history_samples == old(self).max_history_samples,
            final(self).history_duration_sec == old(self).history_duration_sec,
            final(self).static_info == old(self).static_info,
            final(self).refresh_rate_ms == old(self).refresh_rate_ms,
            final(self).latest_sample matches Some(s) && s@ == sample@,
            ({
                let before = old(self).history@.map_values(|s: MetricSample| s@);
                let after = final(self).history@.map_values(|s: MetricSample| s@);
                if before.len() < old(self).max_history_samples {
                    after == before.push(sample@)
                } else {
                    after == before.push(sample@).drop_first()
                }
            }),
            old(self).well_formed() ==> final(self).well_formed(),
    {
        let ghost before = self.history@;
        self.history.push_back(sample.clone());
        if self.history.len() > self.max_history_samples {
            self.history.pop_front();
        }
        self.latest_sample = Some(sample);
        proof {
            let limit = self.max_history_samples as nat;
            let model = |s: MetricSample| s@;
            let old_models = before.map_values(model);
            assert(self.history@.map_values(model) =~= (if before.len() + 1 > limit {
                old_models.push(sample@).drop_first()
            } else {
                old_models.push(sample@)
            }));
            if old(self).well_formed() {
                order_is_kept(old(self).telemetry(), sample@, limit);
            }
        }
    }

    /// Takes in the samples that have arrived, in the order of their arrival,
    /// until none is left.
    #[verifier::spinoff_prover]
    #[verifier::rlimit(60)]
    pub fn update_telemetry(&mut self)
        ensures
            old(self).emptied_to(*final(self)),
            final(self).same_but_telemetry(*old(self)),
            final(self).view_mode == old(self).view_mode,
            final(self).splash_elapsed_sec == old(self).splash_elapsed_sec,
            final(self).current_tab == old(self).current_tab,
            final(self).theme == old(self).theme,
            final(self).splash_duration_sec == old(self).splash_duration_sec,
            final(self).max_history_samples == old(self).max_history_samples,
            final(self).history_duration_sec == old(self).history_duration_sec,
            final(self).static_info == old(self).static_info,
            final(self).refresh_rate_ms == old(self).refresh_rate_ms,
            old(self).receiver.taken().is_prefix_of(final(self).receiver.taken()),
            old(self).receiver.arrived().is_prefix_of(final(self).receiver.arrived()),
            final(self).receiver.waiting().len() == 0 || final(self).receiver.taken().len()
                - old(self).receiver.taken().len() >= u64::MAX,
            final(self).telemetry() == old(self).telemetry().with_all(
                final(self).receiver.taken().skip(old(self).receiver.taken().len() as int),
                old(self).max_history_samples as nat,
            ),
            old(self).well_formed() ==> final(self).well_formed(),
            old(self).is_faithful() ==> final(self).is_faithful(),
    {
        let ghost max = self.max_history_samples as nat;
        // More rounds than any run of the program has; they bound the loop.
        let mut rounds: u64 = u64::MAX;
        proof {
            assert(old(self).news(*self) =~= Seq::empty());
            assert(self.receiver.taken().is_prefix_of(self.receiver.taken()));
            assert(self.receiver.arrived().is_prefix_of(self.receiver.arrived()));
        }
        while rounds > 0
            invariant_except_break
                old(self).news(*self).len() == u64::MAX - rounds,
            invariant
                max == old(self).max_history_samples,
                old(self).receiver.taken().is_prefix_of(self.receiver.taken()),
                old(self).receiver.arrived().is_prefix_of(self.receiver.arrived()),
                old(self).telemetry().with_all(old(self).news(*self), max) == self.telemetry(),
                self.same_but_telemetry(*old(self)),
                old(self).well_formed() ==> self.well_formed(),
                forall|sender: Sender<MetricSample>| #[trigger]
                    self.receiver.fed_by(sender) == old(self).receiver.fed_by(sender),
            ensures
                self.receiver.waiting().len() == 0 || old(self).news(*self).len() >= u64::MAX,
            decreases rounds,
        {
            let ghost before = *self;
            match self.receiver.take() {
                Some(sample) => {
                    self.take_in(sample);
                    proof {
                        let news = old(self).news(before);
                        assert(old(self).news(*self) =~= news.push(sample@));
                        assert(news.push(sample@).drop_last() =~= news);
                        assert(before.telemetry() == old(self).telemetry().with_all(news, max));
                        lemma_prefixes(
                            old(self).receiver.arrived(),
                            before.receiver.arrived(),
                            self.receiver.arrived(),
                        );
                    }
                },
                None => {
                    proof {
                        assert(self.telemetry() == before.telemetry());
                        assert(old(self).news(*self) =~= old(self).news(before));
                        lemma_prefixes(
                            old(self).receiver.arrived(),
                            before.receiver.arrived(),
                            self.receiver.arrived(),
                        );
                    }
                    break ;
                },
            }
            rounds = rounds - 1;
        }
        proof {
            if old(self).is_faithful() {
                let first = old(self).receiver.taken();
                let second = old(self).news(*self);
                batches_do_not_matter(Telemetry::nothing(), first, second, max);
                assert(self.receiver.taken() =~= first + second);
            }
        }
    }

    /// One frame, `elapsed` seconds after the start: takes in what has arrived,
    /// and goes on to the dashboard when the time of the splash screen is up.
    /// Gives the part of the progress bar to fill where the splash screen is to
    /// be drawn, and `None` where the dashboard is.
    pub fn update(&mut self, elapsed: Single) -> (progress: Option<Single>)
        ensures
            old(self).frames_to(elapsed, *final(self)),
            final(self).same_settings(*old(self)),
            final(self).current_tab == old(self).current_tab,
            final(self).theme == old(self).theme,
            final(self).splash_duration_sec == old(self).splash_duration_sec,
            final(self).max_history_samples == old(self).max_history_samples,
            final(self).history_duration_sec == old(self).history_duration_sec,
            final(self).static_info == old(self).static_info,
            final(self).refresh_rate_ms == old(self).refresh_rate_ms,
            final(self).telemetry() == old(self).telemetry().with_all(
                final(self).receiver.taken().skip(old(self).receiver.taken().len() as int),
                old(self).max_history_samples as nat,
            ),
            old(self).view_mode == ViewMode::Splash && elapsed.reaches(
                old(self).splash_duration_sec,
            ) ==> final(self).view_mode == ViewMode::Dashboard,
            old(self).view_mode == ViewMode::Splash && !elapsed.reaches(
                old(self).splash_duration_sec,
            ) ==> final(self).view_mode == ViewMode::Splash,
            old(self).view_mode == ViewMode::Splash ==> {
                &&& progress == Some(filled_after(elapsed, old(self).splash_duration_sec))
                &&& final(self).splash_elapsed_sec == elapsed
                &&& final(self).view_mode == view_after(
                    ViewMode::Splash,
                    elapsed,
                    old(self).splash_duration_sec,
                )
            },
            old(self).view_mode == ViewMode::Dashboard ==> {
                &&& progress is None
                &&& final(self).splash_elapsed_sec == old(self).splash_elapsed_sec
                &&& final(self).view_mode == ViewMode::Dashboard
            },
            old(self).well_formed() ==> final(self).well_formed(),
            old(self).is_faithful() ==> final(self).is_faithful(),
    {
        self.update_telemetry();
        match self.view_mode {
            ViewMode::Splash => {
                let progress = self.splash_frame(elapsed);
                Some(progress)
            },
            ViewMode::Dashboard => None,
        }
    }

    /// One frame of the splash screen, `elapsed` seconds after the start. Gives
    /// the part of the progress bar to fill, and goes on to the dashboard when
    /// the time is up.
    pub fn splash_frame(&mut self, elapsed: Single) -> (progress: Single)
        ensures
            progress == filled_after(elapsed, old(self).splash_duration_sec),
            elapsed.reaches(old(self).splash_duration_sec) ==> final(self).view_mode
                == ViewMode::Dashboard,
            !elapsed.reaches(old(self).splash_duration_sec) ==> final(self).view_mode == old(
                self,
            ).view_mode,
            *final(self) == (PerfmonApp {
                splash_elapsed_sec: elapsed,
                view_mode: view_after(
                    old(self).view_mode,
                    elapsed,
                    old(self).splash_duration_sec,
                ),
                ..*old(self)
            }),
            old(self).well_formed() ==> final(self).well_formed(),
    {
        self.splash_elapsed_sec = elapsed;
        if elapsed.has_reached(self.splash_duration_sec) {
            self.view_mode = ViewMode::Dashboard;
        }
        elapsed.over(self.splash_duration_sec).clamp(0, 1)
    }

    /// Goes on to the dashboard at once.
    pub fn launch_dashboard(&mut self)
        ensures
            *final(self) == (PerfmonApp { view_mode: ViewMode::Dashboard, ..*old(self) }),
            old(self).well_formed() ==> final(self).well_formed(),
    {
        self.view_mode = ViewMode::Dashboard;
    }

    /// Shows another tab.
    pub fn select_tab(&mut self, tab: DashboardTab)
        ensures
            *final(self) == (PerfmonApp { current_tab: tab, ..*old(self) }),
            old(self).well_formed() ==> final(self).well_formed(),
    {
        self.current_tab = tab;
    }

    /// Changes the theme.
    pub fn select_theme(&mut self, theme: ThemeMode)
        ensures
            *final(self) == (PerfmonApp { theme, ..*old(self) }),
            old(self).well_formed() ==> final(self).well_formed(),
    {
        self.theme = theme;
    }

    /// The milliseconds after which the screen that is shown is drawn again.
    pub fn repaint_after_ms(&self) -> (r: u64)
        ensures
            r == (match self.view_mode {
                ViewMode::Splash => 30,
                ViewMode::Dashboard => self.refresh_rate_ms,
            }),
    {
        match self.view_mode {
            ViewMode::Splash => 30,
            ViewMode::Dashboard => self.refresh_rate_ms,
        }
    }
}

proof fn lemma_prefixes(a: Seq<SampleModel>, b: Seq<SampleModel>, c: Seq<SampleModel>)
    requires
        a.is_prefix_of(b),
        b.is_prefix_of(c),
    ensures
        a.is_prefix_of(c),
{
    assert(a =~= c.subrange(0, a.len() as int));
}

/// The screen to show once `elapsed` seconds have passed.
pub open spec fn view_after(view: ViewMode, elapsed: Single, duration: Single) -> ViewMode {
    if elapsed.reaches(duration) {
        ViewMode::Dashboard
    } else {
        view
    }
}

/// The part of the progress bar to fill once `elapsed` seconds have passed.
pub open spec fn filled_after(elapsed: Single, duration: Single) -> Single {
    elapsed.quotient(duration).clamped(0, 1)
}

/// Time never brings the splash screen back: once the dashboard is shown, it is
/// shown at every later moment.
pub proof fn dashboard_stays(view: ViewMode, sooner: Single, later: Single, duration: Single)
    requires
        view_after(view, sooner, duration) == ViewMode::Dashboard,
        later.reaches(sooner),
    ensures
        view_after(view, later, duration) == ViewMode::Dashboard,
        view_after(
            view_after(view, sooner, duration),
            later,
            duration,
        ) == ViewMode::Dashboard,
{
}

/// The splash screen ends by itself: at its full time the dashboard is shown,
/// and not before.
pub proof fn splash_lasts_its_time(elapsed: Single, duration: Single)
    requires
        !elapsed.nan(),
        !duration.nan(),
    ensures
        view_after(ViewMode::Splash, elapsed, duration) == ViewMode::Splash <==> elapsed.value()
            < duration.value(),
{
}

/// The progress bar stays between empty and full, and is full by the time that
/// the splash screen ends.
pub proof fn progress_ends_full(elapsed: Single, duration: Single)
    requires
        !elapsed.nan(),
        !duration.nan(),
        duration.value() > 0,
        duration.infinite() ==> elapsed.finite(),
    ensures
        filled_after(elapsed, duration).within(0, 1),
        view_after(ViewMode::Splash, elapsed, duration) == ViewMode::Dashboard ==> filled_after(
            elapsed,
            duration,
        ).value() == single_one(),
{
    if duration.infinite() {
        lemma_no_progress(elapsed, duration);
    } else {
        filling_lies_between_none_and_all(elapsed, duration);
    }
}

/// Over an infinite time nothing is ever filled.
proof fn lemma_no_progress(elapsed: Single, duration: Single)
    requires
        elapsed.finite(),
        duration.infinite(),
        duration.value() > 0,
    ensures
        filled_after(elapsed, duration).within(0, 1),
        filled_after(elapsed, duration).value() == 0,
        !elapsed.reaches(duration),
{
    lemma_pow2_pos(149);
    lemma_pow2_pos(277);
    lemma_magnitude_zero(23);
    lemma_infinity();
    lemma_finite(elapsed);
    assert(duration.value() == pow2(277));
    assert(elapsed.quotient(duration).unsigned() == 0);
    assert(elapsed.quotient(duration).value() == 0);
    assert(0 * single_one() == 0 && 1int * single_one() == single_one()) by (nonlinear_arith);
}

/// The filled part of the progress bar, times the whole time, is the time that has
/// passed, but for rounding; it is nothing before the start, and all of it from the end
/// on.
pub proof fn progress_is_the_time_passed(elapsed: Single, duration: Single)
    requires
        elapsed.finite(),
        duration.finite(),
        duration.value() > 0,
    ensures
        ({
            let filled = filled_after(elapsed, duration).value();
            let exact = elapsed.value() * single_one();
            &&& 0 <= elapsed.value() <= duration.value() ==> 0x80_0000 * apart(
                filled * duration.value(),
                exact,
            ) <= exact + 0x80_0000 * duration.value()
            &&& elapsed.value() <= 0 ==> filled == 0
            &&& elapsed.value() >= duration.value() ==> filled == single_one()
        }),
{
    filling_is_the_share(elapsed, duration);
}

/// Two and a half, as a number.
proof fn lemma_two_and_a_half()
    ensures
        2 * Single::fraction(5, 2).value() == 5 * single_one(),
{
    let q: nat = 127 * 0x80_0000 + 0xa0_0000;
    let one = single_one() as nat;
    lemma2_to64();
    lemma_pow2_adds(22, 127);
    lemma_pattern_value(127, 0xa0_0000, 23);
    assert(5nat * one == 2 * magnitude_value(q, 23)) by {
        assert(one == 0x40_0000 * pow2(127));
    }
    rounding_keeps_numbers(2, 23, SINGLE_INFINITY as nat, q);
    rounded_result_is_a_number(false, 5nat * one, 2);
}

/// Sixty, as a number in double precision.
proof fn lemma_sixty()
    ensures
        Double::of_int(60).value() == 60 * double_one(),
{
    let q: nat = 1027 * 0x10_0000_0000_0000 + 0x1e_0000_0000_0000;
    let one = double_one() as nat;
    lemma2_to64();
    lemma2_to64_rest();
    lemma_pow2_adds(47, 1027);
    lemma_pattern_value(1027, 0x1e_0000_0000_0000, 52);
    assert(60nat * one == magnitude_value(q, 52)) by {
        assert(one == 0x8000_0000_0000 * pow2(1027));
    }
    rounding_keeps_numbers(1, 52, DOUBLE_INFINITY as nat, q);
    lemma_nearest_is_bounded(60nat * one, 1, 52, DOUBLE_INFINITY as nat);
}

/// The progress bar never moves back as time passes.
pub proof fn progress_never_moves_back(sooner: Single, later: Single, duration: Single)
    requires
        later.reaches(sooner),
        !duration.nan(),
        duration.value() > 0,
        duration.infinite() ==> sooner.finite() && later.finite(),
    ensures
        filled_after(sooner, duration).within(0, 1),
        filled_after(later, duration).within(0, 1),
        filled_after(later, duration).reaches(filled_after(sooner, duration)),
{
    if duration.infinite() {
        lemma_no_progress(sooner, duration);
        lemma_no_progress(later, duration);
    } else {
        filling_lies_between_none_and_all(sooner, duration);
        filling_lies_between_none_and_all(later, duration);
        fillings_keep_order(sooner, later, duration);
    }
}

/// Where nothing waits, and nothing is sent, emptying the channel changes nothing:
/// neither what is kept nor what was taken out.
pub proof fn empty_channel_changes_nothing(before: PerfmonApp, after: PerfmonApp)
    requires
        before.emptied_to(after),
        before.receiver.waiting().len() == 0,
        after.receiver.arrived() == before.receiver.arrived(),
    ensures
        after.telemetry() == before.telemetry(),
        after.receiver.taken() == before.receiver.taken(),
{
    let first = before.receiver.taken();
    assert(before.receiver.arrived().len() == first.len());
    assert(after.receiver.arrived().len() == after.receiver.taken().len()
        + after.receiver.waiting().len());
    assert(before.news(after).len() == 0);
    assert(after.receiver.taken() =~= first);
}

/// Emptying the channel twice is emptying it once, where nothing is sent in
/// between.
pub proof fn second_emptying_changes_nothing(
    before: PerfmonApp,
    between: PerfmonApp,
    after: PerfmonApp,
)
    requires
        before.emptied_to(between),
        before.news(between).len() < u64::MAX,
        between.emptied_to(after),
        after.receiver.arrived() == between.receiver.arrived(),
    ensures
        after.telemetry() == between.telemetry(),
{
    empty_channel_changes_nothing(between, after);
}

/// Emptying the channel takes in everything that was waiting: the samples that
/// had come in are the first of those taken out.
pub proof fn waiting_samples_are_taken_in(before: PerfmonApp, after: PerfmonApp)
    requires
        before.emptied_to(after),
        before.news(after).len() < u64::MAX,
    ensures
        before.receiver.arrived().is_prefix_of(after.receiver.taken()),
        before.receiver.waiting().is_prefix_of(before.news(after)),
{
    let first = before.receiver.taken();
    let waiting = before.receiver.waiting();
    let all = after.receiver.taken();
    assert(after.receiver.arrived() =~= all);
    assert forall|i: int| 0 <= i < waiting.len() implies waiting[i] == before.news(after)[i] by {
        assert(before.receiver.arrived()[first.len() + i] == waiting[i]);
        assert(before.receiver.arrived() == all.subrange(
            0,
            before.receiver.arrived().len() as int,
        ));
    }
    assert(waiting =~= before.news(after).subrange(0, waiting.len() as int));
}

/// What came in through the channel is what is shown: once nothing waits, the
/// history holds the newest samples that came in, in their order, and the latest
/// is the last of them.
pub proof fn arrived_samples_are_shown(app: PerfmonApp)
    requires
        app.is_faithful(),
        app.receiver.waiting().len() == 0,
    ensures
        app.telemetry().history == newest(
            app.receiver.arrived(),
            app.max_history_samples as nat,
        ),
        app.telemetry().latest == (if app.receiver.arrived().len() > 0 {
            Some(app.receiver.arrived().last())
        } else {
            None
        }),
{
    let taken = app.receiver.taken();
    let start = Telemetry::nothing();
    newest_samples_are_kept(start, taken, app.max_history_samples as nat);
    assert(app.receiver.arrived() =~= taken);
    assert(start.history + taken =~= taken);
}

/// Whatever is clicked while a frame is drawn, it leads to a state that the frame
/// may lead to.
pub proof fn clicks_stay_in_the_frame(
    before: PerfmonApp,
    elapsed: Single,
    after: PerfmonApp,
    tab: DashboardTab,
    theme: ThemeMode,
)
    requires
        before.frames_to(elapsed, after),
    ensures
        before.frames_to(elapsed, PerfmonApp { view_mode: ViewMode::Dashboard, ..after }),
        before.frames_to(elapsed, PerfmonApp { current_tab: tab, ..after }),
        before.frames_to(elapsed, PerfmonApp { theme, ..after }),
{
}

/// Whether the states follow each other frame by frame, from start-up on; frame
/// `i` is drawn `elapsed[i]` seconds after the start.
pub open spec fn is_run(
    states: Seq<PerfmonApp>,
    elapsed: Seq<Single>,
    facts: MachineFacts,
) -> bool {
    &&& states.len() == elapsed.len() + 1
    &&& states[0].starts(facts)
    &&& forall|i: int|
        0 <= i < elapsed.len() ==> (#[trigger] states[i]).frames_to(elapsed[i], states[i + 1])
}

proof fn lemma_run(states: Seq<PerfmonApp>, elapsed: Seq<Single>, facts: MachineFacts, i: int)
    requires
        is_run(states, elapsed, facts),
        0 <= i < states.len(),
    ensures
        states[i].max_history_samples == 300,
        states[i].splash_duration_sec == Single::fraction(5, 2),
        states[i].is_faithful(),
        states[i].well_formed(),
    decreases i,
{
    if i == 0 {
        assert(states[0].receiver.taken() =~= Seq::empty());
    } else {
        lemma_run(states, elapsed, facts, i - 1);
        let before = states[i - 1];
        let after = states[i];
        assert(before.frames_to(elapsed[i - 1], states[i - 1 + 1]));
        let first = before.receiver.taken();
        let second = before.news(after);
        batches_do_not_matter(Telemetry::nothing(), first, second, 300);
        assert(after.receiver.taken() =~= first + second);
        newest_samples_are_kept(Telemetry::nothing(), after.receiver.taken(), 300);
    }
}

/// Over any run of frames the dashboard is never left again once it is shown.
pub proof fn run_never_goes_back(
    states: Seq<PerfmonApp>,
    elapsed: Seq<Single>,
    facts: MachineFacts,
    i: int,
    j: int,
)
    requires
        is_run(states, elapsed, facts),
        0 <= i <= j < states.len(),
        states[i].view_mode == ViewMode::Dashboard,
    ensures
        states[j].view_mode == ViewMode::Dashboard,
    decreases j,
{
    if i < j {
        run_never_goes_back(states, elapsed, facts, i, j - 1);
        assert(states[j - 1].frames_to(elapsed[j - 1], states[j - 1 + 1]));
    }
}

/// Over any run of frames the dashboard is shown after every frame that is drawn
/// two and a half seconds after the start, or later.
pub proof fn run_reaches_the_dashboard(
    states: Seq<PerfmonApp>,
    elapsed: Seq<Single>,
    facts: MachineFacts,
    i: int,
)
    requires
        is_run(states, elapsed, facts),
        0 <= i < elapsed.len(),
        elapsed[i].reaches(Single::fraction(5, 2)),
    ensures
        states[i + 1].view_mode == ViewMode::Dashboard,
{
    lemma_run(states, elapsed, facts, i);
    assert(states[i].frames_to(elapsed[i], states[i + 1]));
}

/// Over any run of frames no more than 300 samples are kept, and they are the
/// newest of those taken out of the channel.
pub proof fn run_keeps_the_newest_samples(
    states: Seq<PerfmonApp>,
    elapsed: Seq<Single>,
    facts: MachineFacts,
    i: int,
)
    requires
        is_run(states, elapsed, facts),
        0 <= i < states.len(),
    ensures
        states[i].telemetry().history.len() <= 300,
        states[i].telemetry().history == newest(states[i].receiver.taken(), 300),
{
    lemma_run(states, elapsed, facts, i);
    let taken = states[i].receiver.taken();
    newest_samples_are_kept(Telemetry::nothing(), taken, 300);
    assert(Telemetry::nothing().history + taken =~= taken);
}

} // verus!
