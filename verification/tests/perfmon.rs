use perfmon_dash::caption::{Caption, Number};
use perfmon_dash::cpu::SystemProcessorPerformanceInformation;
use perfmon_dash::grid::column_titles;
use perfmon_dash::number::{Double, Single};
use perfmon_dash::perfmon::{
    static_info, DashboardTab, MachineFacts, PerfmonApp, SystemStaticInfo, ViewMode,
};
use perfmon_dash::sample::{DiskMetrics, MetricSample};
use perfmon_dash::screen::progress_caption;
use perfmon_dash::series::{plot_points, window_start, Metric, Point};
use perfmon_dash::theme::{initial_visuals, Ink, Role, ThemeMode};
use perfmon_dash::tiles::{bar_fraction, thermal_state};

fn single(x: f32) -> Single {
    Single { bits: x.to_bits() }
}

fn double(x: f64) -> Double {
    Double { bits: x.to_bits() }
}

fn text(caption: &Caption) -> String {
    let numbers: Vec<String> = caption
        .numbers()
        .iter()
        .map(|number| match *number {
            Number::Single(x, places) => format!("{:.*}", places, f32::from_bits(x.bits)),
            Number::Double(x, places) => format!("{:.*}", places, f64::from_bits(x.bits)),
        })
        .collect();
    caption.text(&numbers).unwrap()
}

fn facts() -> MachineFacts {
    MachineFacts {
        host_name: Some("box".to_string()),
        long_os_version: Some("Windows 10 Pro".to_string()),
        cpu_brand: Some("Ryzen".to_string()),
        physical_core_count: Some(6),
        listed_cpus: 12,
        processor_times: Vec::new(),
        total_memory: 34_252_482_150,
    }
}

fn no_facts() -> MachineFacts {
    MachineFacts {
        host_name: None,
        long_os_version: None,
        cpu_brand: None,
        physical_core_count: None,
        listed_cpus: 4,
        processor_times: vec![SystemProcessorPerformanceInformation::default(); 3],
        total_memory: 8 * 1024 * 1024 * 1024,
    }
}

fn sample(seconds: f64) -> MetricSample {
    MetricSample {
        timestamp_sec: double(seconds),
        cpu_usage_pct: single(12.34),
        cpu_cores_pct: vec![single(80.0), single(80.5)],
        ram_used_gb: single(4.0),
        ram_total_gb: single(16.0),
        ram_pct: single(25.0),
        swap_used_gb: single(1.0),
        swap_total_gb: single(2.0),
        disk_read_kbps: single(100.6),
        disk_write_kbps: single(50.2),
        disks: vec![DiskMetrics {
            name: "Samsung".to_string(),
            mount_point: "C:\\".to_string(),
            total_gb: single(200.0),
            used_gb: single(50.0),
            usage_pct: single(25.0),
        }],
        net_rx_kbps: single(7.25),
        net_tx_kbps: single(3.5),
        gpu_usage_pct: single(40.0),
        gpu_vram_used_gb: single(2.4),
        gpu_vram_total_gb: single(16.0),
        cpu_temp_c: single(55.5),
        gpu_temp_c: single(60.5),
    }
}

fn app() -> PerfmonApp {
    PerfmonApp::new(facts()).0
}

fn app_with(s: MetricSample) -> PerfmonApp {
    let mut app = app();
    app.take_in(s);
    app
}

fn seconds(app: &PerfmonApp) -> Vec<f64> {
    app.history.iter().map(|s| f64::from_bits(s.timestamp_sec.bits)).collect()
}

fn latest(app: &PerfmonApp) -> Option<f64> {
    app.latest_sample.as_ref().map(|s| f64::from_bits(s.timestamp_sec.bits))
}

#[test]
fn the_dashboard_opens_on_the_splash_screen() {
    let app = app();
    assert_eq!(app.view_mode, ViewMode::Splash);
    assert_eq!(app.current_tab, DashboardTab::Tiles);
    assert_eq!(app.theme, ThemeMode::CleanLight);
    assert_eq!(app.splash_duration_sec, single(2.5));
    assert_eq!(app.splash_elapsed_sec, single(0.0));
    assert!(app.latest_sample.is_none());
    assert!(app.history.is_empty());
    assert_eq!(app.max_history_samples, 300);
    assert_eq!(app.history_duration_sec, double(60.0));
    assert_eq!(app.refresh_rate_ms, 500);
}

#[test]
fn known_facts_describe_the_machine() {
    let info = static_info(facts());
    assert_eq!(info.hostname, "box");
    assert_eq!(info.os_name, "Windows 10 Pro");
    assert_eq!(info.cpu_brand, "Ryzen");
    assert_eq!(info.cpu_physical_cores, 6);
    assert_eq!(info.cpu_logical_cores, 12);
    assert_eq!(info.total_ram_gb, single(34_252_482_150u64 as f32 / 1_073_741_824.0));
}

#[test]
fn a_copy_describes_the_same_machine() {
    let info = static_info(facts());
    assert_eq!(format!("{:?}", info.clone()), format!("{:?}", info));
}

#[test]
fn unknown_facts_have_defaults() {
    let info: SystemStaticInfo = static_info(no_facts());
    assert_eq!(info.hostname, "Windows PC");
    assert_eq!(info.os_name, "Windows 11");
    assert_eq!(info.cpu_brand, "AMD Ryzen / Intel Core Processor");
    assert_eq!(info.cpu_physical_cores, 8);
    assert_eq!(info.cpu_logical_cores, 3);
    assert_eq!(info.total_ram_gb, single(8.0));
}

#[test]
fn samples_are_taken_in_as_they_arrive() {
    let (mut app, sender) = PerfmonApp::new(facts());
    app.update_telemetry();
    assert!(app.history.is_empty());
    for i in 0..3 {
        sender.send(sample(i as f64)).unwrap();
    }
    app.update_telemetry();
    assert_eq!(seconds(&app), vec![0.0, 1.0, 2.0]);
    assert_eq!(latest(&app), Some(2.0));
    sender.send(sample(3.0)).unwrap();
    drop(sender);
    app.update_telemetry();
    app.update_telemetry();
    assert_eq!(seconds(&app), vec![0.0, 1.0, 2.0, 3.0]);
    assert_eq!(latest(&app), Some(3.0));
}

#[test]
fn only_the_newest_300_samples_are_kept() {
    let (mut app, sender) = PerfmonApp::new(facts());
    for i in 0..750 {
        sender.send(sample(i as f64)).unwrap();
        if i == 120 || i == 400 {
            app.update_telemetry();
        }
    }
    app.update_telemetry();
    let expected: Vec<f64> = (450..750).map(f64::from).collect();
    assert_eq!(seconds(&app), expected);
    assert_eq!(latest(&app), Some(749.0));
}

#[test]
fn batches_make_no_difference() {
    let mut one_by_one = app();
    for i in 0..310 {
        one_by_one.take_in(sample(i as f64));
    }
    let (mut at_once, sender) = PerfmonApp::new(facts());
    for i in 0..310 {
        sender.send(sample(i as f64)).unwrap();
    }
    at_once.update_telemetry();
    assert_eq!(seconds(&one_by_one), seconds(&at_once));
    assert_eq!(latest(&one_by_one), latest(&at_once));
}

#[test]
fn the_splash_screen_ends_by_itself() {
    let mut app = app();
    assert_eq!(app.splash_frame(single(1.0)), single(0.4));
    assert_eq!(app.view_mode, ViewMode::Splash);
    assert_eq!(app.splash_elapsed_sec, single(1.0));
    assert_eq!(app.splash_frame(single(2.4999998)), single(2.4999998 / 2.5));
    assert_eq!(app.view_mode, ViewMode::Splash);
    assert_eq!(app.splash_frame(single(2.5)), single(1.0));
    assert_eq!(app.view_mode, ViewMode::Dashboard);
    assert_eq!(app.splash_frame(single(9.0)), single(1.0));
    assert_eq!(app.view_mode, ViewMode::Dashboard);
}

#[test]
fn the_dashboard_can_be_launched_at_once() {
    let mut app = app();
    assert_eq!(app.repaint_after_ms(), 30);
    app.launch_dashboard();
    assert_eq!(app.view_mode, ViewMode::Dashboard);
    assert_eq!(app.repaint_after_ms(), 500);
    app.splash_frame(single(0.1));
    assert_eq!(app.view_mode, ViewMode::Dashboard);
}

#[test]
fn tabs_and_themes_can_be_selected() {
    let mut app = app();
    app.select_tab(DashboardTab::TabularGrid);
    app.select_theme(ThemeMode::MidnightBlue);
    assert_eq!(app.current_tab, DashboardTab::TabularGrid);
    assert_eq!(app.theme, ThemeMode::MidnightBlue);
    assert_eq!(app.view_mode, ViewMode::Splash);
}

#[test]
fn curves_hold_the_window_in_order() {
    let mut app = app();
    for t in [1.0, 2.0, 3.0, 4.0] {
        app.take_in(sample(t));
    }
    let points = plot_points(&app.history, Metric::CpuUsage, double(2.0));
    let expected: Vec<Point> = [2.0, 3.0, 4.0]
        .iter()
        .map(|&t| Point { timestamp_sec: double(t), figure: single(12.34) })
        .collect();
    assert_eq!(points, expected);
    assert!(plot_points(&app.history, Metric::CpuUsage, double(4.5)).is_empty());
    assert!(plot_points(&app.history, Metric::CpuUsage, double(f64::NAN)).is_empty());
}

#[test]
fn each_curve_shows_its_figure() {
    let app = app_with(sample(1.0));
    let figures = [
        (Metric::CpuUsage, 12.34),
        (Metric::RamUsage, 25.0),
        (Metric::DiskRead, 100.6),
        (Metric::NetReceived, 7.25),
        (Metric::NetSent, 3.5),
        (Metric::GpuUsage, 40.0),
        (Metric::CpuTemperature, 55.5),
        (Metric::GpuTemperature, 60.5),
    ];
    for (metric, figure) in figures {
        let points = plot_points(&app.history, metric, double(0.0));
        assert_eq!(points.len(), 1);
        assert_eq!(points[0].figure, single(figure));
    }
}

#[test]
fn the_window_starts_no_sooner_than_the_program() {
    assert_eq!(window_start(double(48.0), double(60.0)), double(0.0));
    assert_eq!(window_start(double(72.0), double(60.0)), double(12.0));
    assert_eq!(window_start(double(100.1), double(60.0)), double(100.1 - 60.0));
}

#[test]
fn the_header_describes_the_machine() {
    let app = app();
    let line = app.header_line();
    assert_eq!(text(&line.caption), "💻 box | Windows 10 Pro | Ryzen (12 threads) | 31.9 GB RAM");
    assert_eq!(line.ink, Some(Ink::Rgb(50, 65, 85)));
    assert_eq!(text(&app.refresh_caption()), "Refresh: 500ms");
}

#[test]
fn the_status_line_waits_for_a_sample() {
    let mut app = app();
    let waiting = app.status_line();
    assert_eq!(text(&waiting.caption), "Connecting to Win32 PDH telemetry worker...");
    assert_eq!(waiting.ink, None);
    app.take_in(sample(61.25));
    let live = app.status_line();
    assert_eq!(
        text(&live.caption),
        "🟢 Live Win32 NT Kernel & PDH Telemetry | Samples: 1 | Uptime: 61.2s | CPU Temp: 55.5°C | GPU Temp: 60.5°C"
    );
    assert_eq!(live.ink, Some(Ink::Rgb(0, 140, 80)));
}

#[test]
fn the_splash_screen_states_its_facts() {
    let app = app();
    let facts: Vec<(String, String)> = app
        .splash_facts()
        .iter()
        .map(|f| (f.label.to_string(), text(&f.text)))
        .collect();
    let expected = [
        ("Author:", "Kenny / Antigravity Team"),
        ("Version:", "v1.0.0 (Native Release)"),
        ("Target OS:", "Windows x86_64 (Windows 10 Pro)"),
        ("Graphics Engine:", "Direct3D 12 / WGPU (eframe 0.29)"),
        ("Release Date:", "August 16, 2026"),
    ];
    assert_eq!(facts.len(), 5);
    for (fact, (label, value)) in facts.iter().zip(expected) {
        assert_eq!(fact.0, label);
        assert_eq!(fact.1, value);
    }
    assert_eq!(text(&progress_caption(single(0.4))), "Initializing Telemetry... 40%");
}

#[test]
fn themes_have_their_colours() {
    assert!(ThemeMode::CleanLight.is_light());
    assert!(!ThemeMode::DarkCyber.is_light());
    assert!(!ThemeMode::MidnightBlue.is_light());
    assert_eq!(ThemeMode::CleanLight.ink(Role::GridOk), Ink::Rgb(0, 140, 60));
    assert_eq!(ThemeMode::DarkCyber.ink(Role::GridOk), Ink::Green);
    assert_eq!(ThemeMode::MidnightBlue.ink(Role::GridOk), Ink::Green);
    assert_eq!(ThemeMode::CleanLight.title(), "☀️ Clean Light");
    assert_eq!(ThemeMode::DarkCyber.title(), "🌙 Cyber Dark");
    assert_eq!(ThemeMode::MidnightBlue.title(), "🌌 Midnight Blue");
}

#[test]
fn themes_have_their_visuals() {
    let first = initial_visuals();
    assert!(!first.dark);
    assert_eq!(first.panel_fill, Ink::Rgb(240, 244, 248));
    assert_eq!(first.window_rounding, Some(10));
    let light = ThemeMode::CleanLight.visuals();
    assert!(!light.dark);
    assert_eq!(light.panel_fill, Ink::Rgb(242, 245, 250));
    assert_eq!(light.still_stroke, Some(Ink::Rgb(30, 40, 60)));
    let cyber = ThemeMode::DarkCyber.visuals();
    assert!(cyber.dark);
    assert_eq!(cyber.hyperlink, Some(Ink::Rgb(0, 230, 200)));
    assert_eq!(cyber.still_stroke, None);
    let midnight = ThemeMode::MidnightBlue.visuals();
    assert!(midnight.dark);
    assert_eq!(midnight.window_fill, Ink::Rgb(16, 22, 40));
    assert_eq!(midnight.hyperlink, None);
}

#[test]
fn there_are_no_tiles_and_no_grid_before_the_first_sample() {
    let app = app();
    assert!(app.tiles().is_none());
    assert!(app.grid().is_none());
}

#[test]
fn the_tiles_show_the_latest_sample() {
    let mut app = app_with(sample(10.0));
    app.take_in(sample(70.5));
    let tiles = app.tiles().unwrap();
    assert_eq!(tiles.card_fill, Ink::Rgb(255, 255, 255));
    assert_eq!(tiles.card_border, Ink::Rgb(220, 228, 238));
    assert_eq!(tiles.window_start, double(10.5));
    assert_eq!(tiles.window_end, double(70.5));

    assert_eq!(text(&tiles.cpu.headline.caption), "12.3%");
    assert_eq!(tiles.cpu.headline.ink, Ink::Rgb(0, 120, 215));
    assert_eq!(text(&tiles.cpu.threads), "Logical Threads (2) Load:");
    assert_eq!(text(&tiles.cpu.cores[0].caption), "T00: 80%");
    assert_eq!(tiles.cpu.cores[0].ink, Ink::Rgb(70, 85, 105));
    assert_eq!(text(&tiles.cpu.cores[1].caption), "T01: 80%");
    assert_eq!(tiles.cpu.cores[1].ink, Ink::Rgb(220, 50, 50));
    assert_eq!(tiles.cpu.curve.points.len(), 1);

    assert_eq!(text(&tiles.memory.headline.caption), "4.0 / 16.0 GB (25%)");
    assert_eq!(text(&tiles.memory.swap), "Swap Pagefile: 1.00 GB used of 2.00 GB total");
    assert_eq!(text(&tiles.storage.rates), "R: 101 KB/s | W: 50 KB/s");
    assert_eq!(text(&tiles.storage.drives[0].caption), "Drive C:\\: 50.0 GB / 200.0 GB (25%)");
    assert_eq!(tiles.storage.drives[0].usage_pct, single(25.0));
    assert_eq!(tiles.storage.drives[0].filled, single(0.25));
    assert_eq!(tiles.cpu.filled, single(12.34 / 100.0));
    assert_eq!(tiles.memory.filled, single(0.25));
    assert_eq!(tiles.gpu.filled, single(0.4));
    assert_eq!(text(&tiles.network.rates), "⬇ 7.2 KB/s  |  ⬆ 3.5 KB/s");
    assert_eq!(tiles.network.received.ink, Ink::Rgb(0, 160, 60));
    assert_eq!(tiles.network.sent.ink, Ink::Rgb(0, 110, 210));
    assert_eq!(text(&tiles.gpu.headline.caption), "40.0%");
    assert_eq!(text(&tiles.gpu.temperature.caption), "🌡️ GPU Temp: 60.5°C");
    assert_eq!(tiles.gpu.temperature.ink, Ink::Rgb(160, 40, 0));
    assert_eq!(text(&tiles.gpu.vram), "VRAM: 2.4 / 16.0 GB");
    assert_eq!(text(&tiles.thermal.headline), "CPU: 55.5°C | GPU: 60.5°C");
    assert_eq!(tiles.thermal.cpu_state.text, "🟢 NORMAL");
    assert_eq!(tiles.thermal.gpu_curve.ink, Ink::Rgb(180, 0, 140));
}

#[test]
fn the_tiles_start_with_the_program() {
    let app = app_with(sample(10.0));
    let tiles = app.tiles().unwrap();
    assert_eq!(tiles.window_start, double(0.0));
    assert_eq!(tiles.cpu.curve.points.len(), 1);
}

#[test]
fn high_figures_stand_in_red() {
    let hot = MetricSample {
        cpu_usage_pct: single(85.5),
        gpu_temp_c: single(80.5),
        cpu_temp_c: single(85.0),
        ..sample(1.0)
    };
    let app = app_with(hot);
    let tiles = app.tiles().unwrap();
    assert_eq!(tiles.cpu.headline.ink, Ink::Red);
    assert_eq!(tiles.gpu.temperature.ink, Ink::Red);
    assert_eq!(tiles.thermal.cpu_state.text, "🟢 NORMAL");
    let rows = app.grid().unwrap();
    assert_eq!(rows[0].status.text, "⚠️ HIGH LOAD");
}

#[test]
fn thermal_states_change_above_85_degrees() {
    let at = thermal_state(ThemeMode::DarkCyber, single(85.0));
    assert_eq!((at.text, at.ink), ("🟢 NORMAL", Ink::Green));
    let above = thermal_state(ThemeMode::DarkCyber, single(85.00001));
    assert_eq!((above.text, above.ink), ("⚠️ HIGH", Ink::Red));
}

#[test]
fn bars_are_filled_from_nothing_to_all() {
    assert_eq!(bar_fraction(single(25.0)), single(0.25));
    assert_eq!(bar_fraction(single(33.3)), single(33.3 / 100.0));
    assert_eq!(bar_fraction(single(100.0)), single(1.0));
    assert_eq!(bar_fraction(single(125.0)), single(1.0));
    assert_eq!(bar_fraction(single(-25.0)), single(0.0));
}

#[test]
fn the_grid_shows_the_latest_sample() {
    let app = app_with(sample(1.0));
    let rows = app.grid().unwrap();
    let shown: Vec<Vec<String>> = rows
        .iter()
        .map(|r| {
            vec![
                text(&r.component),
                text(&r.device),
                text(&r.load),
                text(&r.capacity),
                text(&r.temperature),
                r.status.text.to_string(),
            ]
        })
        .collect();
    let expected = [
        ["🔲 CPU (Overall)", "Ryzen", "12.3%", "12 threads", "55.5°C", "🟢 OK"],
        ["🧠 System Memory", "16.0 GB Physical RAM", "25.0%", "4.00 GB / 16.00 GB Used", "-", "🟢 OK"],
        ["💾 Virtual Memory", "Windows Pagefile / Swap", "50.0%", "1.00 GB / 2.00 GB Used", "-", "🟢 OK"],
        ["💾 Storage (C:\\)", "Samsung", "25.0%", "Read: 100.6 KB/s | Write: 50.2 KB/s", "-", "🟢 HEALTHY"],
        ["🌐 Network Bandwidth", "Active Network Adapter", "-", "⬇ 7.2 KB/s | ⬆ 3.5 KB/s", "-", "🟢 ONLINE"],
        ["🎮 GPU Telemetry", "Direct3D Hardware Accelerator", "40.0%", "VRAM: 2.4 / 16.0 GB", "60.5°C", "🟢 ACTIVE"],
    ];
    assert_eq!(shown.len(), expected.len());
    for (row, cells) in shown.iter().zip(expected) {
        assert_eq!(*row, cells);
    }
    for row in &rows {
        assert_eq!(row.status.ink, Ink::Rgb(0, 140, 60));
    }
}

#[test]
fn the_grid_has_a_row_for_each_disk() {
    let disk = |mount: &str| DiskMetrics {
        name: "d".to_string(),
        mount_point: mount.to_string(),
        total_gb: single(1.0),
        used_gb: single(1.0),
        usage_pct: single(100.0),
    };
    let s = MetricSample { disks: vec![disk("C:\\"), disk("D:\\"), disk("E:\\")], ..sample(1.0) };
    let app = app_with(s);
    let rows = app.grid().unwrap();
    assert_eq!(rows.len(), 8);
    assert_eq!(text(&rows[3].component), "💾 Storage (C:\\)");
    assert_eq!(text(&rows[5].component), "💾 Storage (E:\\)");
    assert_eq!(rows[5].status.ink, Ink::Rgb(0, 140, 60));
}

#[test]
fn only_processor_and_memory_alarm() {
    let extreme = MetricSample {
        cpu_usage_pct: single(100.0),
        ram_pct: single(100.0),
        swap_used_gb: single(2.0),
        gpu_usage_pct: single(100.0),
        gpu_temp_c: single(120.0),
        cpu_temp_c: single(120.0),
        ..sample(1.0)
    };
    let app = app_with(extreme);
    let red: Vec<bool> = app.grid().unwrap().iter().map(|r| r.status.ink == Ink::Red).collect();
    assert_eq!(red, vec![true, true, false, false, false, false]);
}

#[test]
fn the_grid_warns_of_full_memory() {
    let at = app_with(MetricSample { ram_pct: single(90.0), ..sample(1.0) });
    assert_eq!(at.grid().unwrap()[1].status.text, "🟢 OK");
    let above = app_with(MetricSample { ram_pct: single(90.5), ..sample(1.0) });
    let rows = above.grid().unwrap();
    assert_eq!(rows[1].status.text, "⚠️ RAM CRITICAL");
    assert_eq!(rows[1].status.ink, Ink::Red);
}

#[test]
fn an_absent_page_file_is_not_in_use() {
    let app = app_with(MetricSample { swap_total_gb: single(0.0), ..sample(1.0) });
    assert_eq!(text(&app.grid().unwrap()[2].load), "0.0%");
}

#[test]
fn an_empty_channel_changes_nothing() {
    let (mut app, sender) = PerfmonApp::new(facts());
    sender.send(sample(1.0)).unwrap();
    app.update_telemetry();
    app.update_telemetry();
    assert_eq!(seconds(&app), vec![1.0]);
    assert_eq!(latest(&app), Some(1.0));
    drop(sender);
    app.update_telemetry();
    assert_eq!(seconds(&app), vec![1.0]);
    assert_eq!(latest(&app), Some(1.0));
}

#[test]
fn each_dashboard_has_its_own_channel() {
    let (mut first, to_first) = PerfmonApp::new(facts());
    let (mut second, to_second) = PerfmonApp::new(facts());
    to_first.send(sample(1.0)).unwrap();
    to_second.send(sample(2.0)).unwrap();
    first.update_telemetry();
    second.update_telemetry();
    assert_eq!(seconds(&first), vec![1.0]);
    assert_eq!(seconds(&second), vec![2.0]);
}

#[test]
fn a_run_of_frames_ends_on_the_dashboard() {
    let (mut app, sender) = PerfmonApp::new(facts());
    let mut filled = single(0.0);
    for i in 0..400 {
        sender.send(sample(i as f64)).unwrap();
        let elapsed = i as f32 * 0.03;
        let splash = app.view_mode == ViewMode::Splash;
        match app.update(single(elapsed)) {
            Some(progress) => {
                assert!(splash);
                assert_eq!(progress, single((elapsed / 2.5).clamp(0.0, 1.0)));
                assert!(progress.has_reached(filled));
                assert_eq!(app.splash_elapsed_sec, single(elapsed));
                filled = progress;
            }
            None => assert!(!splash),
        }
        assert_eq!(app.view_mode == ViewMode::Dashboard, elapsed >= 2.5);
        assert_eq!(app.history.len(), (i + 1).min(300));
        assert_eq!(latest(&app), Some(i as f64));
    }
    assert_eq!(filled, single(1.0));
}

#[test]
fn a_launched_dashboard_stays() {
    let mut app = app();
    assert_eq!(app.update(single(0.5)), Some(single(0.2)));
    app.launch_dashboard();
    assert_eq!(app.update(single(0.6)), None);
    assert_eq!(app.view_mode, ViewMode::Dashboard);
    assert_eq!(app.splash_elapsed_sec, single(0.5));
}

#[test]
fn the_grid_has_six_columns() {
    assert_eq!(
        column_titles(),
        vec![
            "Component",
            "Device Specification",
            "Load / Usage %",
            "Active Bandwidth / Capacity",
            "Temperature",
            "Status",
        ]
    );
}
