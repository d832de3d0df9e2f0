use perfmon_dash::number::Single;
use perfmon_dash::sensors::{
    classify, classify_lowercase, contains_text, pick_temperatures, scan_sensors,
    target_temperature, SensorKind, SensorReading,
};

fn single(x: f32) -> Single {
    Single { bits: x.to_bits() }
}

fn reading(label: &str, temperature: f32) -> SensorReading {
    SensorReading { label: label.to_string(), temperature: single(temperature) }
}

#[test]
fn text_is_found_anywhere() {
    let text = "amd radeon çpu";
    for part in ["amd", "radeon", "pu", "çp", "", "amd radeon çpu", "a"] {
        assert_eq!(contains_text(text, part), text.contains(part), "{}", part);
        assert!(contains_text(text, part));
    }
    for part in ["cpu", "amd radeon çpu ", "rx", "aa"] {
        assert!(!contains_text(text, part), "{}", part);
    }
    assert!(contains_text("", ""));
    assert!(!contains_text("", "x"));
}

#[test]
fn labels_name_the_processor_or_the_graphics_card() {
    for label in ["cpu", "package id 0", "core 3", "acpi thermal zone"] {
        assert_eq!(classify_lowercase(label), SensorKind::Cpu, "{}", label);
    }
    for label in ["gpu", "nvidia rtx", "amdgpu edge", "amd tdie", "radeon"] {
        assert_eq!(classify_lowercase(label), SensorKind::Gpu, "{}", label);
    }
    for label in ["", "nvme composite", "iwlwifi_1", "CPU"] {
        assert_eq!(classify_lowercase(label), SensorKind::Other, "{}", label);
    }
}

#[test]
fn the_processor_comes_first() {
    assert_eq!(classify_lowercase("gpu core"), SensorKind::Cpu);
    assert_eq!(classify_lowercase("amd cpu"), SensorKind::Cpu);
}

#[test]
fn labels_are_read_in_any_case() {
    assert_eq!(classify("CPU Package"), SensorKind::Cpu);
    assert_eq!(classify("NVIDIA"), SensorKind::Gpu);
    assert_eq!(classify("Radeon"), SensorKind::Gpu);
    assert_eq!(classify("NVMe Composite"), SensorKind::Other);
}

#[test]
fn the_first_warm_sensor_is_picked() {
    let readings = vec![
        (SensorKind::Other, single(99.0)),
        (SensorKind::Cpu, single(0.0)),
        (SensorKind::Gpu, single(f32::NAN)),
        (SensorKind::Cpu, single(-4.0)),
        (SensorKind::Cpu, single(51.5)),
        (SensorKind::Gpu, single(60.0)),
        (SensorKind::Cpu, single(70.0)),
    ];
    let picked = pick_temperatures(&readings);
    assert_eq!(picked.cpu, Some(single(51.5)));
    assert_eq!(picked.gpu, Some(single(60.0)));
}

#[test]
fn cold_sensors_are_not_picked() {
    let readings = vec![(SensorKind::Cpu, single(0.0)), (SensorKind::Other, single(50.0))];
    let picked = pick_temperatures(&readings);
    assert_eq!(picked.cpu, None);
    assert_eq!(picked.gpu, None);
    assert_eq!(pick_temperatures(&Vec::new()).cpu, None);
}

#[test]
fn sensors_are_scanned_in_their_order() {
    let readings = vec![
        reading("NVMe Composite", 33.0),
        reading("Radeon RX", 61.0),
        reading("GPU CORE", 47.0),
        reading("CPU Package", 52.0),
        reading("NVIDIA", 70.0),
    ];
    let found = scan_sensors(&readings);
    assert_eq!(found.cpu, Some(single(47.0)));
    assert_eq!(found.gpu, Some(single(61.0)));
}

#[test]
fn a_measured_temperature_goes_before_an_estimate() {
    assert_eq!(target_temperature(Some(single(55.0)), single(40.0)), single(55.0));
    assert_eq!(target_temperature(None, single(40.0)), single(40.0));
}
