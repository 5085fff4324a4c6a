use vitals_rain::sensor::{SensorEntry, choose_temp_sensor, is_cpu_sensor_type};

fn e(kind: Option<&str>, has_temp: bool) -> SensorEntry {
    SensorEntry { kind: kind.map(|k| k.to_string()), has_temp }
}

#[test]
fn cpu_sensor_types() {
    assert!(is_cpu_sensor_type("x86_pkg_temp\n"));
    assert!(is_cpu_sensor_type("k10temp"));
    assert!(is_cpu_sensor_type("  coretemp  "));
    assert!(!is_cpu_sensor_type("acpitz\n"));
    assert!(!is_cpu_sensor_type(""));
    assert!(!is_cpu_sensor_type("x86 pkg"));
}

#[test]
fn a_cpu_sensor_is_preferred() {
    let es = vec![e(Some("acpitz\n"), true), e(Some("iwlwifi_1\n"), true), e(Some("x86_pkg_temp\n"), true)];
    assert_eq!(choose_temp_sensor(&es), Some(2));
}

#[test]
fn the_first_cpu_sensor_with_a_reading_is_chosen() {
    let es = vec![e(Some("coretemp"), false), e(Some("acpitz"), true), e(Some("k10temp"), true), e(Some("coretemp"), true)];
    assert_eq!(choose_temp_sensor(&es), Some(2));
}

#[test]
fn otherwise_the_first_zone_with_a_reading() {
    let es = vec![e(None, false), e(None, true), e(Some("acpitz"), true)];
    assert_eq!(choose_temp_sensor(&es), Some(1));
}

#[test]
fn no_zone_with_a_reading_means_no_sensor() {
    let es = vec![e(Some("x86_pkg_temp"), false), e(None, false)];
    assert_eq!(choose_temp_sensor(&es), None);
    assert_eq!(choose_temp_sensor(&Vec::new()), None);
}
