use vitals_rain::mem::{MemInfo, parse_kb, parse_meminfo};

#[test]
fn kb_reads_the_first_word() {
    assert_eq!(parse_kb("        16314072 kB"), 16314072);
    assert_eq!(parse_kb(" 5"), 5);
}

#[test]
fn kb_is_zero_without_a_number() {
    assert_eq!(parse_kb(""), 0);
    assert_eq!(parse_kb("   "), 0);
    assert_eq!(parse_kb(" kB 12"), 0);
    assert_eq!(parse_kb(" -3 kB"), 0);
    assert_eq!(parse_kb(" 99999999999999999999 kB"), 0);
}

#[test]
fn meminfo_reads_total_and_available() {
    let text = "MemTotal:       16314072 kB\nMemFree:         1234567 kB\nMemAvailable:    8157036 kB\nBuffers:          345678 kB\n";
    assert_eq!(parse_meminfo(text), MemInfo { total: 16314072, available: 8157036 });
}

#[test]
fn meminfo_missing_fields_read_as_zero() {
    assert_eq!(parse_meminfo(""), MemInfo { total: 0, available: 0 });
    assert_eq!(parse_meminfo("MemFree: 12 kB\n"), MemInfo { total: 0, available: 0 });
    assert_eq!(parse_meminfo("MemTotal: lots\nMemAvailable: 3 kB"), MemInfo { total: 0, available: 3 });
}

#[test]
fn meminfo_last_line_of_a_field_wins() {
    let text = "MemTotal: 10 kB\nMemTotal: 20 kB\nMemAvailable: 1 kB\nMemAvailable: 2 kB\r\n";
    assert_eq!(parse_meminfo(text), MemInfo { total: 20, available: 2 });
}

#[test]
fn meminfo_needs_the_exact_field_name() {
    let text = "memtotal: 10 kB\n MemTotal: 20 kB\nMemTotal 30 kB\n";
    assert_eq!(parse_meminfo(text), MemInfo { total: 0, available: 0 });
}
