use vitals_rain::cpu::{CpuCounters, MAX_CORES, Ticks};

fn t(idle: u64, total: u64) -> Ticks {
    Ticks { idle, total }
}

const FIRST: &str = "cpu  100 0 50 800 20 0 5 0 0 0\n\
cpu0 50 0 25 400 10 0 5 0 0 0\n\
cpu1 50 0 25 400 10 0 0 0 0 0\n\
intr 12345 0 0\n\
ctxt 999\n";

const SECOND: &str = "cpu  150 0 60 900 30 0 5 0 0 0\n\
cpu0 80 0 30 450 15 0 5 0 0 0\n\
cpu1 70 0 30 450 15 0 0 0 0 0\n";

#[test]
fn first_reading_measures_from_zero() {
    let mut c = CpuCounters::new();
    let d = c.update(FIRST);
    assert_eq!(d.aggregate, Some(t(820, 975)));
    // A core line's words start with the core's number, which counts as
    // its first number.
    assert_eq!(d.cores, vec![t(425, 490), t(425, 486)]);
    assert_eq!(c.aggregate_counters(), t(820, 975));
    assert_eq!(c.core_counters(), vec![t(425, 490), t(425, 486)]);
}

#[test]
fn second_reading_measures_from_the_first() {
    let mut c = CpuCounters::new();
    c.update(FIRST);
    let d = c.update(SECOND);
    assert_eq!(d.aggregate, Some(t(930 - 820, 1145 - 975)));
    assert_eq!(d.cores, vec![t(480 - 425, 580 - 490), t(480 - 425, 566 - 486)]);
}

#[test]
fn same_report_twice_gives_no_time() {
    let mut c = CpuCounters::new();
    c.update(FIRST);
    let d = c.update(FIRST);
    assert_eq!(d.aggregate, Some(t(0, 0)));
    assert_eq!(d.cores, vec![t(0, 0), t(0, 0)]);
}

#[test]
fn lines_that_do_not_count_are_left_out() {
    let mut c = CpuCounters::new();
    let text = "cpu\ncpux 1 2 3 4\ncpu 1 2 3\ncpu0 1 2\ncpufreq 1 2 3 4 5\nCPU0 1 2 3 4\n cpu0 1 2 3 4\n";
    let d = c.update(text);
    assert_eq!(d.aggregate, None);
    assert!(d.cores.is_empty());
    assert_eq!(c.aggregate_counters(), t(0, 0));
    assert!(c.core_counters().is_empty());
}

#[test]
fn words_that_are_not_numbers_are_skipped() {
    let mut c = CpuCounters::new();
    let d = c.update("cpu0 1 x 2 3 y 4\n");
    assert_eq!(d.cores, vec![t(3 + 4, 10)]);
}

#[test]
fn core_number_is_read_as_first_number() {
    let mut c = CpuCounters::new();
    let d = c.update("cpu7 1 2 3\n");
    assert_eq!(d.cores, vec![t(3, 7 + 1 + 2 + 3)]);
}

#[test]
fn idle_without_a_fifth_number() {
    let mut c = CpuCounters::new();
    let d = c.update("cpu 1 2 3 4");
    assert_eq!(d.aggregate, Some(t(4, 10)));
}

#[test]
fn last_aggregate_line_wins() {
    let mut c = CpuCounters::new();
    let d = c.update("cpu 1 1 1 1\ncpu 2 2 2 2\n");
    assert_eq!(d.aggregate, Some(t(2 - 1, 8 - 4)));
    assert_eq!(c.aggregate_counters(), t(2, 8));
}

#[test]
fn at_most_max_cores_are_followed() {
    let mut text = String::new();
    for i in 0..(MAX_CORES + 6) {
        text.push_str(&format!("cpu{} 1 2 3 4 5\n", i));
    }
    let mut c = CpuCounters::new();
    let d = c.update(&text);
    assert_eq!(d.cores.len(), MAX_CORES);
    assert_eq!(c.core_counters().len(), MAX_CORES);
}

#[test]
fn counters_of_cores_no_longer_listed_are_kept() {
    let mut c = CpuCounters::new();
    c.update("cpu0 1 1 1 1\ncpu1 2 2 2 2\ncpu2 3 3 3 3\n");
    let d = c.update("cpu0 5 5 5 5\n");
    assert_eq!(d.cores, vec![t(10 - 2, 20 - 4)]);
    assert_eq!(c.core_counters(), vec![t(10, 20), t(4, 9), t(6, 14)]);
}

#[test]
fn counters_wrap_around() {
    let mut c = CpuCounters::new();
    let max = u64::MAX;
    c.update(&format!("cpu {} 0 0 {}\n", max, max));
    assert_eq!(c.aggregate_counters(), t(max, max.wrapping_add(max)));
    let d = c.update("cpu 1 0 0 1\n");
    assert_eq!(d.aggregate, Some(t(1u64.wrapping_sub(max), 2u64.wrapping_sub(max.wrapping_add(max)))));
    assert_eq!(
        c.aggregate_counters().total,
        max.wrapping_add(max).wrapping_add(d.aggregate.unwrap().total)
    );
}

#[test]
fn windows_line_endings_are_read() {
    let mut c = CpuCounters::new();
    let d = c.update("cpu 1 2 3 4\r\ncpu0 1 1 1 1\r\n");
    assert_eq!(d.aggregate, Some(t(4, 10)));
    assert_eq!(d.cores, vec![t(2, 4)]);
}

#[test]
fn inserted_lines_that_do_not_count_change_nothing() {
    let with_extra = format!(
        "{}cpufreq 1 2 3 4\ncpu\ncpu 1 2 3\ncpu0 1 2\n{}",
        &FIRST[..FIRST.find("cpu1").unwrap()],
        &FIRST[FIRST.find("cpu1").unwrap()..]
    );
    let mut a = CpuCounters::new();
    let mut b = CpuCounters::new();
    let da = a.update(FIRST);
    let db = b.update(&with_extra);
    assert_eq!(da.aggregate, db.aggregate);
    assert_eq!(da.cores, db.cores);
    assert_eq!(a.aggregate_counters(), b.aggregate_counters());
    assert_eq!(a.core_counters(), b.core_counters());
}

#[test]
fn same_report_twice_keeps_the_counters() {
    let mut c = CpuCounters::new();
    c.update(FIRST);
    let agg = c.aggregate_counters();
    let cores = c.core_counters();
    c.update(FIRST);
    assert_eq!(c.aggregate_counters(), agg);
    assert_eq!(c.core_counters(), cores);
}
