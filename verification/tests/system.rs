use pi_garage_monitor::double::Double;
use pi_garage_monitor::system::{
    parse_meminfo, parse_proc_stat, parse_throttled, throttle, usage_between, used_share, CpuMeter,
    CpuStep, Usage,
};

fn number(text: Option<String>) -> Option<Double> {
    let value: f64 = text?.parse().ok()?;
    Some(Double::from_bits(value.to_bits()))
}

fn percent(share: Option<(Double, Double)>) -> Option<f64> {
    let (total, unused) = share?;
    let total = f64::from_bits(total.to_bits());
    let unused = f64::from_bits(unused.to_bits());
    Some(100.0 * (total - unused) / total)
}

fn memory_and_swap(raw: &str) -> (Option<f64>, Option<f64>) {
    let info = parse_meminfo(raw);
    (
        percent(used_share(number(info.total), number(info.available))),
        percent(used_share(number(info.swap_total), number(info.swap_free))),
    )
}

#[test]
fn proc_stat_yields_idle_and_total() {
    let stat = "cpu  1000 50 300 8000 200 10 20 0 0 0\ncpu0 250 12 75 2000 50 2 5 0 0 0\n";
    let (idle, total) = parse_proc_stat(stat).expect("parses");
    assert_eq!(idle, 8200);
    assert_eq!(total, 9580);
}

#[test]
fn malformed_proc_stat_is_none() {
    assert!(parse_proc_stat("intr 12345").is_none());
    assert!(parse_proc_stat("cpu 1 2").is_none());
}

#[test]
fn usage_is_busy_share_of_delta() {
    let usage = usage_between((1000, 5000), (1025, 5100)).expect("some");
    let busy = 100.0 * (1.0 - usage.idle as f64 / usage.total as f64);
    assert!((busy - 75.0).abs() < 1e-9);
    assert!(usage_between((1000, 5000), (1000, 5000)).is_none());
}

#[test]
fn meminfo_yields_used_percentages() {
    let raw = "MemTotal:       1000000 kB\nMemFree:         100000 kB\n\
               MemAvailable:    400000 kB\nSwapTotal:       200000 kB\n\
               SwapFree:        150000 kB\n";
    let (memory, swap) = memory_and_swap(raw);
    assert!((memory.expect("some") - 60.0).abs() < 1e-9);
    assert!((swap.expect("some") - 25.0).abs() < 1e-9);
}

#[test]
fn no_swap_configured_is_none() {
    let raw = "MemTotal: 1000 kB\nMemAvailable: 500 kB\nSwapTotal: 0 kB\nSwapFree: 0 kB\n";
    let (memory, swap) = memory_and_swap(raw);
    assert!(memory.is_some());
    assert!(swap.is_none());
}

#[test]
fn vcgencmd_output_form_decodes() {
    let t = parse_throttled("throttled=0x50005\n").expect("parses");
    assert!(t.under_voltage && t.throttled);
}

#[test]
fn throttle_bits_decode() {
    let t = parse_throttled("0x50005").expect("parses");
    assert!(t.under_voltage);
    assert!(!t.frequency_capped);
    assert!(t.throttled);
    assert!(!t.soft_temp_limit);
    let clear = parse_throttled("0\n").expect("parses");
    assert!(!clear.under_voltage && !clear.throttled);
}

#[test]
fn proc_stat_reads_numbers_up_to_the_first_other_field() {
    assert_eq!(parse_proc_stat("cpu 1 2 3 4 5"), Some((9, 15)));
    assert_eq!(parse_proc_stat("cpu\t1 2 3 4 5 x 100"), Some((9, 15)));
    assert_eq!(parse_proc_stat("cpu 1 2 3 4 -5"), None);
    assert_eq!(parse_proc_stat("cpu +1 2 3 4 5\r\n"), Some((9, 15)));
    assert_eq!(parse_proc_stat("cpu0 1 2 3 4 5"), None);
    assert_eq!(parse_proc_stat("\ncpu 1 2 3 4 5"), None);
    assert_eq!(parse_proc_stat(""), None);
    assert_eq!(parse_proc_stat("   "), None);
}

#[test]
fn proc_stat_out_of_range_is_none() {
    assert_eq!(parse_proc_stat("cpu 18446744073709551615 0 0 0 0"), Some((0, u64::MAX)));
    assert_eq!(parse_proc_stat("cpu 18446744073709551615 1 0 0 0"), None);
    assert_eq!(parse_proc_stat("cpu 0 0 0 18446744073709551615 1"), None);
    assert_eq!(parse_proc_stat("cpu 18446744073709551616 0 0 0 0"), None);
}

#[test]
fn usage_of_counters_that_went_back_is_nothing() {
    assert_eq!(usage_between((9, 10), (5, 12)), Some(Usage { idle: 0, total: 2 }));
    assert_eq!(usage_between((0, 10), (5, 9)), None);
}

#[test]
fn the_first_request_samples_twice() {
    let mut meter = CpuMeter::new();
    assert_eq!(meter.on_first(None), CpuStep::Done(None));
    assert_eq!(meter.previous, None);
    assert_eq!(meter.on_first(Some((10, 20))), CpuStep::SampleAgain((10, 20)));
    assert_eq!(meter.previous, Some((10, 20)));
    assert_eq!(meter.on_second((10, 20), None), None);
    assert_eq!(meter.previous, Some((10, 20)));
    assert_eq!(
        meter.on_second((10, 20), Some((15, 40))),
        Some(Usage { idle: 5, total: 20 })
    );
    assert_eq!(meter.previous, Some((15, 40)));
    assert_eq!(
        meter.on_first(Some((16, 50))),
        CpuStep::Done(Some(Usage { idle: 1, total: 10 }))
    );
    assert_eq!(meter.previous, Some((16, 50)));
}

#[test]
fn meminfo_takes_the_last_entry_of_a_key() {
    let info = parse_meminfo("MemTotal: 1 kB\nnothing\nMemTotal:\t22 kB\r\nSwapFree:7:8\nSwapTotal: 5\nSwapTotal:\n");
    assert_eq!(info.total.as_deref(), Some("22"));
    assert_eq!(info.available, None);
    assert_eq!(info.swap_free.as_deref(), Some("7:8"));
    assert_eq!(info.swap_total, None);
}

#[test]
fn a_share_needs_a_positive_total() {
    let d = |v: f64| Some(Double::from_bits(v.to_bits()));
    assert_eq!(used_share(d(2.0), d(1.0)), Some((d(2.0).unwrap(), d(1.0).unwrap())));
    assert_eq!(used_share(d(0.0), d(0.0)), None);
    assert_eq!(used_share(d(-0.0), d(0.0)), None);
    assert_eq!(used_share(d(-1.0), d(0.0)), None);
    assert_eq!(used_share(d(f64::NAN), d(0.0)), None);
    assert_eq!(used_share(None, d(1.0)), None);
    assert_eq!(used_share(d(1.0), None), None);
}

#[test]
fn throttle_forms_decode_alike() {
    let expected = parse_throttled("a000A");
    let t = expected.expect("parses");
    assert!(!t.under_voltage && t.frequency_capped && !t.throttled && t.soft_temp_limit);
    for form in ["0xa000A", "throttled=0xa000A", "throttled=a000A\n", " a000A \r\n", "0x0xa000A", "\t\n 0xa000A", "\u{3000}throttled=0xa000A \n\n"] {
        assert_eq!(parse_throttled(form), expected);
    }
    assert_eq!(parse_throttled(""), None);
    assert_eq!(parse_throttled("0x"), None);
    assert_eq!(parse_throttled("throttled"), None);
    assert!(parse_throttled("ffffffff").is_some());
    assert_eq!(parse_throttled("100000000"), None);
}

#[test]
fn the_firmware_node_comes_before_the_command() {
    let one = parse_throttled("1");
    assert_eq!(throttle(Some("1"), Some((true, "2"))), one);
    assert_eq!(throttle(Some("junk"), Some((true, "1"))), None);
    assert_eq!(throttle(None, Some((true, "throttled=0x1\n"))), one);
    assert_eq!(throttle(None, Some((false, "1"))), None);
    assert_eq!(throttle(None, None), None);
}
