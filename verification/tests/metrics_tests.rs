use zellij_monitor::metrics::cpu::{parse_cpu_stat, CpuState};
use zellij_monitor::metrics::cpu_temp::thermal_readings;
use zellij_monitor::metrics::disk::parse_df_output;
use zellij_monitor::metrics::memory::{first_number, parse_meminfo};
use zellij_monitor::metrics::network::{parse_netdev_line, sum_bytes, NetworkState};
use zellij_monitor::text::split_whitespace;

const SAMPLE_STAT_1: &str = "cpu  100 20 50 800 10 5 3 2 0 0\ncpu0 50 10 25 400 5 2 1 1 0 0\n";
const SAMPLE_STAT_2: &str = "cpu  200 20 100 900 10 10 3 2 0 0\ncpu0 100 10 50 450 5 5 1 1 0 0\n";

#[test]
fn parse_cpu_stat_extracts_fields() {
    let (user, nice, system, idle, iowait, irq, softirq, steal) =
        parse_cpu_stat("cpu  100 20 50 800 10 5 3 2").unwrap();
    assert_eq!(
        (user, nice, system, idle, iowait, irq, softirq, steal),
        (100, 20, 50, 800, 10, 5, 3, 2)
    );
}

#[test]
fn parse_cpu_stat_returns_none_for_non_cpu_line() {
    assert!(parse_cpu_stat("mem  100 200").is_none());
}

#[test]
fn first_update_returns_zero() {
    let mut state = CpuState::default();
    // First call has no previous sample → 0 %
    let pct = state.update(SAMPLE_STAT_1);
    assert_eq!(pct as f32, 0.0);
}

#[test]
fn second_update_computes_delta() {
    let mut state = CpuState::default();
    state.update(SAMPLE_STAT_1);
    // sample1: active = 180, total = 990; sample2: active = 335, total = 1245
    // pct = 100 * 155 / 255 = 60 (integer division)
    let pct = state.update(SAMPLE_STAT_2);
    assert_eq!(pct as f32, 60.0);
}

#[test]
fn no_change_returns_zero_percent() {
    let mut state = CpuState::default();
    state.update(SAMPLE_STAT_1);
    let pct = state.update(SAMPLE_STAT_1); // identical → delta = 0
    assert_eq!(pct as f32, 0.0);
}

const DF_SAMPLE: &str = "\
Filesystem     1M-blocks   Used Available Use% Mounted on
/dev/sda1         98304M  45000M    48000M  49% /
";

#[test]
fn parses_used_pct_and_avail() {
    let (pct, avail) = parse_df_output(DF_SAMPLE);
    assert_eq!(pct, 49);
    assert_eq!(avail, 48000);
}

#[test]
fn handles_100_percent_disk() {
    let input = "Filesystem 1M-blocks Used Available Use% Mounted\n/dev/sdb1 1000M 1000M 0M 100% /data\n";
    let (pct, avail) = parse_df_output(input);
    assert_eq!(pct, 100);
    assert_eq!(avail, 0);
}

#[test]
fn empty_output_returns_zeros() {
    let (pct, avail) = parse_df_output("");
    assert_eq!(pct, 0);
    assert_eq!(avail, 0);
}

#[test]
fn header_only_returns_zeros() {
    let (pct, avail) = parse_df_output("Filesystem 1M-blocks Used Available Use% Mounted\n");
    assert_eq!(pct, 0);
    assert_eq!(avail, 0);
}

const MEMINFO_SAMPLE: &str = "\
MemTotal:       16384000 kB
MemFree:         2048000 kB
MemAvailable:    8192000 kB
Buffers:          512000 kB
Cached:          4096000 kB
";

#[test]
fn parses_used_and_total() {
    let (used, total) = parse_meminfo(MEMINFO_SAMPLE);
    assert_eq!(total, 16000);
    assert_eq!(used, 8000);
}

#[test]
fn memory_empty_input_returns_zeros() {
    let (used, total) = parse_meminfo("");
    assert_eq!(used, 0);
    assert_eq!(total, 0);
}

#[test]
fn missing_available_falls_back_to_total() {
    let input = "MemTotal: 4096000 kB\n";
    let (used, total) = parse_meminfo(input);
    assert_eq!(total, 4000);
    assert_eq!(used, 4000); // avail = 0 → used = total
}

const NETDEV_SAMPLE: &str = "\
Inter-|   Receive                                                |  Transmit
 face |bytes    packets errs drop fifo frame compressed multicast|bytes    packets errs drop fifo colls carrier compressed
    lo:  123456     100    0    0    0     0          0         0   123456     100    0    0    0     0       0          0
  eth0: 1048576    1000    0    0    0     0          0         0   524288     500    0    0    0     0       0          0
  wlan0:  512000     400    0    0    0     0          0         0   256000     200    0    0    0     0       0          0
";

#[test]
fn parse_netdev_line_extracts_rx_tx() {
    let line = "  eth0: 1048576    1000    0    0    0     0          0         0   524288     500    0    0    0     0       0          0";
    let (iface, rx, tx) = parse_netdev_line(line).unwrap();
    assert_eq!(iface, "eth0");
    assert_eq!(rx, 1048576);
    assert_eq!(tx, 524288);
}

#[test]
fn sum_bytes_all_excludes_loopback() {
    let (rx, tx) = sum_bytes(NETDEV_SAMPLE, "all");
    assert_eq!(rx, 1048576 + 512000);
    assert_eq!(tx, 524288 + 256000);
}

#[test]
fn sum_bytes_specific_interface() {
    let (rx, tx) = sum_bytes(NETDEV_SAMPLE, "eth0");
    assert_eq!(rx, 1048576);
    assert_eq!(tx, 524288);
}

#[test]
fn sum_bytes_unknown_interface_returns_zero() {
    let (rx, tx) = sum_bytes(NETDEV_SAMPLE, "tun0");
    assert_eq!(rx, 0);
    assert_eq!(tx, 0);
}

#[test]
fn first_update_returns_zero_rates() {
    let mut state = NetworkState::default();
    let (rx, tx) = state.update(NETDEV_SAMPLE, "all");
    assert_eq!(rx as f64, 0.0);
    assert_eq!(tx as f64, 0.0);
    // State should be seeded now
    assert!(state.initialized);
}

// ---------------------------------------------------------------------------

#[test]
fn cpu_update_ignores_non_cpu_first_line() {
    let mut state = CpuState::default();
    state.update(SAMPLE_STAT_1);
    let before = state.clone();
    assert_eq!(state.update("intr 1 2 3\ncpu 1 2 3 4 5 6 7 8\n"), 0);
    assert_eq!(state.prev_active, before.prev_active);
    assert_eq!(state.prev_total, before.prev_total);
    assert!(state.initialized);
}

#[test]
fn cpu_update_records_totals() {
    let mut state = CpuState::default();
    assert!(state.update_in_range(SAMPLE_STAT_1));
    state.update(SAMPLE_STAT_1);
    assert_eq!(state.prev_active, 180);
    assert_eq!(state.prev_total, 990);
    assert!(state.initialized);
}

#[test]
fn cpu_percent_stays_within_100_for_growing_counters() {
    let mut state = CpuState::default();
    state.update("cpu 0 0 0 0 0 0 0 0");
    assert_eq!(state.update("cpu 10 0 0 0 0 0 0 0"), 100);
    assert_eq!(state.update("cpu 10 0 0 30 0 0 0 0"), 0);
    assert_eq!(state.update("cpu 20 0 0 40 0 0 0 0"), 50);
}

#[test]
fn cpu_update_overflow_is_detected() {
    let state = CpuState::default();
    assert!(!state.update_in_range("cpu 18446744073709551615 1 0 0 0 0 0 0"));
    assert!(state.update_in_range("cpu 18446744073709551615 0 0 0 0 0 0 0"));
    let mut seeded = CpuState::default();
    seeded.update("cpu 0 0 0 0 0 0 0 0");
    assert!(!seeded.update_in_range("cpu 184467440737095517 0 0 0 0 0 0 0"));
    assert!(seeded.update_in_range("cpu 184467440737095516 0 0 0 0 0 0 0"));
}

#[test]
fn parse_cpu_stat_needs_eight_counters_and_reads_garbage_as_zero() {
    assert!(parse_cpu_stat("cpu 1 2 3 4 5 6 7").is_none());
    assert!(parse_cpu_stat("").is_none());
    assert_eq!(
        parse_cpu_stat("cpu7 1 x 3 +4 5 6 7 8 9"),
        Some((1, 0, 3, 4, 5, 6, 7, 8))
    );
}

#[test]
fn thermal_readings_single_zone() {
    assert_eq!(thermal_readings("45000\n"), vec![45000]);
}

#[test]
fn thermal_readings_skip_invalid_lines() {
    assert_eq!(
        thermal_readings("45000\nnot-a-number\n 55000 \n"),
        vec![45000, 55000]
    );
    assert_eq!(thermal_readings(""), Vec::<u64>::new());
    assert_eq!(thermal_readings("foo\nbar\n"), Vec::<u64>::new());
}

#[test]
fn whitespace_fields_for_loadavg() {
    assert_eq!(
        split_whitespace("0.45 0.52 0.61 2/456 12345\n"),
        vec!["0.45", "0.52", "0.61", "2/456", "12345"]
    );
    assert_eq!(split_whitespace(""), Vec::<String>::new());
    assert_eq!(split_whitespace(" \t a\u{a0}b  "), vec!["a", "b"]);
}

#[test]
fn df_skips_short_rows_and_strips_suffixes() {
    let input = "Filesystem\nshort row\n/dev/x 10M 5M 512MM 7%% /\n/dev/y 1 1 1 1% /\n";
    assert_eq!(parse_df_output(input), (7, 512));
    let bad = "h\n/dev/x 1 2 lots 300% /\n";
    assert_eq!(parse_df_output(bad), (0, 0));
}

#[test]
fn meminfo_takes_last_values_until_both_found() {
    let input = "MemTotal: 2048 kB\r\nMemTotal: 4096 kB\nMemAvailable: 1024 kB\nMemTotal: 9999999 kB\n";
    assert_eq!(parse_meminfo(input), (3, 4));
    assert_eq!(parse_meminfo("MemAvailable: 4096000 kB\n"), (0, 0));
    assert_eq!(first_number("  12 kB"), 12);
    assert_eq!(first_number("kB 12"), 0);
}

#[test]
fn netdev_line_requires_colon_and_nine_counters() {
    assert!(parse_netdev_line("eth0 1 2 3 4 5 6 7 8 9").is_none());
    assert!(parse_netdev_line("eth0: 1 2 3 4 5 6 7 8").is_none());
    assert!(parse_netdev_line("eth0: x 2 3 4 5 6 7 8 9").is_none());
    assert_eq!(
        parse_netdev_line(" veth:a: 1 2 3 4 5 6 7 8 9"),
        None
    );
    assert_eq!(
        parse_netdev_line(" br0 :1 2 3 4 5 6 7 8 9 10"),
        Some(("br0", 1, 9))
    );
}

#[test]
fn network_update_reports_growth_since_previous_sample() {
    let mut state = NetworkState::default();
    state.update(NETDEV_SAMPLE, "eth0");
    let later = NETDEV_SAMPLE.replace("1048576    1000", "1049576    1000");
    assert_eq!(state.update(&later, "eth0"), (1000, 0));
    assert_eq!(state.prev_rx_bytes, 1049576);
    // counters that go down count as no growth
    assert_eq!(state.update(NETDEV_SAMPLE, "eth0"), (0, 0));
}

#[test]
fn sum_bytes_needs_two_header_lines() {
    assert_eq!(sum_bytes("  eth0: 1 0 0 0 0 0 0 0 2 0", "all"), (0, 0));
}

#[test]
fn cpu_percent_is_capped_at_100() {
    let mut state = CpuState::default();
    state.update("cpu 100 0 0 100 0 0 0 0");
    // busy +200 ticks while idle went backwards: the ratio would be 133
    assert_eq!(state.update("cpu 300 0 0 50 0 0 0 0"), 100);
}

#[test]
fn all_interfaces_sum_to_the_per_interface_sums() {
    let names = ["eth0", "wlan0"];
    let (all_rx, all_tx) = sum_bytes(NETDEV_SAMPLE, "all");
    let mut rx = 0;
    let mut tx = 0;
    for name in names {
        let (r, t) = sum_bytes(NETDEV_SAMPLE, name);
        rx += r;
        tx += t;
    }
    assert_eq!((all_rx, all_tx), (rx, tx));
    assert_eq!(sum_bytes(NETDEV_SAMPLE, "lo"), (123456, 123456));
}
