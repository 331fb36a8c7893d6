use std::collections::BTreeMap;
use zellij_monitor::config::{Alignment, Config, MetricType};

fn map(pairs: &[(&str, &str)]) -> BTreeMap<String, String> {
    pairs
        .iter()
        .map(|(k, v)| (k.to_string(), v.to_string()))
        .collect()
}

#[test]
fn defaults_when_empty_map() {
    let cfg = Config::from_map(&BTreeMap::new());
    assert_eq!(cfg.plugins, MetricType::all());
    assert_eq!(cfg.refresh_interval, 5);
    assert_eq!(cfg.alignment, Alignment::Left);
    assert_eq!(cfg.disk_path, "/");
    assert_eq!(cfg.network_interface, "all");
    assert_eq!(cfg.cpu_warn_pct, 80);
    assert_eq!(cfg.mem_warn_pct, 80);
    assert_eq!(cfg.disk_warn_pct, 80);
    assert_eq!(cfg.cpu_temp_warn, 80);
}

#[test]
fn order_controls_enabled_metrics() {
    let cfg = Config::from_map(&map(&[
        ("plugins", "cpu, memory, cpu_temp"),
        ("refresh_interval", "10"),
        ("disk_path", "/home"),
        ("network_interface", "eth0"),
        ("cpu_warn_pct", "90"),
    ]));
    assert_eq!(
        cfg.plugins,
        vec![MetricType::Cpu, MetricType::Memory, MetricType::CpuTemp]
    );
    assert!(cfg.is_enabled(MetricType::Cpu));
    assert!(cfg.is_enabled(MetricType::Memory));
    assert!(cfg.is_enabled(MetricType::CpuTemp));
    assert!(!cfg.is_enabled(MetricType::Disk));
    assert!(!cfg.is_enabled(MetricType::Network));
    assert!(!cfg.is_enabled(MetricType::LoadAvg));
    assert_eq!(cfg.refresh_interval, 10);
    assert_eq!(cfg.disk_path, "/home");
    assert_eq!(cfg.network_interface, "eth0");
    assert_eq!(cfg.cpu_warn_pct, 90);
}

#[test]
fn order_accepts_aliases() {
    let cfg = Config::from_map(&map(&[("plugins", "mem, temp, net, load")]));
    assert_eq!(
        cfg.plugins,
        vec![
            MetricType::Memory,
            MetricType::CpuTemp,
            MetricType::Network,
            MetricType::LoadAvg,
        ]
    );
}

#[test]
fn order_ignores_unknown_values() {
    let cfg = Config::from_map(&map(&[("plugins", "cpu, bogus, memory")]));
    assert_eq!(cfg.plugins, vec![MetricType::Cpu, MetricType::Memory]);
}

#[test]
fn order_all_invalid_falls_back_to_default() {
    let cfg = Config::from_map(&map(&[("plugins", "bogus, nope")]));
    assert_eq!(cfg.plugins, MetricType::all());
}

#[test]
fn invalid_values_fall_back_to_defaults() {
    let cfg = Config::from_map(&map(&[
        ("refresh_interval", "abc"),
        ("cpu_warn_pct", "999"), // overflows u8 → parse error → default
    ]));
    assert_eq!(cfg.refresh_interval, 5);
    assert_eq!(cfg.cpu_warn_pct, 80);
}

#[test]
fn refresh_interval_minimum_is_1() {
    let cfg = Config::from_map(&map(&[("refresh_interval", "0")]));
    assert_eq!(cfg.refresh_interval, 1);
}

#[test]
fn alignment_parses_word_forms() {
    assert_eq!(Alignment::from_str("left"), Some(Alignment::Left));
    assert_eq!(Alignment::from_str("center"), Some(Alignment::Center));
    assert_eq!(Alignment::from_str("right"), Some(Alignment::Right));
}

#[test]
fn alignment_parses_symbol_forms() {
    assert_eq!(Alignment::from_str("<"), Some(Alignment::Left));
    assert_eq!(Alignment::from_str("^"), Some(Alignment::Center));
    assert_eq!(Alignment::from_str(">"), Some(Alignment::Right));
}

#[test]
fn alignment_is_case_insensitive() {
    assert_eq!(Alignment::from_str("LEFT"), Some(Alignment::Left));
    assert_eq!(Alignment::from_str("Center"), Some(Alignment::Center));
    assert_eq!(Alignment::from_str("RIGHT"), Some(Alignment::Right));
}

#[test]
fn alignment_invalid_falls_back_to_default() {
    let cfg = Config::from_map(&map(&[("alignment", "bogus")]));
    assert_eq!(cfg.alignment, Alignment::Left);
}

#[test]
fn alignment_from_config_map() {
    let cfg = Config::from_map(&map(&[("alignment", ">")]));
    assert_eq!(cfg.alignment, Alignment::Right);

    let cfg = Config::from_map(&map(&[("alignment", "center")]));
    assert_eq!(cfg.alignment, Alignment::Center);
}

// ---------------------------------------------------------------------------

#[test]
fn metric_names_are_trimmed_and_case_insensitive() {
    assert_eq!(MetricType::from_str("  CPU\t"), Some(MetricType::Cpu));
    assert_eq!(MetricType::from_str("Mem"), Some(MetricType::Memory));
    assert_eq!(MetricType::from_str("CPU_TEMP"), Some(MetricType::CpuTemp));
    assert_eq!(MetricType::from_str("LoadAvg"), Some(MetricType::LoadAvg));
    assert_eq!(MetricType::from_str("cpu temp"), None);
    assert_eq!(MetricType::from_str(""), None);
}

#[test]
fn metric_names_match_what_to_lowercase_matches() {
    // The Kelvin sign lowercases to an ASCII `k`.
    let kelvin_disk = "DIS\u{212A}";
    assert_eq!(kelvin_disk.to_lowercase(), "disk");
    assert_eq!(MetricType::from_str(kelvin_disk), Some(MetricType::Disk));
    for name in ["cpu", "MEMORY", "Network", "nEt", "temp", "load", "disk", "x", "cpu_", "İ"] {
        let lowered = name.trim().to_lowercase();
        let expected = match lowered.as_str() {
            "cpu" => Some(MetricType::Cpu),
            "memory" | "mem" => Some(MetricType::Memory),
            "cpu_temp" | "temp" => Some(MetricType::CpuTemp),
            "disk" => Some(MetricType::Disk),
            "network" | "net" => Some(MetricType::Network),
            "loadavg" | "load" => Some(MetricType::LoadAvg),
            _ => None,
        };
        assert_eq!(MetricType::from_str(name), expected);
    }
}

#[test]
fn alignment_ignores_surrounding_whitespace() {
    assert_eq!(Alignment::from_str("  right \n"), Some(Alignment::Right));
    assert_eq!(Alignment::from_str("\u{3000}^"), Some(Alignment::Center));
    assert_eq!(Alignment::from_str("mid"), None);
}

#[test]
fn all_metrics_in_default_order() {
    assert_eq!(
        MetricType::all(),
        vec![
            MetricType::Cpu,
            MetricType::Memory,
            MetricType::CpuTemp,
            MetricType::Disk,
            MetricType::Network,
            MetricType::LoadAvg,
        ]
    );
}

#[test]
fn thresholds_accept_plus_sign_and_reject_signs_alone() {
    let cfg = Config::from_map(&map(&[
        ("mem_warn_pct", "+70"),
        ("disk_warn_pct", "255"),
        ("cpu_temp_warn", "-5"),
        ("cpu_warn_pct", "+"),
    ]));
    assert_eq!(cfg.mem_warn_pct, 70);
    assert_eq!(cfg.disk_warn_pct, 255);
    assert_eq!(cfg.cpu_temp_warn, 80);
    assert_eq!(cfg.cpu_warn_pct, 80);
}

#[test]
fn refresh_interval_takes_large_values_and_rejects_overflow() {
    let cfg = Config::from_map(&map(&[("refresh_interval", "18446744073709551615")]));
    assert_eq!(cfg.refresh_interval, u64::MAX);
    let cfg = Config::from_map(&map(&[("refresh_interval", "18446744073709551616")]));
    assert_eq!(cfg.refresh_interval, 5);
    let cfg = Config::from_map(&map(&[("refresh_interval", " 7")]));
    assert_eq!(cfg.refresh_interval, 5);
}

#[test]
fn plugin_list_keeps_duplicates_and_empty_pieces_are_skipped() {
    let cfg = Config::from_map(&map(&[("plugins", ",cpu,,CPU, disk ,")]));
    assert_eq!(
        cfg.plugins,
        vec![MetricType::Cpu, MetricType::Cpu, MetricType::Disk]
    );
}

#[test]
fn default_config_shows_everything() {
    let cfg = Config::default();
    assert_eq!(cfg.plugins, MetricType::all());
    assert_eq!(cfg.refresh_interval, 5);
    assert_eq!(cfg.alignment, Alignment::default());
    assert_eq!(cfg.disk_path, "/");
    assert_eq!(cfg.network_interface, "all");
    for mt in MetricType::all() {
        assert!(cfg.is_enabled(mt));
    }
}

#[test]
fn show_false_hides_a_metric() {
    let cfg = Config::from_map(&map(&[("show_cpu", "false")]));
    assert!(!cfg.is_enabled(MetricType::Cpu));
    assert_eq!(
        cfg.plugins,
        vec![
            MetricType::Memory,
            MetricType::CpuTemp,
            MetricType::Disk,
            MetricType::Network,
            MetricType::LoadAvg,
        ]
    );
}

#[test]
fn show_switches_combine_with_the_plugin_list() {
    let cfg = Config::from_map(&map(&[
        ("plugins", "disk, cpu, net"),
        ("show_disk", " FALSE "),
        ("show_cpu", "true"),
        ("show_network", "no"),
        ("show_loadavg", "false"),
    ]));
    assert_eq!(cfg.plugins, vec![MetricType::Cpu, MetricType::Network]);
    let cfg = Config::from_map(&map(&[
        ("show_cpu", "false"),
        ("show_memory", "false"),
        ("show_cpu_temp", "false"),
        ("show_disk", "false"),
        ("show_network", "false"),
        ("show_loadavg", "false"),
    ]));
    assert!(cfg.plugins.is_empty());
}
