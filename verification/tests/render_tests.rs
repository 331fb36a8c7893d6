use zellij_monitor::config::{Alignment, Config, MetricType};
use zellij_monitor::render::{
    aligned, bg, fg, fmt_mib, render_bar, strip_ansi, truncate_visual, value_color, BarState,
    FG_CRIT, FG_LABEL, FG_OK, FG_WARN,
};

fn rate(kbps: f64) -> String {
    format!("{:.0}KB/s", kbps)
}

fn base_state() -> BarState {
    BarState {
        config: Config::default(),
        cpu_pct: 0,
        mem_used_mib: 0,
        mem_total_mib: 0,
        cpu_temp_celsius: 0,
        disk_used_pct: 0,
        disk_avail_mib: 0,
        net_rx: rate(0.0),
        net_tx: rate(0.0),
        load: format!("{:.2} {:.2} {:.2}", 0.0f32, 0.0f32, 0.0f32),
        permissions_granted: false,
        initialized: false,
    }
}

#[test]
fn strip_ansi_removes_escape_codes() {
    let s = "\x1b[38;2;100;220;120mOK\x1b[0m";
    assert_eq!(strip_ansi(s), "OK");
}

#[test]
fn truncate_visual_limits_length() {
    let s = "Hello World";
    assert_eq!(truncate_visual(s, 5), "Hello");
    assert_eq!(truncate_visual(s, 20), "Hello World");
    assert_eq!(truncate_visual(s, 0), "");
}

#[test]
fn value_color_ok_below_warn() {
    let col = value_color(50, 80);
    assert_eq!(col, fg(FG_OK.0, FG_OK.1, FG_OK.2));
}

#[test]
fn value_color_warn_near_threshold() {
    let col = value_color(72, 80); // within 10 %
    assert_eq!(col, fg(FG_WARN.0, FG_WARN.1, FG_WARN.2));
}

#[test]
fn value_color_crit_at_threshold() {
    let col = value_color(80, 80);
    assert_eq!(col, fg(FG_CRIT.0, FG_CRIT.1, FG_CRIT.2));
}

#[test]
fn render_bar_respects_narrow_terminal() {
    let mut state = base_state();
    state.permissions_granted = true;
    state.initialized = true;
    state.cpu_pct = 42.0f32 as u8;
    state.mem_used_mib = 4000;
    state.mem_total_mib = 16000;
    state.load = format!("{:.2} {:.2} {:.2}", 0.5f32, 0.6f32, 0.7f32);

    let output = render_bar(&state, 20);
    // Visual width of the stripped output must be ≤ 20
    assert!(strip_ansi(&output).len() <= 20);
}

// ---------------------------------------------------------------------------

#[test]
fn colour_sequences_match_format() {
    assert_eq!(fg(1, 22, 255), "\x1b[38;2;1;22;255m");
    assert_eq!(bg(30, 30, 36), "\x1b[48;2;30;30;36m");
    assert_eq!(value_color(69, 80), fg(FG_OK.0, FG_OK.1, FG_OK.2));
    assert_eq!(value_color(70, 80), fg(FG_WARN.0, FG_WARN.1, FG_WARN.2));
    assert_eq!(value_color(255, 0), fg(FG_CRIT.0, FG_CRIT.1, FG_CRIT.2));
}

#[test]
fn fmt_mib_matches_float_formatting() {
    let mut values: Vec<u64> = vec![
        0, 1, 999, 1023, 1024, 1075, 1076, 1126, 1280, 1331, 1536, 1792, 2048, 48000, 98304,
        1 << 40, (1 << 53) - 1, 1 << 53, (1 << 53) + 1, (1 << 53) + 3, (1 << 54) + 2,
        (1 << 54) + 6, u64::MAX, u64::MAX - 1024, u64::MAX / 3,
    ];
    for i in 0..5000u64 {
        values.push(1024 + i * 51);
        values.push(i * 1024 + 256);
        values.push(i.wrapping_mul(0x9E37_79B9_7F4A_7C15));
    }
    for mib in values {
        let expected = if mib >= 1024 {
            format!("{:.1}GiB", mib as f64 / 1024.0)
        } else {
            format!("{mib}MiB")
        };
        assert_eq!(fmt_mib(mib), expected, "mib = {mib}");
    }
}

#[test]
fn memory_segment_matches_float_formatting() {
    let cases: Vec<(u64, u64)> = vec![
        (4000, 16000), (0, 1), (500, 1000), (1280, 4096), (1, 1023), ((1 << 53) + 1, 1 << 60),
        (123456789, 987654321),
    ];
    for (used, total) in cases {
        let mut state = base_state();
        state.permissions_granted = true;
        state.config.plugins = vec![MetricType::Memory];
        state.mem_used_mib = used;
        state.mem_total_mib = total;
        assert!(state.can_render());
        let out = strip_ansi(&render_bar(&state, 200));
        let (u, t, unit) = if total >= 1024 {
            (used as f64 / 1024.0, total as f64 / 1024.0, "GiB")
        } else {
            (used as f64, total as f64, "MiB")
        };
        let expected = format!("MEM {:.1}/{:.1} {} ", u, t, unit);
        assert!(out.starts_with(&expected), "{out:?} vs {expected:?}");
        assert_eq!(out.len(), 200);
    }
}

#[test]
fn segments_follow_the_configured_order() {
    let mut state = base_state();
    state.permissions_granted = true;
    state.config.plugins = vec![MetricType::Disk, MetricType::Cpu, MetricType::CpuTemp];
    state.cpu_pct = 7;
    state.cpu_temp_celsius = 52;
    state.disk_used_pct = 49;
    state.disk_avail_mib = 48000;
    let out = strip_ansi(&render_bar(&state, 80));
    let expected = "DISK  49% 46.9GiB free  │  CPU   7%  │  TEMP  52°C ";
    assert!(out.starts_with(expected), "{out:?}");
    assert_eq!(out.len(), 80);
    assert_eq!(&out[expected.len()..], " ".repeat(80 - expected.len()));
}

#[test]
fn memory_without_total_is_not_shown() {
    let mut state = base_state();
    state.permissions_granted = true;
    state.config.plugins = vec![MetricType::Memory, MetricType::LoadAvg];
    let out = strip_ansi(&render_bar(&state, 40));
    assert!(out.starts_with("LOAD 0.00 0.00 0.00 "), "{out:?}");
}

#[test]
fn narrow_terminal_drops_trailing_segments() {
    let mut state = base_state();
    state.permissions_granted = true;
    state.config.plugins = vec![MetricType::Cpu, MetricType::CpuTemp];
    state.cpu_pct = 42;
    // "CPU  42%  │  TEMP   0°C " is too wide for 20; " CPU  42% " fits.
    let out = strip_ansi(&render_bar(&state, 20));
    assert_eq!(out, format!(" CPU  42% {}", " ".repeat(10)));
    // Nothing fits in 5 columns.
    assert_eq!(render_bar(&state, 5), "");
}

#[test]
fn alignment_pads_on_the_requested_side() {
    let content = "\x1b[0mab";
    assert_eq!(
        aligned(6, 2, content, Alignment::Left),
        format!("{}{}\x1b[0m    \x1b[0m", bg(30, 30, 36), content)
    );
    assert_eq!(
        aligned(7, 2, content, Alignment::Center),
        format!("  {}{}\x1b[0m   \x1b[0m", bg(30, 30, 36), content)
    );
    assert_eq!(
        aligned(6, 2, content, Alignment::Right),
        format!("    {}{}\x1b[0m", bg(30, 30, 36), content)
    );
    assert_eq!(
        aligned(1, 2, content, Alignment::Right),
        format!("{}{}\x1b[0m", bg(30, 30, 36), content)
    );
}

#[test]
fn waiting_message_until_permissions() {
    let state = base_state();
    let out = render_bar(&state, 10);
    assert_eq!(
        out,
        format!(
            "{}{} ⏳ Waiting\x1b[0m",
            bg(30, 30, 36),
            fg(FG_LABEL.0, FG_LABEL.1, FG_LABEL.2)
        )
    );
    assert_eq!(strip_ansi(&render_bar(&state, 0)), "");
    let mut state2 = base_state();
    state2.initialized = true;
    assert!(!strip_ansi(&render_bar(&state2, 100)).contains("Waiting"));
}

#[test]
fn bar_is_exactly_as_wide_as_the_terminal() {
    for cols in [0usize, 3, 10, 25, 40, 60, 79, 80, 120] {
        for alignment in [Alignment::Left, Alignment::Center, Alignment::Right] {
            let mut state = base_state();
            state.permissions_granted = true;
            state.config.alignment = alignment;
            state.cpu_pct = 100;
            state.mem_used_mib = 3000;
            state.mem_total_mib = 16000;
            state.disk_avail_mib = 1024;
            let out = render_bar(&state, cols);
            let width = strip_ansi(&out).len();
            assert!(out.is_empty() || width == cols, "cols {cols}: {width}");
        }
    }
}

#[test]
fn colours_near_the_top_of_the_range() {
    assert_eq!(value_color(250, 255), fg(FG_WARN.0, FG_WARN.1, FG_WARN.2));
    assert_eq!(value_color(246, 255), fg(FG_WARN.0, FG_WARN.1, FG_WARN.2));
    assert_eq!(value_color(244, 255), fg(FG_OK.0, FG_OK.1, FG_OK.2));
    assert_eq!(value_color(255, 255), fg(FG_CRIT.0, FG_CRIT.1, FG_CRIT.2));
    let mut state = base_state();
    state.permissions_granted = true;
    state.config.plugins = vec![MetricType::CpuTemp, MetricType::Memory];
    state.cpu_temp_celsius = 250;
    state.config.cpu_temp_warn = 255;
    assert!(state.can_render());
    state.mem_total_mib = 1;
    state.mem_used_mib = u64::MAX / 100 + 1;
    assert!(!state.can_render());
}

#[test]
fn strip_ansi_handles_unterminated_sequences() {
    assert_eq!(strip_ansi("a\x1b[1;2b"), "a");
    assert_eq!(strip_ansi("\x1b\x1b[0mz"), "z");
    assert_eq!(strip_ansi("plain"), "plain");
}
