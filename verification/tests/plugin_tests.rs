use zellij_monitor::config::{Config, MetricType};
use zellij_monitor::plugin::{metric_for, metric_requests, react, tag_of, PluginEvent};

#[test]
fn tags_round_trip() {
    for mt in MetricType::all() {
        assert_eq!(metric_for(tag_of(mt)), Some(mt));
    }
    assert_eq!(metric_for("CPU"), None);
    assert_eq!(metric_for("mem"), None);
}

#[test]
fn requests_follow_configuration() {
    let mut cfg = Config::default();
    cfg.disk_path = "/home".to_string();
    let reqs = metric_requests(&cfg);
    let got: Vec<(Vec<String>, String)> =
        reqs.into_iter().map(|r| (r.command, r.metric)).collect();
    let expected: Vec<(Vec<&str>, &str)> = vec![
        (vec!["cat", "/proc/stat"], "cpu"),
        (vec!["cat", "/proc/meminfo"], "memory"),
        (vec!["sh", "-c", "cat /sys/class/thermal/thermal_zone*/temp"], "cpu_temp"),
        (vec!["df", "-BM", "/home"], "disk"),
        (vec!["cat", "/proc/net/dev"], "network"),
        (vec!["cat", "/proc/loadavg"], "loadavg"),
    ];
    assert_eq!(got.len(), expected.len());
    for ((cmd, tag), (ecmd, etag)) in got.iter().zip(expected.iter()) {
        assert_eq!(cmd, ecmd);
        assert_eq!(tag, etag);
    }
}

#[test]
fn permission_events() {
    let r = react(false, &PluginEvent::PermissionGranted);
    assert!(r.permissions_granted && r.make_unselectable && r.request_metrics && r.arm_timer);
    assert!(r.render);
    let r = react(true, &PluginEvent::PermissionDenied);
    assert!(!r.permissions_granted && !r.request_metrics && !r.arm_timer && r.render);
}

#[test]
fn timer_requests_only_with_permission() {
    let r = react(false, &PluginEvent::Timer);
    assert!(!r.request_metrics && r.arm_timer && r.render);
    let r = react(true, &PluginEvent::Timer);
    assert!(r.request_metrics && r.arm_timer && r.permissions_granted);
}

#[test]
fn command_results_are_dispatched_by_tag() {
    let ok = |tag: &str| PluginEvent::CommandFinished {
        success: true,
        metric: Some(tag.to_string()),
    };
    assert_eq!(react(true, &ok("disk")).apply, Some(MetricType::Disk));
    assert_eq!(react(true, &ok("bogus")).apply, None);
    let failed = PluginEvent::CommandFinished {
        success: false,
        metric: Some("cpu".to_string()),
    };
    let r = react(true, &failed);
    assert_eq!(r.apply, None);
    assert!(r.render);
    let r = react(true, &PluginEvent::Other);
    assert!(!r.render);
}
