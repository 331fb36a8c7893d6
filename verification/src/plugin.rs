//! The plugin's decisions, apart from the host calls that carry them out:
//! which commands to run for the configured metrics, and how to react to each
//! event the host delivers.
use vstd::prelude::*;

use crate::config::{Config, MetricType};
use crate::text::{chars_eq_str, strings_of, to_chars};

verus! {

/// The tag a metric's command is labelled with, and by which its output is
/// recognised when it comes back.
pub open spec fn metric_tag(mt: MetricType) -> Seq<char> {
    match mt {
        MetricType::Cpu => "cpu"@,
        MetricType::Memory => "memory"@,
        MetricType::CpuTemp => "cpu_temp"@,
        MetricType::Disk => "disk"@,
        MetricType::Network => "network"@,
        MetricType::LoadAvg => "loadavg"@,
    }
}

/// The metric whose output carries the tag `tag`.
pub open spec fn metric_for_tag(tag: Seq<char>) -> Option<MetricType> {
    if tag == "cpu"@ {
        Some(MetricType::Cpu)
    } else if tag == "memory"@ {
        Some(MetricType::Memory)
    } else if tag == "loadavg"@ {
        Some(MetricType::LoadAvg)
    } else if tag == "network"@ {
        Some(MetricType::Network)
    } else if tag == "cpu_temp"@ {
        Some(MetricType::CpuTemp)
    } else if tag == "disk"@ {
        Some(MetricType::Disk)
    } else {
        None
    }
}

/// The tag of a metric.
pub fn tag_of(mt: MetricType) -> (r: &'static str)
    ensures
        r@ == metric_tag(mt),
{
    match mt {
        MetricType::Cpu => "cpu",
        MetricType::Memory => "memory",
        MetricType::CpuTemp => "cpu_temp",
        MetricType::Disk => "disk",
        MetricType::Network => "network",
        MetricType::LoadAvg => "loadavg",
    }
}

/// The metric a command result's tag names, if any.
pub fn metric_for(tag: &str) -> (r: Option<MetricType>)
    ensures
        r == metric_for_tag(tag@),
{
    let t = to_chars(tag);
    let t = t.as_slice();
    if chars_eq_str(t, "cpu") {
        Some(MetricType::Cpu)
    } else if chars_eq_str(t, "memory") {
        Some(MetricType::Memory)
    } else if chars_eq_str(t, "loadavg") {
        Some(MetricType::LoadAvg)
    } else if chars_eq_str(t, "network") {
        Some(MetricType::Network)
    } else if chars_eq_str(t, "cpu_temp") {
        Some(MetricType::CpuTemp)
    } else if chars_eq_str(t, "disk") {
        Some(MetricType::Disk)
    } else {
        None
    }
}

/// The command whose output a metric is read from: the kernel's text files
/// through `cat`, the thermal zones through a shell glob, and `df -BM` for
/// the configured disk path.
pub open spec fn command_for(mt: MetricType, disk_path: Seq<char>) -> Seq<Seq<char>> {
    match mt {
        MetricType::Cpu => seq!["cat"@, "/proc/stat"@],
        MetricType::Memory => seq!["cat"@, "/proc/meminfo"@],
        MetricType::LoadAvg => seq!["cat"@, "/proc/loadavg"@],
        MetricType::Network => seq!["cat"@, "/proc/net/dev"@],
        MetricType::CpuTemp => seq!["sh"@, "-c"@, "cat /sys/class/thermal/thermal_zone*/temp"@],
        MetricType::Disk => seq!["df"@, "-BM"@, disk_path],
    }
}

/// A command to run, and the tag its result comes back with.
#[derive(Debug, Clone)]
pub struct MetricRequest {
    pub command: Vec<String>,
    pub metric: String,
}

fn command_of(mt: MetricType, disk_path: &String) -> (r: Vec<String>)
    ensures
        strings_of(r@) == command_for(mt, disk_path@),
{
    let r = match mt {
        MetricType::Cpu => vec![String::from_str("cat"), String::from_str("/proc/stat")],
        MetricType::Memory => vec![String::from_str("cat"), String::from_str("/proc/meminfo")],
        MetricType::LoadAvg => vec![String::from_str("cat"), String::from_str("/proc/loadavg")],
        MetricType::Network => vec![String::from_str("cat"), String::from_str("/proc/net/dev")],
        MetricType::CpuTemp => vec![
            String::from_str("sh"),
            String::from_str("-c"),
            String::from_str("cat /sys/class/thermal/thermal_zone*/temp"),
        ],
        MetricType::Disk => vec![
            String::from_str("df"),
            String::from_str("-BM"),
            disk_path.clone(),
        ],
    };
    assert(strings_of(r@) =~= command_for(mt, disk_path@));
    r
}

/// One request per configured metric, in the configured order.
pub fn metric_requests(config: &Config) -> (r: Vec<MetricRequest>)
    ensures
        r@.len() == config.plugins@.len(),
        forall|i: int|
            0 <= i < r@.len() ==> {
                &&& strings_of(#[trigger] r@[i].command@) == command_for(
                    config.plugins@[i],
                    config.disk_path@,
                )
                &&& r@[i].metric@ == metric_tag(config.plugins@[i])
            },
{
    let mut r: Vec<MetricRequest> = Vec::new();
    let mut i: usize = 0;
    while i < config.plugins.len()
        invariant
            i <= config.plugins.len(),
            r@.len() == i,
            forall|j: int|
                0 <= j < i ==> {
                    &&& strings_of(#[trigger] r@[j].command@) == command_for(
                        config.plugins@[j],
                        config.disk_path@,
                    )
                    &&& r@[j].metric@ == metric_tag(config.plugins@[j])
                },
        decreases config.plugins.len() - i,
    {
        let mt = config.plugins[i];
        let command = command_of(mt, &config.disk_path);
        let metric = String::from_str(tag_of(mt));
        r.push(MetricRequest { command, metric });
        i += 1;
    }
    r
}

/// What the host reports to the plugin.
#[derive(Debug, Clone)]
pub enum PluginEvent {
    PermissionGranted,
    PermissionDenied,
    /// The timer went off.
    Timer,
    /// A command finished; `success` when it exited with code 0, `metric` the
    /// tag it was labelled with.
    CommandFinished { success: bool, metric: Option<String> },
    /// Any other event.
    Other,
}

/// What the plugin does in response to an event.
#[derive(Debug, Clone, Copy, PartialEq, Eq, Structural)]
pub struct Reaction {
    /// Whether permissions are granted from now on.
    pub permissions_granted: bool,
    /// Make the pane unselectable.
    pub make_unselectable: bool,
    /// Run the commands of all configured metrics.
    pub request_metrics: bool,
    /// Arm the timer for the next refresh.
    pub arm_timer: bool,
    /// Read the finished command's output as this metric.
    pub apply: Option<MetricType>,
    /// Redraw the bar.
    pub render: bool,
}

/// The reaction to `event` when permissions were `granted` before it.
pub open spec fn reaction_for(granted: bool, event: PluginEvent) -> Reaction {
    match event {
        PluginEvent::PermissionGranted => Reaction {
            permissions_granted: true,
            make_unselectable: true,
            request_metrics: true,
            arm_timer: true,
            apply: None,
            render: true,
        },
        PluginEvent::PermissionDenied => Reaction {
            permissions_granted: false,
            make_unselectable: false,
            request_metrics: false,
            arm_timer: false,
            apply: None,
            render: true,
        },
        PluginEvent::Timer => Reaction {
            permissions_granted: granted,
            make_unselectable: false,
            request_metrics: granted,
            arm_timer: true,
            apply: None,
            render: true,
        },
        PluginEvent::CommandFinished { success, metric } => Reaction {
            permissions_granted: granted,
            make_unselectable: false,
            request_metrics: false,
            arm_timer: false,
            apply: if success {
                match metric {
                    Some(t) => metric_for_tag(t@),
                    None => None,
                }
            } else {
                None
            },
            render: true,
        },
        PluginEvent::Other => Reaction {
            permissions_granted: granted,
            make_unselectable: false,
            request_metrics: false,
            arm_timer: false,
            apply: None,
            render: false,
        },
    }
}

/// Decides how to react to an event, given whether permissions were granted.
pub fn react(granted: bool, event: &PluginEvent) -> (r: Reaction)
    ensures
        r == reaction_for(granted, *event),
{
    match event {
        PluginEvent::PermissionGranted => Reaction {
            permissions_granted: true,
            make_unselectable: true,
            request_metrics: true,
            arm_timer: true,
            apply: None,
            render: true,
        },
        PluginEvent::PermissionDenied => Reaction {
            permissions_granted: false,
            make_unselectable: false,
            request_metrics: false,
            arm_timer: false,
            apply: None,
            render: true,
        },
        PluginEvent::Timer => Reaction {
            permissions_granted: granted,
            make_unselectable: false,
            request_metrics: granted,
            arm_timer: true,
            apply: None,
            render: true,
        },
        PluginEvent::CommandFinished { success, metric } => {
            let apply = if *success {
                match metric {
                    Some(t) => metric_for(t.as_str()),
                    None => None,
                }
            } else {
                None
            };
            Reaction {
                permissions_granted: granted,
                make_unselectable: false,
                request_metrics: false,
                arm_timer: false,
                apply,
                render: true,
            }
        },
        PluginEvent::Other => Reaction {
            permissions_granted: granted,
            make_unselectable: false,
            request_metrics: false,
            arm_timer: false,
            apply: None,
            render: false,
        },
    }
}

/// The output of every requested command is read back as the metric it was
/// requested for: a metric's tag names that metric.
pub proof fn lemma_tag_round_trip(mt: MetricType)
    ensures
        metric_for_tag(metric_tag(mt)) == Some(mt),
{
    reveal_strlit("cpu");
    reveal_strlit("memory");
    reveal_strlit("loadavg");
    reveal_strlit("network");
    reveal_strlit("cpu_temp");
    reveal_strlit("disk");
    assert("cpu"@.len() == 3);
    assert("memory"@.len() == 6);
    assert("loadavg"@.len() == 7 && "loadavg"@[0] == 'l');
    assert("network"@.len() == 7 && "network"@[0] == 'n');
    assert("cpu_temp"@.len() == 8);
    assert("disk"@.len() == 4);
}

/// Metrics are only ever requested while permissions are granted, and every
/// request is followed by arming the timer, so the refresh cycle continues.
pub proof fn lemma_requests_need_permission(granted: bool, event: PluginEvent)
    ensures
        reaction_for(granted, event).request_metrics ==> reaction_for(
            granted,
            event,
        ).permissions_granted,
        reaction_for(granted, event).request_metrics ==> reaction_for(granted, event).arm_timer,
{
}

} // verus!
