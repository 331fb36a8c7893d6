//! Plugin configuration: which metrics to show and in what order, the polling
//! interval, the bar alignment, the disk and network sources, and the warning
//! thresholds, all read from the string map of the plugin's layout block.
use std::collections::BTreeMap;
use vstd::prelude::*;

use crate::text::{
    fold_all, lemma_fold_eq_fold_all, lemma_trim_fold_all, fold_eq, fold_lower, is_ws, trim_end, trim_start, fold_eq_str, parse_u64, parse_u8, parse_uint, seqs_of, split_char, split_on,
    to_chars, trim, trim_chars,
};

verus! {

/// Horizontal alignment of the status bar content.
///
/// Written `"left"` or `"<"`, `"center"` or `"^"`, `"right"` or `">"`
/// (case-insensitive, surrounding whitespace ignored); the default is `Left`.
#[derive(Debug, Clone, Copy, PartialEq, Eq, Structural)]
pub enum Alignment {
    Left,
    Center,
    Right,
}

impl Default for Alignment {
    fn default() -> (r: Self)
        ensures
            r == Alignment::Left,
    {
        Alignment::Left
    }
}

/// The alignment a configuration value names, if any.
pub open spec fn alignment_named(s: Seq<char>) -> Option<Alignment> {
    let t = trim(s);
    if fold_eq(t, "<"@) || fold_eq(t, "left"@) {
        Some(Alignment::Left)
    } else if fold_eq(t, "^"@) || fold_eq(t, "center"@) {
        Some(Alignment::Center)
    } else if fold_eq(t, ">"@) || fold_eq(t, "right"@) {
        Some(Alignment::Right)
    } else {
        None
    }
}

impl Alignment {
    /// Parses an alignment name (case-insensitive, trimmed).
    pub fn from_str(s: &str) -> (r: Option<Self>)
        ensures
            r == alignment_named(s@),
    {
        let chars = to_chars(s);
        let t = trim_chars(chars.as_slice());
        let t = t.as_slice();
        if fold_eq_str(t, "<") || fold_eq_str(t, "left") {
            Some(Alignment::Left)
        } else if fold_eq_str(t, "^") || fold_eq_str(t, "center") {
            Some(Alignment::Center)
        } else if fold_eq_str(t, ">") || fold_eq_str(t, "right") {
            Some(Alignment::Right)
        } else {
            None
        }
    }
}

/// The metrics the status bar can show.
#[derive(Debug, Clone, Copy, PartialEq, Eq, Structural)]
pub enum MetricType {
    Cpu,
    Memory,
    CpuTemp,
    Disk,
    Network,
    LoadAvg,
}

/// The metric a configuration value names, if any: `cpu`, `memory`/`mem`,
/// `cpu_temp`/`temp`, `disk`, `network`/`net`, `loadavg`/`load`
/// (case-insensitive, surrounding whitespace ignored).
pub open spec fn metric_named(s: Seq<char>) -> Option<MetricType> {
    let t = trim(s);
    if fold_eq(t, "cpu"@) {
        Some(MetricType::Cpu)
    } else if fold_eq(t, "memory"@) || fold_eq(t, "mem"@) {
        Some(MetricType::Memory)
    } else if fold_eq(t, "cpu_temp"@) || fold_eq(t, "temp"@) {
        Some(MetricType::CpuTemp)
    } else if fold_eq(t, "disk"@) {
        Some(MetricType::Disk)
    } else if fold_eq(t, "network"@) || fold_eq(t, "net"@) {
        Some(MetricType::Network)
    } else if fold_eq(t, "loadavg"@) || fold_eq(t, "load"@) {
        Some(MetricType::LoadAvg)
    } else {
        None
    }
}

/// Every metric, in the default display order.
pub open spec fn all_metrics() -> Seq<MetricType> {
    seq![
        MetricType::Cpu,
        MetricType::Memory,
        MetricType::CpuTemp,
        MetricType::Disk,
        MetricType::Network,
        MetricType::LoadAvg,
    ]
}

/// The metrics named by the given pieces, in order, skipping pieces that name
/// no metric.
pub open spec fn metrics_named(pieces: Seq<Seq<char>>) -> Seq<MetricType>
    decreases pieces.len(),
{
    if pieces.len() == 0 {
        seq![]
    } else {
        let rest = metrics_named(pieces.drop_last());
        match metric_named(pieces.last()) {
            Some(m) => rest.push(m),
            None => rest,
        }
    }
}

/// The metrics listed in a comma-separated value.
pub open spec fn metric_list(s: Seq<char>) -> Seq<MetricType> {
    metrics_named(split_on(s, ','))
}

fn metric_from_chars(s: &[char]) -> (r: Option<MetricType>)
    ensures
        r == metric_named(s@),
{
    let t = trim_chars(s);
    let t = t.as_slice();
    if fold_eq_str(t, "cpu") {
        Some(MetricType::Cpu)
    } else if fold_eq_str(t, "memory") || fold_eq_str(t, "mem") {
        Some(MetricType::Memory)
    } else if fold_eq_str(t, "cpu_temp") || fold_eq_str(t, "temp") {
        Some(MetricType::CpuTemp)
    } else if fold_eq_str(t, "disk") {
        Some(MetricType::Disk)
    } else if fold_eq_str(t, "network") || fold_eq_str(t, "net") {
        Some(MetricType::Network)
    } else if fold_eq_str(t, "loadavg") || fold_eq_str(t, "load") {
        Some(MetricType::LoadAvg)
    } else {
        None
    }
}

impl MetricType {
    /// Parses a single metric name (case-insensitive, trimmed).
    pub fn from_str(s: &str) -> (r: Option<Self>)
        ensures
            r == metric_named(s@),
    {
        let chars = to_chars(s);
        metric_from_chars(chars.as_slice())
    }

    /// All metric types in default display order.
    pub fn all() -> (r: Vec<Self>)
        ensures
            r@ == all_metrics(),
    {
        let r = vec![
            MetricType::Cpu,
            MetricType::Memory,
            MetricType::CpuTemp,
            MetricType::Disk,
            MetricType::Network,
            MetricType::LoadAvg,
        ];
        assert(r@ =~= all_metrics());
        r
    }
}

/// The metrics listed in a comma-separated value, in order.
pub fn parse_metric_list(s: &[char]) -> (r: Vec<MetricType>)
    ensures
        r@ == metric_list(s@),
{
    let pieces = split_char(s, ',');
    let mut r: Vec<MetricType> = Vec::new();
    let mut i: usize = 0;
    while i < pieces.len()
        invariant
            i <= pieces.len(),
            seqs_of(pieces@) == split_on(s@, ','),
            r@ == metrics_named(seqs_of(pieces@).take(i as int)),
        decreases pieces.len() - i,
    {
        let ghost before = seqs_of(pieces@).take(i as int);
        let ghost after = seqs_of(pieces@).take(i + 1);
        assert(after.drop_last() =~= before);
        assert(after.last() == pieces@[i as int]@);
        match metric_from_chars(pieces[i].as_slice()) {
            Some(m) => r.push(m),
            None => {},
        }
        i += 1;
    }
    assert(seqs_of(pieces@).take(pieces.len() as int) =~= seqs_of(pieces@));
    r
}

/// Plugin configuration, loaded from the layout's key/value map.
#[derive(Debug, Clone)]
pub struct Config {
    /// Ordered list of metrics to display. Only metrics listed here are shown.
    pub plugins: Vec<MetricType>,
    /// Polling interval in seconds (at least 1).
    pub refresh_interval: u64,
    pub alignment: Alignment,
    /// Mount point whose disk usage is shown.
    pub disk_path: String,
    /// Network interface to track, or `"all"` for every non-loopback one.
    pub network_interface: String,
    pub cpu_warn_pct: u8,
    pub mem_warn_pct: u8,
    pub disk_warn_pct: u8,
    /// Warning threshold for CPU temperature in °C.
    pub cpu_temp_warn: u8,
}

/// The default configuration: every metric in default order, a 5 s interval,
/// left alignment, disk `/`, network `all`, and all thresholds at 80.
pub open spec fn is_default_config(c: Config) -> bool {
    &&& c.plugins@ == all_metrics()
    &&& c.refresh_interval == 5
    &&& c.alignment == Alignment::Left
    &&& c.disk_path@ == "/"@
    &&& c.network_interface@ == "all"@
    &&& c.cpu_warn_pct == 80
    &&& c.mem_warn_pct == 80
    &&& c.disk_warn_pct == 80
    &&& c.cpu_temp_warn == 80
}

impl Default for Config {
    fn default() -> (r: Self)
        ensures
            is_default_config(r),
    {
        Config {
            plugins: MetricType::all(),
            refresh_interval: 5,
            alignment: Alignment::Left,
            disk_path: String::from_str("/"),
            network_interface: String::from_str("all"),
            cpu_warn_pct: 80,
            mem_warn_pct: 80,
            disk_warn_pct: 80,
            cpu_temp_warn: 80,
        }
    }
}

/// `plugins`: the listed metrics, or every metric when the key is absent or
/// names none.
pub open spec fn listed_metrics(m: Map<Seq<char>, Seq<char>>) -> Seq<MetricType> {
    if m.contains_key("plugins"@) && metric_list(m["plugins"@]).len() > 0 {
        metric_list(m["plugins"@])
    } else {
        all_metrics()
    }
}

/// The key that switches a metric off: `show_cpu`, `show_memory`,
/// `show_cpu_temp`, `show_disk`, `show_network`, `show_loadavg`.
pub open spec fn show_key(mt: MetricType) -> Seq<char> {
    match mt {
        MetricType::Cpu => "show_cpu"@,
        MetricType::Memory => "show_memory"@,
        MetricType::CpuTemp => "show_cpu_temp"@,
        MetricType::Disk => "show_disk"@,
        MetricType::Network => "show_network"@,
        MetricType::LoadAvg => "show_loadavg"@,
    }
}

/// A metric is hidden when its `show_<metric>` key says `"false"`
/// (case-insensitive, surrounding whitespace ignored); any other value, or
/// no value, shows it.
pub open spec fn hidden(m: Map<Seq<char>, Seq<char>>, mt: MetricType) -> bool {
    m.contains_key(show_key(mt)) && fold_eq(trim(m[show_key(mt)]), "false"@)
}

/// The metrics of `ms` that are not hidden, in order.
pub open spec fn keep_shown(ms: Seq<MetricType>, m: Map<Seq<char>, Seq<char>>) -> Seq<MetricType>
    decreases ms.len(),
{
    if ms.len() == 0 {
        seq![]
    } else {
        let rest = keep_shown(ms.drop_last(), m);
        if hidden(m, ms.last()) {
            rest
        } else {
            rest.push(ms.last())
        }
    }
}

/// The metrics shown: the listed ones without those switched off.
pub open spec fn plugins_setting(m: Map<Seq<char>, Seq<char>>) -> Seq<MetricType> {
    keep_shown(listed_metrics(m), m)
}

/// `refresh_interval`: the parsed number of seconds raised to at least 1, or
/// 5 when the key is absent or its value is not a `u64`.
pub open spec fn refresh_setting(m: Map<Seq<char>, Seq<char>>) -> u64 {
    if m.contains_key("refresh_interval"@) {
        match parse_uint(m["refresh_interval"@], u64::MAX as nat) {
            Some(n) => if n >= 1 {
                n as u64
            } else {
                1
            },
            None => 5,
        }
    } else {
        5
    }
}

/// `alignment`: the named alignment, or `Left`.
pub open spec fn alignment_setting(m: Map<Seq<char>, Seq<char>>) -> Alignment {
    if m.contains_key("alignment"@) {
        match alignment_named(m["alignment"@]) {
            Some(a) => a,
            None => Alignment::Left,
        }
    } else {
        Alignment::Left
    }
}

/// A text setting: the value as given, or `default`.
pub open spec fn text_setting(m: Map<Seq<char>, Seq<char>>, key: Seq<char>, default: Seq<char>) -> Seq<char> {
    if m.contains_key(key) {
        m[key]
    } else {
        default
    }
}

/// A threshold setting: the value parsed as a `u8`, or 80 when the key is
/// absent or the value is not a `u8` (e.g. out of range).
pub open spec fn threshold_setting(m: Map<Seq<char>, Seq<char>>, key: Seq<char>) -> u8 {
    if m.contains_key(key) {
        match parse_uint(m[key], u8::MAX as nat) {
            Some(n) => n as u8,
            None => 80,
        }
    } else {
        80
    }
}

/// `c` is the configuration that the key/value map `m` describes.
pub open spec fn config_from(c: Config, m: Map<Seq<char>, Seq<char>>) -> bool {
    &&& c.plugins@ == plugins_setting(m)
    &&& c.refresh_interval == refresh_setting(m)
    &&& c.alignment == alignment_setting(m)
    &&& c.disk_path@ == text_setting(m, "disk_path"@, "/"@)
    &&& c.network_interface@ == text_setting(m, "network_interface"@, "all"@)
    &&& c.cpu_warn_pct == threshold_setting(m, "cpu_warn_pct"@)
    &&& c.mem_warn_pct == threshold_setting(m, "mem_warn_pct"@)
    &&& c.disk_warn_pct == threshold_setting(m, "disk_warn_pct"@)
    &&& c.cpu_temp_warn == threshold_setting(m, "cpu_temp_warn"@)
}

/// Looks up a setting by name (`BTreeMap::get`).
///
/// Claimed of `BTreeMap::<String, String>::get`: it returns the value stored
/// under the key whose characters are those of `key`, and `None` when there is
/// no such key. String keys are ordered by their bytes, so two keys are the
/// same key exactly when they hold the same characters.
#[verifier::external_body]
fn setting<'a>(map: &'a BTreeMap<String, String>, key: &str) -> (r: Option<&'a String>)
    ensures
        match r {
            Some(v) => map.deep_view().contains_key(key@) && map.deep_view()[key@] == v@,
            None => !map.deep_view().contains_key(key@),
        },
{
    map.get(key)
}

fn threshold_from(map: &BTreeMap<String, String>, key: &str) -> (r: u8)
    ensures
        r == threshold_setting(map.deep_view(), key@),
{
    match setting(map, key) {
        Some(v) => {
            let chars = to_chars(v.as_str());
            match parse_u8(chars.as_slice()) {
                Some(n) => n,
                None => 80,
            }
        },
        None => 80,
    }
}

fn show_key_of(mt: MetricType) -> (r: &'static str)
    ensures
        r@ == show_key(mt),
{
    match mt {
        MetricType::Cpu => "show_cpu",
        MetricType::Memory => "show_memory",
        MetricType::CpuTemp => "show_cpu_temp",
        MetricType::Disk => "show_disk",
        MetricType::Network => "show_network",
        MetricType::LoadAvg => "show_loadavg",
    }
}

fn is_hidden(map: &BTreeMap<String, String>, mt: MetricType) -> (r: bool)
    ensures
        r == hidden(map.deep_view(), mt),
{
    match setting(map, show_key_of(mt)) {
        Some(v) => {
            let chars = to_chars(v.as_str());
            let t = trim_chars(chars.as_slice());
            fold_eq_str(t.as_slice(), "false")
        },
        None => false,
    }
}

fn shown_metrics(ms: &Vec<MetricType>, map: &BTreeMap<String, String>) -> (r: Vec<MetricType>)
    ensures
        r@ == keep_shown(ms@, map.deep_view()),
{
    let mut r: Vec<MetricType> = Vec::new();
    let mut i: usize = 0;
    while i < ms.len()
        invariant
            i <= ms.len(),
            r@ == keep_shown(ms@.take(i as int), map.deep_view()),
        decreases ms.len() - i,
    {
        let ghost upto = ms@.take(i + 1);
        assert(upto.drop_last() =~= ms@.take(i as int));
        assert(upto.last() == ms@[i as int]);
        if !is_hidden(map, ms[i]) {
            r.push(ms[i]);
        }
        i += 1;
    }
    assert(ms@.take(ms.len() as int) =~= ms@);
    r
}

impl Config {
    /// Returns `true` if the given metric type is enabled (present in `plugins`).
    pub fn is_enabled(&self, mt: MetricType) -> (r: bool)
        ensures
            r == self.plugins@.contains(mt),
    {
        let mut i: usize = 0;
        while i < self.plugins.len()
            invariant
                i <= self.plugins.len(),
                forall|j: int| 0 <= j < i ==> self.plugins@[j] != mt,
            decreases self.plugins.len() - i,
        {
            if self.plugins[i] == mt {
                assert(self.plugins@[i as int] == mt);
                return true;
            }
            i += 1;
        }
        false
    }

    /// Reads the configuration from the layout's key/value map; keys that are
    /// absent, and values that do not parse, keep their defaults. A metric
    /// whose `show_<metric>` key says `"false"` is left out of `plugins`.
    pub fn from_map(map: &BTreeMap<String, String>) -> (cfg: Self)
        ensures
            config_from(cfg, map.deep_view()),
            cfg.refresh_interval >= 1,
    {
        let mut cfg = Self::default();
        let mut listed = MetricType::all();
        if let Some(v) = setting(map, "plugins") {
            let chars = to_chars(v.as_str());
            let parsed = parse_metric_list(chars.as_slice());
            if parsed.len() > 0 {
                listed = parsed;
            }
        }
        cfg.plugins = shown_metrics(&listed, map);
        if let Some(v) = setting(map, "refresh_interval") {
            let chars = to_chars(v.as_str());
            cfg.refresh_interval = match parse_u64(chars.as_slice()) {
                Some(n) => if n >= 1 {
                    n
                } else {
                    1
                },
                None => 5,
            };
        }
        if let Some(v) = setting(map, "alignment") {
            cfg.alignment = match Alignment::from_str(v.as_str()) {
                Some(a) => a,
                None => Alignment::Left,
            };
        }
        if let Some(v) = setting(map, "disk_path") {
            cfg.disk_path = v.clone();
        }
        if let Some(v) = setting(map, "network_interface") {
            cfg.network_interface = v.clone();
        }
        cfg.cpu_warn_pct = threshold_from(map, "cpu_warn_pct");
        cfg.mem_warn_pct = threshold_from(map, "mem_warn_pct");
        cfg.disk_warn_pct = threshold_from(map, "disk_warn_pct");
        cfg.cpu_temp_warn = threshold_from(map, "cpu_temp_warn");
        cfg
    }
}

/// Names of metrics and alignments are case-insensitive: two values that
/// differ only in letter case name the same thing.
pub proof fn lemma_names_ignore_case(a: Seq<char>, b: Seq<char>)
    requires
        fold_all(a) == fold_all(b),
    ensures
        metric_named(a) == metric_named(b),
        alignment_named(a) == alignment_named(b),
{
    lemma_trim_fold_all(a);
    lemma_trim_fold_all(b);
    let ta = trim(a);
    let tb = trim(b);
    assert forall|kw: Seq<char>| fold_eq(ta, kw) == fold_eq(tb, kw) by {
        lemma_fold_eq_fold_all(ta, kw);
        lemma_fold_eq_fold_all(tb, kw);
    }
}

/// A sequence of lowercase ASCII letters and `_` is its own trim and matches
/// itself as a keyword.
proof fn lemma_plain_name(t: Seq<char>)
    requires
        t.len() > 0,
        forall|i: int| 0 <= i < t.len() ==> ('a' <= #[trigger] t[i] && t[i] <= 'z') || t[i] == '_',
    ensures
        trim(t) == t,
        fold_eq(t, t),
{
    assert(!is_ws(t[0]));
    assert(!is_ws(t[t.len() - 1]));
    assert(trim_start(t) == t);
    assert(trim_end(t) == t);
}

/// Each metric is switched off by its own key: `show_` followed by a name
/// that, as a `plugins` entry, selects that same metric.
pub proof fn lemma_show_key_names_its_metric(mt: MetricType)
    ensures
        show_key(mt).len() > 5,
        show_key(mt).take(5) == "show_"@,
        metric_named(show_key(mt).skip(5)) == Some(mt),
{
    reveal_strlit("show_");
    reveal_strlit("show_cpu");
    reveal_strlit("show_memory");
    reveal_strlit("show_cpu_temp");
    reveal_strlit("show_disk");
    reveal_strlit("show_network");
    reveal_strlit("show_loadavg");
    reveal_strlit("cpu");
    reveal_strlit("memory");
    reveal_strlit("mem");
    reveal_strlit("cpu_temp");
    reveal_strlit("temp");
    reveal_strlit("disk");
    reveal_strlit("network");
    reveal_strlit("net");
    reveal_strlit("loadavg");
    reveal_strlit("load");
    let k = show_key(mt);
    let t = k.skip(5);
    assert("show_"@ =~= seq!['s', 'h', 'o', 'w', '_']);
    match mt {
        MetricType::Cpu => {
            assert(k =~= seq!['s', 'h', 'o', 'w', '_', 'c', 'p', 'u']);
            assert(t =~= "cpu"@);
            lemma_plain_name(t);
        },
        MetricType::Memory => {
            assert(k =~= seq!['s', 'h', 'o', 'w', '_', 'm', 'e', 'm', 'o', 'r', 'y']);
            assert(t =~= "memory"@);
            lemma_plain_name(t);
        },
        MetricType::CpuTemp => {
            assert(k =~= seq!['s', 'h', 'o', 'w', '_', 'c', 'p', 'u', '_', 't', 'e', 'm', 'p']);
            assert(t =~= "cpu_temp"@);
            lemma_plain_name(t);
        },
        MetricType::Disk => {
            assert(k =~= seq!['s', 'h', 'o', 'w', '_', 'd', 'i', 's', 'k']);
            assert(t =~= "disk"@);
            lemma_plain_name(t);
            assert(fold_lower(t[0]) != "temp"@[0]);
        },
        MetricType::Network => {
            assert(k =~= seq!['s', 'h', 'o', 'w', '_', 'n', 'e', 't', 'w', 'o', 'r', 'k']);
            assert(t =~= "network"@);
            lemma_plain_name(t);
        },
        MetricType::LoadAvg => {
            assert(k =~= seq!['s', 'h', 'o', 'w', '_', 'l', 'o', 'a', 'd', 'a', 'v', 'g']);
            assert(t =~= "loadavg"@);
            lemma_plain_name(t);
            assert(fold_lower(t[0]) != "network"@[0]);
        },
    }
}

proof fn lemma_keep_shown_not_hidden(ms: Seq<MetricType>, m: Map<Seq<char>, Seq<char>>, mt: MetricType)
    requires
        hidden(m, mt),
    ensures
        !keep_shown(ms, m).contains(mt),
    decreases ms.len(),
{
    if ms.len() > 0 {
        lemma_keep_shown_not_hidden(ms.drop_last(), m, mt);
        let rest = keep_shown(ms.drop_last(), m);
        if !hidden(m, ms.last()) {
            assert forall|i: int| 0 <= i < rest.push(ms.last()).len() implies rest.push(
                ms.last(),
            )[i] != mt by {
                if i < rest.len() {
                    assert(rest.push(ms.last())[i] == rest[i]);
                }
            }
        }
    }
}

/// A metric whose `show_<metric>` key says `"false"` is never enabled,
/// whatever `plugins` lists.
pub proof fn lemma_show_false_hides(c: Config, m: Map<Seq<char>, Seq<char>>, mt: MetricType)
    requires
        config_from(c, m),
        hidden(m, mt),
    ensures
        !c.plugins@.contains(mt),
{
    lemma_keep_shown_not_hidden(listed_metrics(m), m, mt);
}

/// A key that is absent keeps its default: the empty map describes the
/// default configuration.
pub proof fn lemma_empty_map_is_default(c: Config)
    requires
        config_from(c, Map::empty()),
    ensures
        is_default_config(c),
{
    lemma_keep_shown_all(all_metrics(), Map::empty());
}

proof fn lemma_keep_shown_all(ms: Seq<MetricType>, m: Map<Seq<char>, Seq<char>>)
    requires
        forall|i: int| 0 <= i < ms.len() ==> !hidden(m, #[trigger] ms[i]),
    ensures
        keep_shown(ms, m) == ms,
    decreases ms.len(),
{
    if ms.len() > 0 {
        lemma_keep_shown_all(ms.drop_last(), m);
        assert(!hidden(m, ms[ms.len() - 1]));
        assert(ms.drop_last().push(ms.last()) =~= ms);
    }
}

} // verus!
