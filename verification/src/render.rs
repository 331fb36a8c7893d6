//! The status bar text: one coloured segment per configured metric, joined
//! with separators, cut down to whole segments when the terminal is too
//! narrow, and padded to the terminal width according to the alignment.
//!
//! Widths are measured in bytes: the UTF-8 byte length
//! of the text with its ANSI colour sequences removed.
use vstd::prelude::*;

use crate::config::{Alignment, Config, MetricType};
use crate::decimal::{push_scaled, scaled_text};
use crate::text::{
    dec, dec_width, lemma_utf8_len_concat, lemma_utf8_len_spaces, push_chars,
    push_decimal, push_decimal_width3, push_spaces, spaces, strings_of, sub_chars, to_chars, utf8_len,
    utf8_len_of,
};

verus! {

/// Dark background.
pub const BG: (u8, u8, u8) = (30, 30, 36);

/// Dim label colour.
pub const FG_LABEL: (u8, u8, u8) = (150, 150, 170);

/// Green: more than 10 points below the warning threshold.
pub const FG_OK: (u8, u8, u8) = (100, 220, 120);

/// Yellow: within 10 points of the warning threshold.
pub const FG_WARN: (u8, u8, u8) = (255, 200, 50);

/// Red: at or above the warning threshold.
pub const FG_CRIT: (u8, u8, u8) = (240, 70, 70);

// ---------------------------------------------------------------------------
// Colour sequences
// ---------------------------------------------------------------------------
/// The ANSI 24-bit colour sequence `ESC [ layer ; 2 ; r ; g ; b m`.
pub open spec fn color_code(layer: Seq<char>, r: u8, g: u8, b: u8) -> Seq<char> {
    "\x1b["@ + layer + ";2;"@ + dec(r as nat) + ";"@ + dec(g as nat) + ";"@ + dec(b as nat)
        + "m"@
}

/// Foreground colour sequence.
pub open spec fn fg_code(c: (u8, u8, u8)) -> Seq<char> {
    color_code("38"@, c.0, c.1, c.2)
}

/// Background colour sequence.
pub open spec fn bg_code(c: (u8, u8, u8)) -> Seq<char> {
    color_code("48"@, c.0, c.1, c.2)
}

/// The sequence that resets all attributes.
pub open spec fn reset_code() -> Seq<char> {
    "\x1b[0m"@
}

fn push_color(out: &mut String, layer: &str, r: u8, g: u8, b: u8)
    ensures
        final(out)@ == old(out)@ + color_code(layer@, r, g, b),
{
    out.append("\x1b[");
    out.append(layer);
    out.append(";2;");
    push_decimal(out, r as u128);
    out.append(";");
    push_decimal(out, g as u128);
    out.append(";");
    push_decimal(out, b as u128);
    out.append("m");
    assert(out@ =~= old(out)@ + color_code(layer@, r, g, b));
}

fn push_fg(out: &mut String, c: (u8, u8, u8))
    ensures
        final(out)@ == old(out)@ + fg_code(c),
{
    push_color(out, "38", c.0, c.1, c.2);
}

fn push_bg(out: &mut String, c: (u8, u8, u8))
    ensures
        final(out)@ == old(out)@ + bg_code(c),
{
    push_color(out, "48", c.0, c.1, c.2);
}

fn push_reset(out: &mut String)
    ensures
        final(out)@ == old(out)@ + reset_code(),
{
    out.append("\x1b[0m");
}

/// The ANSI sequence selecting foreground colour `(r, g, b)`.
pub fn fg(r: u8, g: u8, b: u8) -> (s: String)
    ensures
        s@ == fg_code((r, g, b)),
{
    let mut s = String::new();
    push_color(&mut s, "38", r, g, b);
    assert(s@ =~= fg_code((r, g, b)));
    s
}

/// The ANSI sequence selecting background colour `(r, g, b)`.
pub fn bg(r: u8, g: u8, b: u8) -> (s: String)
    ensures
        s@ == bg_code((r, g, b)),
{
    let mut s = String::new();
    push_color(&mut s, "48", r, g, b);
    assert(s@ =~= bg_code((r, g, b)));
    s
}

// ---------------------------------------------------------------------------
// Value colours
// ---------------------------------------------------------------------------
/// Red at or above the threshold, yellow within 10 points below it, green
/// further below (for any value and threshold).
pub open spec fn value_color_code(value: u8, warn: u8) -> Seq<char> {
    if value >= warn {
        fg_code(FG_CRIT)
    } else if value + 10 >= warn {
        fg_code(FG_WARN)
    } else {
        fg_code(FG_OK)
    }
}

fn push_value_color(out: &mut String, value_pct: u8, warn_pct: u8)
    ensures
        final(out)@ == old(out)@ + value_color_code(value_pct, warn_pct),
{
    if value_pct >= warn_pct {
        push_fg(out, FG_CRIT);
    } else if value_pct as u16 + 10 >= warn_pct as u16 {
        push_fg(out, FG_WARN);
    } else {
        push_fg(out, FG_OK);
    }
}

/// Picks a value colour given the current value and the warning threshold.
pub fn value_color(value_pct: u8, warn_pct: u8) -> (s: String)
    ensures
        s@ == value_color_code(value_pct, warn_pct),
{
    let mut s = String::new();
    push_value_color(&mut s, value_pct, warn_pct);
    assert(s@ =~= value_color_code(value_pct, warn_pct));
    s
}

// ---------------------------------------------------------------------------
// Sizes
// ---------------------------------------------------------------------------
/// A size in MiB: whole MiB below 1024, else GiB with one decimal.
pub open spec fn mib_text(mib: u64) -> Seq<char> {
    if mib >= 1024 {
        scaled_text(mib as nat, 1024) + "GiB"@
    } else {
        dec(mib as nat) + "MiB"@
    }
}

fn push_mib(out: &mut String, mib: u64)
    ensures
        final(out)@ == old(out)@ + mib_text(mib),
{
    if mib >= 1024 {
        push_scaled(out, mib, 1024);
        out.append("GiB");
    } else {
        push_decimal(out, mib as u128);
        out.append("MiB");
    }
    assert(out@ =~= old(out)@ + mib_text(mib));
}

/// Formats a size in MiB (`"512MiB"`, `"1.5GiB"`).
pub fn fmt_mib(mib: u64) -> (s: String)
    ensures
        s@ == mib_text(mib),
{
    let mut s = String::new();
    push_mib(&mut s, mib);
    assert(s@ =~= mib_text(mib));
    s
}

// ---------------------------------------------------------------------------
// The values shown
// ---------------------------------------------------------------------------
/// What the bar shows, as plain values. The rates and load averages arrive
/// already formatted (`"1.2MB/s"`, `"0.45 0.52 0.61"`).
#[derive(Debug, Clone)]
pub struct BarState {
    pub config: Config,
    /// CPU usage in percent.
    pub cpu_pct: u8,
    pub mem_used_mib: u64,
    pub mem_total_mib: u64,
    /// CPU temperature in °C.
    pub cpu_temp_celsius: u8,
    pub disk_used_pct: u8,
    pub disk_avail_mib: u64,
    /// Formatted receive rate.
    pub net_rx: String,
    /// Formatted transmit rate.
    pub net_tx: String,
    /// Formatted 1, 5 and 15 minute load averages, separated by spaces.
    pub load: String,
    pub permissions_granted: bool,
    pub initialized: bool,
}

/// The memory usage in percent as the bar computes it: `used * 100 / total`,
/// kept to its low eight bits (`as u8`).
pub open spec fn mem_pct(used: u64, total: u64) -> u8 {
    (((used * 100) / (total as int)) % 256) as u8
}

pub open spec fn label_code() -> Seq<char> {
    fg_code(FG_LABEL) + reset_code()
}

pub open spec fn cpu_segment(pct: u8, warn: u8) -> Seq<char> {
    label_code() + "CPU "@ + value_color_code(pct, warn) + dec_width(pct as nat, 3) + "%"@
        + reset_code()
}

pub open spec fn mem_segment(used: u64, total: u64, warn: u8) -> Seq<char> {
    let scale: nat = if total >= 1024 {
        1024
    } else {
        1
    };
    let unit = if total >= 1024 {
        "GiB"@
    } else {
        "MiB"@
    };
    label_code() + "MEM "@ + value_color_code(mem_pct(used, total), warn) + scaled_text(
        used as nat,
        scale,
    ) + "/"@ + scaled_text(total as nat, scale) + " "@ + unit + reset_code()
}

pub open spec fn temp_segment(temp: u8, warn: u8) -> Seq<char> {
    label_code() + "TEMP "@ + value_color_code(temp, warn) + dec_width(temp as nat, 3) + "°C"@
        + reset_code()
}

pub open spec fn disk_segment(pct: u8, avail_mib: u64, warn: u8) -> Seq<char> {
    label_code() + "DISK "@ + value_color_code(pct, warn) + dec_width(pct as nat, 3) + "% "@
        + mib_text(avail_mib) + " free"@ + reset_code()
}

pub open spec fn net_segment(rx: Seq<char>, tx: Seq<char>) -> Seq<char> {
    label_code() + "NET "@ + fg_code(FG_OK) + "↓"@ + rx + " "@ + fg_code(FG_WARN) + "↑"@ + tx
        + reset_code()
}

pub open spec fn load_segment(load: Seq<char>) -> Seq<char> {
    label_code() + "LOAD "@ + fg_code(FG_OK) + load + reset_code()
}

/// The segment a metric contributes; memory contributes none while its total
/// is unknown (0).
pub open spec fn segment_for(st: BarState, mt: MetricType) -> Option<Seq<char>> {
    match mt {
        MetricType::Cpu => Some(cpu_segment(st.cpu_pct, st.config.cpu_warn_pct)),
        MetricType::Memory => if st.mem_total_mib > 0 {
            Some(mem_segment(st.mem_used_mib, st.mem_total_mib, st.config.mem_warn_pct))
        } else {
            None
        },
        MetricType::CpuTemp => Some(temp_segment(st.cpu_temp_celsius, st.config.cpu_temp_warn)),
        MetricType::Disk => Some(
            disk_segment(st.disk_used_pct, st.disk_avail_mib, st.config.disk_warn_pct),
        ),
        MetricType::Network => Some(net_segment(st.net_rx@, st.net_tx@)),
        MetricType::LoadAvg => Some(load_segment(st.load@)),
    }
}

/// The segments of the given metrics, in order.
pub open spec fn segments_from(st: BarState, ms: Seq<MetricType>) -> Seq<Seq<char>>
    decreases ms.len(),
{
    if ms.len() == 0 {
        seq![]
    } else {
        let rest = segments_from(st, ms.drop_last());
        match segment_for(st, ms.last()) {
            Some(s) => rest.push(s),
            None => rest,
        }
    }
}

/// The segments of the configured metrics, in the configured order.
pub open spec fn bar_segments(st: BarState) -> Seq<Seq<char>> {
    segments_from(st, st.config.plugins@)
}

/// A metric's segment can be built without overflowing a `u64`: the memory
/// percentage multiplies the used MiB by 100.
pub open spec fn segment_defined(st: BarState, mt: MetricType) -> bool {
    match mt {
        MetricType::Memory => st.mem_total_mib > 0 ==> st.mem_used_mib * 100 <= u64::MAX,
        _ => true,
    }
}

/// Every configured metric's segment can be built.
pub open spec fn bar_renderable(st: BarState) -> bool {
    forall|i: int|
        0 <= i < st.config.plugins@.len() ==> segment_defined(st, #[trigger] st.config.plugins@[i])
}

fn push_label(out: &mut String)
    ensures
        final(out)@ == old(out)@ + label_code(),
{
    push_fg(out, FG_LABEL);
    push_reset(out);
}

fn segment_of(st: &BarState, mt: MetricType) -> (r: Option<String>)
    requires
        segment_defined(*st, mt),
    ensures
        match segment_for(*st, mt) {
            Some(s) => r is Some && r->0@ == s,
            None => r is None,
        },
{
    let mut s = String::new();
    match mt {
        MetricType::Cpu => {
            push_label(&mut s);
            s.append("CPU ");
            push_value_color(&mut s, st.cpu_pct, st.config.cpu_warn_pct);
            push_decimal_width3(&mut s, st.cpu_pct as u64);
            s.append("%");
            push_reset(&mut s);
        },
        MetricType::Memory => {
            if st.mem_total_mib == 0 {
                return None;
            }
            let used = st.mem_used_mib;
            let total = st.mem_total_mib;
            let pct: u8 = ((used * 100 / total) % 256) as u8;
            let scale: u128 = if total >= 1024 {
                1024
            } else {
                1
            };
            push_label(&mut s);
            s.append("MEM ");
            push_value_color(&mut s, pct, st.config.mem_warn_pct);
            push_scaled(&mut s, used, scale);
            s.append("/");
            push_scaled(&mut s, total, scale);
            s.append(" ");
            if total >= 1024 {
                s.append("GiB");
            } else {
                s.append("MiB");
            }
            push_reset(&mut s);
        },
        MetricType::CpuTemp => {
            push_label(&mut s);
            s.append("TEMP ");
            push_value_color(&mut s, st.cpu_temp_celsius, st.config.cpu_temp_warn);
            push_decimal_width3(&mut s, st.cpu_temp_celsius as u64);
            s.append("°C");
            push_reset(&mut s);
        },
        MetricType::Disk => {
            push_label(&mut s);
            s.append("DISK ");
            push_value_color(&mut s, st.disk_used_pct, st.config.disk_warn_pct);
            push_decimal_width3(&mut s, st.disk_used_pct as u64);
            s.append("% ");
            push_mib(&mut s, st.disk_avail_mib);
            s.append(" free");
            push_reset(&mut s);
        },
        MetricType::Network => {
            push_label(&mut s);
            s.append("NET ");
            push_fg(&mut s, FG_OK);
            s.append("↓");
            s.append(st.net_rx.as_str());
            s.append(" ");
            push_fg(&mut s, FG_WARN);
            s.append("↑");
            s.append(st.net_tx.as_str());
            push_reset(&mut s);
        },
        MetricType::LoadAvg => {
            push_label(&mut s);
            s.append("LOAD ");
            push_fg(&mut s, FG_OK);
            s.append(st.load.as_str());
            push_reset(&mut s);
        },
    }
    match mt {
        MetricType::Cpu => assert(s@ =~= cpu_segment(st.cpu_pct, st.config.cpu_warn_pct)),
        MetricType::Memory => assert(s@ =~= mem_segment(
            st.mem_used_mib,
            st.mem_total_mib,
            st.config.mem_warn_pct,
        )),
        MetricType::CpuTemp => assert(s@ =~= temp_segment(
            st.cpu_temp_celsius,
            st.config.cpu_temp_warn,
        )),
        MetricType::Disk => assert(s@ =~= disk_segment(
            st.disk_used_pct,
            st.disk_avail_mib,
            st.config.disk_warn_pct,
        )),
        MetricType::Network => assert(s@ =~= net_segment(st.net_rx@, st.net_tx@)),
        MetricType::LoadAvg => assert(s@ =~= load_segment(st.load@)),
    }
    Some(s)
}

fn build_segments(st: &BarState) -> (r: Vec<String>)
    requires
        bar_renderable(*st),
    ensures
        strings_of(r@) == bar_segments(*st),
{
    let plugins = &st.config.plugins;
    let mut r: Vec<String> = Vec::new();
    let mut i: usize = 0;
    while i < plugins.len()
        invariant
            plugins@ == st.config.plugins@,
            bar_renderable(*st),
            i <= plugins.len(),
            strings_of(r@) == segments_from(*st, plugins@.take(i as int)),
        decreases plugins.len() - i,
    {
        let ghost upto = plugins@.take(i + 1);
        assert(upto.drop_last() =~= plugins@.take(i as int));
        assert(upto.last() == plugins@[i as int]);
        let mt = plugins[i];
        assert(segment_defined(*st, plugins@[i as int]));
        match segment_of(st, mt) {
            Some(s) => {
                let ghost before = r@;
                r.push(s);
                assert(strings_of(r@) =~= strings_of(before).push(s@));
            },
            None => {},
        }
        i += 1;
    }
    assert(plugins@.take(plugins.len() as int) =~= plugins@);
    r
}

// ---------------------------------------------------------------------------
// Measuring
// ---------------------------------------------------------------------------
/// Left-to-right scan that drops ANSI escape sequences (from `ESC` up to and
/// including the next `m`), starting in the given state (inside a sequence or
/// not): the characters kept and the state at the end.
pub open spec fn esc_scan(s: Seq<char>, in_escape: bool) -> (Seq<char>, bool)
    decreases s.len(),
{
    if s.len() == 0 {
        (seq![], in_escape)
    } else {
        let (kept, esc) = esc_scan(s.drop_last(), in_escape);
        let c = s.last();
        if c == '\x1b' {
            (kept, true)
        } else if esc {
            (kept, c != 'm')
        } else {
            (kept.push(c), false)
        }
    }
}

/// The text with its ANSI escape sequences removed.
pub open spec fn stripped(s: Seq<char>) -> Seq<char> {
    esc_scan(s, false).0
}

/// Removes ANSI escape sequences so the visual width can be measured.
pub fn strip_ansi(s: &str) -> (r: String)
    ensures
        r@ == stripped(s@),
{
    let chars = to_chars(s);
    let mut out = String::new();
    let mut in_escape = false;
    let mut i: usize = 0;
    while i < chars.len()
        invariant
            chars@ == s@,
            i <= chars.len(),
            (out@, in_escape) == esc_scan(s@.take(i as int), false),
        decreases chars.len() - i,
    {
        let ch = chars[i];
        assert(s@.take(i + 1).drop_last() =~= s@.take(i as int));
        if ch == '\x1b' {
            in_escape = true;
        } else if in_escape {
            if ch == 'm' {
                in_escape = false;
            }
        } else {
            out.push(ch);
        }
        i += 1;
    }
    assert(s@.take(chars.len() as int) =~= s@);
    out
}

/// `n` as a `usize`, saturating.
pub open spec fn sat_usize(n: nat) -> usize {
    if n <= usize::MAX {
        n as usize
    } else {
        usize::MAX
    }
}

/// The width the bar measures: the UTF-8 byte length of the text without its
/// escape sequences.
pub open spec fn visible_width(s: Seq<char>) -> usize {
    sat_usize(utf8_len(stripped(s)))
}

fn visible_width_of(s: &str) -> (r: usize)
    ensures
        r == visible_width(s@),
{
    let plain = strip_ansi(s);
    let chars = to_chars(plain.as_str());
    utf8_len_of(chars.as_slice())
}

// ---------------------------------------------------------------------------
// Layout
// ---------------------------------------------------------------------------
/// The segments joined with `sep` between neighbours (`[String]::join`).
pub open spec fn joined(segs: Seq<Seq<char>>, sep: Seq<char>) -> Seq<char>
    decreases segs.len(),
{
    if segs.len() == 0 {
        seq![]
    } else if segs.len() == 1 {
        segs[0]
    } else {
        joined(segs.drop_last(), sep) + sep + segs.last()
    }
}

/// The separator between segments.
pub open spec fn sep_code() -> Seq<char> {
    fg_code(FG_LABEL) + "  │  "@ + reset_code()
}

fn join_prefix(segs: &Vec<String>, k: usize, sep: &str) -> (r: String)
    requires
        k <= segs.len(),
    ensures
        r@ == joined(strings_of(segs@).take(k as int), sep@),
{
    let ghost all = strings_of(segs@);
    let mut r = String::new();
    let mut i: usize = 0;
    while i < k
        invariant
            k <= segs.len(),
            all == strings_of(segs@),
            i <= k,
            r@ == joined(all.take(i as int), sep@),
        decreases k - i,
    {
        let ghost upto = all.take(i + 1);
        assert(upto.drop_last() =~= all.take(i as int));
        assert(upto.last() == segs@[i as int]@);
        if i > 0 {
            r.append(sep);
        } else {
            assert(r@ =~= seq![]);
        }
        r.append(segs[i].as_str());
        i += 1;
        assert(r@ =~= joined(all.take(i as int), sep@));
    }
    r
}

/// `content` (measured as `content_len` wide) on the bar background, padded
/// with spaces to `cols` according to the alignment.
pub open spec fn aligned_text(cols: usize, content_len: usize, content: Seq<char>, alignment: Alignment) -> Seq<char> {
    let pad: nat = if cols >= content_len {
        (cols - content_len) as nat
    } else {
        0
    };
    let body = bg_code(BG) + content + reset_code();
    match alignment {
        Alignment::Left => body + spaces(pad) + reset_code(),
        Alignment::Center => spaces(pad / 2) + body + spaces((pad - pad / 2) as nat)
            + reset_code(),
        Alignment::Right => spaces(pad) + body,
    }
}

/// Wraps `content` with the background colour and pads it according to
/// `alignment`.
pub fn aligned(cols: usize, content_len: usize, content: &str, alignment: Alignment) -> (r: String)
    ensures
        r@ == aligned_text(cols, content_len, content@, alignment),
{
    let pad: usize = if cols >= content_len {
        cols - content_len
    } else {
        0
    };
    let mut r = String::new();
    match alignment {
        Alignment::Left => {
            push_bg(&mut r, BG);
            r.append(content);
            push_reset(&mut r);
            push_spaces(&mut r, pad);
            push_reset(&mut r);
        },
        Alignment::Center => {
            let left = pad / 2;
            let right = pad - left;
            push_spaces(&mut r, left);
            push_bg(&mut r, BG);
            r.append(content);
            push_reset(&mut r);
            push_spaces(&mut r, right);
            push_reset(&mut r);
        },
        Alignment::Right => {
            push_spaces(&mut r, pad);
            push_bg(&mut r, BG);
            r.append(content);
            push_reset(&mut r);
        },
    }
    assert(r@ =~= aligned_text(cols, content_len, content@, alignment));
    r
}

/// The first `max_cols` characters of `s`.
pub open spec fn truncated(s: Seq<char>, max_cols: nat) -> Seq<char> {
    if max_cols < s.len() {
        s.take(max_cols as int)
    } else {
        s
    }
}

/// Truncates a plain string to `max_cols` characters.
pub fn truncate_visual(s: &str, max_cols: usize) -> (r: String)
    ensures
        r@ == truncated(s@, max_cols as nat),
{
    if max_cols == 0 {
        let r = String::new();
        assert(r@ =~= truncated(s@, 0));
        return r;
    }
    let chars = to_chars(s);
    let n = if max_cols < chars.len() {
        max_cols
    } else {
        chars.len()
    };
    let mut r = String::new();
    let head = sub_chars(chars.as_slice(), 0, n);
    push_chars(&mut r, head.as_slice());
    assert(r@ =~= truncated(s@, max_cols as nat));
    r
}

/// The candidate line made of the first `k` segments.
pub open spec fn candidate(segs: Seq<Seq<char>>, k: int) -> Seq<char> {
    " "@ + joined(segs.take(k), sep_code()) + " "@
}

/// The largest `k <= max` whose candidate line fits in `cols`, or 0.
pub open spec fn fitting_count(segs: Seq<Seq<char>>, cols: usize, max: nat) -> nat
    decreases max,
{
    if max == 0 {
        0
    } else if visible_width(candidate(segs, max as int)) <= cols {
        max
    } else {
        fitting_count(segs, cols, (max - 1) as nat)
    }
}

/// The message shown until permissions are granted.
pub open spec fn waiting_message() -> Seq<char> {
    " ⏳ Waiting for permissions…"@
}

/// The bar still waits for its permissions.
pub open spec fn waiting(st: BarState) -> bool {
    !st.permissions_granted && !st.initialized
}

/// The full status bar text for `st` on a terminal `cols` wide.
pub open spec fn bar_text(st: BarState, cols: usize) -> Seq<char> {
    if waiting(st) {
        bg_code(BG) + fg_code(FG_LABEL) + truncated(waiting_message(), cols as nat) + reset_code()
    } else {
        let segs = bar_segments(st);
        let content = joined(segs, sep_code()) + " "@;
        let width = visible_width(content);
        if width > cols {
            let k = fitting_count(segs, cols, segs.len());
            if k == 0 {
                seq![]
            } else {
                aligned_text(
                    cols,
                    visible_width(candidate(segs, k as int)),
                    candidate(segs, k as int),
                    st.config.alignment,
                )
            }
        } else {
            aligned_text(cols, width, content, st.config.alignment)
        }
    }
}

impl BarState {
    /// Whether `render_bar` can build every configured segment without
    /// overflow.
    pub fn can_render(&self) -> (b: bool)
        ensures
            b == bar_renderable(*self),
    {
        let plugins = &self.config.plugins;
        let mut i: usize = 0;
        while i < plugins.len()
            invariant
                plugins@ == self.config.plugins@,
                i <= plugins.len(),
                forall|j: int| 0 <= j < i ==> segment_defined(*self, #[trigger] plugins@[j]),
            decreases plugins.len() - i,
        {
            let ok = match plugins[i] {
                MetricType::Memory => self.mem_total_mib == 0 || self.mem_used_mib <= u64::MAX / 100,
                _ => true,
            };
            if !ok {
                assert(!segment_defined(*self, plugins@[i as int]));
                return false;
            }
            i += 1;
        }
        true
    }
}

/// Renders the full status bar (with ANSI codes) for a terminal `cols` wide.
///
/// Until permissions are granted the bar shows a waiting message cut to
/// `cols` characters. Otherwise it shows the configured segments joined with
/// separators and padded to `cols`; when they are too wide, trailing segments
/// are dropped until the rest fits, and the bar is empty if none fits.
pub fn render_bar(state: &BarState, cols: usize) -> (r: String)
    requires
        bar_renderable(*state),
    ensures
        r@ == bar_text(*state, cols),
{
    let segments = build_segments(state);
    if !state.permissions_granted && !state.initialized {
        let msg = " ⏳ Waiting for permissions…";
        let mut out = String::new();
        push_bg(&mut out, BG);
        push_fg(&mut out, FG_LABEL);
        let t = truncate_visual(msg, cols);
        out.append(t.as_str());
        push_reset(&mut out);
        assert(out@ =~= bar_text(*state, cols));
        return out;
    }
    let ghost segs = bar_segments(*state);
    let mut sep = String::new();
    push_fg(&mut sep, FG_LABEL);
    sep.append("  │  ");
    push_reset(&mut sep);
    assert(sep@ =~= sep_code());
    let n = segments.len();
    let mut content = join_prefix(&segments, n, sep.as_str());
    assert(strings_of(segments@).take(n as int) =~= segs);
    content.append(" ");
    let plain_len = visible_width_of(content.as_str());
    if plain_len > cols {
        let mut k: usize = n;
        while k > 0
            invariant
                k <= n,
                n == segs.len(),
                segs == strings_of(segments@),
                segs == bar_segments(*state),
                !waiting(*state),
                visible_width(joined(segs, sep_code()) + " "@) > cols,
                sep@ == sep_code(),
                fitting_count(segs, cols, n as nat) == fitting_count(segs, cols, k as nat),
            decreases k,
        {
            let mut cand = String::new();
            cand.append(" ");
            let j = join_prefix(&segments, k, sep.as_str());
            cand.append(j.as_str());
            cand.append(" ");
            assert(cand@ =~= candidate(segs, k as int));
            let cand_len = visible_width_of(cand.as_str());
            if cand_len <= cols {
                return aligned(cols, cand_len, cand.as_str(), state.config.alignment);
            }
            k -= 1;
        }
        String::new()
    } else {
        aligned(cols, plain_len, content.as_str(), state.config.alignment)
    }
}

// ---------------------------------------------------------------------------
// Laws
// ---------------------------------------------------------------------------
/// `s` holds no escape character.
pub open spec fn no_escape(s: Seq<char>) -> bool {
    forall|i: int| 0 <= i < s.len() ==> #[trigger] s[i] != '\x1b'
}

/// `s` holds neither an escape character nor the `m` that ends a sequence.
pub open spec fn inert(s: Seq<char>) -> bool {
    forall|i: int| 0 <= i < s.len() ==> #[trigger] s[i] != '\x1b' && s[i] != 'm'
}

/// Scanning a concatenation is scanning its parts one after the other.
proof fn lemma_esc_scan_concat(a: Seq<char>, b: Seq<char>, st: bool)
    ensures
        esc_scan(a + b, st) == ({
            let (ka, sa) = esc_scan(a, st);
            let (kb, sb) = esc_scan(b, sa);
            (ka + kb, sb)
        }),
    decreases b.len(),
{
    if b.len() == 0 {
        assert(a + b =~= a);
        assert(esc_scan(a, st).0 + seq![] =~= esc_scan(a, st).0);
    } else {
        assert((a + b).drop_last() =~= a + b.drop_last());
        lemma_esc_scan_concat(a, b.drop_last(), st);
        let (ka, sa) = esc_scan(a, st);
        let (kb, sb) = esc_scan(b.drop_last(), sa);
        assert((ka + kb).push(b.last()) =~= ka + kb.push(b.last()));
    }
}

/// Text without escape characters is kept as it is.
proof fn lemma_esc_scan_plain(s: Seq<char>)
    requires
        no_escape(s),
    ensures
        esc_scan(s, false) == (s, false),
    decreases s.len(),
{
    if s.len() > 0 {
        assert(no_escape(s.drop_last()));
        lemma_esc_scan_plain(s.drop_last());
        assert(s.drop_last().push(s.last()) =~= s);
    }
}

/// Inside a sequence, inert text is dropped and the sequence goes on.
proof fn lemma_esc_scan_inert(s: Seq<char>)
    requires
        inert(s),
    ensures
        esc_scan(s, true) == (Seq::<char>::empty(), true),
    decreases s.len(),
{
    if s.len() > 0 {
        assert(inert(s.drop_last()));
        lemma_esc_scan_inert(s.drop_last());
    }
}

/// A complete sequence `ESC body m` is dropped entirely and ends outside a
/// sequence, whatever the state before it.
proof fn lemma_esc_scan_sequence(body: Seq<char>, st: bool)
    requires
        inert(body),
    ensures
        esc_scan(seq!['\x1b'] + body + seq!['m'], st) == (Seq::<char>::empty(), false),
{
    lemma_esc_scan_concat(seq!['\x1b'], body, st);
    lemma_esc_scan_concat(seq!['\x1b'] + body, seq!['m'], st);
    reveal_with_fuel(esc_scan, 2);
    assert(seq!['\x1b'].drop_last() =~= Seq::<char>::empty());
    assert(seq!['\x1b'].last() == '\x1b');
    assert(esc_scan(seq!['\x1b'], st) == (Seq::<char>::empty(), true));
    lemma_esc_scan_inert(body);
    assert(seq!['m'].drop_last() =~= Seq::<char>::empty());
    assert(seq!['m'].last() == 'm');
    assert(esc_scan(seq!['m'], true) == (Seq::<char>::empty(), false));
}

proof fn lemma_dec_inert(n: nat)
    ensures
        inert(dec(n)),
    decreases n,
{
    if n >= 10 {
        lemma_dec_inert(n / 10);
    }
}

proof fn lemma_inert_concat(a: Seq<char>, b: Seq<char>)
    requires
        inert(a),
        inert(b),
    ensures
        inert(a + b),
{
    assert forall|i: int| 0 <= i < (a + b).len() implies #[trigger] (a + b)[i] != '\x1b' && (a
        + b)[i] != 'm' by {
        if i < a.len() {
            assert((a + b)[i] == a[i]);
        } else {
            assert((a + b)[i] == b[i - a.len()]);
        }
    }
}

/// Colour sequences and the reset sequence leave nothing visible and end
/// outside a sequence.
proof fn lemma_codes_invisible(c: (u8, u8, u8), st: bool)
    ensures
        esc_scan(fg_code(c), st) == (Seq::<char>::empty(), false),
        esc_scan(bg_code(c), st) == (Seq::<char>::empty(), false),
        esc_scan(reset_code(), st) == (Seq::<char>::empty(), false),
{
    reveal_strlit("\x1b[");
    reveal_strlit(";2;");
    reveal_strlit(";");
    reveal_strlit("m");
    reveal_strlit("38");
    reveal_strlit("48");
    reveal_strlit("\x1b[0m");
    lemma_dec_inert(c.0 as nat);
    lemma_dec_inert(c.1 as nat);
    lemma_dec_inert(c.2 as nat);
    assert("\x1b["@ =~= seq!['\x1b', '[']);
    assert("m"@ =~= seq!['m']);
    assert(";"@ =~= seq![';']);
    assert(";2;"@ =~= seq![';', '2', ';']);
    assert(inert(seq!['[']));
    assert(inert(seq![';']));
    assert(inert(seq![';', '2', ';']));
    assert(inert("38"@));
    assert(inert("48"@));
    let tail = ";2;"@ + dec(c.0 as nat) + ";"@ + dec(c.1 as nat) + ";"@ + dec(c.2 as nat);
    lemma_inert_concat(";2;"@, dec(c.0 as nat));
    lemma_inert_concat(";2;"@ + dec(c.0 as nat), ";"@);
    lemma_inert_concat(";2;"@ + dec(c.0 as nat) + ";"@, dec(c.1 as nat));
    lemma_inert_concat(";2;"@ + dec(c.0 as nat) + ";"@ + dec(c.1 as nat), ";"@);
    lemma_inert_concat(";2;"@ + dec(c.0 as nat) + ";"@ + dec(c.1 as nat) + ";"@, dec(c.2 as nat));
    lemma_inert_concat(seq!['['], "38"@);
    lemma_inert_concat(seq!['['] + "38"@, tail);
    lemma_inert_concat(seq!['['], "48"@);
    lemma_inert_concat(seq!['['] + "48"@, tail);
    assert(fg_code(c) =~= seq!['\x1b'] + (seq!['['] + "38"@ + tail) + seq!['m']);
    assert(bg_code(c) =~= seq!['\x1b'] + (seq!['['] + "48"@ + tail) + seq!['m']);
    lemma_esc_scan_sequence(seq!['['] + "38"@ + tail, st);
    lemma_esc_scan_sequence(seq!['['] + "48"@ + tail, st);
    assert(reset_code() =~= seq!['\x1b'] + seq!['[', '0'] + seq!['m']);
    assert(inert(seq!['[', '0']));
    lemma_esc_scan_sequence(seq!['[', '0'], st);
}

proof fn lemma_spaces_plain(n: nat)
    ensures
        esc_scan(spaces(n), false) == (spaces(n), false),
{
    lemma_esc_scan_plain(spaces(n));
}

/// The aligned text is exactly `cols` wide once its content fits: the content
/// plus the padding spaces.
proof fn lemma_aligned_width(cols: usize, content: Seq<char>, alignment: Alignment)
    requires
        visible_width(content) <= cols < usize::MAX,
    ensures
        utf8_len(stripped(aligned_text(cols, visible_width(content), content, alignment)))
            == cols,
{
    let len = visible_width(content);
    let pad: nat = (cols - len) as nat;
    let (kc, sc) = esc_scan(content, false);
    assert(utf8_len(kc) == len);
    let bgc = bg_code(BG);
    let rst = reset_code();
    lemma_codes_invisible(BG, false);
    lemma_codes_invisible(BG, sc);
    lemma_codes_invisible(BG, true);
    let body = bgc + content + rst;
    lemma_esc_scan_concat(bgc, content, false);
    assert(bgc + content + rst == (bgc + content) + rst);
    lemma_esc_scan_concat(bgc + content, rst, false);
    assert(esc_scan(body, false) == (kc, false)) by {
        assert(Seq::<char>::empty() + kc =~= kc);
        assert(kc + Seq::<char>::empty() =~= kc);
    }
    match alignment {
        Alignment::Left => {
            lemma_spaces_plain(pad);
            lemma_esc_scan_concat(body, spaces(pad), false);
            lemma_esc_scan_concat(body + spaces(pad), rst, false);
            assert(stripped(aligned_text(cols, len, content, alignment)) =~= kc + spaces(pad));
            lemma_utf8_len_concat(kc, spaces(pad));
            lemma_utf8_len_spaces(pad);
        },
        Alignment::Center => {
            let l = pad / 2;
            let r = (pad - pad / 2) as nat;
            lemma_spaces_plain(l);
            lemma_spaces_plain(r);
            lemma_esc_scan_concat(spaces(l), body, false);
            lemma_esc_scan_concat(spaces(l) + body, spaces(r), false);
            lemma_esc_scan_concat(spaces(l) + body + spaces(r), rst, false);
            assert(stripped(aligned_text(cols, len, content, alignment)) =~= spaces(l) + kc
                + spaces(r));
            lemma_utf8_len_concat(spaces(l), kc);
            lemma_utf8_len_concat(spaces(l) + kc, spaces(r));
            lemma_utf8_len_spaces(l);
            lemma_utf8_len_spaces(r);
        },
        Alignment::Right => {
            lemma_spaces_plain(pad);
            lemma_esc_scan_concat(spaces(pad), body, false);
            assert(stripped(aligned_text(cols, len, content, alignment)) =~= spaces(pad) + kc);
            lemma_utf8_len_concat(spaces(pad), kc);
            lemma_utf8_len_spaces(pad);
        },
    }
}

proof fn lemma_fitting_count(segs: Seq<Seq<char>>, cols: usize, max: nat)
    ensures
        fitting_count(segs, cols, max) <= max,
        fitting_count(segs, cols, max) > 0 ==> visible_width(
            candidate(segs, fitting_count(segs, cols, max) as int),
        ) <= cols,
    decreases max,
{
    if max > 0 {
        lemma_fitting_count(segs, cols, (max - 1) as nat);
    }
}

/// Once permissions are granted the bar is either empty (not even one
/// segment fits) or, with its colour sequences removed, exactly `cols` bytes
/// wide: the segments that fit plus padding.
pub proof fn lemma_bar_fills_width(st: BarState, cols: usize)
    requires
        !waiting(st),
        cols < usize::MAX,
    ensures
        bar_text(st, cols) == Seq::<char>::empty() || utf8_len(stripped(bar_text(st, cols)))
            == cols,
{
    let segs = bar_segments(st);
    let content = joined(segs, sep_code()) + " "@;
    if visible_width(content) > cols {
        let k = fitting_count(segs, cols, segs.len());
        lemma_fitting_count(segs, cols, segs.len());
        if k > 0 {
            lemma_aligned_width(cols, candidate(segs, k as int), st.config.alignment);
        }
    } else {
        lemma_aligned_width(cols, content, st.config.alignment);
    }
}

/// While waiting for permissions the bar shows the waiting message cut to
/// `cols` characters, and nothing else visible.
pub proof fn lemma_waiting_bar(st: BarState, cols: usize)
    requires
        waiting(st),
    ensures
        stripped(bar_text(st, cols)) == truncated(waiting_message(), cols as nat),
        stripped(bar_text(st, cols)).len() <= cols,
{
    reveal_strlit(" ⏳ Waiting for permissions…");
    let msg = waiting_message();
    assert(msg =~= seq![
        ' ', '⏳', ' ', 'W', 'a', 'i', 't', 'i', 'n', 'g', ' ', 'f', 'o', 'r', ' ', 'p', 'e', 'r',
        'm', 'i', 's', 's', 'i', 'o', 'n', 's', '…',
    ]);
    let t = truncated(msg, cols as nat);
    assert(no_escape(t)) by {
        assert forall|i: int| 0 <= i < t.len() implies #[trigger] t[i] != '\x1b' by {
            assert(t[i] == msg[i]);
        }
    }
    lemma_esc_scan_plain(t);
    lemma_codes_invisible(BG, false);
    lemma_codes_invisible(FG_LABEL, false);
    let a = bg_code(BG);
    let b = fg_code(FG_LABEL);
    lemma_esc_scan_concat(a, b, false);
    lemma_esc_scan_concat(a + b, t, false);
    lemma_esc_scan_concat(a + b + t, reset_code(), false);
    assert(stripped(bar_text(st, cols)) =~= t);
}

/// For memory in use up to the total, the percentage is the used share
/// rounded down: `p * total <= 100 * used < (p + 1) * total`.
pub proof fn lemma_mem_pct_is_used_share(used: u64, total: u64)
    requires
        0 < total,
        used <= total,
    ensures
        mem_pct(used, total) * total <= 100 * used < (mem_pct(used, total) + 1) * total,
{
    let q = (100 * used) / (total as int);
    vstd::arithmetic::div_mod::lemma_fundamental_div_mod(100 * used, total as int);
    vstd::arithmetic::div_mod::lemma_mod_bound(100 * used, total as int);
    let m = (100 * used) % (total as int);
    assert(0 <= q <= 100) by (nonlinear_arith)
        requires
            100 * used == total * q + m,
            0 <= m < total,
            used <= total,
            total > 0,
    ;
    assert(q % 256 == q) by {
        vstd::arithmetic::div_mod::lemma_small_mod(q as nat, 256);
    }
    assert(mem_pct(used, total) == q);
    assert(q * total <= 100 * used < (q + 1) * total) by (nonlinear_arith)
        requires
            100 * used == total * q + m,
            0 <= m < total,
    ;
}

/// The memory segment is red exactly when at least the warning share of the
/// memory is in use: `100 * used >= warn * total`.
pub proof fn lemma_mem_red_at_threshold(used: u64, total: u64, warn: u8)
    requires
        0 < total,
        used <= total,
    ensures
        (value_color_code(mem_pct(used, total), warn) == fg_code(FG_CRIT)) <==> 100 * used >= warn
            * total,
{
    lemma_mem_pct_is_used_share(used, total);
    let p = mem_pct(used, total);
    lemma_colors_distinct();
    if p >= warn {
        assert(100 * used >= warn * total) by (nonlinear_arith)
            requires
                p * total <= 100 * used,
                p >= warn,
                total > 0,
        ;
    } else {
        assert(100 * used < warn * total) by (nonlinear_arith)
            requires
                100 * used < (p + 1) * total,
                p + 1 <= warn,
                total > 0,
        ;
    }
}

/// The three value colours are different sequences.
proof fn lemma_colors_distinct()
    ensures
        fg_code(FG_CRIT) != fg_code(FG_WARN),
        fg_code(FG_CRIT) != fg_code(FG_OK),
{
    reveal_strlit("\x1b[");
    reveal_strlit("38");
    reveal_strlit(";2;");
    assert(";2;"@ =~= seq![';', '2', ';']);
    assert("38"@ =~= seq!['3', '8']);
    assert("\x1b["@ =~= seq!['\x1b', '[']);
    let c = fg_code(FG_CRIT);
    let w = fg_code(FG_WARN);
    let o = fg_code(FG_OK);
    assert(dec(240) =~= seq!['2', '4', '0']) by {
        reveal_with_fuel(dec, 3);
    }
    assert(dec(255) =~= seq!['2', '5', '5']) by {
        reveal_with_fuel(dec, 3);
    }
    assert(dec(100) =~= seq!['1', '0', '0']) by {
        reveal_with_fuel(dec, 3);
    }
    assert(c[8] == '4');
    assert(w[8] == '5');
    assert(o[7] == '1');
    assert(c[7] == '2');
}

} // verus!
