//! CPU usage from `/proc/stat`: the share of busy ticks between two samples.
use vstd::prelude::*;

use crate::text::{lines, parse_u64, parse_uint, seqs_of, split_lines, split_ws, starts_with, starts_with_str, to_chars, ws_tokens};

verus! {

/// A `/proc/stat` field as the parser reads it: its `u64` value, or 0 when it
/// is not a `u64`.
pub open spec fn field_value(t: Seq<char>) -> u64 {
    match parse_uint(t, u64::MAX as nat) {
        Some(v) => v as u64,
        None => 0,
    }
}

/// The counters (user, nice, system, idle, iowait, irq, softirq, steal) of a
/// `/proc/stat` CPU line: a first field that starts with `cpu` followed by at
/// least eight more fields.
pub open spec fn cpu_stat_of(line: Seq<char>) -> Option<(u64, u64, u64, u64, u64, u64, u64, u64)> {
    let t = ws_tokens(line);
    if t.len() >= 9 && starts_with(t[0], "cpu"@) {
        Some(
            (
                field_value(t[1]),
                field_value(t[2]),
                field_value(t[3]),
                field_value(t[4]),
                field_value(t[5]),
                field_value(t[6]),
                field_value(t[7]),
                field_value(t[8]),
            ),
        )
    } else {
        None
    }
}

fn field_of(t: &[char]) -> (r: u64)
    ensures
        r == field_value(t@),
{
    match parse_u64(t) {
        Some(v) => v,
        None => 0,
    }
}

fn parse_cpu_stat_chars(line: &[char]) -> (r: Option<(u64, u64, u64, u64, u64, u64, u64, u64)>)
    ensures
        r == cpu_stat_of(line@),
{
    let t = split_ws(line);
    proof {
        assert forall|i: int| 0 <= i < t.len() implies seqs_of(t@)[i] == #[trigger] t@[i]@ by {}
    }
    if t.len() < 9 {
        return None;
    }
    if !starts_with_str(t[0].as_slice(), "cpu") {
        return None;
    }
    Some(
        (
            field_of(t[1].as_slice()),
            field_of(t[2].as_slice()),
            field_of(t[3].as_slice()),
            field_of(t[4].as_slice()),
            field_of(t[5].as_slice()),
            field_of(t[6].as_slice()),
            field_of(t[7].as_slice()),
            field_of(t[8].as_slice()),
        ),
    )
}

/// Parses a `/proc/stat` CPU line into (user, nice, system, idle, iowait,
/// irq, softirq, steal); fields that are not numbers read as 0.
pub fn parse_cpu_stat(line: &str) -> (r: Option<(u64, u64, u64, u64, u64, u64, u64, u64)>)
    ensures
        r == cpu_stat_of(line@),
{
    let chars = to_chars(line);
    parse_cpu_stat_chars(chars.as_slice())
}

/// The first line of a text, or the empty line when there is none.
pub open spec fn first_line(s: Seq<char>) -> Seq<char> {
    if lines(s).len() > 0 {
        lines(s)[0]
    } else {
        seq![]
    }
}

/// Busy ticks: user + nice + system + irq + softirq + steal.
pub open spec fn active_ticks(v: (u64, u64, u64, u64, u64, u64, u64, u64)) -> int {
    v.0 + v.1 + v.2 + v.5 + v.6 + v.7
}

/// All ticks: the busy ones plus idle and iowait.
pub open spec fn total_ticks(v: (u64, u64, u64, u64, u64, u64, u64, u64)) -> int {
    active_ticks(v) + v.3 + v.4
}

/// `a - b`, or 0 when `b > a` (`u64::saturating_sub`).
pub open spec fn sat_sub(a: int, b: int) -> int {
    if a >= b {
        a - b
    } else {
        0
    }
}

/// Tracks the previous `/proc/stat` tick counters so that each update can
/// report the usage since the previous one.
#[derive(Debug, Clone)]
pub struct CpuState {
    pub prev_active: u64,
    pub prev_total: u64,
    /// `false` until the first sample has been recorded.
    pub initialized: bool,
}

impl Default for CpuState {
    fn default() -> (r: Self)
        ensures
            r.prev_active == 0,
            r.prev_total == 0,
            !r.initialized,
    {
        CpuState { prev_active: 0, prev_total: 0, initialized: false }
    }
}

/// `100 * busy delta / total delta` rounded down (deltas saturate at 0).
pub open spec fn busy_ratio(st: CpuState, active: int, total: int) -> int {
    100 * sat_sub(active, st.prev_active as int) / sat_sub(total, st.prev_total as int)
}

/// The usage percentage reported for a new sample with `active` busy ticks
/// out of `total`: 0 on the first sample or when no tick has passed, else
/// the busy ratio, capped at 100 (it can only exceed 100 when a counter went
/// backwards).
pub open spec fn cpu_percent(st: CpuState, active: int, total: int) -> int {
    let dt = sat_sub(total, st.prev_total as int);
    if !st.initialized || dt == 0 {
        0
    } else if busy_ratio(st, active, total) > 100 {
        100
    } else {
        busy_ratio(st, active, total)
    }
}

impl CpuState {
    /// The sample in `proc_stat` can be taken without overflowing `u64`: the
    /// tick sums, and `100 * busy delta` when a percentage is computed.
    pub open spec fn update_fits(self, proc_stat: Seq<char>) -> bool {
        match cpu_stat_of(first_line(proc_stat)) {
            None => true,
            Some(v) => {
                let a = active_ticks(v);
                let t = total_ticks(v);
                &&& t <= u64::MAX
                &&& (self.initialized && sat_sub(t, self.prev_total as int) != 0) ==> 100 * sat_sub(
                    a,
                    self.prev_active as int,
                ) <= u64::MAX
            },
        }
    }

    /// Whether `update` can take the sample in `proc_stat` without overflow.
    pub fn update_in_range(&self, proc_stat: &str) -> (b: bool)
        ensures
            b == self.update_fits(proc_stat@),
    {
        let chars = to_chars(proc_stat);
        let ls = split_lines(chars.as_slice());
        let empty: Vec<char> = Vec::new();
        let first: &[char] = if ls.len() > 0 {
            ls[0].as_slice()
        } else {
            empty.as_slice()
        };
        assert(first@ == first_line(proc_stat@)) by {
            if ls.len() > 0 {
                assert(seqs_of(ls@)[0] == ls@[0]@);
            }
        }
        match parse_cpu_stat_chars(first) {
            None => true,
            Some((user, nice, system, idle, iowait, irq, softirq, steal)) => {
                let active: u128 = user as u128 + nice as u128 + system as u128 + irq as u128
                    + softirq as u128 + steal as u128;
                let total: u128 = active + idle as u128 + iowait as u128;
                if total > u64::MAX as u128 {
                    return false;
                }
                let pa: u128 = self.prev_active as u128;
                let pt: u128 = self.prev_total as u128;
                let da: u128 = if active >= pa {
                    active - pa
                } else {
                    0
                };
                let dt: u128 = if total >= pt {
                    total - pt
                } else {
                    0
                };
                if self.initialized && dt != 0 {
                    100 * da <= u64::MAX as u128
                } else {
                    true
                }
            },
        }
    }

    /// Takes the first line of `/proc/stat` and returns the CPU usage in percent
    /// (0 to 100) since the previous sample (0 on the first sample). A text whose first
    /// line is not a CPU line gives 0 and leaves the state as it was.
    pub fn update(&mut self, proc_stat: &str) -> (r: u64)
        requires
            old(self).update_fits(proc_stat@),
        ensures
            r <= 100,
            match cpu_stat_of(first_line(proc_stat@)) {
                None => r == 0 && *final(self) == *old(self),
                Some(v) => {
                    &&& final(self).prev_active == active_ticks(v)
                    &&& final(self).prev_total == total_ticks(v)
                    &&& final(self).initialized
                    &&& final(self).prev_active <= final(self).prev_total
                    &&& r == cpu_percent(*old(self), active_ticks(v), total_ticks(v))
                },
            },
    {
        let chars = to_chars(proc_stat);
        let ls = split_lines(chars.as_slice());
        let empty: Vec<char> = Vec::new();
        let first: &[char] = if ls.len() > 0 {
            ls[0].as_slice()
        } else {
            empty.as_slice()
        };
        assert(first@ == first_line(proc_stat@)) by {
            if ls.len() > 0 {
                assert(seqs_of(ls@)[0] == ls@[0]@);
            }
        }
        let (user, nice, system, idle, iowait, irq, softirq, steal) = match parse_cpu_stat_chars(
            first,
        ) {
            Some(v) => v,
            None => {
                return 0;
            },
        };
        let active = user + nice + system + irq + softirq + steal;
        let total = active + idle + iowait;
        let delta_active = if active >= self.prev_active {
            active - self.prev_active
        } else {
            0
        };
        let delta_total = if total >= self.prev_total {
            total - self.prev_total
        } else {
            0
        };
        let result = if !self.initialized || delta_total == 0 {
            0
        } else {
            let ratio = 100 * delta_active / delta_total;
            if ratio > 100 {
                100
            } else {
                ratio
            }
        };
        self.prev_active = active;
        self.prev_total = total;
        self.initialized = true;
        result
    }
}

/// As long as no counter went backwards since the previous sample (the busy
/// ticks did not decrease and neither did the idle ones), the cap at 100 never
/// applies: the percentage is the busy ratio itself.
pub proof fn lemma_cpu_percent_uncapped_when_counters_grow(st: CpuState, active: int, total: int)
    requires
        st.prev_active <= st.prev_total,
        st.prev_active <= active <= total,
        total - active >= st.prev_total - st.prev_active,
        st.initialized,
        total > st.prev_total,
    ensures
        cpu_percent(st, active, total) == busy_ratio(st, active, total),
{
    let da = active - st.prev_active;
    let dt = total - st.prev_total;
    assert(da <= dt);
    assert(0 <= 100 * da / dt <= 100) by (nonlinear_arith)
        requires
            0 <= da <= dt,
            dt > 0,
    ;
}

/// On every sample after the first with ticks elapsed, the percentage is the
/// busy share of the elapsed ticks rounded down, capped at 100: writing
/// `da` for the busy ticks and `dt` for all ticks since the previous sample
/// (each 0 if it went backwards), the result `r` satisfies
/// `r * dt <= 100 * da`, and `100 * da < (r + 1) * dt` unless `r` is 100.
pub proof fn lemma_cpu_percent_is_busy_share(st: CpuState, active: int, total: int)
    requires
        st.initialized,
        total > st.prev_total,
    ensures
        ({
            let r = cpu_percent(st, active, total);
            let da = if active >= st.prev_active {
                active - st.prev_active
            } else {
                0
            };
            let dt = total - st.prev_total;
            &&& 0 <= r <= 100
            &&& r * dt <= 100 * da
            &&& r < 100 ==> 100 * da < (r + 1) * dt
        }),
{
    let da = if active >= st.prev_active {
        active - st.prev_active
    } else {
        0
    };
    let dt = total - st.prev_total;
    let q = (100 * da) / dt;
    assert(sat_sub(active, st.prev_active as int) == da);
    assert(sat_sub(total, st.prev_total as int) == dt);
    assert(busy_ratio(st, active, total) == q);
    vstd::arithmetic::div_mod::lemma_fundamental_div_mod(100 * da, dt);
    vstd::arithmetic::div_mod::lemma_mod_bound(100 * da, dt);
    let m = (100 * da) % dt;
    assert(100 * da == dt * q + m);
    assert(q >= 0) by (nonlinear_arith)
        requires
            100 * da == dt * q + m,
            0 <= m < dt,
            da >= 0,
    ;
    if q > 100 {
        assert(100 * dt <= 100 * da) by (nonlinear_arith)
            requires
                100 * da == dt * q + m,
                q > 100,
                m >= 0,
                dt > 0,
        ;
    } else {
        assert(q * dt <= 100 * da < (q + 1) * dt) by (nonlinear_arith)
            requires
                100 * da == dt * q + m,
                0 <= m < dt,
        ;
    }
}

} // verus!
