//! Memory usage from `/proc/meminfo`.
use vstd::prelude::*;

use crate::metrics::disk::u64_or_zero;
use crate::text::{lines, parse_u64, seqs_of, split_lines, split_ws, starts_with, starts_with_str, sub_chars, to_chars, ws_tokens};

verus! {

/// The first whitespace-separated field of `s` as a `u64`, or 0.
pub open spec fn first_number_of(s: Seq<char>) -> u64 {
    let t = ws_tokens(s);
    if t.len() > 0 {
        u64_or_zero(t[0])
    } else {
        0
    }
}

fn first_number_chars(s: &[char]) -> (r: u64)
    ensures
        r == first_number_of(s@),
{
    let t = split_ws(s);
    if t.len() == 0 {
        return 0;
    }
    assert(seqs_of(t@)[0] == t@[0]@);
    match parse_u64(t[0].as_slice()) {
        Some(v) => v,
        None => 0,
    }
}

/// The first whitespace-separated field of `s` as a number, or 0 when there is
/// none or it is not a `u64`.
pub fn first_number(s: &str) -> (r: u64)
    ensures
        r == first_number_of(s@),
{
    let chars = to_chars(s);
    first_number_chars(chars.as_slice())
}

/// `line` with `prefix` removed from its start.
pub open spec fn after_prefix(line: Seq<char>, prefix: Seq<char>) -> Seq<char> {
    line.subrange(prefix.len() as int, line.len() as int)
}

/// The (total, available) kB counters after reading one more line.
pub open spec fn mem_line(line: Seq<char>, total: u64, avail: u64) -> (u64, u64) {
    if starts_with(line, "MemTotal:"@) {
        (first_number_of(after_prefix(line, "MemTotal:"@)), avail)
    } else if starts_with(line, "MemAvailable:"@) {
        (total, first_number_of(after_prefix(line, "MemAvailable:"@)))
    } else {
        (total, avail)
    }
}

/// Reads `MemTotal:` and `MemAvailable:` lines in order, stopping as soon as
/// both counters are non-zero; a later line of the same kind overrides an
/// earlier one.
pub open spec fn mem_scan(ls: Seq<Seq<char>>, total: u64, avail: u64) -> (u64, u64)
    decreases ls.len(),
{
    if ls.len() == 0 {
        (total, avail)
    } else {
        let (t, a) = mem_line(ls[0], total, avail);
        if t > 0 && a > 0 {
            (t, a)
        } else {
            mem_scan(ls.drop_first(), t, a)
        }
    }
}

/// `(used_mib, total_mib)` for a `/proc/meminfo` text: total and available
/// converted from kB to MiB (rounded down), used = total - available (0 if
/// available exceeds total).
pub open spec fn meminfo_usage(s: Seq<char>) -> (u64, u64) {
    let (t, a) = mem_scan(lines(s), 0, 0);
    let total_mib = t / 1024;
    let avail_mib = a / 1024;
    (if total_mib >= avail_mib {
        (total_mib - avail_mib) as u64
    } else {
        0
    }, total_mib)
}

fn mem_line_of(line: &[char], total: u64, avail: u64) -> (r: (u64, u64))
    ensures
        r == mem_line(line@, total, avail),
{
    if starts_with_str(line, "MemTotal:") {
        let p = to_chars("MemTotal:");
        let rest = sub_chars(line, p.len(), line.len());
        (first_number_chars(rest.as_slice()), avail)
    } else if starts_with_str(line, "MemAvailable:") {
        let p = to_chars("MemAvailable:");
        let rest = sub_chars(line, p.len(), line.len());
        (total, first_number_chars(rest.as_slice()))
    } else {
        (total, avail)
    }
}

/// Parses `/proc/meminfo` and returns `(used_mib, total_mib)`, where
/// `used_mib = total_mib - available_mib`.
pub fn parse_meminfo(meminfo: &str) -> (r: (u64, u64))
    ensures
        r == meminfo_usage(meminfo@),
        r.0 <= r.1,
{
    let chars = to_chars(meminfo);
    let ls = split_lines(chars.as_slice());
    let ghost all = seqs_of(ls@);
    let mut total_kb: u64 = 0;
    let mut avail_kb: u64 = 0;
    let mut i: usize = 0;
    assert(all.subrange(0, all.len() as int) =~= all);
    while i < ls.len()
        invariant_except_break
            mem_scan(all, 0, 0) == mem_scan(
                all.subrange(i as int, all.len() as int),
                total_kb,
                avail_kb,
            ),
        invariant
            i <= ls.len(),
            all == seqs_of(ls@),
            all == lines(meminfo@),
        ensures
            mem_scan(all, 0, 0) == (total_kb, avail_kb),
        decreases ls.len() - i,
    {
        let ghost rest = all.subrange(i as int, all.len() as int);
        assert(rest[0] == ls@[i as int]@);
        assert(rest.drop_first() =~= all.subrange(i + 1, all.len() as int));
        let (t, a) = mem_line_of(ls[i].as_slice(), total_kb, avail_kb);
        total_kb = t;
        avail_kb = a;
        if total_kb > 0 && avail_kb > 0 {
            break;
        }
        i += 1;
    }
    let total_mib = total_kb / 1024;
    let avail_mib = avail_kb / 1024;
    let used_mib = if total_mib >= avail_mib {
        total_mib - avail_mib
    } else {
        0
    };
    (used_mib, total_mib)
}

} // verus!
