//! CPU temperature readings from `/sys/class/thermal/thermal_zone*/temp`.
use vstd::prelude::*;

use crate::text::{lines, parse_u64, parse_uint, seqs_of, split_lines, to_chars, trim, trim_chars};

verus! {

/// The readings (millidegrees Celsius) of the lines that, trimmed, are a
/// `u64`, in order; other lines are skipped.
pub open spec fn readings_of(ls: Seq<Seq<char>>) -> Seq<u64>
    decreases ls.len(),
{
    if ls.len() == 0 {
        seq![]
    } else {
        let rest = readings_of(ls.drop_last());
        match parse_uint(trim(ls.last()), u64::MAX as nat) {
            Some(v) => rest.push(v as u64),
            None => rest,
        }
    }
}

/// Reads the concatenated output of `cat /sys/class/thermal/thermal_zone*/temp`:
/// one temperature per line in millidegrees Celsius (e.g. `45000` = 45.0 °C);
/// lines that are not a number are skipped.
pub fn thermal_readings(contents: &str) -> (r: Vec<u64>)
    ensures
        r@ == readings_of(lines(contents@)),
{
    let chars = to_chars(contents);
    let ls = split_lines(chars.as_slice());
    let ghost all = seqs_of(ls@);
    let mut r: Vec<u64> = Vec::new();
    let mut i: usize = 0;
    while i < ls.len()
        invariant
            i <= ls.len(),
            all == seqs_of(ls@),
            all == lines(contents@),
            r@ == readings_of(all.take(i as int)),
        decreases ls.len() - i,
    {
        let ghost upto = all.take(i + 1);
        assert(upto.drop_last() =~= all.take(i as int));
        assert(upto.last() == ls@[i as int]@);
        let t = trim_chars(ls[i].as_slice());
        match parse_u64(t.as_slice()) {
            Some(v) => r.push(v),
            None => {},
        }
        i += 1;
    }
    assert(all.take(ls.len() as int) =~= all);
    r
}

} // verus!
