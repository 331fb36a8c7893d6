//! Disk usage from the output of `df -BM <path>`.
use vstd::prelude::*;

use crate::text::{lines, parse_u64, parse_u8, parse_uint, seqs_of, split_lines, split_ws, to_chars, trim_end_char, trim_end_char_of, ws_tokens};

verus! {

/// A `u8` field, or 0 when it is not one.
pub open spec fn u8_or_zero(t: Seq<char>) -> u8 {
    match parse_uint(t, u8::MAX as nat) {
        Some(v) => v as u8,
        None => 0,
    }
}

/// A `u64` field, or 0 when it is not one.
pub open spec fn u64_or_zero(t: Seq<char>) -> u64 {
    match parse_uint(t, u64::MAX as nat) {
        Some(v) => v as u64,
        None => 0,
    }
}

/// A `df` data row with at least five fields: the `Use%` column (fifth) without
/// its `%` signs, and the `Available` column (fourth) without its `M` suffix.
pub open spec fn df_row(line: Seq<char>) -> Option<(u8, u64)> {
    let t = ws_tokens(line);
    if t.len() >= 5 {
        Some((u8_or_zero(trim_end_char(t[4], '%')), u64_or_zero(trim_end_char(t[3], 'M'))))
    } else {
        None
    }
}

/// The values of the first row that has at least five fields, or `(0, 0)`.
pub open spec fn first_df_row(rows: Seq<Seq<char>>) -> (u8, u64)
    decreases rows.len(),
{
    if rows.len() == 0 {
        (0, 0)
    } else {
        match df_row(rows[0]) {
            Some(r) => r,
            None => first_df_row(rows.drop_first()),
        }
    }
}

/// The lines of `s` after the first (the header).
pub open spec fn after_header(s: Seq<char>) -> Seq<Seq<char>> {
    let ls = lines(s);
    if ls.len() == 0 {
        ls
    } else {
        ls.drop_first()
    }
}

/// `(used_pct, avail_mib)` as read from `df -BM` output.
pub open spec fn df_usage(s: Seq<char>) -> (u8, u64) {
    first_df_row(after_header(s))
}

/// When the line after the header has at least five fields, it gives the
/// result: the fifth field without its trailing `%` signs as a `u8` used
/// percentage (0 if it is not one), and the fourth field without its trailing
/// `M`s as a `u64` count of available MiB (any value up to `u64::MAX`; 0 if
/// it is not one).
pub proof fn lemma_df_first_data_row(output: Seq<char>)
    requires
        lines(output).len() >= 2,
        ws_tokens(lines(output)[1]).len() >= 5,
    ensures
        ({
            let t = ws_tokens(lines(output)[1]);
            let pct = match parse_uint(trim_end_char(t[4], '%'), u8::MAX as nat) {
                Some(v) => v,
                None => 0,
            };
            let avail = match parse_uint(trim_end_char(t[3], 'M'), u64::MAX as nat) {
                Some(v) => v,
                None => 0,
            };
            df_usage(output).0 == pct && df_usage(output).1 == avail
        }),
{
    let rows = after_header(output);
    assert(rows[0] == lines(output)[1]);
}

fn df_row_of(line: &[char]) -> (r: Option<(u8, u64)>)
    ensures
        r == df_row(line@),
{
    let t = split_ws(line);
    if t.len() < 5 {
        return None;
    }
    assert(seqs_of(t@)[4] == t@[4]@);
    assert(seqs_of(t@)[3] == t@[3]@);
    let pct_chars = trim_end_char_of(t[4].as_slice(), '%');
    let avail_chars = trim_end_char_of(t[3].as_slice(), 'M');
    let pct: u8 = match parse_u8(pct_chars.as_slice()) {
        Some(v) => v,
        None => 0,
    };
    let avail: u64 = match parse_u64(avail_chars.as_slice()) {
        Some(v) => v,
        None => 0,
    };
    Some((pct, avail))
}

/// Parses the output of `df -BM <path>` and returns `(used_pct, avail_mib)`:
/// the values of the first row after the header with at least five fields,
/// or `(0, 0)` when there is none.
pub fn parse_df_output(output: &str) -> (r: (u8, u64))
    ensures
        r == df_usage(output@),
{
    let chars = to_chars(output);
    let ls = split_lines(chars.as_slice());
    let ghost all = seqs_of(ls@);
    let mut i: usize = 1;
    assert(ls.len() > 0 ==> all.subrange(1, all.len() as int) =~= after_header(output@));
    while i < ls.len()
        invariant
            1 <= i,
            ls.len() > 0 ==> i <= ls.len(),
            all == seqs_of(ls@),
            all == lines(output@),
            ls.len() > 0 ==> first_df_row(after_header(output@)) == first_df_row(
                all.subrange(i as int, all.len() as int),
            ),
        decreases ls.len() - i,
    {
        let ghost rest = all.subrange(i as int, all.len() as int);
        assert(rest[0] == ls@[i as int]@);
        assert(rest.drop_first() =~= all.subrange(i + 1, all.len() as int));
        match df_row_of(ls[i].as_slice()) {
            Some(r) => {
                return r;
            },
            None => {},
        }
        i += 1;
    }
    assert(ls.len() > 0 ==> all.subrange(i as int, all.len() as int).len() == 0);
    (0, 0)
}

} // verus!
