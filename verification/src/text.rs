//! Character-level text handling shared by the parsers and the renderer:
//! whitespace splitting, line splitting, trimming, unsigned integer parsing,
//! case-insensitive keyword matching and decimal formatting.
//!
//! Every function here works on the `Seq<char>` view of the text, which is
//! how Verus models `str` and `String`.
use vstd::prelude::*;

verus! {

/// Appending a character to a `String` adds it at the end (std: `String::push`
/// "Appends the given char to the end of this String").
pub assume_specification[ String::push ](s: &mut String, ch: char)
    ensures
        final(s)@ == old(s)@.push(ch),
;

// ---------------------------------------------------------------------------
// Characters
// ---------------------------------------------------------------------------
/// The Unicode `White_Space` characters, which is what `char::is_whitespace`
/// (and therefore `str::split_whitespace` and `str::trim`) recognises.
pub open spec fn is_ws(c: char) -> bool {
    ||| ('\u{9}' <= c && c <= '\u{d}')
    ||| c == ' '
    ||| c == '\u{85}'
    ||| c == '\u{a0}'
    ||| c == '\u{1680}'
    ||| ('\u{2000}' <= c && c <= '\u{200a}')
    ||| c == '\u{2028}'
    ||| c == '\u{2029}'
    ||| c == '\u{202f}'
    ||| c == '\u{205f}'
    ||| c == '\u{3000}'
}

pub fn is_whitespace(c: char) -> (b: bool)
    ensures
        b == is_ws(c),
{
    ('\u{9}' <= c && c <= '\u{d}') || c == ' ' || c == '\u{85}' || c == '\u{a0}' || c
        == '\u{1680}' || ('\u{2000}' <= c && c <= '\u{200a}') || c == '\u{2028}' || c
        == '\u{2029}' || c == '\u{202f}' || c == '\u{205f}' || c == '\u{3000}'
}

pub open spec fn is_digit(c: char) -> bool {
    '0' <= c && c <= '9'
}

pub open spec fn digit_value(c: char) -> nat {
    (c as int - '0' as int) as nat
}

/// The character for a decimal digit `d < 10`.
pub open spec fn digit_char(d: nat) -> char {
    ((d + 48) as u8) as char
}

/// How `str::to_lowercase` treats a character, as far as matching against a
/// lowercase ASCII keyword goes: `A`..`Z` become `a`..`z`, the Kelvin sign
/// U+212A becomes `k`, and every other character lowercases to something that
/// is not a single ASCII character (or stays itself), so it is kept as is.
pub open spec fn fold_lower(c: char) -> char {
    if 'A' <= c && c <= 'Z' {
        ((c as u8) + 32) as u8 as char
    } else if c == '\u{212a}' {
        'k'
    } else {
        c
    }
}

pub fn fold_lower_char(c: char) -> (r: char)
    ensures
        r == fold_lower(c),
{
    if 'A' <= c && c <= 'Z' {
        ((c as u8) + 32) as char
    } else if c == '\u{212a}' {
        'k'
    } else {
        c
    }
}

// ---------------------------------------------------------------------------
// Sequences of character sequences
// ---------------------------------------------------------------------------
pub open spec fn seqs_of(v: Seq<Vec<char>>) -> Seq<Seq<char>> {
    v.map_values(|t: Vec<char>| t@)
}

pub open spec fn strings_of(v: Seq<String>) -> Seq<Seq<char>> {
    v.map_values(|t: String| t@)
}

proof fn lemma_strings_of_push(v: Seq<String>, t: String)
    ensures
        strings_of(v.push(t)) == strings_of(v).push(t@),
{
    assert(strings_of(v.push(t)) =~= strings_of(v).push(t@));
}

proof fn lemma_seqs_of_push(v: Seq<Vec<char>>, t: Vec<char>)
    ensures
        seqs_of(v.push(t)) == seqs_of(v).push(t@),
{
    assert(seqs_of(v.push(t)) =~= seqs_of(v).push(t@));
}

/// Copies the characters of `s` into a vector, in order.
pub fn to_chars(s: &str) -> (v: Vec<char>)
    ensures
        v@ == s@,
{
    let mut v: Vec<char> = Vec::new();
    for c in it: s.chars()
        invariant
            it.seq() == s@,
            v@ == s@.take(it.index() as int),
    {
        v.push(c);
    }
    v
}

/// A `String` holding exactly the given characters.
pub fn string_of(chars: &[char]) -> (r: String)
    ensures
        r@ == chars@,
{
    let mut r = String::new();
    let mut i: usize = 0;
    while i < chars.len()
        invariant
            i <= chars.len(),
            r@ == chars@.take(i as int),
        decreases chars.len() - i,
    {
        r.push(chars[i]);
        i += 1;
        assert(r@ =~= chars@.take(i as int));
    }
    assert(chars@.take(chars.len() as int) =~= chars@);
    r
}

/// Appends the characters of `chars` to `out`.
pub fn push_chars(out: &mut String, chars: &[char])
    ensures
        final(out)@ == old(out)@ + chars@,
{
    let mut i: usize = 0;
    while i < chars.len()
        invariant
            i <= chars.len(),
            out@ == old(out)@ + chars@.take(i as int),
        decreases chars.len() - i,
    {
        out.push(chars[i]);
        i += 1;
        assert(out@ =~= old(out)@ + chars@.take(i as int));
    }
    assert(chars@.take(chars.len() as int) =~= chars@);
}

/// The characters of `s` from index `lo` up to (not including) `hi`.
pub fn sub_chars(s: &[char], lo: usize, hi: usize) -> (r: Vec<char>)
    requires
        lo <= hi <= s.len(),
    ensures
        r@ == s@.subrange(lo as int, hi as int),
{
    let mut r: Vec<char> = Vec::new();
    let mut i: usize = lo;
    while i < hi
        invariant
            lo <= i <= hi <= s.len(),
            r@ == s@.subrange(lo as int, i as int),
        decreases hi - i,
    {
        r.push(s[i]);
        i += 1;
        assert(r@ =~= s@.subrange(lo as int, i as int));
    }
    r
}

/// `a` and `b` hold the same characters.
pub fn chars_eq(a: &[char], b: &[char]) -> (r: bool)
    ensures
        r == (a@ == b@),
{
    if a.len() != b.len() {
        return false;
    }
    let mut i: usize = 0;
    while i < a.len()
        invariant
            a.len() == b.len(),
            i <= a.len(),
            forall|j: int| 0 <= j < i ==> a@[j] == b@[j],
        decreases a.len() - i,
    {
        if a[i] != b[i] {
            return false;
        }
        i += 1;
    }
    assert(a@ =~= b@);
    true
}

/// `a` holds the characters of the string `b`.
pub fn chars_eq_str(a: &[char], b: &str) -> (r: bool)
    ensures
        r == (a@ == b@),
{
    let bv = to_chars(b);
    chars_eq(a, bv.as_slice())
}

// ---------------------------------------------------------------------------
// Prefixes and suffixes
// ---------------------------------------------------------------------------
pub open spec fn starts_with(s: Seq<char>, p: Seq<char>) -> bool {
    p.len() <= s.len() && s.take(p.len() as int) == p
}

pub fn starts_with_str(s: &[char], p: &str) -> (r: bool)
    ensures
        r == starts_with(s@, p@),
{
    let pv = to_chars(p);
    if pv.len() > s.len() {
        return false;
    }
    let mut i: usize = 0;
    while i < pv.len()
        invariant
            pv@ == p@,
            pv.len() <= s.len(),
            i <= pv.len(),
            forall|j: int| 0 <= j < i ==> s@[j] == pv@[j],
        decreases pv.len() - i,
    {
        if s[i] != pv[i] {
            assert(s@.take(pv.len() as int)[i as int] != pv@[i as int]);
            return false;
        }
        i += 1;
    }
    assert(s@.take(pv.len() as int) =~= pv@);
    true
}

/// `s` with every trailing `c` removed (`str::trim_end_matches` with a char).
pub open spec fn trim_end_char(s: Seq<char>, c: char) -> Seq<char>
    decreases s.len(),
{
    if s.len() > 0 && s.last() == c {
        trim_end_char(s.drop_last(), c)
    } else {
        s
    }
}

pub fn trim_end_char_of(s: &[char], c: char) -> (r: Vec<char>)
    ensures
        r@ == trim_end_char(s@, c),
{
    let mut hi: usize = s.len();
    assert(s@.take(hi as int) =~= s@);
    while hi > 0 && s[hi - 1] == c
        invariant
            hi <= s.len(),
            trim_end_char(s@, c) == trim_end_char(s@.take(hi as int), c),
        decreases hi,
    {
        assert(s@.take(hi as int).drop_last() =~= s@.take(hi - 1));
        hi -= 1;
    }
    let r = sub_chars(s, 0, hi);
    assert(s@.subrange(0, hi as int) =~= s@.take(hi as int));
    r
}

// ---------------------------------------------------------------------------
// Trimming whitespace
// ---------------------------------------------------------------------------
pub open spec fn trim_start(s: Seq<char>) -> Seq<char>
    decreases s.len(),
{
    if s.len() > 0 && is_ws(s[0]) {
        trim_start(s.drop_first())
    } else {
        s
    }
}

pub open spec fn trim_end(s: Seq<char>) -> Seq<char>
    decreases s.len(),
{
    if s.len() > 0 && is_ws(s.last()) {
        trim_end(s.drop_last())
    } else {
        s
    }
}

/// `str::trim`: leading and trailing whitespace removed.
pub open spec fn trim(s: Seq<char>) -> Seq<char> {
    trim_end(trim_start(s))
}

/// The bounds `lo..hi` of `trim(s)` inside `s`.
pub fn trim_bounds(s: &[char]) -> (r: (usize, usize))
    ensures
        r.0 <= r.1 <= s.len(),
        s@.subrange(r.0 as int, r.1 as int) == trim(s@),
{
    let mut lo: usize = 0;
    assert(s@.subrange(0, s.len() as int) =~= s@);
    while lo < s.len() && is_whitespace(s[lo])
        invariant
            lo <= s.len(),
            trim_start(s@) == trim_start(s@.subrange(lo as int, s.len() as int)),
        decreases s.len() - lo,
    {
        assert(s@.subrange(lo as int, s.len() as int).drop_first() =~= s@.subrange(
            lo + 1,
            s.len() as int,
        ));
        lo += 1;
    }
    let ghost ts = s@.subrange(lo as int, s.len() as int);
    assert(trim_start(s@) == ts);
    let mut hi: usize = s.len();
    while hi > lo && is_whitespace(s[hi - 1])
        invariant
            lo <= hi <= s.len(),
            trim_end(ts) == trim_end(s@.subrange(lo as int, hi as int)),
        decreases hi,
    {
        assert(s@.subrange(lo as int, hi as int).drop_last() =~= s@.subrange(
            lo as int,
            hi - 1,
        ));
        hi -= 1;
    }
    (lo, hi)
}

/// The characters of `trim(s)`.
pub fn trim_chars(s: &[char]) -> (r: Vec<char>)
    ensures
        r@ == trim(s@),
{
    let (lo, hi) = trim_bounds(s);
    sub_chars(s, lo, hi)
}

// ---------------------------------------------------------------------------
// Splitting
// ---------------------------------------------------------------------------
/// Left-to-right scan behind `ws_tokens`: the tokens completed so far and the
/// token being read.
pub open spec fn ws_scan(s: Seq<char>) -> (Seq<Seq<char>>, Seq<char>)
    decreases s.len(),
{
    if s.len() == 0 {
        (seq![], seq![])
    } else {
        let (done, cur) = ws_scan(s.drop_last());
        if is_ws(s.last()) {
            if cur.len() > 0 {
                (done.push(cur), seq![])
            } else {
                (done, cur)
            }
        } else {
            (done, cur.push(s.last()))
        }
    }
}

/// `str::split_whitespace`: the maximal runs of non-whitespace characters.
pub open spec fn ws_tokens(s: Seq<char>) -> Seq<Seq<char>> {
    let (done, cur) = ws_scan(s);
    if cur.len() > 0 {
        done.push(cur)
    } else {
        done
    }
}

pub fn split_ws(s: &[char]) -> (r: Vec<Vec<char>>)
    ensures
        seqs_of(r@) == ws_tokens(s@),
{
    let mut done: Vec<Vec<char>> = Vec::new();
    let mut cur: Vec<char> = Vec::new();
    let mut i: usize = 0;
    while i < s.len()
        invariant
            i <= s.len(),
            (seqs_of(done@), cur@) == ws_scan(s@.take(i as int)),
        decreases s.len() - i,
    {
        let c = s[i];
        assert(s@.take(i + 1).drop_last() =~= s@.take(i as int));
        if is_whitespace(c) {
            if cur.len() > 0 {
                proof {
                    lemma_seqs_of_push(done@, cur);
                }
                done.push(cur);
                cur = Vec::new();
                assert(cur@ =~= seq![]);
            }
        } else {
            cur.push(c);
        }
        i += 1;
    }
    assert(s@.take(s.len() as int) =~= s@);
    if cur.len() > 0 {
        proof {
            lemma_seqs_of_push(done@, cur);
        }
        done.push(cur);
    }
    done
}

/// The whitespace-separated fields of `s`, as strings.
pub fn split_whitespace(s: &str) -> (r: Vec<String>)
    ensures
        strings_of(r@) == ws_tokens(s@),
{
    let chars = to_chars(s);
    let toks = split_ws(chars.as_slice());
    let mut r: Vec<String> = Vec::new();
    let mut i: usize = 0;
    while i < toks.len()
        invariant
            i <= toks.len(),
            seqs_of(toks@) == ws_tokens(s@),
            strings_of(r@) == seqs_of(toks@).take(i as int),
        decreases toks.len() - i,
    {
        let t = string_of(toks[i].as_slice());
        proof {
            lemma_strings_of_push(r@, t);
            assert(seqs_of(toks@)[i as int] == toks@[i as int]@);
        }
        r.push(t);
        i += 1;
        assert(strings_of(r@) =~= seqs_of(toks@).take(i as int));
    }
    assert(seqs_of(toks@).take(toks.len() as int) =~= seqs_of(toks@));
    r
}

/// A line with its final carriage return removed, if it has one.
pub open spec fn strip_cr(l: Seq<char>) -> Seq<char> {
    if l.len() > 0 && l.last() == '\r' {
        l.drop_last()
    } else {
        l
    }
}

/// Left-to-right scan behind `lines`: the lines completed so far and the
/// characters of the line being read.
pub open spec fn line_scan(s: Seq<char>) -> (Seq<Seq<char>>, Seq<char>)
    decreases s.len(),
{
    if s.len() == 0 {
        (seq![], seq![])
    } else {
        let (done, cur) = line_scan(s.drop_last());
        if s.last() == '\n' {
            (done.push(strip_cr(cur)), seq![])
        } else {
            (done, cur.push(s.last()))
        }
    }
}

/// `str::lines`: the text split at each `\n`, a `\r` right before a `\n`
/// dropped, and no empty line after a final `\n`.
pub open spec fn lines(s: Seq<char>) -> Seq<Seq<char>> {
    let (done, cur) = line_scan(s);
    if cur.len() > 0 {
        done.push(cur)
    } else {
        done
    }
}

pub fn split_lines(s: &[char]) -> (r: Vec<Vec<char>>)
    ensures
        seqs_of(r@) == lines(s@),
{
    let mut done: Vec<Vec<char>> = Vec::new();
    let mut cur: Vec<char> = Vec::new();
    let mut i: usize = 0;
    while i < s.len()
        invariant
            i <= s.len(),
            (seqs_of(done@), cur@) == line_scan(s@.take(i as int)),
        decreases s.len() - i,
    {
        let c = s[i];
        assert(s@.take(i + 1).drop_last() =~= s@.take(i as int));
        if c == '\n' {
            if cur.len() > 0 && cur[cur.len() - 1] == '\r' {
                cur.pop();
                assert(cur@ =~= strip_cr(line_scan(s@.take(i as int)).1));
            }
            proof {
                lemma_seqs_of_push(done@, cur);
            }
            done.push(cur);
            cur = Vec::new();
            assert(cur@ =~= seq![]);
        } else {
            cur.push(c);
        }
        i += 1;
    }
    assert(s@.take(s.len() as int) =~= s@);
    if cur.len() > 0 {
        proof {
            lemma_seqs_of_push(done@, cur);
        }
        done.push(cur);
    }
    done
}

/// Left-to-right scan behind `split_on`.
pub open spec fn split_scan(s: Seq<char>, sep: char) -> (Seq<Seq<char>>, Seq<char>)
    decreases s.len(),
{
    if s.len() == 0 {
        (seq![], seq![])
    } else {
        let (done, cur) = split_scan(s.drop_last(), sep);
        if s.last() == sep {
            (done.push(cur), seq![])
        } else {
            (done, cur.push(s.last()))
        }
    }
}

/// `str::split` with a character: the pieces between separators, empty pieces
/// included, so there is always one piece more than there are separators.
pub open spec fn split_on(s: Seq<char>, sep: char) -> Seq<Seq<char>> {
    let (done, cur) = split_scan(s, sep);
    done.push(cur)
}

pub fn split_char(s: &[char], sep: char) -> (r: Vec<Vec<char>>)
    ensures
        seqs_of(r@) == split_on(s@, sep),
{
    let mut done: Vec<Vec<char>> = Vec::new();
    let mut cur: Vec<char> = Vec::new();
    let mut i: usize = 0;
    while i < s.len()
        invariant
            i <= s.len(),
            (seqs_of(done@), cur@) == split_scan(s@.take(i as int), sep),
        decreases s.len() - i,
    {
        let c = s[i];
        assert(s@.take(i + 1).drop_last() =~= s@.take(i as int));
        if c == sep {
            proof {
                lemma_seqs_of_push(done@, cur);
            }
            done.push(cur);
            cur = Vec::new();
            assert(cur@ =~= seq![]);
        } else {
            cur.push(c);
        }
        i += 1;
    }
    assert(s@.take(s.len() as int) =~= s@);
    proof {
        lemma_seqs_of_push(done@, cur);
    }
    done.push(cur);
    done
}

// ---------------------------------------------------------------------------
// Unsigned integers
// ---------------------------------------------------------------------------
pub open spec fn all_digits(s: Seq<char>) -> bool {
    forall|i: int| 0 <= i < s.len() ==> is_digit(#[trigger] s[i])
}

/// The value of a run of decimal digits.
pub open spec fn digits_value(s: Seq<char>) -> nat
    decreases s.len(),
{
    if s.len() == 0 {
        0
    } else {
        digits_value(s.drop_last()) * 10 + digit_value(s.last())
    }
}

/// `str::parse` for an unsigned integer type whose largest value is `max`:
/// an optional `+`, then at least one ASCII digit and nothing else, with a
/// value of at most `max`.
pub open spec fn parse_uint(s: Seq<char>, max: nat) -> Option<nat> {
    let body = if s.len() > 0 && s[0] == '+' {
        s.drop_first()
    } else {
        s
    };
    if body.len() > 0 && all_digits(body) && digits_value(body) <= max {
        Some(digits_value(body))
    } else {
        None
    }
}

/// A digit run's value is at least that of any of its prefixes.
proof fn lemma_digits_value_prefix(s: Seq<char>, i: int)
    requires
        0 <= i <= s.len(),
        all_digits(s),
    ensures
        digits_value(s.take(i)) <= digits_value(s),
    decreases s.len(),
{
    if i < s.len() {
        assert(s.drop_last().take(i) =~= s.take(i));
        assert(all_digits(s.drop_last()));
        lemma_digits_value_prefix(s.drop_last(), i);
    } else {
        assert(s.take(i) =~= s);
    }
}

/// Parses `s` as an unsigned integer no larger than `max`.
fn parse_uint_chars(s: &[char], max: u64) -> (r: Option<u64>)
    requires
        max >= 9,
    ensures
        match parse_uint(s@, max as nat) {
            Some(v) => r == Some(v as u64),
            None => r is None,
        },
{
    let start: usize = if s.len() > 0 && s[0] == '+' {
        1
    } else {
        0
    };
    let ghost body = s@.subrange(start as int, s.len() as int);
    assert(start == 1 ==> body =~= s@.drop_first());
    assert(start == 0 ==> body =~= s@);
    assert(body == (if s@.len() > 0 && s@[0] == '+' {
        s@.drop_first()
    } else {
        s@
    }));
    if start >= s.len() {
        return None;
    }
    let mut v: u64 = 0;
    let mut i: usize = start;
    while i < s.len()
        invariant
            start <= i <= s.len(),
            start < s.len(),
            body == s@.subrange(start as int, s.len() as int),
            body == (if s@.len() > 0 && s@[0] == '+' {
                s@.drop_first()
            } else {
                s@
            }),
            all_digits(body.take(i - start)),
            v as nat == digits_value(body.take(i - start)),
            v <= max,
            max >= 9,
        decreases s.len() - i,
    {
        let c = s[i];
        let ghost pre = body.take(i - start);
        let ghost next = body.take(i - start + 1);
        assert(next.drop_last() =~= pre);
        assert(next.last() == c);
        if !('0' <= c && c <= '9') {
            assert(body[i - start] == c);
            assert(!is_digit(body[i - start]));
            assert(!all_digits(body));
            assert(parse_uint(s@, max as nat) is None);
            return None;
        }
        assert(all_digits(next)) by {
            assert forall|j: int| 0 <= j < next.len() implies is_digit(#[trigger] next[j]) by {
                if j < pre.len() {
                    assert(next[j] == pre[j]);
                }
            }
        }
        let d: u64 = (c as u64) - ('0' as u64);
        if v > (max - d) / 10 {
            proof {
                assert(digits_value(next) > max) by (nonlinear_arith)
                    requires
                        digits_value(next) == v * 10 + d,
                        v > (max - d) / 10,
                        d <= max || d > max,
                        d < 10,
                ;
                if all_digits(body) {
                    lemma_digits_value_prefix(body, i - start + 1);
                }
            }
            return None;
        }
        assert(v * 10 + d <= max) by (nonlinear_arith)
            requires
                v <= (max - d) / 10,
                d <= max,
        ;
        v = v * 10 + d;
        i += 1;
    }
    assert(body.take(s.len() - start) =~= body);
    Some(v)
}

/// `str::parse::<u64>()`.
pub fn parse_u64(s: &[char]) -> (r: Option<u64>)
    ensures
        match parse_uint(s@, u64::MAX as nat) {
            Some(v) => r == Some(v as u64),
            None => r is None,
        },
{
    parse_uint_chars(s, u64::MAX)
}

/// `str::parse::<u8>()`.
pub fn parse_u8(s: &[char]) -> (r: Option<u8>)
    ensures
        match parse_uint(s@, u8::MAX as nat) {
            Some(v) => r == Some(v as u8),
            None => r is None,
        },
{
    match parse_uint_chars(s, u8::MAX as u64) {
        Some(v) => Some(v as u8),
        None => None,
    }
}

// ---------------------------------------------------------------------------
// Case-insensitive keywords
// ---------------------------------------------------------------------------
/// `to_lowercase(t) == kw` for a keyword `kw` made of lowercase ASCII.
pub open spec fn fold_eq(t: Seq<char>, kw: Seq<char>) -> bool {
    t.len() == kw.len() && forall|i: int| 0 <= i < t.len() ==> fold_lower(#[trigger] t[i]) == kw[i]
}

pub fn fold_eq_str(t: &[char], kw: &str) -> (r: bool)
    ensures
        r == fold_eq(t@, kw@),
{
    let k = to_chars(kw);
    if t.len() != k.len() {
        return false;
    }
    let mut i: usize = 0;
    while i < t.len()
        invariant
            k@ == kw@,
            t.len() == k.len(),
            i <= t.len(),
            forall|j: int| 0 <= j < i ==> fold_lower(#[trigger] t@[j]) == k@[j],
        decreases t.len() - i,
    {
        if fold_lower_char(t[i]) != k[i] {
            return false;
        }
        i += 1;
    }
    true
}

/// `s` with every character folded as `fold_lower` does.
pub open spec fn fold_all(s: Seq<char>) -> Seq<char> {
    s.map_values(|c: char| fold_lower(c))
}

/// Folding keeps whitespace and non-whitespace apart, and folding twice is
/// folding once.
pub proof fn lemma_fold_lower_char(c: char)
    ensures
        is_ws(fold_lower(c)) == is_ws(c),
        fold_lower(fold_lower(c)) == fold_lower(c),
{
    if 'A' <= c && c <= 'Z' {
        assert('a' <= fold_lower(c) && fold_lower(c) <= 'z');
    }
}

pub proof fn lemma_trim_fold_all(s: Seq<char>)
    ensures
        trim(fold_all(s)) == fold_all(trim(s)),
{
    lemma_trim_start_fold_all(s);
    lemma_trim_end_fold_all(trim_start(s));
}

proof fn lemma_trim_start_fold_all(s: Seq<char>)
    ensures
        trim_start(fold_all(s)) == fold_all(trim_start(s)),
    decreases s.len(),
{
    if s.len() > 0 {
        lemma_fold_lower_char(s[0]);
        assert(fold_all(s)[0] == fold_lower(s[0]));
        assert(fold_all(s).drop_first() =~= fold_all(s.drop_first()));
        lemma_trim_start_fold_all(s.drop_first());
    }
}

proof fn lemma_trim_end_fold_all(s: Seq<char>)
    ensures
        trim_end(fold_all(s)) == fold_all(trim_end(s)),
    decreases s.len(),
{
    if s.len() > 0 {
        lemma_fold_lower_char(s.last());
        assert(fold_all(s).last() == fold_lower(s.last()));
        assert(fold_all(s).drop_last() =~= fold_all(s.drop_last()));
        lemma_trim_end_fold_all(s.drop_last());
    }
}

/// Matching a keyword does not depend on the case of the text.
pub proof fn lemma_fold_eq_fold_all(t: Seq<char>, kw: Seq<char>)
    ensures
        fold_eq(fold_all(t), kw) == fold_eq(t, kw),
{
    let f = fold_all(t);
    assert(f.len() == t.len());
    assert forall|i: int| 0 <= i < t.len() implies fold_lower(#[trigger] f[i]) == fold_lower(
        t[i],
    ) by {
        lemma_fold_lower_char(t[i]);
    }
    if fold_eq(t, kw) {
        assert forall|i: int| 0 <= i < f.len() implies fold_lower(#[trigger] f[i]) == kw[i] by {
            assert(fold_lower(t[i]) == kw[i]);
        }
    }
    if fold_eq(f, kw) {
        assert forall|i: int| 0 <= i < t.len() implies fold_lower(#[trigger] t[i]) == kw[i] by {
            assert(fold_lower(f[i]) == kw[i]);
        }
    }
}

// ---------------------------------------------------------------------------
// Decimal formatting
// ---------------------------------------------------------------------------
/// The decimal digits of `n`, without leading zeros (`"0"` for zero).
pub open spec fn dec(n: nat) -> Seq<char>
    decreases n,
{
    if n < 10 {
        seq![digit_char(n)]
    } else {
        dec(n / 10).push(digit_char(n % 10))
    }
}

/// Appends the decimal digits of `n` to `out` (`format!("{n}")`).
pub fn push_decimal(out: &mut String, n: u128)
    ensures
        final(out)@ == old(out)@ + dec(n as nat),
    decreases n,
{
    if n >= 10 {
        push_decimal(out, n / 10);
    }
    let d: u8 = (n % 10) as u8;
    out.push((d + 48) as char);
    assert(out@ =~= old(out)@ + dec(n as nat));
}

/// `count` spaces.
pub open spec fn spaces(count: nat) -> Seq<char> {
    Seq::new(count, |i: int| ' ')
}

/// Appends `count` spaces to `out`.
pub fn push_spaces(out: &mut String, count: usize)
    ensures
        final(out)@ == old(out)@ + spaces(count as nat),
{
    let mut i: usize = 0;
    while i < count
        invariant
            i <= count,
            out@ == old(out)@ + spaces(i as nat),
        decreases count - i,
    {
        out.push(' ');
        i += 1;
        assert(out@ =~= old(out)@ + spaces(i as nat));
    }
}

/// `format!("{:w$}", n)` for an unsigned integer: the digits, right-aligned
/// with spaces to at least `w` characters.
pub open spec fn dec_width(n: nat, w: nat) -> Seq<char> {
    let d = dec(n);
    if d.len() < w {
        spaces((w - d.len()) as nat) + d
    } else {
        d
    }
}

pub proof fn lemma_dec_len_pos(n: nat)
    ensures
        dec(n).len() >= 1,
    decreases n,
{
    if n >= 10 {
        lemma_dec_len_pos(n / 10);
    }
}

/// `n` has at most `k` decimal digits when `n < 10^k` (for k up to 3).
proof fn lemma_dec_len_small(n: nat)
    ensures
        n < 10 ==> dec(n).len() == 1,
        10 <= n < 100 ==> dec(n).len() == 2,
        100 <= n ==> dec(n).len() >= 3,
    decreases n,
{
    if n >= 10 {
        lemma_dec_len_small(n / 10);
        lemma_dec_len_pos(n / 10);
    }
}

/// Appends `n` right-aligned in a field of width 3.
pub fn push_decimal_width3(out: &mut String, n: u64)
    ensures
        final(out)@ == old(out)@ + dec_width(n as nat, 3),
{
    proof {
        lemma_dec_len_small(n as nat);
        lemma_dec_len_pos(n as nat);
    }
    if n < 10 {
        push_spaces(out, 2);
    } else if n < 100 {
        push_spaces(out, 1);
    }
    push_decimal(out, n as u128);
    assert(out@ =~= old(out)@ + dec_width(n as nat, 3));
}

// ---------------------------------------------------------------------------
// UTF-8 length
// ---------------------------------------------------------------------------
/// The number of bytes `c` takes in UTF-8 (`char::len_utf8`).
pub open spec fn char_utf8_len(c: char) -> nat {
    if (c as u32) < 0x80 {
        1
    } else if (c as u32) < 0x800 {
        2
    } else if (c as u32) < 0x10000 {
        3
    } else {
        4
    }
}

/// The number of bytes of `s` in UTF-8 (`str::len`).
pub open spec fn utf8_len(s: Seq<char>) -> nat
    decreases s.len(),
{
    if s.len() == 0 {
        0
    } else {
        utf8_len(s.drop_last()) + char_utf8_len(s.last())
    }
}

pub proof fn lemma_utf8_len_concat(a: Seq<char>, b: Seq<char>)
    ensures
        utf8_len(a + b) == utf8_len(a) + utf8_len(b),
    decreases b.len(),
{
    if b.len() == 0 {
        assert(a + b =~= a);
    } else {
        assert((a + b).drop_last() =~= a + b.drop_last());
        lemma_utf8_len_concat(a, b.drop_last());
    }
}

pub proof fn lemma_utf8_len_spaces(n: nat)
    ensures
        utf8_len(spaces(n)) == n,
    decreases n,
{
    if n > 0 {
        assert(spaces(n).drop_last() =~= spaces((n - 1) as nat));
        lemma_utf8_len_spaces((n - 1) as nat);
    }
}

/// The UTF-8 length of `s`, saturating at `usize::MAX`.
pub fn utf8_len_of(s: &[char]) -> (r: usize)
    ensures
        r == if utf8_len(s@) <= usize::MAX {
            utf8_len(s@)
        } else {
            usize::MAX as nat
        },
{
    let mut n: usize = 0;
    let mut i: usize = 0;
    while i < s.len()
        invariant
            i <= s.len(),
            n == if utf8_len(s@.take(i as int)) <= usize::MAX {
                utf8_len(s@.take(i as int))
            } else {
                usize::MAX as nat
            },
        decreases s.len() - i,
    {
        let c = s[i];
        assert(s@.take(i + 1).drop_last() =~= s@.take(i as int));
        let w: usize = if (c as u32) < 0x80 {
            1
        } else if (c as u32) < 0x800 {
            2
        } else if (c as u32) < 0x10000 {
            3
        } else {
            4
        };
        n = if n > usize::MAX - w {
            usize::MAX
        } else {
            n + w
        };
        i += 1;
    }
    assert(s@.take(s.len() as int) =~= s@);
    n
}

} // verus!
