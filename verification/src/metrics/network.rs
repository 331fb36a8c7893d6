//! Network throughput from `/proc/net/dev`: byte counters per interface and
//! their growth between two samples.
use vstd::prelude::*;

use crate::text::{chars_eq, chars_eq_str, lines, parse_u64, parse_uint, seqs_of, split_lines, split_ws, sub_chars, to_chars, trim, trim_bounds, ws_tokens};
use crate::metrics::cpu::sat_sub;

verus! {

/// The index of the first `c` in `s`.
pub open spec fn first_index(s: Seq<char>, c: char) -> Option<int>
    decreases s.len(),
{
    if s.len() == 0 {
        None
    } else if s[0] == c {
        Some(0)
    } else {
        match first_index(s.drop_first(), c) {
            Some(i) => Some(i + 1),
            None => None,
        }
    }
}

/// A `/proc/net/dev` data line: the interface name (trimmed text before the
/// first `:`), the received bytes (first field after it) and the transmitted
/// bytes (ninth field); `None` when there is no `:`, fewer than nine fields,
/// or either counter is not a `u64`.
pub open spec fn netdev_of(line: Seq<char>) -> Option<(Seq<char>, u64, u64)> {
    match first_index(line, ':') {
        None => None,
        Some(p) => {
            let nums = ws_tokens(line.subrange(p + 1, line.len() as int));
            if nums.len() >= 9 {
                match (parse_uint(nums[0], u64::MAX as nat), parse_uint(nums[8], u64::MAX as nat)) {
                    (Some(rx), Some(tx)) => Some((trim(line.take(p)), rx as u64, tx as u64)),
                    _ => None,
                }
            } else {
                None
            }
        },
    }
}

proof fn lemma_first_index_is(s: Seq<char>, c: char, i: int)
    requires
        0 <= i <= s.len(),
        forall|j: int| 0 <= j < i ==> s[j] != c,
        i < s.len() ==> s[i] == c,
    ensures
        first_index(s, c) == if i < s.len() {
            Some(i)
        } else {
            None::<int>
        },
    decreases i,
{
    if i > 0 {
        assert forall|j: int| 0 <= j < i - 1 implies s.drop_first()[j] != c by {
            assert(s.drop_first()[j] == s[j + 1]);
        }
        lemma_first_index_is(s.drop_first(), c, i - 1);
    }
}

/// A line made of an interface name without `:`, a `:`, and at least nine
/// fields whose first and ninth are `u64` numbers (any value up to
/// `u64::MAX`) is recognised, with the trimmed name and those two numbers as
/// the received and transmitted bytes.
pub proof fn lemma_netdev_line_recognised(name: Seq<char>, rest: Seq<char>, rx: nat, tx: nat)
    requires
        !name.contains(':'),
        ws_tokens(rest).len() >= 9,
        parse_uint(ws_tokens(rest)[0], u64::MAX as nat) == Some(rx),
        parse_uint(ws_tokens(rest)[8], u64::MAX as nat) == Some(tx),
    ensures
        rx <= u64::MAX,
        tx <= u64::MAX,
        netdev_of(name + seq![':'] + rest) == Some((trim(name), rx as u64, tx as u64)),
{
    let line = name + seq![':'] + rest;
    assert forall|j: int| 0 <= j < name.len() implies line[j] != ':' by {
        assert(line[j] == name[j]);
        if name[j] == ':' {
            assert(name.contains(':'));
        }
    }
    assert(line[name.len() as int] == ':');
    lemma_first_index_is(line, ':', name.len() as int);
    assert(line.take(name.len() as int) =~= name);
    assert(line.subrange(name.len() as int + 1, line.len() as int) =~= rest);
}

/// The line's interface bounds, received and transmitted bytes.
fn netdev_parts(line: &[char]) -> (r: Option<(usize, usize, u64, u64)>)
    ensures
        match (r, netdev_of(line@)) {
            (Some((lo, hi, rx, tx)), Some((name, srx, stx))) => {
                &&& lo <= hi <= line.len()
                &&& line@.subrange(lo as int, hi as int) == name
                &&& rx == srx
                &&& tx == stx
            },
            (None, None) => true,
            _ => false,
        },
{
    let mut p: usize = 0;
    while p < line.len() && line[p] != ':'
        invariant
            p <= line.len(),
            forall|j: int| 0 <= j < p ==> line@[j] != ':',
        decreases line.len() - p,
    {
        p += 1;
    }
    proof {
        lemma_first_index_is(line@, ':', p as int);
    }
    if p == line.len() {
        return None;
    }
    let rest = sub_chars(line, p + 1, line.len());
    let nums = split_ws(rest.as_slice());
    if nums.len() < 9 {
        return None;
    }
    assert(seqs_of(nums@)[0] == nums@[0]@);
    assert(seqs_of(nums@)[8] == nums@[8]@);
    let rx = match parse_u64(nums[0].as_slice()) {
        Some(v) => v,
        None => {
            return None;
        },
    };
    let tx = match parse_u64(nums[8].as_slice()) {
        Some(v) => v,
        None => {
            return None;
        },
    };
    let head = sub_chars(line, 0, p);
    let (lo, hi) = trim_bounds(head.as_slice());
    assert(line@.subrange(lo as int, hi as int) =~= head@.subrange(lo as int, hi as int));
    assert(head@ =~= line@.take(p as int));
    Some((lo, hi, rx, tx))
}

/// Parses a single data line from `/proc/net/dev` into
/// `(iface_name, rx_bytes, tx_bytes)`, or `None` when it is not one.
pub fn parse_netdev_line(line: &str) -> (r: Option<(&str, u64, u64)>)
    ensures
        match (r, netdev_of(line@)) {
            (Some((name, rx, tx)), Some((sname, srx, stx))) => name@ == sname && rx == srx && tx
                == stx,
            (None, None) => true,
            _ => false,
        },
{
    let chars = to_chars(line);
    match netdev_parts(chars.as_slice()) {
        Some((lo, hi, rx, tx)) => Some((line.substring_char(lo, hi), rx, tx)),
        None => None,
    }
}

/// Whether an interface counts towards the selection `interface`: with
/// `"all"` every interface but the loopback `lo`, else the one named.
pub open spec fn selected(name: Seq<char>, interface: Seq<char>) -> bool {
    if interface == "all"@ {
        name != "lo"@
    } else {
        name == interface
    }
}

/// `a + b`, or `u64::MAX` when that overflows (`u64::saturating_add`).
pub open spec fn sat_add(a: u64, b: u64) -> u64 {
    if a + b > u64::MAX {
        u64::MAX
    } else {
        (a + b) as u64
    }
}

/// The (received, transmitted) byte sums over the selected interfaces of the
/// given data lines, saturating at `u64::MAX`.
pub open spec fn net_sum(ls: Seq<Seq<char>>, interface: Seq<char>) -> (u64, u64)
    decreases ls.len(),
{
    if ls.len() == 0 {
        (0, 0)
    } else {
        let (rx, tx) = net_sum(ls.drop_last(), interface);
        match netdev_of(ls.last()) {
            Some((name, r, t)) => if selected(name, interface) {
                (sat_add(rx, r), sat_add(tx, t))
            } else {
                (rx, tx)
            },
            None => (rx, tx),
        }
    }
}

/// The data lines of a `/proc/net/dev` text: all lines after the two header
/// lines.
pub open spec fn netdev_rows(s: Seq<char>) -> Seq<Seq<char>> {
    let ls = lines(s);
    if ls.len() >= 2 {
        ls.subrange(2, ls.len() as int)
    } else {
        seq![]
    }
}

/// Sums rx/tx bytes across the selected interfaces of `/proc/net/dev`:
/// `"all"` sums every interface but the loopback, any other value names one
/// interface.
pub fn sum_bytes(proc_net_dev: &str, interface: &str) -> (r: (u64, u64))
    ensures
        r == net_sum(netdev_rows(proc_net_dev@), interface@),
{
    let chars = to_chars(proc_net_dev);
    let ls = split_lines(chars.as_slice());
    let wanted = to_chars(interface);
    let all_ifaces = chars_eq_str(wanted.as_slice(), "all");
    let ghost all = seqs_of(ls@);
    let ghost rows = netdev_rows(proc_net_dev@);
    let mut total_rx: u64 = 0;
    let mut total_tx: u64 = 0;
    if ls.len() < 2 {
        return (0, 0);
    }
    let mut i: usize = 2;
    while i < ls.len()
        invariant
            2 <= i <= ls.len(),
            all == seqs_of(ls@),
            all == lines(proc_net_dev@),
            rows == all.subrange(2, all.len() as int),
            wanted@ == interface@,
            all_ifaces == (interface@ == "all"@),
            (total_rx, total_tx) == net_sum(rows.take(i - 2), interface@),
        decreases ls.len() - i,
    {
        let ghost upto = rows.take(i - 1);
        assert(upto.drop_last() =~= rows.take(i - 2));
        assert(upto.last() == ls@[i as int]@);
        let line = ls[i].as_slice();
        match netdev_parts(line) {
            Some((lo, hi, rx, tx)) => {
                let name = sub_chars(line, lo, hi);
                let counted = if all_ifaces {
                    !chars_eq_str(name.as_slice(), "lo")
                } else {
                    chars_eq(name.as_slice(), wanted.as_slice())
                };
                if counted {
                    total_rx = if total_rx > u64::MAX - rx {
                        u64::MAX
                    } else {
                        total_rx + rx
                    };
                    total_tx = if total_tx > u64::MAX - tx {
                        u64::MAX
                    } else {
                        total_tx + tx
                    };
                }
            },
            None => {},
        }
        i += 1;
    }
    assert(rows.take(ls.len() - 2) =~= rows);
    (total_rx, total_tx)
}

/// Holds the previous `/proc/net/dev` byte sums for rate calculation.
#[derive(Debug, Clone)]
pub struct NetworkState {
    pub prev_rx_bytes: u64,
    pub prev_tx_bytes: u64,
    /// True after the first sample has been recorded.
    pub initialized: bool,
}

impl Default for NetworkState {
    fn default() -> (r: Self)
        ensures
            r.prev_rx_bytes == 0,
            r.prev_tx_bytes == 0,
            !r.initialized,
    {
        NetworkState { prev_rx_bytes: 0, prev_tx_bytes: 0, initialized: false }
    }
}

impl NetworkState {
    /// Takes a `/proc/net/dev` text and returns how many bytes the selected
    /// interfaces received and transmitted since the previous sample
    /// (`(0, 0)` on the first sample; a counter that went down counts as 0).
    /// The byte sums become the new previous sample.
    pub fn update(&mut self, proc_net_dev: &str, interface: &str) -> (r: (u64, u64))
        ensures
            ({
                let (rx, tx) = net_sum(netdev_rows(proc_net_dev@), interface@);
                &&& final(self).prev_rx_bytes == rx
                &&& final(self).prev_tx_bytes == tx
                &&& final(self).initialized
                &&& r == if old(self).initialized {
                    (
                        sat_sub(rx as int, old(self).prev_rx_bytes as int) as u64,
                        sat_sub(tx as int, old(self).prev_tx_bytes as int) as u64,
                    )
                } else {
                    (0u64, 0u64)
                }
            }),
    {
        let (rx_bytes, tx_bytes) = sum_bytes(proc_net_dev, interface);
        let deltas = if self.initialized {
            (
                if rx_bytes >= self.prev_rx_bytes {
                    rx_bytes - self.prev_rx_bytes
                } else {
                    0
                },
                if tx_bytes >= self.prev_tx_bytes {
                    tx_bytes - self.prev_tx_bytes
                } else {
                    0
                },
            )
        } else {
            (0, 0)
        };
        self.prev_rx_bytes = rx_bytes;
        self.prev_tx_bytes = tx_bytes;
        self.initialized = true;
        deltas
    }
}

// ---------------------------------------------------------------------------
// Summing over interfaces
// ---------------------------------------------------------------------------
/// What one data line adds to the sums for the selection `interface`.
pub open spec fn row_bytes(line: Seq<char>, interface: Seq<char>) -> (int, int) {
    match netdev_of(line) {
        Some((name, rx, tx)) => if selected(name, interface) {
            (rx as int, tx as int)
        } else {
            (0, 0)
        },
        None => (0, 0),
    }
}

/// The byte sums for the selection `interface` without saturation.
pub open spec fn exact_sum(ls: Seq<Seq<char>>, interface: Seq<char>) -> (int, int)
    decreases ls.len(),
{
    if ls.len() == 0 {
        (0, 0)
    } else {
        let s = exact_sum(ls.drop_last(), interface);
        let r = row_bytes(ls.last(), interface);
        (s.0 + r.0, s.1 + r.1)
    }
}

/// The sum, over the interfaces `names`, of each interface's byte sums.
pub open spec fn interfaces_total(ls: Seq<Seq<char>>, names: Seq<Seq<char>>) -> (int, int)
    decreases names.len(),
{
    if names.len() == 0 {
        (0, 0)
    } else {
        let s = interfaces_total(ls, names.drop_last());
        let r = net_sum(ls, names.last());
        (s.0 + r.0, s.1 + r.1)
    }
}

spec fn exact_over(ls: Seq<Seq<char>>, names: Seq<Seq<char>>) -> (int, int)
    decreases names.len(),
{
    if names.len() == 0 {
        (0, 0)
    } else {
        let s = exact_over(ls, names.drop_last());
        let r = exact_sum(ls, names.last());
        (s.0 + r.0, s.1 + r.1)
    }
}

spec fn row_over(line: Seq<char>, names: Seq<Seq<char>>) -> (int, int)
    decreases names.len(),
{
    if names.len() == 0 {
        (0, 0)
    } else {
        let s = row_over(line, names.drop_last());
        let r = row_bytes(line, names.last());
        (s.0 + r.0, s.1 + r.1)
    }
}

/// `names` holds every interface name found in `ls` except the loopback,
/// each once, and neither `"all"` nor `"lo"`.
pub open spec fn names_cover(ls: Seq<Seq<char>>, names: Seq<Seq<char>>) -> bool {
    &&& names.no_duplicates()
    &&& forall|j: int| 0 <= j < names.len() ==> #[trigger] names[j] != "all"@ && names[j] != "lo"@
    &&& forall|i: int|
        0 <= i < ls.len() ==> match netdev_of(#[trigger] ls[i]) {
            Some((name, _, _)) => name != "lo"@ ==> names.contains(name),
            None => true,
        }
}

proof fn lemma_exact_sum_nonneg(ls: Seq<Seq<char>>, interface: Seq<char>)
    ensures
        exact_sum(ls, interface).0 >= 0,
        exact_sum(ls, interface).1 >= 0,
    decreases ls.len(),
{
    if ls.len() > 0 {
        lemma_exact_sum_nonneg(ls.drop_last(), interface);
    }
}

/// Without overflow, the saturating sums are the exact sums.
proof fn lemma_net_sum_exact(ls: Seq<Seq<char>>, interface: Seq<char>)
    requires
        exact_sum(ls, interface).0 <= u64::MAX,
        exact_sum(ls, interface).1 <= u64::MAX,
    ensures
        net_sum(ls, interface).0 == exact_sum(ls, interface).0,
        net_sum(ls, interface).1 == exact_sum(ls, interface).1,
    decreases ls.len(),
{
    if ls.len() > 0 {
        lemma_exact_sum_nonneg(ls.drop_last(), interface);
        lemma_net_sum_exact(ls.drop_last(), interface);
    }
}

/// One interface's sums never exceed the sums over all interfaces.
proof fn lemma_one_within_all(ls: Seq<Seq<char>>, name: Seq<char>)
    requires
        name != "all"@,
        name != "lo"@,
    ensures
        exact_sum(ls, name).0 <= exact_sum(ls, "all"@).0,
        exact_sum(ls, name).1 <= exact_sum(ls, "all"@).1,
    decreases ls.len(),
{
    if ls.len() > 0 {
        lemma_one_within_all(ls.drop_last(), name);
    }
}

/// A line counts towards exactly the one listed interface it names.
proof fn lemma_row_over(line: Seq<char>, names: Seq<Seq<char>>)
    requires
        names.no_duplicates(),
        forall|j: int| 0 <= j < names.len() ==> #[trigger] names[j] != "all"@ && names[j] != "lo"@,
        match netdev_of(line) {
            Some((name, _, _)) => name != "lo"@ ==> names.contains(name),
            None => true,
        },
    ensures
        row_over(line, names) == row_bytes(line, "all"@),
    decreases names.len(),
{
    if names.len() > 0 {
        let rest = names.drop_last();
        assert(rest.no_duplicates());
        match netdev_of(line) {
            Some((name, rx, tx)) => {
                if name != "lo"@ && names.last() == name {
                    assert(!rest.contains(name)) by {
                        if rest.contains(name) {
                            let k = choose|k: int| 0 <= k < rest.len() && rest[k] == name;
                            assert(names[k] == names[names.len() - 1]);
                        }
                    }
                    lemma_row_over_absent(line, rest, name);
                } else {
                    if name != "lo"@ {
                        let k = choose|k: int| 0 <= k < names.len() && names[k] == name;
                        assert(k != names.len() - 1);
                        assert(rest[k] == name);
                    }
                    lemma_row_over(line, rest);
                }
            },
            None => {
                lemma_row_over(line, rest);
            },
        }
    }
}

/// A line whose interface is not listed counts towards none of them.
proof fn lemma_row_over_absent(line: Seq<char>, names: Seq<Seq<char>>, name: Seq<char>)
    requires
        netdev_of(line) matches Some((n, _, _)) && n == name,
        !names.contains(name),
        forall|j: int| 0 <= j < names.len() ==> #[trigger] names[j] != "all"@,
    ensures
        row_over(line, names) == (0int, 0int),
    decreases names.len(),
{
    if names.len() > 0 {
        assert(names.last() != name);
        assert(!names.drop_last().contains(name)) by {
            if names.drop_last().contains(name) {
                let k = choose|k: int| 0 <= k < names.drop_last().len() && names.drop_last()[k]
                    == name;
                assert(names[k] == name);
            }
        }
        lemma_row_over_absent(line, names.drop_last(), name);
    }
}

proof fn lemma_exact_over(ls: Seq<Seq<char>>, names: Seq<Seq<char>>)
    requires
        names_cover(ls, names),
    ensures
        exact_over(ls, names) == exact_sum(ls, "all"@),
    decreases ls.len(),
{
    if ls.len() > 0 {
        let prev = ls.drop_last();
        assert(names_cover(prev, names)) by {
            assert forall|i: int| 0 <= i < prev.len() implies match netdev_of(#[trigger] prev[i]) {
                Some((name, _, _)) => name != "lo"@ ==> names.contains(name),
                None => true,
            } by {
                assert(prev[i] == ls[i]);
            }
        }
        lemma_exact_over(prev, names);
        assert(ls[ls.len() - 1] == ls.last());
        lemma_row_over(ls.last(), names);
        lemma_exact_over_step(ls, names);
    } else {
        lemma_exact_over_empty(ls, names);
    }
}

proof fn lemma_exact_over_empty(ls: Seq<Seq<char>>, names: Seq<Seq<char>>)
    requires
        ls.len() == 0,
    ensures
        exact_over(ls, names) == (0int, 0int),
    decreases names.len(),
{
    if names.len() > 0 {
        lemma_exact_over_empty(ls, names.drop_last());
    }
}

proof fn lemma_exact_over_step(ls: Seq<Seq<char>>, names: Seq<Seq<char>>)
    requires
        ls.len() > 0,
    ensures
        exact_over(ls, names).0 == exact_over(ls.drop_last(), names).0 + row_over(ls.last(), names).0,
        exact_over(ls, names).1 == exact_over(ls.drop_last(), names).1 + row_over(ls.last(), names).1,
    decreases names.len(),
{
    if names.len() > 0 {
        lemma_exact_over_step(ls, names.drop_last());
    }
}

proof fn lemma_totals_exact(ls: Seq<Seq<char>>, names: Seq<Seq<char>>)
    requires
        forall|j: int| 0 <= j < names.len() ==> #[trigger] names[j] != "all"@ && names[j] != "lo"@,
        exact_sum(ls, "all"@).0 <= u64::MAX,
        exact_sum(ls, "all"@).1 <= u64::MAX,
    ensures
        interfaces_total(ls, names) == exact_over(ls, names),
    decreases names.len(),
{
    if names.len() > 0 {
        let n = names.last();
        assert(names[names.len() - 1] == n);
        lemma_one_within_all(ls, n);
        lemma_net_sum_exact(ls, n);
        lemma_totals_exact(ls, names.drop_last());
    }
}

/// Summing `"all"` is summing each non-loopback interface on its own and
/// adding the results, as long as no sum overflows a `u64`: for any list
/// `names` holding each interface name of the data lines once (but `lo`),
/// the `"all"` sums equal the sums of the per-interface sums.
pub proof fn lemma_all_is_sum_of_interfaces(ls: Seq<Seq<char>>, names: Seq<Seq<char>>)
    requires
        names_cover(ls, names),
        exact_sum(ls, "all"@).0 <= u64::MAX,
        exact_sum(ls, "all"@).1 <= u64::MAX,
    ensures
        net_sum(ls, "all"@).0 == interfaces_total(ls, names).0,
        net_sum(ls, "all"@).1 == interfaces_total(ls, names).1,
{
    lemma_exact_over(ls, names);
    lemma_totals_exact(ls, names);
    lemma_net_sum_exact(ls, "all"@);
}

} // verus!
