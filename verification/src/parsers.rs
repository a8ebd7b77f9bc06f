//! Text scanners for the collector report formats: a station list
//! (one hardware address per line), a forwarding-database dump, and a
//! switch port table. Each turns raw report bytes into sets of
//! hardware addresses with a fixed freshness deadline.

use vstd::prelude::*;

use crate::config::DeviceDataFormat;
use crate::config::PortDataFormat;
use crate::expiry::ExpireSet;
use crate::mac::mac_value_of_text;
use crate::mac::parse_mac;
use crate::mac::spec_is_valid_mac;
use crate::mac::is_valid_mac;

verus! {

/// How long an observed address stays fresh after its poll.
pub const SEEN_TTL: u64 = 5000;

/// The pieces of `s` between occurrences of `sep`, in order; there is
/// always at least one piece, and none contains `sep`.
pub open spec fn spec_split(s: Seq<u8>, sep: u8) -> Seq<Seq<u8>>
    decreases s.len(),
{
    if s.len() == 0 {
        seq![Seq::empty()]
    } else if s[0] == sep {
        seq![Seq::<u8>::empty()] + spec_split(s.drop_first(), sep)
    } else {
        let rest = spec_split(s.drop_first(), sep);
        seq![seq![s[0]] + rest[0]] + rest.drop_first()
    }
}

proof fn lemma_split_nonempty(s: Seq<u8>, sep: u8)
    ensures
        spec_split(s, sep).len() >= 1,
    decreases s.len(),
{
    if s.len() > 0 {
        lemma_split_nonempty(s.drop_first(), sep);
    }
}

proof fn lemma_split_push(s: Seq<u8>, sep: u8, c: u8)
    requires
        c != sep,
    ensures
        spec_split(s.push(c), sep).len() == spec_split(s, sep).len(),
        spec_split(s.push(c), sep) == spec_split(s, sep).update(
            spec_split(s, sep).len() - 1,
            spec_split(s, sep).last().push(c),
        ),
    decreases s.len(),
{
    lemma_split_nonempty(s, sep);
    if s.len() == 0 {
        assert(s.push(c) =~= seq![c]);
        assert(s.push(c).drop_first() =~= Seq::<u8>::empty());
        assert(s.push(c)[0] == c);
        assert(spec_split(Seq::<u8>::empty(), sep) == seq![Seq::<u8>::empty()]);
        assert(seq![c] + Seq::<u8>::empty() =~= seq![c]);
        assert(seq![Seq::<u8>::empty()].drop_first() =~= Seq::<Seq<u8>>::empty());
        assert(spec_split(s.push(c), sep) =~= seq![seq![c]]);
        assert(spec_split(s, sep).update(0, spec_split(s, sep).last().push(c)) =~= seq![
            seq![c],
        ]);
    } else {
        lemma_split_push(s.drop_first(), sep, c);
        lemma_split_nonempty(s.drop_first(), sep);
        assert(s.push(c).drop_first() =~= s.drop_first().push(c));
        assert(s.push(c)[0] == s[0]);
        let rest0 = spec_split(s.drop_first(), sep);
        let rest1 = spec_split(s.drop_first().push(c), sep);
        if s[0] == sep {
            assert(spec_split(s, sep) == seq![Seq::<u8>::empty()] + rest0);
            assert(spec_split(s.push(c), sep) == seq![Seq::<u8>::empty()] + rest1);
            assert(spec_split(s.push(c), sep) =~= spec_split(s, sep).update(
                spec_split(s, sep).len() - 1,
                spec_split(s, sep).last().push(c),
            ));
        } else {
            if rest0.len() == 1 {
                assert(rest1 == rest0.update(0, rest0.last().push(c)));
                assert(spec_split(s, sep) == seq![seq![s[0]] + rest0[0]] + rest0.drop_first());
                assert(spec_split(s, sep) =~= seq![seq![s[0]] + rest0[0]]);
                assert(spec_split(s.push(c), sep) == seq![seq![s[0]] + rest1[0]]
                    + rest1.drop_first());
                assert(rest1[0] == rest0[0].push(c));
                assert(seq![s[0]] + rest0[0].push(c) =~= (seq![s[0]] + rest0[0]).push(c));
                assert(spec_split(s.push(c), sep) =~= spec_split(s, sep).update(
                    spec_split(s, sep).len() - 1,
                    spec_split(s, sep).last().push(c),
                ));
            } else {
                assert(rest1 == rest0.update(rest0.len() - 1, rest0.last().push(c)));
                assert(rest1[0] == rest0[0]);
                assert(spec_split(s, sep) == seq![seq![s[0]] + rest0[0]] + rest0.drop_first());
                assert(spec_split(s.push(c), sep) == seq![seq![s[0]] + rest1[0]]
                    + rest1.drop_first());
                assert(rest1.drop_first() =~= rest0.drop_first().update(
                    rest0.drop_first().len() - 1,
                    rest0.drop_first().last().push(c),
                ));
                assert(spec_split(s.push(c), sep) =~= spec_split(s, sep).update(
                    spec_split(s, sep).len() - 1,
                    spec_split(s, sep).last().push(c),
                ));
            }
        }
    }
}

proof fn lemma_split_push_sep(s: Seq<u8>, sep: u8)
    ensures
        spec_split(s.push(sep), sep) == spec_split(s, sep).push(Seq::<u8>::empty()),
    decreases s.len(),
{
    lemma_split_nonempty(s, sep);
    if s.len() == 0 {
        assert(s.push(sep)[0] == sep);
        assert(s.push(sep).drop_first() =~= Seq::<u8>::empty());
        assert(spec_split(Seq::<u8>::empty(), sep) == seq![Seq::<u8>::empty()]);
        assert(spec_split(s.push(sep), sep) =~= seq![Seq::<u8>::empty()] + seq![
            Seq::<u8>::empty(),
        ]);
        assert(spec_split(s, sep).push(Seq::<u8>::empty()) =~= seq![Seq::<u8>::empty()] + seq![
            Seq::<u8>::empty(),
        ]);
    } else {
        lemma_split_push_sep(s.drop_first(), sep);
        assert(s.push(sep).drop_first() =~= s.drop_first().push(sep));
        assert(s.push(sep)[0] == s[0]);
        let rest0 = spec_split(s.drop_first(), sep);
        let rest1 = spec_split(s.drop_first().push(sep), sep);
        assert(rest1 == rest0.push(Seq::<u8>::empty()));
        if s[0] == sep {
            assert(spec_split(s.push(sep), sep) =~= spec_split(s, sep).push(Seq::<u8>::empty()));
        } else {
            assert(rest1[0] == rest0[0]);
            assert(rest1.drop_first() =~= rest0.drop_first().push(Seq::<u8>::empty()));
            assert(spec_split(s.push(sep), sep) =~= spec_split(s, sep).push(Seq::<u8>::empty()));
        }
    }
}

/// Splits `data` on `sep`, producing every piece (empty pieces
/// included), exactly as the splitting of the byte sequence denotes.
pub fn split_bytes(data: &[u8], sep: u8) -> (r: Vec<Vec<u8>>)
    ensures
        r@.len() == spec_split(data@, sep).len(),
        forall|i: int| 0 <= i < r@.len() ==> r@[i]@ == spec_split(data@, sep)[i],
{
    let n = data.len();
    let mut done: Vec<Vec<u8>> = Vec::new();
    let mut cur: Vec<u8> = Vec::new();
    let mut i: usize = 0;
    while i < n
        invariant
            n == data@.len(),
            0 <= i <= n,
            done@.len() + 1 == spec_split(data@.take(i as int), sep).len(),
            forall|j: int|
                0 <= j < done@.len() ==> done@[j]@ == spec_split(data@.take(i as int), sep)[j],
            cur@ == spec_split(data@.take(i as int), sep).last(),
        decreases n - i,
    {
        let ghost pre = data@.take(i as int);
        proof {
            lemma_split_nonempty(pre, sep);
            assert(data@.take(i + 1) =~= pre.push(data@[i as int]));
        }
        let c = data[i];
        if c == sep {
            proof {
                lemma_split_push_sep(pre, sep);
            }
            done.push(cur);
            cur = Vec::new();
        } else {
            proof {
                lemma_split_push(pre, sep, c);
            }
            cur.push(c);
        }
        i += 1;
    }
    proof {
        assert(data@.take(n as int) == data@);
    }
    done.push(cur);
    done
}

/// Compares two byte strings for equality.
pub fn bytes_eq(a: &[u8], b: &[u8]) -> (r: bool)
    ensures
        r == (a@ == b@),
{
    if a.len() != b.len() {
        return false;
    }
    let n = a.len();
    let mut i: usize = 0;
    while i < n
        invariant
            n == a@.len(),
            n == b@.len(),
            0 <= i <= n,
            forall|j: int| 0 <= j < i ==> a@[j] == b@[j],
        decreases n - i,
    {
        if a[i] != b[i] {
            return false;
        }
        i += 1;
    }
    proof {
        assert(a@ =~= b@);
    }
    true
}

/// The hardware address a station-list line reports: exactly seventeen
/// bytes with a colon third, denoting an address.
pub open spec fn port_line_mac(line: Seq<u8>) -> Option<u64> {
    if line.len() == 17 && line[2] == 58u8 {
        mac_value_of_text(line)
    } else {
        None
    }
}

/// The addresses reported by the first `k` lines of a station list.
pub open spec fn port_report_upto(data: Seq<u8>, k: int) -> Set<u64> {
    Set::new(
        |m: u64|
            exists|i: int|
                0 <= i < k && i < spec_split(data, 10).len() && #[trigger] port_line_mac(
                    spec_split(data, 10)[i],
                ) == Some(m),
    )
}

/// Every address a station-list report claims visible.
pub open spec fn port_report_macs(data: Seq<u8>) -> Set<u64> {
    port_report_upto(data, spec_split(data, 10).len() as int)
}

/// Interprets a port-scoped collector's report: one hardware address
/// per qualifying line, each claimed fresh until `now + SEEN_TTL`.
pub fn parse_port_data(data: &[u8], _format: PortDataFormat, now: u64) -> (r: ExpireSet)
    requires
        now <= u64::MAX - SEEN_TTL,
    ensures
        r.wf(),
        r@.dom() == port_report_macs(data@),
        forall|m: u64| r@.contains_key(m) ==> r@[m] == now + SEEN_TTL,
{
    let lines = split_bytes(data, 10);
    let mut set = ExpireSet::new();
    let n = lines.len();
    let mut i: usize = 0;
    proof {
        assert(set@.dom() =~= port_report_upto(data@, 0));
    }
    while i < n
        invariant
            now <= u64::MAX - SEEN_TTL,
            n == lines@.len(),
            n == spec_split(data@, 10).len(),
            forall|j: int| 0 <= j < n ==> lines@[j]@ == spec_split(data@, 10)[j],
            0 <= i <= n,
            set.wf(),
            set@.dom() == port_report_upto(data@, i as int),
            forall|m: u64| set@.contains_key(m) ==> set@[m] == now + SEEN_TTL,
        decreases n - i,
    {
        let line = &lines[i];
        let ghost pre = set@;
        let mut matched = false;
        if line.len() == 17 {
            if line[2] == 58u8 {
                match parse_mac(line.as_slice()) {
                    Some(m) => {
                        matched = true;
                        set.insert(m, now + SEEN_TTL);
                        proof {
                            assert(port_line_mac(spec_split(data@, 10)[i as int]) == Some(m));
                            assert(set@.dom() =~= port_report_upto(data@, i + 1)) by {
                                assert forall|x: u64| port_report_upto(data@, i + 1).contains(
                                    x,
                                ) implies set@.dom().contains(x) by {
                                    let j = choose|j: int|
                                        0 <= j < i + 1 && j < spec_split(data@, 10).len()
                                            && #[trigger] port_line_mac(spec_split(data@, 10)[j])
                                            == Some(x);
                                    if j < i {
                                        assert(port_report_upto(data@, i as int).contains(x));
                                    }
                                }
                            }
                        }
                    },
                    None => {
                    },
                }
            }
        }
        proof {
            if !matched {
                assert(port_line_mac(spec_split(data@, 10)[i as int]) is None);
                assert(set@.dom() =~= port_report_upto(data@, i + 1)) by {
                    assert forall|x: u64| port_report_upto(data@, i + 1).contains(x) implies
                    set@.dom().contains(x) by {
                        let j = choose|j: int|
                            0 <= j < i + 1 && j < spec_split(data@, 10).len()
                                && #[trigger] port_line_mac(spec_split(data@, 10)[j]) == Some(x);
                        assert(j < i);
                        assert(port_report_upto(data@, i as int).contains(x));
                    }
                }
            }
        }
        i += 1;
    }
    set
}

/// `s` with every trailing colon removed.
pub open spec fn spec_trim_colons(s: Seq<u8>) -> Seq<u8>
    decreases s.len(),
{
    if s.len() > 0 && s.last() == 58u8 {
        spec_trim_colons(s.drop_last())
    } else {
        s
    }
}

/// Removes every trailing `':'` from a token.
pub fn trim_colons(t: &[u8]) -> (r: Vec<u8>)
    ensures
        r@ == spec_trim_colons(t@),
{
    let mut end = t.len();
    proof {
        assert(t@.take(t@.len() as int) == t@);
    }
    while end > 0 && t[end - 1] == 58u8
        invariant
            0 <= end <= t@.len(),
            spec_trim_colons(t@) == spec_trim_colons(t@.take(end as int)),
        decreases end,
    {
        proof {
            assert(t@.take(end as int).last() == t@[end - 1]);
            assert(t@.take(end as int).drop_last() =~= t@.take(end - 1));
        }
        end -= 1;
    }
    let mut out: Vec<u8> = Vec::new();
    let mut i: usize = 0;
    while i < end
        invariant
            0 <= i <= end <= t@.len(),
            out@ == t@.take(end as int).take(i as int),
        decreases end - i,
    {
        proof {
            assert(t@.take(end as int).take(i + 1) =~= t@.take(end as int).take(
                i as int,
            ).push(t@[i as int]));
        }
        out.push(t[i]);
        i += 1;
    }
    proof {
        assert(t@.take(end as int).take(end as int) == t@.take(end as int));
        if end > 0 {
            assert(t@.take(end as int).last() == t@[end - 1]);
        }
        assert(spec_trim_colons(t@.take(end as int)) == t@.take(end as int));
    }
    out
}

/// The byte string `dev`.
pub open spec fn token_dev() -> Seq<u8> {
    seq![100u8, 101u8, 118u8]
}

/// The byte string `permanent`.
pub open spec fn token_permanent() -> Seq<u8> {
    seq![112u8, 101u8, 114u8, 109u8, 97u8, 110u8, 101u8, 110u8, 116u8]
}

/// The byte string `self`.
pub open spec fn token_self() -> Seq<u8> {
    seq![115u8, 101u8, 108u8, 102u8]
}

/// The byte string `Port`.
pub open spec fn token_port() -> Seq<u8> {
    seq![80u8, 111u8, 114u8, 116u8]
}

/// The byte string `MAC`.
pub open spec fn token_mac_label() -> Seq<u8> {
    seq![77u8, 65u8, 67u8]
}

/// Whether a forwarding-database line is marked `permanent` or `self`
/// somewhere after its port column; such entries are the bridge's own.
pub open spec fn has_stale_flag(parts: Seq<Seq<u8>>) -> bool {
    exists|j: int|
        3 <= j < parts.len() && ((#[trigger] parts[j]) == token_permanent() || parts[j]
            == token_self())
}

/// What a forwarding-database line reports: `<addr> dev <port> …`,
/// where the address must be universally administered and unicast and
/// the entry must not be flagged `permanent` or `self`.
pub open spec fn fdb_line_entry(line: Seq<u8>) -> Option<(Seq<u8>, u64)> {
    let parts = spec_split(line, 32);
    if parts.len() >= 3 {
        match mac_value_of_text(parts[0]) {
            Some(m) => if spec_is_valid_mac(m) && parts[1] == token_dev() && !has_stale_flag(
                parts,
            ) {
                Some((parts[2], m))
            } else {
                None
            },
            None => None,
        }
    } else {
        None
    }
}

/// What a switch-port-table line reports: `Port <id>: MAC <addr> …`,
/// with trailing colons trimmed from the port id and the same validity
/// requirement on the address.
pub open spec fn swc_line_entry(line: Seq<u8>) -> Option<(Seq<u8>, u64)> {
    let parts = spec_split(line, 32);
    if parts.len() >= 4 && parts[0] == token_port() && parts[2] == token_mac_label() {
        match mac_value_of_text(parts[3]) {
            Some(m) => if spec_is_valid_mac(m) {
                Some((spec_trim_colons(parts[1]), m))
            } else {
                None
            },
            None => None,
        }
    } else {
        None
    }
}

/// What one line of a device-scoped report claims: a port identifier
/// and one hardware address visible from it, or nothing.
pub open spec fn device_line_entry(line: Seq<u8>, format: DeviceDataFormat) -> Option<
    (Seq<u8>, u64),
> {
    match format {
        DeviceDataFormat::ForwardDb => fdb_line_entry(line),
        DeviceDataFormat::SwConfig => swc_line_entry(line),
    }
}

/// Whether line `i` of the report claims address `m` visible from port `p`.
pub open spec fn line_names(
    data: Seq<u8>,
    format: DeviceDataFormat,
    i: int,
    p: Seq<u8>,
    m: u64,
) -> bool {
    device_line_entry(spec_split(data, 10)[i], format) == Some((p, m))
}

/// The ports named by the first `k` lines of a device-scoped report.
pub open spec fn device_ports_upto(data: Seq<u8>, format: DeviceDataFormat, k: int) -> Set<
    Seq<u8>,
> {
    Set::new(
        |p: Seq<u8>|
            exists|i: int, m: u64|
                0 <= i < k && i < spec_split(data, 10).len() && #[trigger] line_names(
                    data,
                    format,
                    i,
                    p,
                    m,
                ),
    )
}

/// The addresses the first `k` lines claim visible from port `p`.
pub open spec fn device_macs_upto(
    data: Seq<u8>,
    format: DeviceDataFormat,
    k: int,
    p: Seq<u8>,
) -> Set<u64> {
    Set::new(
        |m: u64|
            exists|i: int|
                0 <= i < k && i < spec_split(data, 10).len() && #[trigger] line_names(
                    data,
                    format,
                    i,
                    p,
                    m,
                ),
    )
}

/// Every port a device-scoped report names.
pub open spec fn device_report_ports(data: Seq<u8>, format: DeviceDataFormat) -> Set<Seq<u8>> {
    device_ports_upto(data, format, spec_split(data, 10).len() as int)
}

/// Every address a device-scoped report claims visible from port `p`.
pub open spec fn device_report_macs(data: Seq<u8>, format: DeviceDataFormat, p: Seq<u8>) -> Set<
    u64,
> {
    device_macs_upto(data, format, spec_split(data, 10).len() as int, p)
}

fn token_is_dev(t: &[u8]) -> (r: bool)
    ensures
        r == (t@ == token_dev()),
{
    let r = t.len() == 3 && t[0] == 100 && t[1] == 101 && t[2] == 118;
    proof {
        if r {
            assert(t@ =~= token_dev());
        }
    }
    r
}

fn token_is_port(t: &[u8]) -> (r: bool)
    ensures
        r == (t@ == token_port()),
{
    let r = t.len() == 4 && t[0] == 80 && t[1] == 111 && t[2] == 114 && t[3] == 116;
    proof {
        if r {
            assert(t@ =~= token_port());
        }
    }
    r
}

fn token_is_mac_label(t: &[u8]) -> (r: bool)
    ensures
        r == (t@ == token_mac_label()),
{
    let r = t.len() == 3 && t[0] == 77 && t[1] == 65 && t[2] == 67;
    proof {
        if r {
            assert(t@ =~= token_mac_label());
        }
    }
    r
}

fn token_is_permanent(t: &[u8]) -> (r: bool)
    ensures
        r == (t@ == token_permanent()),
{
    let r = t.len() == 9 && t[0] == 112 && t[1] == 101 && t[2] == 114 && t[3] == 109 && t[4]
        == 97 && t[5] == 110 && t[6] == 101 && t[7] == 110 && t[8] == 116;
    proof {
        if r {
            assert(t@ =~= token_permanent());
        }
    }
    r
}

fn token_is_self(t: &[u8]) -> (r: bool)
    ensures
        r == (t@ == token_self()),
{
    let r = t.len() == 4 && t[0] == 115 && t[1] == 101 && t[2] == 108 && t[3] == 102;
    proof {
        if r {
            assert(t@ =~= token_self());
        }
    }
    r
}

fn scan_stale_flags(parts: &Vec<Vec<u8>>) -> (r: bool)
    ensures
        r == (exists|j: int|
            3 <= j < parts@.len() && (((#[trigger] parts@[j])@ == token_permanent()) || parts@[j]@
                == token_self())),
{
    let n = parts.len();
    let mut j: usize = 3;
    if n <= 3 {
        return false;
    }
    while j < n
        invariant
            n == parts@.len(),
            3 <= j <= n,
            forall|k: int|
                3 <= k < j ==> ((#[trigger] parts@[k])@ != token_permanent() && parts@[k]@
                    != token_self()),
        decreases n - j,
    {
        if token_is_permanent(parts[j].as_slice()) || token_is_self(parts[j].as_slice()) {
            return true;
        }
        j += 1;
    }
    false
}

/// Interprets one line of a device-scoped report.
fn parse_device_line(line: &[u8], format: DeviceDataFormat) -> (r: Option<(Vec<u8>, u64)>)
    ensures
        match r {
            Some(e) => device_line_entry(line@, format) == Some((e.0@, e.1)),
            None => device_line_entry(line@, format) is None,
        },
{
    let mut parts = split_bytes(line, 32);
    let ghost sparts = spec_split(line@, 32);
    match format {
        DeviceDataFormat::ForwardDb => {
            if parts.len() < 3 {
                return None;
            }
            let m = match parse_mac(parts[0].as_slice()) {
                Some(m) => m,
                None => {
                    return None;
                },
            };
            if !is_valid_mac(m) {
                return None;
            }
            if !token_is_dev(parts[1].as_slice()) {
                return None;
            }
            if scan_stale_flags(&parts) {
                proof {
                    let j = choose|j: int|
                        3 <= j < parts@.len() && (((#[trigger] parts@[j])@ == token_permanent())
                            || parts@[j]@ == token_self());
                    assert(sparts[j] == token_permanent() || sparts[j] == token_self());
                    assert(has_stale_flag(sparts));
                }
                return None;
            }
            proof {
                if has_stale_flag(sparts) {
                    let j = choose|j: int|
                        3 <= j < sparts.len() && ((#[trigger] sparts[j]) == token_permanent()
                            || sparts[j] == token_self());
                    assert(parts@[j]@ == token_permanent() || parts@[j]@ == token_self());
                }
            }
            let port = parts.remove(2);
            Some((port, m))
        },
        DeviceDataFormat::SwConfig => {
            if parts.len() < 4 {
                return None;
            }
            if !token_is_port(parts[0].as_slice()) {
                return None;
            }
            if !token_is_mac_label(parts[2].as_slice()) {
                return None;
            }
            let m = match parse_mac(parts[3].as_slice()) {
                Some(m) => m,
                None => {
                    return None;
                },
            };
            if !is_valid_mac(m) {
                return None;
            }
            let port = trim_colons(parts[1].as_slice());
            Some((port, m))
        },
    }
}

/// True when no two collected ports share an identifier.
pub open spec fn distinct_ports(s: Seq<(Vec<u8>, ExpireSet)>) -> bool {
    forall|i: int, j: int| 0 <= i < j < s.len() ==> s[i].0@ != s[j].0@
}

fn find_port(pairs: &Vec<(Vec<u8>, ExpireSet)>, p: &[u8]) -> (r: Option<usize>)
    ensures
        match r {
            Some(i) => i < pairs@.len() && pairs@[i as int].0@ == p@,
            None => forall|j: int| 0 <= j < pairs@.len() ==> (#[trigger] pairs@[j]).0@ != p@,
        },
{
    let n = pairs.len();
    let mut i: usize = 0;
    while i < n
        invariant
            n == pairs@.len(),
            0 <= i <= n,
            forall|j: int| 0 <= j < i ==> (#[trigger] pairs@[j]).0@ != p@,
        decreases n - i,
    {
        if bytes_eq(pairs[i].0.as_slice(), p) {
            return Some(i);
        }
        i += 1;
    }
    None
}

/// Interprets a device-scoped collector's report: for every named
/// port, the set of hardware addresses claimed visible from it, each
/// fresh until `now + SEEN_TTL`. Every port appears exactly once.
pub fn parse_device_data(data: &[u8], format: DeviceDataFormat, now: u64) -> (r: Vec<
    (Vec<u8>, ExpireSet),
>)
    requires
        now <= u64::MAX - SEEN_TTL,
    ensures
        distinct_ports(r@),
        forall|i: int|
            0 <= i < r@.len() ==> device_report_ports(data@, format).contains(
                (#[trigger] r@[i]).0@,
            ),
        forall|p: Seq<u8>|
            #[trigger] device_report_ports(data@, format).contains(p) ==> exists|i: int|
                0 <= i < r@.len() && (#[trigger] r@[i]).0@ == p,
        forall|i: int| 0 <= i < r@.len() ==> (#[trigger] r@[i]).1.wf(),
        forall|i: int|
            0 <= i < r@.len() ==> (#[trigger] r@[i]).1@.dom() == device_report_macs(
                data@,
                format,
                r@[i].0@,
            ),
        forall|i: int, m: u64|
            0 <= i < r@.len() && #[trigger] r@[i].1@.contains_key(m) ==> r@[i].1@[m] == now
                + SEEN_TTL,
{
    let lines = split_bytes(data, 10);
    let mut pairs: Vec<(Vec<u8>, ExpireSet)> = Vec::new();
    let n = lines.len();
    let mut j: usize = 0;
    while j < n
        invariant
            now <= u64::MAX - SEEN_TTL,
            n == lines@.len(),
            n == spec_split(data@, 10).len(),
            forall|i: int| 0 <= i < n ==> lines@[i]@ == spec_split(data@, 10)[i],
            0 <= j <= n,
            distinct_ports(pairs@),
            forall|i: int| 0 <= i < pairs@.len() ==> (#[trigger] pairs@[i]).1.wf(),
            forall|i: int|
                0 <= i < pairs@.len() ==> device_ports_upto(data@, format, j as int).contains(
                    (#[trigger] pairs@[i]).0@,
                ),
            forall|p: Seq<u8>|
                #[trigger] device_ports_upto(data@, format, j as int).contains(p) ==> exists|i: int|
                    0 <= i < pairs@.len() && (#[trigger] pairs@[i]).0@ == p,
            forall|i: int|
                0 <= i < pairs@.len() ==> (#[trigger] pairs@[i]).1@.dom() == device_macs_upto(
                    data@,
                    format,
                    j as int,
                    pairs@[i].0@,
                ),
            forall|i: int, m: u64|
                0 <= i < pairs@.len() && #[trigger] pairs@[i].1@.contains_key(m) ==> pairs@[i].1@[m]
                    == now + SEEN_TTL,
        decreases n - j,
    {
        let ghost pairs0 = pairs@;
        let exp = now + SEEN_TTL;
        match parse_device_line(lines[j].as_slice(), format) {
            Some(e) => {
                let (p, m) = e;
                proof {
                    assert(line_names(data@, format, j as int, p@, m));
                }
                match find_port(&pairs, p.as_slice()) {
                    Some(idx) => {
                        let mut pair = pairs.remove(idx);
                        pair.1.insert(m, exp);
                        pairs.push(pair);
                        proof {
                            lemma_upsert_existing(
                                pairs0,
                                pairs@,
                                idx as int,
                                p@,
                                m,
                                exp,
                                data@,
                                format,
                                j as int,
                            );
                        }
                    },
                    None => {
                        let mut s = ExpireSet::new();
                        s.insert(m, exp);
                        pairs.push((p, s));
                        proof {
                            lemma_upsert_fresh(
                                pairs0,
                                pairs@,
                                p@,
                                m,
                                exp,
                                data@,
                                format,
                                j as int,
                            );
                        }
                    },
                }
            },
            None => {
                proof {
                    lemma_no_entry_step(data@, format, j as int);
                }
            },
        }
        j += 1;
    }
    proof {
        assert(device_ports_upto(data@, format, n as int) == device_report_ports(data@, format));
    }
    pairs
}

proof fn lemma_no_entry_step(data: Seq<u8>, format: DeviceDataFormat, j: int)
    requires
        0 <= j < spec_split(data, 10).len(),
        device_line_entry(spec_split(data, 10)[j], format) is None,
    ensures
        device_ports_upto(data, format, j + 1) == device_ports_upto(data, format, j),
        forall|p: Seq<u8>| #[trigger]
            device_macs_upto(data, format, j + 1, p) == device_macs_upto(data, format, j, p),
{
    assert forall|p: Seq<u8>| #[trigger] device_macs_upto(data, format, j + 1, p)
        == device_macs_upto(data, format, j, p) by {
        assert forall|m: u64| device_macs_upto(data, format, j + 1, p).contains(m) implies
        device_macs_upto(data, format, j, p).contains(m) by {
            let i = choose|i: int|
                0 <= i < j + 1 && i < spec_split(data, 10).len() && #[trigger] line_names(
                    data,
                    format,
                    i,
                    p,
                    m,
                );
            assert(i < j);
        }
        assert(device_macs_upto(data, format, j + 1, p) =~= device_macs_upto(
            data,
            format,
            j,
            p,
        ));
    }
    assert forall|p: Seq<u8>| device_ports_upto(data, format, j + 1).contains(p) implies
    device_ports_upto(data, format, j).contains(p) by {
        let (i, m): (int, u64) = choose|i: int, m: u64|
            0 <= i < j + 1 && i < spec_split(data, 10).len() && #[trigger] line_names(
                data,
                format,
                i,
                p,
                m,
            );
        assert(i < j);
    }
    assert(device_ports_upto(data, format, j + 1) =~= device_ports_upto(data, format, j));
}

proof fn lemma_upsert_existing(
    s0: Seq<(Vec<u8>, ExpireSet)>,
    s1: Seq<(Vec<u8>, ExpireSet)>,
    idx: int,
    p: Seq<u8>,
    m: u64,
    exp: u64,
    data: Seq<u8>,
    format: DeviceDataFormat,
    j: int,
)
    requires
        0 <= j < spec_split(data, 10).len(),
        line_names(data, format, j, p, m),
        0 <= idx < s0.len(),
        s0[idx].0@ == p,
        s1.len() == s0.len(),
        s1 == s0.remove(idx).push(s1.last()),
        s1.last().0@ == p,
        s1.last().1@ == s0[idx].1@.insert(m, crate::expiry::merged_expiry(s0[idx].1@, m, exp)),
        s1.last().1.wf(),
        distinct_ports(s0),
        forall|i: int| 0 <= i < s0.len() ==> (#[trigger] s0[i]).1.wf(),
        forall|i: int|
            0 <= i < s0.len() ==> device_ports_upto(data, format, j).contains(
                (#[trigger] s0[i]).0@,
            ),
        forall|q: Seq<u8>|
            #[trigger] device_ports_upto(data, format, j).contains(q) ==> exists|i: int|
                0 <= i < s0.len() && (#[trigger] s0[i]).0@ == q,
        forall|i: int|
            0 <= i < s0.len() ==> (#[trigger] s0[i]).1@.dom() == device_macs_upto(
                data,
                format,
                j,
                s0[i].0@,
            ),
        forall|i: int, x: u64|
            0 <= i < s0.len() && #[trigger] s0[i].1@.contains_key(x) ==> s0[i].1@[x] == exp,
    ensures
        distinct_ports(s1),
        forall|i: int| 0 <= i < s1.len() ==> (#[trigger] s1[i]).1.wf(),
        forall|i: int|
            0 <= i < s1.len() ==> device_ports_upto(data, format, j + 1).contains(
                (#[trigger] s1[i]).0@,
            ),
        forall|q: Seq<u8>|
            #[trigger] device_ports_upto(data, format, j + 1).contains(q) ==> exists|i: int|
                0 <= i < s1.len() && (#[trigger] s1[i]).0@ == q,
        forall|i: int|
            0 <= i < s1.len() ==> (#[trigger] s1[i]).1@.dom() == device_macs_upto(
                data,
                format,
                j + 1,
                s1[i].0@,
            ),
        forall|i: int, x: u64|
            0 <= i < s1.len() && #[trigger] s1[i].1@.contains_key(x) ==> s1[i].1@[x] == exp,
{
    let rem = s0.remove(idx);
    assert(s1.last() == s1[s1.len() - 1]);
    assert(forall|k: int| 0 <= k < idx ==> rem[k] == s0[k]);
    assert(forall|k: int| idx <= k < rem.len() ==> rem[k] == s0[k + 1]);
    assert(forall|k: int| 0 <= k < rem.len() ==> s1[k] == rem[k]);
    // Ports named by lines up to j stay named up to j + 1, and the line
    // at j names exactly (p, m).
    assert forall|q: Seq<u8>| device_ports_upto(data, format, j).contains(q) implies
    device_ports_upto(data, format, j + 1).contains(q) by {
        let (i, x): (int, u64) = choose|i: int, x: u64|
            0 <= i < j && i < spec_split(data, 10).len() && #[trigger] line_names(
                data,
                format,
                i,
                q,
                x,
            );
        assert(line_names(data, format, i, q, x));
    }
    assert(device_ports_upto(data, format, j + 1).contains(p)) by {
        assert(line_names(data, format, j, p, m));
    }
    // A port other than p gathers nothing new from line j.
    assert forall|q: Seq<u8>| q != p implies #[trigger] device_macs_upto(data, format, j + 1, q)
        == device_macs_upto(data, format, j, q) by {
        assert forall|x: u64| device_macs_upto(data, format, j + 1, q).contains(x) implies
        device_macs_upto(data, format, j, q).contains(x) by {
            let i = choose|i: int|
                0 <= i < j + 1 && i < spec_split(data, 10).len() && #[trigger] line_names(
                    data,
                    format,
                    i,
                    q,
                    x,
                );
            if i == j {
                assert(line_names(data, format, j, q, x));
                assert(line_names(data, format, j, p, m));
                assert(q == p);
            }
        }
        assert forall|x: u64| device_macs_upto(data, format, j, q).contains(x) implies
        device_macs_upto(data, format, j + 1, q).contains(x) by {
            let i = choose|i: int|
                0 <= i < j && i < spec_split(data, 10).len() && #[trigger] line_names(
                    data,
                    format,
                    i,
                    q,
                    x,
                );
            assert(line_names(data, format, i, q, x));
        }
        assert(device_macs_upto(data, format, j + 1, q) =~= device_macs_upto(data, format, j, q));
    }
    // Port p gathers exactly m.
    assert(device_macs_upto(data, format, j + 1, p) == device_macs_upto(
        data,
        format,
        j,
        p,
    ).insert(m)) by {
        assert forall|x: u64| device_macs_upto(data, format, j + 1, p).contains(x) implies
        device_macs_upto(data, format, j, p).insert(m).contains(x) by {
            let i = choose|i: int|
                0 <= i < j + 1 && i < spec_split(data, 10).len() && #[trigger] line_names(
                    data,
                    format,
                    i,
                    p,
                    x,
                );
            if i == j {
                assert(line_names(data, format, j, p, x));
                assert(line_names(data, format, j, p, m));
                assert(x == m);
            }
        }
        assert forall|x: u64| device_macs_upto(data, format, j, p).insert(m).contains(x) implies
        device_macs_upto(data, format, j + 1, p).contains(x) by {
            if x == m {
                assert(line_names(data, format, j, p, m));
            } else {
                let i = choose|i: int|
                    0 <= i < j && i < spec_split(data, 10).len() && #[trigger] line_names(
                        data,
                        format,
                        i,
                        p,
                        x,
                    );
                assert(line_names(data, format, i, p, x));
            }
        }
        assert(device_macs_upto(data, format, j + 1, p) =~= device_macs_upto(
            data,
            format,
            j,
            p,
        ).insert(m));
    }
    // Distinctness: only the entry at idx carried p, and it moved last.
    assert forall|a: int, b: int| 0 <= a < b < s1.len() implies s1[a].0@ != s1[b].0@ by {
        if b < s1.len() - 1 {
            let a2: int = if a < idx {
                a
            } else {
                a + 1
            };
            let b2: int = if b < idx {
                b
            } else {
                b + 1
            };
            assert(s1[a] == s0[a2]);
            assert(s1[b] == s0[b2]);
        } else {
            let a2: int = if a < idx {
                a
            } else {
                a + 1
            };
            assert(s1[a] == s0[a2]);
            assert(a2 != idx);
            if a2 < idx {
                assert(s0[a2].0@ != s0[idx].0@);
            } else {
                assert(s0[idx].0@ != s0[a2].0@);
            }
        }
    }
    // The reverse direction of port coverage.
    assert forall|q: Seq<u8>| #[trigger] device_ports_upto(data, format, j + 1).contains(
        q,
    ) implies exists|i: int| 0 <= i < s1.len() && (#[trigger] s1[i]).0@ == q by {
        let (i0, x): (int, u64) = choose|i0: int, x: u64|
            0 <= i0 < j + 1 && i0 < spec_split(data, 10).len() && #[trigger] line_names(
                data,
                format,
                i0,
                q,
                x,
            );
        if i0 == j {
            assert(line_names(data, format, j, q, x));
            assert(line_names(data, format, j, p, m));
            assert(q == p);
            assert(s1[s1.len() - 1].0@ == q);
        } else {
            assert(device_ports_upto(data, format, j).contains(q)) by {
                assert(line_names(data, format, i0, q, x));
            }
            let k = choose|k: int| 0 <= k < s0.len() && (#[trigger] s0[k]).0@ == q;
            if k == idx {
                assert(s1[s1.len() - 1].0@ == q);
            } else {
                let k2: int = if k < idx {
                    k
                } else {
                    k - 1
                };
                assert(s1[k2] == s0[k]);
            }
        }
    }
    // Each set's domain matches what the lines claim.
    assert forall|i: int| 0 <= i < s1.len() implies (#[trigger] s1[i]).1@.dom()
        == device_macs_upto(data, format, j + 1, s1[i].0@) by {
        if i < s1.len() - 1 {
            let i2: int = if i < idx {
                i
            } else {
                i + 1
            };
            assert(s1[i] == s0[i2]);
            assert(s0[i2].0@ != p) by {
                if i2 < idx {
                    assert(s0[i2].0@ != s0[idx].0@);
                } else {
                    assert(s0[idx].0@ != s0[i2].0@);
                }
            }
        } else {
            assert(s1[i] == s1.last());
            assert(s0[idx].1@.dom() == device_macs_upto(data, format, j, p));
            assert(s1.last().1@.dom() =~= s0[idx].1@.dom().insert(m));
        }
    }
    // Every stored expiry is still the poll's deadline.
    assert forall|i: int, x: u64|
        0 <= i < s1.len() && #[trigger] s1[i].1@.contains_key(x) implies s1[i].1@[x] == exp by {
        if i < s1.len() - 1 {
            let i2: int = if i < idx {
                i
            } else {
                i + 1
            };
            assert(s1[i] == s0[i2]);
        } else {
            assert(s1[i] == s1.last());
            if x != m {
                assert(s0[idx].1@.contains_key(x));
            } else {
                if s0[idx].1@.contains_key(m) {
                    assert(s0[idx].1@[m] == exp);
                }
            }
        }
    }
}

proof fn lemma_upsert_fresh(
    s0: Seq<(Vec<u8>, ExpireSet)>,
    s1: Seq<(Vec<u8>, ExpireSet)>,
    p: Seq<u8>,
    m: u64,
    exp: u64,
    data: Seq<u8>,
    format: DeviceDataFormat,
    j: int,
)
    requires
        0 <= j < spec_split(data, 10).len(),
        line_names(data, format, j, p, m),
        forall|i: int| 0 <= i < s0.len() ==> (#[trigger] s0[i]).0@ != p,
        s1 == s0.push(s1.last()),
        s1.last().0@ == p,
        s1.last().1@ == Map::<u64, u64>::empty().insert(
            m,
            crate::expiry::merged_expiry(Map::<u64, u64>::empty(), m, exp),
        ),
        s1.last().1.wf(),
        distinct_ports(s0),
        forall|i: int| 0 <= i < s0.len() ==> (#[trigger] s0[i]).1.wf(),
        forall|i: int|
            0 <= i < s0.len() ==> device_ports_upto(data, format, j).contains(
                (#[trigger] s0[i]).0@,
            ),
        forall|q: Seq<u8>|
            #[trigger] device_ports_upto(data, format, j).contains(q) ==> exists|i: int|
                0 <= i < s0.len() && (#[trigger] s0[i]).0@ == q,
        forall|i: int|
            0 <= i < s0.len() ==> (#[trigger] s0[i]).1@.dom() == device_macs_upto(
                data,
                format,
                j,
                s0[i].0@,
            ),
        forall|i: int, x: u64|
            0 <= i < s0.len() && #[trigger] s0[i].1@.contains_key(x) ==> s0[i].1@[x] == exp,
    ensures
        distinct_ports(s1),
        forall|i: int| 0 <= i < s1.len() ==> (#[trigger] s1[i]).1.wf(),
        forall|i: int|
            0 <= i < s1.len() ==> device_ports_upto(data, format, j + 1).contains(
                (#[trigger] s1[i]).0@,
            ),
        forall|q: Seq<u8>|
            #[trigger] device_ports_upto(data, format, j + 1).contains(q) ==> exists|i: int|
                0 <= i < s1.len() && (#[trigger] s1[i]).0@ == q,
        forall|i: int|
            0 <= i < s1.len() ==> (#[trigger] s1[i]).1@.dom() == device_macs_upto(
                data,
                format,
                j + 1,
                s1[i].0@,
            ),
        forall|i: int, x: u64|
            0 <= i < s1.len() && #[trigger] s1[i].1@.contains_key(x) ==> s1[i].1@[x] == exp,
{
    assert(s1.last() == s1[s1.len() - 1]);
    assert(forall|k: int| 0 <= k < s0.len() ==> s1[k] == s0[k]);
    assert forall|q: Seq<u8>| device_ports_upto(data, format, j).contains(q) implies
    device_ports_upto(data, format, j + 1).contains(q) by {
        let (i, x): (int, u64) = choose|i: int, x: u64|
            0 <= i < j && i < spec_split(data, 10).len() && #[trigger] line_names(
                data,
                format,
                i,
                q,
                x,
            );
        assert(line_names(data, format, i, q, x));
    }
    assert(device_ports_upto(data, format, j + 1).contains(p)) by {
        assert(line_names(data, format, j, p, m));
    }
    assert forall|q: Seq<u8>| q != p implies #[trigger] device_macs_upto(data, format, j + 1, q)
        == device_macs_upto(data, format, j, q) by {
        assert forall|x: u64| device_macs_upto(data, format, j + 1, q).contains(x) implies
        device_macs_upto(data, format, j, q).contains(x) by {
            let i = choose|i: int|
                0 <= i < j + 1 && i < spec_split(data, 10).len() && #[trigger] line_names(
                    data,
                    format,
                    i,
                    q,
                    x,
                );
            if i == j {
                assert(line_names(data, format, j, q, x));
                assert(line_names(data, format, j, p, m));
                assert(q == p);
            }
        }
        assert forall|x: u64| device_macs_upto(data, format, j, q).contains(x) implies
        device_macs_upto(data, format, j + 1, q).contains(x) by {
            let i = choose|i: int|
                0 <= i < j && i < spec_split(data, 10).len() && #[trigger] line_names(
                    data,
                    format,
                    i,
                    q,
                    x,
                );
            assert(line_names(data, format, i, q, x));
        }
        assert(device_macs_upto(data, format, j + 1, q) =~= device_macs_upto(data, format, j, q));
    }
    // A fresh port had gathered nothing before line j, and gathers
    // exactly m from it.
    assert(device_macs_upto(data, format, j, p) == Set::<u64>::empty()) by {
        assert forall|x: u64| !device_macs_upto(data, format, j, p).contains(x) by {
            if device_macs_upto(data, format, j, p).contains(x) {
                let i = choose|i: int|
                    0 <= i < j && i < spec_split(data, 10).len() && #[trigger] line_names(
                        data,
                        format,
                        i,
                        p,
                        x,
                    );
                assert(device_ports_upto(data, format, j).contains(p)) by {
                    assert(line_names(data, format, i, p, x));
                }
                let k = choose|k: int| 0 <= k < s0.len() && (#[trigger] s0[k]).0@ == p;
                assert(false);
            }
        }
        assert(device_macs_upto(data, format, j, p) =~= Set::<u64>::empty());
    }
    assert(device_macs_upto(data, format, j + 1, p) == Set::<u64>::empty().insert(m)) by {
        assert forall|x: u64| #[trigger] device_macs_upto(data, format, j + 1, p).contains(
            x,
        ) implies x == m by {
            let i = choose|i: int|
                0 <= i < j + 1 && i < spec_split(data, 10).len() && #[trigger] line_names(
                    data,
                    format,
                    i,
                    p,
                    x,
                );
            if i == j {
                assert(line_names(data, format, j, p, x));
                assert(line_names(data, format, j, p, m));
            } else {
                assert(device_macs_upto(data, format, j, p).contains(x)) by {
                    assert(line_names(data, format, i, p, x));
                }
            }
        }
        assert(device_macs_upto(data, format, j + 1, p).contains(m)) by {
            assert(line_names(data, format, j, p, m));
        }
        assert(device_macs_upto(data, format, j + 1, p) =~= Set::<u64>::empty().insert(m));
    }
    assert forall|a: int, b: int| 0 <= a < b < s1.len() implies s1[a].0@ != s1[b].0@ by {
        if b < s1.len() - 1 {
            assert(s1[a] == s0[a]);
            assert(s1[b] == s0[b]);
        } else {
            assert(s1[a] == s0[a]);
        }
    }
    assert forall|q: Seq<u8>| #[trigger] device_ports_upto(data, format, j + 1).contains(
        q,
    ) implies exists|i: int| 0 <= i < s1.len() && (#[trigger] s1[i]).0@ == q by {
        let (i0, x): (int, u64) = choose|i0: int, x: u64|
            0 <= i0 < j + 1 && i0 < spec_split(data, 10).len() && #[trigger] line_names(
                data,
                format,
                i0,
                q,
                x,
            );
        if i0 == j {
            assert(line_names(data, format, j, q, x));
            assert(line_names(data, format, j, p, m));
            assert(q == p);
            assert(s1[s1.len() - 1].0@ == q);
        } else {
            assert(device_ports_upto(data, format, j).contains(q)) by {
                assert(line_names(data, format, i0, q, x));
            }
            let k = choose|k: int| 0 <= k < s0.len() && (#[trigger] s0[k]).0@ == q;
            assert(s1[k] == s0[k]);
        }
    }
    assert forall|i: int| 0 <= i < s1.len() implies (#[trigger] s1[i]).1@.dom()
        == device_macs_upto(data, format, j + 1, s1[i].0@) by {
        if i < s1.len() - 1 {
            assert(s1[i] == s0[i]);
            assert(s0[i].0@ != p);
        } else {
            assert(s1[i] == s1.last());
            assert(s1.last().1@.dom() =~= Set::<u64>::empty().insert(m));
        }
    }
    assert forall|i: int, x: u64|
        0 <= i < s1.len() && #[trigger] s1[i].1@.contains_key(x) implies s1[i].1@[x] == exp by {
        if i < s1.len() - 1 {
            assert(s1[i] == s0[i]);
        } else {
            assert(s1[i] == s1.last());
        }
    }
}

} // verus!
