//! System-limit preflight.
//!
//! A load generator that asks for more connections than the kernel will give it
//! does not fail loudly: it quietly serves fewer, retries the rest, and reports a
//! throughput figure for a concurrency level that never existed. Every check here
//! exists because it silently corrupts a measurement.

use vstd::prelude::*;
use vstd::string::*;

use crate::lb_core::double::{
    lemma_scaling_keeps_order, once_more, scale_up, twice_more, Double,
};
use crate::text::{
    around, decimal, joined, lines, lines_of, nat_text, nth_word, pad_left, pad_right, padded_left,
    padded_right, texts, trim, trimmed, word,
};
use crate::wire::{number_up_to, parse_u64};

verus! {

/// How much headroom a limit leaves.
#[derive(Debug, Clone, Copy, PartialEq, Eq, PartialOrd, Ord, Structural)]
pub enum Severity {
    /// Headroom is fine.
    Fine,
    /// Will work, but the margin is thin enough to distort the tail.
    Tight,
    /// The requested concurrency cannot be reached; numbers would be fiction.
    Blocking,
}

/// One system limit and whether it can carry the requested load.
#[derive(Debug)]
pub struct Check {
    pub name: &'static str,
    pub current: u64,
    pub required: u64,
    pub severity: Severity,
    /// Exact command that raises it, if any.
    pub remedy: Option<String>,
    pub consequence: &'static str,
}

/// A check, as plain values.
pub ghost struct CheckText {
    pub name: Seq<char>,
    pub current: int,
    pub required: int,
    pub severity: Severity,
    pub remedy: Option<Seq<char>>,
    pub consequence: Seq<char>,
}

/// How a limit stands to what is required of it: it is enough, or lacks no more than
/// a fifth, or is out of the question.
pub open spec fn severity_of(current: int, required: int) -> Severity {
    if current >= required {
        Severity::Fine
    } else if current * 100 >= required * 80 {
        Severity::Tight
    } else {
        Severity::Blocking
    }
}

/// The check of a limit.
pub open spec fn check_of(
    name: Seq<char>,
    current: int,
    required: int,
    consequence: Seq<char>,
    remedy: Option<Seq<char>>,
) -> CheckText {
    CheckText {
        name,
        current,
        required,
        severity: severity_of(current, required),
        remedy,
        consequence,
    }
}

/// How a severity is marked in a report.
pub open spec fn mark_of(severity: Severity) -> Seq<char> {
    match severity {
        Severity::Fine => "ok  "@,
        Severity::Tight => "TIGHT"@,
        Severity::Blocking => "BLOCK"@,
    }
}

/// The line that a report has on a check.
pub open spec fn check_line(c: CheckText) -> Seq<char> {
    "["@ + mark_of(c.severity) + "] "@ + padded_right(c.name, 26) + " have "@ + padded_left(
        nat_text(c.current as nat),
        7,
    ) + "  need "@ + padded_left(nat_text(c.required as nat), 7)
}

impl View for Check {
    type V = CheckText;

    open spec fn view(&self) -> CheckText {
        CheckText {
            name: self.name@,
            current: self.current as int,
            required: self.required as int,
            severity: self.severity,
            remedy: match self.remedy {
                Some(r) => Some(r@),
                None => None,
            },
            consequence: self.consequence@,
        }
    }
}

impl Check {
    /// Weigh a limit against what is required of it.
    pub fn new(
        name: &'static str,
        current: u64,
        required: u64,
        consequence: &'static str,
        remedy: Option<String>,
    ) -> (r: Self)
        ensures
            r@ == check_of(
                name@,
                current as int,
                required as int,
                consequence@,
                match remedy {
                    Some(r) => Some(r@),
                    None => None,
                },
            ),
    {
        let severity = if current >= required {
            Severity::Fine
        } else if (current as u128) * 100 >= (required as u128) * 80 {
            Severity::Tight
        } else {
            Severity::Blocking
        };
        Self { name, current, required, severity, remedy, consequence }
    }

    /// Whether the requested concurrency cannot be reached.
    #[must_use]
    pub fn is_blocking(&self) -> (r: bool)
        ensures
            r == (self@.severity == Severity::Blocking),
    {
        self.severity == Severity::Blocking
    }

    /// The line that a report has on this check.
    #[must_use]
    pub fn line(&self) -> (r: String)
        ensures
            r@ == check_line(self@),
    {
        let mark = match self.severity {
            Severity::Fine => "ok  ",
            Severity::Tight => "TIGHT",
            Severity::Blocking => "BLOCK",
        };
        let mut out = around("[", mark, "] ");
        let name = pad_right(self.name, 26);
        let have = pad_left(decimal(self.current).as_str(), 7);
        let need = pad_left(decimal(self.required).as_str(), 7);
        out.append(name.as_str());
        out.append(" have ");
        out.append(have.as_str());
        out.append("  need ");
        out.append(need.as_str());
        out
    }
}

/// What the system allows. A limit that the platform does not have is `None`.
#[derive(Debug, Clone, Copy)]
pub struct Limits {
    /// The soft limit on open files of a process.
    pub open_files: u64,
    pub max_files_per_process: Option<u64>,
    pub max_files: Option<u64>,
    pub listen_backlog: Option<u64>,
    pub first_port: Option<u64>,
    pub last_port: Option<u64>,
    /// The maximum segment lifetime in milliseconds.
    pub segment_lifetime_ms: Option<u64>,
}

impl Limits {
    /// The counts that follow from the limits can be told.
    pub open spec fn wf(self) -> bool {
        &&& (self.first_port matches Some(first) ==> self.last_port matches Some(last) ==> last
            - first < u64::MAX)
        &&& (self.segment_lifetime_ms matches Some(ms) ==> 2 * ms <= u64::MAX)
    }
}

/// The sockets that so many connections take: the client's and the one the proxy
/// accepted, and both ends of each connection upstream, of which there are `upstream`
/// for every connection.
pub open spec fn sockets_needed(connections: int, upstream: Double) -> int {
    twice_more(connections, upstream)
}

/// The ephemeral ports that so many connections take: only the two connecting sides
/// need one.
pub open spec fn ports_needed(connections: int, upstream: Double) -> int {
    once_more(connections, upstream)
}

/// What is needed for so many connections can be told.
pub open spec fn countable(connections: int, upstream: Double) -> bool {
    &&& 4 * connections <= u64::MAX
    &&& 2 * connections + 1_024 <= u64::MAX
    &&& 2 * sockets_needed(connections, upstream) <= u64::MAX
    &&& sockets_needed(connections, upstream) + 8_192 <= u64::MAX
    &&& ports_needed(connections, upstream) + 4_096 <= u64::MAX
}

pub open spec fn larger(a: int, b: int) -> int {
    if a < b {
        b
    } else {
        a
    }
}

/// The backlog that a ramp to so many connections fills: roughly an eighth of them
/// is in flight at the peak.
pub open spec fn backlog_needed(connections: int) -> int {
    if connections / 8 < 128 {
        128
    } else if connections / 8 > 8_192 {
        8_192
    } else {
        connections / 8
    }
}

/// The power of two from 2048 on that holds a backlog.
pub open spec fn backlog_advised(needed: int) -> int {
    if needed <= 2_048 {
        2_048
    } else if needed <= 4_096 {
        4_096
    } else {
        8_192
    }
}

/// How many times in a minute ports come back: lower lifetimes are better, so the
/// check is expressed as headroom.
pub open spec fn drains_per_minute(lifetime_ms: int) -> int {
    let seconds = 2 * lifetime_ms / 1_000;
    if seconds == 0 {
        60
    } else {
        60int / seconds
    }
}

/// The check of the soft limit on open files.
pub open spec fn open_files_check(n: int, limits: Limits) -> CheckText {
    check_of(
        "open files (ulimit -n)"@,
        limits.open_files as int,
        2 * n + 1_024,
        "the generator cannot open all its connections and reports a lower concurrency than requested"@,
        Some("ulimit -n "@ + nat_text(larger(4 * n, 65_536) as nat)),
    )
}

/// The check of the kernel's ceiling on open files of a process.
pub open spec fn per_process_check(n: int, limits: Limits) -> Seq<CheckText> {
    match limits.max_files_per_process {
        Some(m) => seq![
            check_of(
                "kern.maxfilesperproc"@,
                m as int,
                2 * n + 1_024,
                "caps `ulimit -n` regardless of the shell setting"@,
                Some(
                    "sudo sysctl -w kern.maxfilesperproc="@ + nat_text(
                        larger(4 * n, 65_536) as nat,
                    ),
                ),
            ),
        ],
        None => Seq::empty(),
    }
}

/// The check of the kernel's ceiling on open files altogether.
pub open spec fn system_files_check(n: int, upstream: Double, limits: Limits) -> Seq<CheckText> {
    match limits.max_files {
        Some(m) => seq![
            check_of(
                "kern.maxfiles"@,
                m as int,
                sockets_needed(n, upstream) + 8_192,
                "system-wide descriptor exhaustion affects every process, not just the benchmark"@,
                Some(
                    "sudo sysctl -w kern.maxfiles="@ + nat_text(
                        larger(2 * sockets_needed(n, upstream), 131_072) as nat,
                    ),
                ),
            ),
        ],
        None => Seq::empty(),
    }
}

/// The check of the listen backlog, which silently ruins a ramp.
pub open spec fn backlog_check(n: int, limits: Limits) -> Seq<CheckText> {
    match limits.listen_backlog {
        Some(m) => seq![
            check_of(
                "kern.ipc.somaxconn"@,
                m as int,
                backlog_needed(n),
                "SYN queue overflows during the connection ramp; the TCP retries land in the histogram as seconds-long outliers"@,
                Some(
                    "sudo sysctl -w kern.ipc.somaxconn="@ + nat_text(
                        backlog_advised(backlog_needed(n)) as nat,
                    ),
                ),
            ),
        ],
        None => Seq::empty(),
    }
}

/// How many ports a range holds; one that runs backwards counts as one.
pub open spec fn range_size(first: int, last: int) -> int {
    if last < first {
        1
    } else {
        last - first + 1
    }
}

/// The check of the ephemeral ports, a hard ceiling on loopback concurrency.
pub open spec fn ports_check(n: int, upstream: Double, limits: Limits) -> Seq<CheckText> {
    match (limits.first_port, limits.last_port) {
        (Some(first), Some(last)) => seq![
            check_of(
                "ephemeral port range"@,
                range_size(first as int, last as int),
                ports_needed(n, upstream) + 4_096,
                "connections fail with EADDRNOTAVAIL partway through the ramp; the run measures whatever fraction of the target it managed to open"@,
                Some(
                    "sudo sysctl -w net.inet.ip.portrange.first=16384  # macOS\n# Linux: sudo sysctl -w net.ipv4.ip_local_port_range='10000 65535'"@,
                ),
            ),
        ],
        _ => Seq::empty(),
    }
}

/// The check of how fast ports come back between measurement windows.
pub open spec fn drain_check(limits: Limits) -> Seq<CheckText> {
    match limits.segment_lifetime_ms {
        Some(ms) => seq![
            check_of(
                "TIME_WAIT drain (2*MSL, s)"@,
                drains_per_minute(ms as int),
                2,
                "ports from the previous window are still held when the next one starts, so later sweeps run with less port space than earlier ones"@,
                Some("sudo sysctl -w net.inet.tcp.msl=1000"@),
            ),
        ],
        None => Seq::empty(),
    }
}

/// Every check of `n` simultaneous connections.
pub open spec fn checks_of(n: int, upstream: Double, limits: Limits) -> Seq<CheckText> {
    seq![open_files_check(n, limits)] + per_process_check(n, limits) + system_files_check(
        n,
        upstream,
        limits,
    ) + backlog_check(n, limits) + ports_check(n, upstream, limits) + drain_check(limits)
}

/// What checks hold.
pub open spec fn check_texts(checks: Seq<Check>) -> Seq<CheckText> {
    Seq::new(checks.len(), |i: int| checks[i]@)
}

/// The checks that would make a measurement invalid.
pub open spec fn blocking_of(checks: Seq<CheckText>) -> Seq<CheckText>
    decreases checks.len(),
{
    if checks.len() == 0 {
        Seq::empty()
    } else if checks.last().severity == Severity::Blocking {
        blocking_of(checks.drop_last()).push(checks.last())
    } else {
        blocking_of(checks.drop_last())
    }
}

/// Whether nothing stands in the way of `n` simultaneous connections.
pub open spec fn carries(n: int, upstream: Double, limits: Limits) -> bool {
    blocking_of(checks_of(n, upstream, limits)).len() == 0
}

/// The largest concurrency that the search for a limit considers.
pub const MOST_CONNECTIONS: usize = 200_000;

/// The full preflight result for one requested concurrency level.
#[derive(Debug)]
pub struct Preflight {
    pub concurrency: usize,
    pub checks: Vec<Check>,
}

/// What a report says of a blocking check: its name and consequence, and the lines
/// of its remedy.
pub open spec fn blocking_entry(c: CheckText) -> Seq<char> {
    "\n  * "@ + c.name + "\n    "@ + c.consequence + "\n"@ + match c.remedy {
        Some(r) => remedy_lines(lines_of(r)),
        None => Seq::empty(),
    }
}

/// The lines of a remedy.
pub open spec fn remedy_lines(list: Seq<Seq<char>>) -> Seq<char>
    decreases list.len(),
{
    if list.len() == 0 {
        Seq::empty()
    } else {
        remedy_lines(list.drop_last()) + "      "@ + list.last() + "\n"@
    }
}

/// One line for every check.
pub open spec fn check_lines(checks: Seq<CheckText>) -> Seq<char>
    decreases checks.len(),
{
    if checks.len() == 0 {
        Seq::empty()
    } else {
        check_lines(checks.drop_last()) + "  "@ + check_line(checks.last()) + "\n"@
    }
}

/// An entry for every check.
pub open spec fn blocking_entries(checks: Seq<CheckText>) -> Seq<char>
    decreases checks.len(),
{
    if checks.len() == 0 {
        Seq::empty()
    } else {
        blocking_entries(checks.drop_last()) + blocking_entry(checks.last())
    }
}

/// A human-readable report.
pub open spec fn report_of(concurrency: nat, checks: Seq<CheckText>) -> Seq<char> {
    let start = "System preflight for "@ + nat_text(concurrency)
        + " concurrent connections\n\n"@ + check_lines(checks);
    let blocking = blocking_of(checks);
    if blocking.len() == 0 {
        start + "\n  All limits have headroom.\n"@
    } else {
        start + "\n  BLOCKING — this run would not reach the requested concurrency:\n"@
            + blocking_entries(blocking)
    }
}

fn sockets(n: u64, upstream: Double) -> (r: u64)
    requires
        countable(n as int, upstream),
    ensures
        r == sockets_needed(n as int, upstream),
{
    proof {
        lemma_scaling_keeps_order(n as int, n as int, upstream);
    }
    scale_up(n, upstream).1 as u64
}

fn ports(n: u64, upstream: Double) -> (r: u64)
    requires
        countable(n as int, upstream),
    ensures
        r == ports_needed(n as int, upstream),
{
    proof {
        lemma_scaling_keeps_order(n as int, n as int, upstream);
    }
    scale_up(n, upstream).0 as u64
}

fn push_check(checks: &mut Vec<Check>, check: Check)
    ensures
        check_texts(final(checks)@) == check_texts(old(checks)@) + seq![check@],
{
    checks.push(check);
    assert(check_texts(checks@) =~= check_texts(old(checks)@) + seq![check@]);
}

fn at_least(a: u64, b: u64) -> (r: u64)
    ensures
        r == larger(a as int, b as int),
{
    if a < b {
        b
    } else {
        a
    }
}

fn push_file_checks(checks: &mut Vec<Check>, n: u64, upstream: Double, limits: &Limits)
    requires
        countable(n as int, upstream),
    ensures
        check_texts(final(checks)@) == check_texts(old(checks)@) + seq![
            open_files_check(n as int, *limits),
        ] + per_process_check(n as int, *limits) + system_files_check(
            n as int,
            upstream,
            *limits,
        ),
{
    let ghost start = check_texts(checks@);
    let advised = decimal(at_least(n * 4, 65_536));
    push_check(
        checks,
        Check::new(
            "open files (ulimit -n)",
            limits.open_files,
            n * 2 + 1_024,
            "the generator cannot open all its connections and reports a lower concurrency than requested",
            Some(joined("ulimit -n ", advised.as_str())),
        ),
    );
    if let Some(m) = limits.max_files_per_process {
        push_check(
            checks,
            Check::new(
                "kern.maxfilesperproc",
                m,
                n * 2 + 1_024,
                "caps `ulimit -n` regardless of the shell setting",
                Some(joined("sudo sysctl -w kern.maxfilesperproc=", advised.as_str())),
            ),
        );
    }
    assert(check_texts(checks@) =~= start + seq![open_files_check(n as int, *limits)]
        + per_process_check(n as int, *limits));
    let total: u64 = sockets(n, upstream);
    if let Some(m) = limits.max_files {
        let more = decimal(at_least(total * 2, 131_072));
        push_check(
            checks,
            Check::new(
                "kern.maxfiles",
                m,
                total + 8_192,
                "system-wide descriptor exhaustion affects every process, not just the benchmark",
                Some(joined("sudo sysctl -w kern.maxfiles=", more.as_str())),
            ),
        );
    }
    assert(check_texts(checks@) =~= start + seq![open_files_check(n as int, *limits)]
        + per_process_check(n as int, *limits) + system_files_check(
        n as int,
        upstream,
        *limits,
    ));
}

fn push_network_checks(checks: &mut Vec<Check>, n: u64, upstream: Double, limits: &Limits)
    requires
        countable(n as int, upstream),
        limits.wf(),
    ensures
        check_texts(final(checks)@) == check_texts(old(checks)@) + backlog_check(n as int, *limits)
            + ports_check(n as int, upstream, *limits) + drain_check(*limits),
{
    let ghost start = check_texts(checks@);
    if let Some(m) = limits.listen_backlog {
        let needed: u64 = if n / 8 < 128 {
            128
        } else if n / 8 > 8_192 {
            8_192
        } else {
            n / 8
        };
        let advised: u64 = if needed <= 2_048 {
            2_048
        } else if needed <= 4_096 {
            4_096
        } else {
            8_192
        };
        push_check(
            checks,
            Check::new(
                "kern.ipc.somaxconn",
                m,
                needed,
                "SYN queue overflows during the connection ramp; the TCP retries land in the histogram as seconds-long outliers",
                Some(joined("sudo sysctl -w kern.ipc.somaxconn=", decimal(advised).as_str())),
            ),
        );
    }
    assert(check_texts(checks@) =~= start + backlog_check(n as int, *limits));
    if let Some(first) = limits.first_port {
        if let Some(last) = limits.last_port {
            let available: u64 = if last < first {
                1
            } else {
                last - first + 1
            };
            push_check(
                checks,
                Check::new(
                    "ephemeral port range",
                    available,
                    ports(n, upstream) + 4_096,
                    "connections fail with EADDRNOTAVAIL partway through the ramp; the run measures whatever fraction of the target it managed to open",
                    Some(
                        "sudo sysctl -w net.inet.ip.portrange.first=16384  # macOS\n# Linux: sudo sysctl -w net.ipv4.ip_local_port_range='10000 65535'".to_owned(),
                    ),
                ),
            );
        }
    }
    assert(check_texts(checks@) =~= start + backlog_check(n as int, *limits) + ports_check(
        n as int,
        upstream,
        *limits,
    ));
    if let Some(ms) = limits.segment_lifetime_ms {
        let seconds: u64 = (ms * 2) / 1_000;
        let drains: u64 = if seconds == 0 {
            60
        } else {
            60 / seconds
        };
        push_check(
            checks,
            Check::new(
                "TIME_WAIT drain (2*MSL, s)",
                drains,
                2,
                "ports from the previous window are still held when the next one starts, so later sweeps run with less port space than earlier ones",
                Some("sudo sysctl -w net.inet.tcp.msl=1000".to_owned()),
            ),
        );
    }
    assert(check_texts(checks@) =~= start + backlog_check(n as int, *limits) + ports_check(
        n as int,
        upstream,
        *limits,
    ) + drain_check(*limits));
}

impl Preflight {
    /// Whether what so many connections need can be counted.
    #[must_use]
    pub fn can_count(concurrency: usize, upstream: Double) -> (r: bool)
        ensures
            r == countable(concurrency as int, upstream),
    {
        let n: u64 = concurrency as u64;
        let most: u128 = u64::MAX as u128;
        let (ports, sockets): (u128, u128) = scale_up(n, upstream);
        n <= u64::MAX / 4 && sockets <= most / 2 && sockets <= most - 8_192 && ports <= most - 4_096
    }

    /// Evaluate every limit against `concurrency` simultaneous connections.
    ///
    /// `upstream` accounts for the proxy's own outbound connections, as so many for
    /// each: on a loopback run the same machine holds the client sockets, the proxy's
    /// accepted sockets, and its upstream sockets at once.
    #[must_use]
    pub fn evaluate(concurrency: usize, upstream: Double, limits: &Limits) -> (r: Self)
        requires
            countable(concurrency as int, upstream),
            limits.wf(),
        ensures
            r.concurrency == concurrency,
            check_texts(r.checks@) == checks_of(
                concurrency as int,
                upstream,
                *limits,
            ),
    {
        let n: u64 = concurrency as u64;
        let mut checks: Vec<Check> = Vec::new();
        assert(check_texts(checks@) =~= Seq::empty());
        push_file_checks(&mut checks, n, upstream, limits);
        push_network_checks(&mut checks, n, upstream, limits);
        assert(check_texts(checks@) =~= checks_of(
            concurrency as int,
            upstream,
            *limits,
        ));
        Self { concurrency, checks }
    }

    /// Checks that would make the measurement invalid.
    #[must_use]
    pub fn blocking(&self) -> (r: Vec<&Check>)
        ensures
            r@.len() == blocking_of(check_texts(self.checks@)).len(),
            forall|i: int|
                0 <= i < r@.len() ==> (#[trigger] r@[i])@ == blocking_of(
                    check_texts(self.checks@),
                )[i],
    {
        let mut out: Vec<&Check> = Vec::new();
        let ghost all = check_texts(self.checks@);
        let mut i: usize = 0;
        assert(all.take(0) =~= Seq::empty());
        while i < self.checks.len()
            invariant
                i <= self.checks@.len(),
                all == check_texts(self.checks@),
                out@.len() == blocking_of(all.take(i as int)).len(),
                forall|k: int|
                    0 <= k < out@.len() ==> (#[trigger] out@[k])@ == blocking_of(
                        all.take(i as int),
                    )[k],
            decreases self.checks@.len() - i,
        {
            assert(all.take(i + 1).drop_last() =~= all.take(i as int));
            if self.checks[i].is_blocking() {
                out.push(&self.checks[i]);
            }
            i = i + 1;
        }
        assert(all.take(i as int) =~= all);
        out
    }

    /// The highest concurrency this system can actually sustain, up to the largest
    /// that is considered; nought, if it cannot sustain one connection.
    ///
    /// Binary search over [`Self::evaluate`], so the answer accounts for every limit
    /// at once rather than just the most obvious one.
    #[must_use]
    pub fn max_supported(upstream: Double, limits: &Limits) -> (r: usize)
        requires
            countable(MOST_CONNECTIONS as int, upstream),
            limits.wf(),
        ensures
            r <= MOST_CONNECTIONS,
            forall|n: int|
                1 <= n <= MOST_CONNECTIONS ==> (n <= r <==> #[trigger] carries(
                    n,
                    upstream,
                    *limits,
                )),
    {
        let ghost k = upstream;
        proof {
            assert forall|n: int| 1 <= n <= MOST_CONNECTIONS implies #[trigger] countable(n, k) by {
                lemma_needs_grow(n, MOST_CONNECTIONS as int, k);
            }
            assert forall|m: int, n: int|
                1 <= m <= n <= MOST_CONNECTIONS && #[trigger] carries(
                    n,
                    k,
                    *limits,
                ) implies #[trigger] carries(m, k, *limits) by {
                lemma_fewer_is_easier(m, n, k, *limits);
            }
        }
        let mut lo: usize = 1;
        let mut hi: usize = MOST_CONNECTIONS;
        let first = Self::evaluate(lo, upstream, limits);
        if first.blocking().len() > 0 {
            assert(!carries(1, k, *limits));
            return 0;
        }
        while lo < hi
            invariant
                k == upstream,
                limits.wf(),
                1 <= lo <= hi <= MOST_CONNECTIONS,
                carries(lo as int, k, *limits),
                forall|n: int| hi < n <= MOST_CONNECTIONS ==> !#[trigger] carries(n, k, *limits),
                forall|n: int| 1 <= n <= MOST_CONNECTIONS ==> #[trigger] countable(n, k),
                forall|m: int, n: int|
                    1 <= m <= n <= MOST_CONNECTIONS && #[trigger] carries(n, k, *limits)
                        ==> #[trigger] carries(m, k, *limits),
            decreases hi - lo,
        {
            let mid: usize = (lo + hi + 1) / 2;
            let tried = Self::evaluate(mid, upstream, limits);
            if tried.blocking().len() == 0 {
                lo = mid;
            } else {
                assert(!carries(mid as int, k, *limits));
                hi = mid - 1;
            }
        }
        lo
    }

    /// A human-readable report.
    #[must_use]
    pub fn report(&self) -> (r: String)
        ensures
            r@ == report_of(self.concurrency as nat, check_texts(self.checks@)),
    {
        let count = decimal(self.concurrency as u64);
        let mut out = around(
            "System preflight for ",
            count.as_str(),
            " concurrent connections\n\n",
        );
        let ghost head = out@;
        let ghost all = check_texts(self.checks@);
        let mut i: usize = 0;
        assert(all.take(0) =~= Seq::empty());
        assert(out@ =~= head + check_lines(all.take(0)));
        while i < self.checks.len()
            invariant
                i <= self.checks@.len(),
                all == check_texts(self.checks@),
                out@ == head + check_lines(all.take(i as int)),
            decreases self.checks@.len() - i,
        {
            assert(all.take(i + 1).drop_last() =~= all.take(i as int));
            let line = self.checks[i].line();
            out.append("  ");
            out.append(line.as_str());
            out.append("\n");
            i = i + 1;
            assert(out@ =~= head + check_lines(all.take(i as int)));
        }
        assert(all.take(i as int) =~= all);
        let blocking = self.blocking();
        let ghost stuck = blocking_of(all);
        if blocking.len() == 0 {
            out.append("\n  All limits have headroom.\n");
            return out;
        }
        out.append("\n  BLOCKING — this run would not reach the requested concurrency:\n");
        let ghost start = out@;
        let mut j: usize = 0;
        assert(stuck.take(0) =~= Seq::empty());
        assert(out@ =~= start + blocking_entries(stuck.take(0)));
        while j < blocking.len()
            invariant
                j <= blocking@.len() == stuck.len(),
                forall|n: int| 0 <= n < blocking@.len() ==> (#[trigger] blocking@[n])@ == stuck[n],
                out@ == start + blocking_entries(stuck.take(j as int)),
            decreases blocking@.len() - j,
        {
            assert(stuck.take(j + 1).drop_last() =~= stuck.take(j as int));
            let entry = entry_text(blocking[j]);
            out.append(entry.as_str());
            j = j + 1;
            assert(out@ =~= start + blocking_entries(stuck.take(j as int)));
        }
        assert(stuck.take(j as int) =~= stuck);
        out
    }
}

fn entry_text(check: &Check) -> (r: String)
    ensures
        r@ == blocking_entry(check@),
{
    let mut out = around("\n  * ", check.name, "\n    ");
    out.append(check.consequence);
    out.append("\n");
    let ghost start = out@;
    if let Some(remedy) = &check.remedy {
        let list = lines(remedy.as_str());
        let ghost all = texts(list@);
        let mut i: usize = 0;
        assert(all.take(0) =~= Seq::empty());
        assert(out@ =~= start + remedy_lines(all.take(0)));
        while i < list.len()
            invariant
                i <= list@.len(),
                all == texts(list@),
                out@ == start + remedy_lines(all.take(i as int)),
            decreases list@.len() - i,
        {
            assert(all.take(i + 1).drop_last() =~= all.take(i as int));
            out.append("      ");
            out.append(list[i].as_str());
            out.append("\n");
            i = i + 1;
            assert(out@ =~= start + remedy_lines(all.take(i as int)));
        }
        assert(all.take(i as int) =~= all);
    }
    assert(out@ =~= blocking_entry(check@));
    out
}

proof fn lemma_blocking_all_or_none(checks: Seq<CheckText>)
    ensures
        blocking_of(checks).len() == 0 <==> forall|i: int|
            0 <= i < checks.len() ==> (#[trigger] checks[i]).severity != Severity::Blocking,
    decreases checks.len(),
{
    if checks.len() > 0 {
        let rest = checks.drop_last();
        lemma_blocking_all_or_none(rest);
        if blocking_of(rest).len() == 0 && checks.last().severity != Severity::Blocking {
            assert forall|i: int| 0 <= i < checks.len() implies (#[trigger] checks[i]).severity
                != Severity::Blocking by {
                if i < rest.len() {
                    assert(checks[i] == rest[i]);
                }
            }
        } else if blocking_of(rest).len() > 0 {
            let i = choose|i: int|
                0 <= i < rest.len() && (#[trigger] rest[i]).severity == Severity::Blocking;
            assert(checks[i] == rest[i]);
        } else {
            assert(checks[checks.len() - 1].severity == Severity::Blocking);
        }
    }
}

proof fn lemma_needs_grow(m: int, n: int, upstream: Double)
    requires
        0 <= m <= n,
    ensures
        sockets_needed(m, upstream) <= sockets_needed(n, upstream),
        ports_needed(m, upstream) <= ports_needed(n, upstream),
        backlog_needed(m) <= backlog_needed(n),
        countable(n, upstream) ==> countable(m, upstream),
{
    lemma_scaling_keeps_order(m, n, upstream);
}

/// What a system carries, it carries with fewer connections too.
pub proof fn lemma_fewer_is_easier(m: int, n: int, upstream: Double, limits: Limits)
    requires
        0 <= m <= n,
        carries(n, upstream, limits),
    ensures
        carries(m, upstream, limits),
{
    lemma_needs_grow(m, n, upstream);
    let few = checks_of(m, upstream, limits);
    let many = checks_of(n, upstream, limits);
    lemma_blocking_all_or_none(few);
    lemma_blocking_all_or_none(many);
    assert(few.len() == many.len());
    assert forall|i: int| 0 <= i < few.len() implies (#[trigger] few[i]).severity
        != Severity::Blocking by {
        assert(many[i].severity != Severity::Blocking);
        assert(few[i].current == many[i].current);
        assert(few[i].required <= many[i].required);
        assert(few[i].severity == severity_of(few[i].current, few[i].required));
        assert(many[i].severity == severity_of(many[i].current, many[i].required));
    }
}

/// The number that the text of a system setting holds.
#[must_use]
pub fn parse_setting(text: &str) -> (r: Option<u64>)
    ensures
        r is Some <==> number_up_to(trimmed(text@), u64::MAX as int) is Some,
        r matches Some(n) ==> Some(n as int) == number_up_to(trimmed(text@), u64::MAX as int),
{
    let t = trim(text);
    parse_u64(t.as_str())
}

/// The number that a word of a text spells.
pub open spec fn word_number(text: Seq<char>, n: nat) -> Option<int> {
    match word(text, n) {
        Some(w) => number_up_to(w, u64::MAX as int),
        None => None,
    }
}

fn parse_word(text: &str, n: usize) -> (r: Option<u64>)
    ensures
        r is Some <==> word_number(text@, n as nat) is Some,
        r matches Some(x) ==> Some(x as int) == word_number(text@, n as nat),
{
    match nth_word(text, n) {
        Some(w) => parse_u64(w.as_str()),
        None => None,
    }
}

/// The ephemeral port range: the two settings where both are there, else the first
/// two words of the file that holds both bounds on other platforms.
#[must_use]
pub fn ephemeral_range(
    first: Option<u64>,
    last: Option<u64>,
    range_file: Option<&str>,
) -> (r: (Option<u64>, Option<u64>))
    ensures
        first is Some && last is Some ==> r == (first, last),
        !(first is Some && last is Some) ==> match range_file {
            Some(text) => {
                &&& r.0 is Some <==> word_number(text@, 0) is Some
                &&& (r.0 matches Some(x) ==> Some(x as int) == word_number(text@, 0))
                &&& r.1 is Some <==> word_number(text@, 1) is Some
                &&& (r.1 matches Some(x) ==> Some(x as int) == word_number(text@, 1))
            },
            None => r == (None::<u64>, None::<u64>),
        },
{
    if first.is_some() && last.is_some() {
        return (first, last);
    }
    match range_file {
        Some(text) => (parse_word(text, 0), parse_word(text, 1)),
        None => (None, None),
    }
}

} // verus!
