use vstd::prelude::*;
use crate::outcome::{OutcomeView, ProbeOutcome};
use crate::port_range::{
    parse, spec_parse_range, text_bytes, ConfigError, PortRange, DEFAULT_END, DEFAULT_START,
};
use crate::result_set::{ports_of, strictly_ascending, ResultSet};

verus! {

/// The host to scan, as the bytes of its address.
#[derive(Clone, Copy, Debug, PartialEq, Eq)]
pub enum Target {
    V4([u8; 4]),
    V6([u8; 16]),
}

/// A validated scan configuration.
#[derive(Clone, Copy, Debug)]
pub struct ScanConfig {
    pub target: Target,
    pub range: PortRange,
    pub timeout_secs: u64,
    pub concurrency: usize,
}

impl ScanConfig {
    pub open spec fn wf(&self) -> bool {
        self.range.wf() && self.timeout_secs > 0 && self.concurrency > 0
    }

    /// Validates a configuration. A range text that is given must read as a
    /// range; without one, ports 1 to 1024 are scanned. The timeout and the
    /// concurrency cap must be positive.
    pub fn new(target: Target, range_text: Option<&str>, timeout_secs: u64, concurrency: usize) -> (r:
        Result<ScanConfig, ConfigError>)
        ensures
            r matches Ok(c) ==> c.wf() && c.target == target && c.timeout_secs == timeout_secs
                && c.concurrency == concurrency,
            r matches Ok(c) ==> match range_text {
                Some(t) => spec_parse_range(text_bytes(t@)) == Some((c.range.start, c.range.end)),
                None => c.range.start == DEFAULT_START && c.range.end == DEFAULT_END,
            },
            r is Ok <==> (match range_text {
                Some(t) => spec_parse_range(text_bytes(t@)) is Some,
                None => true,
            }) && timeout_secs > 0 && concurrency > 0,
            r == Err::<ScanConfig, ConfigError>(ConfigError::InvalidRange) <==> match range_text {
                Some(t) => spec_parse_range(text_bytes(t@)) is None,
                None => false,
            },
            r == Err::<ScanConfig, ConfigError>(ConfigError::InvalidTimeout) <==> !(r
                == Err::<ScanConfig, ConfigError>(ConfigError::InvalidRange)) && timeout_secs == 0,
            r == Err::<ScanConfig, ConfigError>(ConfigError::InvalidConcurrency) <==> !(r
                == Err::<ScanConfig, ConfigError>(ConfigError::InvalidRange)) && timeout_secs > 0
                && concurrency == 0,
    {
        let range = match range_text {
            Some(t) => match parse(t) {
                Ok(pr) => pr,
                Err(e) => {
                    return Err(e);
                },
            },
            None => PortRange::default_range(),
        };
        if timeout_secs == 0 {
            return Err(ConfigError::InvalidTimeout);
        }
        if concurrency == 0 {
            return Err(ConfigError::InvalidConcurrency);
        }
        Ok(ScanConfig { target, range, timeout_secs, concurrency })
    }
}

/// The admission and collection state of one scan. Ports are admitted in
/// ascending order while fewer than `concurrency` probes are in flight;
/// each admitted port's outcome is recorded once; a cancelled scan admits
/// nothing more and drops what was in flight.
pub struct Scheduler {
    range: PortRange,
    concurrency: usize,
    next: u32,
    in_flight: Vec<u16>,
    results: ResultSet,
    cancelled: bool,
}

impl Scheduler {
    pub closed spec fn spec_range(&self) -> PortRange {
        self.range
    }

    pub closed spec fn spec_concurrency(&self) -> nat {
        self.concurrency as nat
    }

    /// The next port to admit; past the range's end when all were admitted.
    pub closed spec fn spec_next(&self) -> int {
        self.next as int
    }

    /// The ports whose probes are running, in order of admission.
    pub closed spec fn spec_in_flight(&self) -> Seq<u16> {
        self.in_flight@
    }

    /// The outcomes recorded so far, ascending by port.
    pub closed spec fn spec_results(&self) -> Seq<OutcomeView> {
        self.results@
    }

    pub closed spec fn spec_cancelled(&self) -> bool {
        self.cancelled
    }

    /// Whether nothing is running and nothing more will be admitted.
    pub open spec fn spec_finished(&self) -> bool {
        self.spec_in_flight().len() == 0 && (self.spec_cancelled() || self.spec_next()
            > self.spec_range().end)
    }

    /// Every port below the next one to admit is either in flight or
    /// recorded, never both; recorded ports ascend; nothing is outside the
    /// range.
    pub closed spec fn inv(&self) -> bool {
        let start = self.range.start as int;
        let ps = ports_of(self.results@);
        &&& self.range.wf()
        &&& self.concurrency > 0
        &&& start <= self.next <= self.range.end + 1
        &&& self.in_flight@.no_duplicates()
        &&& self.in_flight@.len() <= self.concurrency
        &&& forall|i: int|
            0 <= i < self.in_flight@.len() ==> start <= #[trigger] self.in_flight@[i] < self.next
        &&& self.results.wf()
        &&& forall|i: int|
            0 <= i < ps.len() ==> start <= #[trigger] ps[i] < self.next
                && !self.in_flight@.contains(ps[i])
        &&& self.cancelled ==> self.in_flight@.len() == 0
        &&& !self.cancelled ==> forall|p: u16|
            start <= p < self.next ==> #[trigger] self.in_flight@.contains(p) || ps.contains(p)
    }

    /// A scheduler for the configured range, with nothing admitted yet.
    pub fn new(config: &ScanConfig) -> (r: Scheduler)
        requires
            config.wf(),
        ensures
            r.inv(),
            r.spec_range() == config.range,
            r.spec_concurrency() == config.concurrency,
            r.spec_next() == config.range.start,
            r.spec_in_flight().len() == 0,
            r.spec_results().len() == 0,
            !r.spec_cancelled(),
    {
        let r = Scheduler {
            range: config.range,
            concurrency: config.concurrency,
            next: config.range.start as u32,
            in_flight: Vec::new(),
            results: ResultSet::new(),
            cancelled: false,
        };
        assert(ports_of(r.results@) =~= Seq::<u16>::empty());
        r
    }

    /// Admits the next port, where the scan is not cancelled, a slot is free
    /// and a port is left.
    pub fn next_port(&mut self) -> (r: Option<u16>)
        requires
            old(self).inv(),
        ensures
            final(self).inv(),
            r is Some <==> !old(self).spec_cancelled() && old(self).spec_in_flight().len()
                < old(self).spec_concurrency() && old(self).spec_next() <= old(self).spec_range().end,
            r matches Some(p) ==> p == old(self).spec_next() && final(self).spec_next() == old(self).spec_next() + 1 && final(self).spec_in_flight() == old(self).spec_in_flight().push(p),
            r is None ==> final(self).spec_next() == old(self).spec_next() && final(self).spec_in_flight() == old(self).spec_in_flight(),
            final(self).spec_results() == old(self).spec_results(),
            final(self).spec_range() == old(self).spec_range(),
            final(self).spec_concurrency() == old(self).spec_concurrency(),
            final(self).spec_cancelled() == old(self).spec_cancelled(),
    {
        if self.cancelled || self.in_flight.len() >= self.concurrency || self.next
            > self.range.end as u32 {
            return None;
        }
        let p = self.next as u16;
        let ghost old_in = self.in_flight@;
        self.in_flight.push(p);
        self.next = self.next + 1;
        proof {
            let ps = ports_of(self.results@);
            assert forall|i: int, j: int|
                0 <= i < self.in_flight@.len() && 0 <= j < self.in_flight@.len() && i != j implies
                self.in_flight@[i] != self.in_flight@[j] by {
                if i < old_in.len() && j < old_in.len() {
                    assert(old_in[i] != old_in[j]);
                } else if i < old_in.len() {
                    assert(old_in[i] < p);
                } else {
                    assert(old_in[j] < p);
                }
            }
            assert forall|i: int| 0 <= i < ps.len() implies !self.in_flight@.contains(ps[i]) by {
                assert(!old_in.contains(ps[i]));
                if self.in_flight@.contains(ps[i]) {
                    let j = choose|j: int|
                        0 <= j < self.in_flight@.len() && self.in_flight@[j] == ps[i];
                    if j < old_in.len() {
                        assert(old_in[j] == ps[i]);
                    }
                }
            }
            assert forall|q: u16|
                self.range.start <= q < self.next implies #[trigger] self.in_flight@.contains(q)
                || ps.contains(q) by {
                if q == p {
                    assert(self.in_flight@[old_in.len() as int] == p);
                } else if old_in.contains(q) {
                    let j = choose|j: int| 0 <= j < old_in.len() && old_in[j] == q;
                    assert(self.in_flight@[j] == q);
                }
            }
        }
        Some(p)
    }

    /// Records the outcome of a port in flight, in its place by port.
    /// An outcome for a port that is not in flight (never admitted, already
    /// recorded, or dropped by a cancel) changes nothing.
    pub fn record(&mut self, outcome: ProbeOutcome) -> (r: bool)
        requires
            old(self).inv(),
        ensures
            final(self).inv(),
            r == old(self).spec_in_flight().contains(outcome.port),
            r ==> final(self).spec_in_flight().to_set() == old(self).spec_in_flight().to_set().remove(outcome.port) && final(self).spec_in_flight().len() == old(self).spec_in_flight().len() - 1,
            r ==> exists|pos: int|
                0 <= pos <= old(self).spec_results().len() && final(self).spec_results() == old(self).spec_results().insert(pos, outcome.view()),
            !r ==> final(self).spec_in_flight() == old(self).spec_in_flight() && final(self).spec_results() == old(self).spec_results(),
            final(self).spec_next() == old(self).spec_next(),
            final(self).spec_range() == old(self).spec_range(),
            final(self).spec_concurrency() == old(self).spec_concurrency(),
            final(self).spec_cancelled() == old(self).spec_cancelled(),
    {
        let n = self.in_flight.len();
        let mut i: usize = 0;
        while i < n && self.in_flight[i] != outcome.port
            invariant
                i <= n == self.in_flight@.len(),
                forall|j: int| 0 <= j < i ==> self.in_flight@[j] != outcome.port,
            decreases n - i,
        {
            i = i + 1;
        }
        if i == n {
            return false;
        }
        let ghost old_in = self.in_flight@;
        let ghost old_ps = ports_of(self.results@);
        let port = outcome.port;
        let ghost old_res = self.results@;
        let ghost ov = outcome.view();
        self.in_flight.remove(i);
        assert(self.in_flight@ == old_in.remove(i as int));
        assert(!old_ps.contains(port)) by {
            if old_ps.contains(port) {
                let k = choose|k: int| 0 <= k < old_ps.len() && old_ps[k] == port;
                assert(!old_in.contains(old_ps[k]));
                assert(old_in[i as int] == port);
            }
        }
        self.results.insert(outcome);
        proof {
            let pos = choose|pos: int|
                0 <= pos <= old_res.len() && self.results@ == old_res.insert(pos, ov);
            assert(0 <= pos <= old_res.len() && self.results@ == old_res.insert(pos, ov));
            assert(old_res == old(self).spec_results());
            assert(ov == outcome.view());
            assert(self.spec_results() == old(self).spec_results().insert(pos, outcome.view()));
            let ps = ports_of(self.results@);
            let nin = self.in_flight@;
            assert forall|j: int| 0 <= j < nin.len() implies #[trigger] nin[j] == (if j < i {
                old_in[j]
            } else {
                old_in[j + 1]
            }) by {}
            assert forall|j: int, k: int|
                0 <= j < nin.len() && 0 <= k < nin.len() && j != k implies nin[j] != nin[k] by {
                if j < i && k < i {
                    assert(old_in[j] != old_in[k]);
                } else if j < i {
                    assert(old_in[j] != old_in[k + 1]);
                } else if k < i {
                    assert(old_in[j + 1] != old_in[k]);
                } else {
                    assert(old_in[j + 1] != old_in[k + 1]);
                }
            }
            assert forall|q: u16| nin.contains(q) <==> (old_in.contains(q) && q != port) by {
                if nin.contains(q) {
                    let j = choose|j: int| 0 <= j < nin.len() && nin[j] == q;
                    if j < i {
                        assert(old_in[j] == q && j != i);
                    } else {
                        assert(old_in[j + 1] == q);
                    }
                }
                if old_in.contains(q) && q != port {
                    let j = choose|j: int| 0 <= j < old_in.len() && old_in[j] == q;
                    if j < i {
                        assert(nin[j] == q);
                    } else {
                        assert(j != i);
                        assert(nin[j - 1] == q);
                    }
                }
            }
            assert(nin.to_set() =~= old_in.to_set().remove(port));
            assert forall|j: int| 0 <= j < nin.len() implies self.range.start <= #[trigger] nin[j]
                < self.next by {}
            assert forall|k: int| 0 <= k < ps.len() implies self.range.start <= #[trigger] ps[k]
                < self.next && !nin.contains(ps[k]) by {
                assert(ps.contains(ps[k]));
                if ps[k] != port {
                    assert(old_ps.contains(ps[k]));
                    let m = choose|m: int| 0 <= m < old_ps.len() && old_ps[m] == ps[k];
                    assert(!old_in.contains(old_ps[m]));
                } else {
                    assert(old_in.contains(port));
                }
            }
            if !self.cancelled {
                assert forall|q: u16| self.range.start <= q < self.next implies #[trigger] nin.contains(q) || ps.contains(q) by {
                    assert(old_in.contains(q) || old_ps.contains(q));
                }
            }
        }
        true
    }

    /// Cancels the scan: nothing more is admitted, and the probes in flight
    /// are dropped; their outcomes will not be recorded.
    pub fn cancel(&mut self)
        requires
            old(self).inv(),
        ensures
            final(self).inv(),
            final(self).spec_cancelled(),
            final(self).spec_in_flight().len() == 0,
            final(self).spec_results() == old(self).spec_results(),
            final(self).spec_next() == old(self).spec_next(),
            final(self).spec_range() == old(self).spec_range(),
            final(self).spec_concurrency() == old(self).spec_concurrency(),
    {
        self.cancelled = true;
        self.in_flight = Vec::new();
    }

    /// Whether nothing is running and nothing more will be admitted.
    pub fn is_finished(&self) -> (r: bool)
        requires
            self.inv(),
        ensures
            r == self.spec_finished(),
    {
        self.in_flight.len() == 0 && (self.cancelled || self.next > self.range.end as u32)
    }

    /// The number of probes in flight.
    pub fn in_flight_count(&self) -> (r: usize)
        ensures
            r == self.spec_in_flight().len(),
    {
        self.in_flight.len()
    }

    /// Whether the scan was cancelled.
    pub fn is_cancelled(&self) -> (r: bool)
        ensures
            r == self.spec_cancelled(),
    {
        self.cancelled
    }

    /// The outcomes recorded so far.
    pub fn results(&self) -> (r: &ResultSet)
        ensures
            r@ == self.spec_results(),
            r.wf() <== self.inv(),
    {
        &self.results
    }

    /// Hands over the recorded outcomes, marked complete exactly when they
    /// hold one outcome for each port of the range.
    pub fn finish(self) -> (r: ResultSet)
        requires
            self.inv(),
        ensures
            r@ == self.spec_results(),
            r.wf(),
            r.spec_complete() <==> ports_of(r@) == self.spec_range().ports(),
            self.spec_finished() && !self.spec_cancelled() ==> r.spec_complete(),
    {
        let mut results = self.results;
        proof {
            let ps = ports_of(results@);
            lemma_ascending_in_range_full(ps, self.range.start, self.range.end);
            if self.spec_finished() && !self.spec_cancelled() {
                assert forall|p: u16| self.range.start <= p <= self.range.end implies #[trigger] ps.contains(p) by {
                    assert(!self.in_flight@.contains(p));
                }
                lemma_covering_is_range(ps, self.range.start, self.range.end);
            }
        }
        let complete = results.len() as u32 == self.range.len();
        results.set_complete(complete);
        results
    }
}

/// A strictly ascending sequence of ports within `[start, end]` is bounded
/// below and above position by position, and is the whole range exactly when
/// it is as long as the range.
proof fn lemma_ascending_in_range_full(s: Seq<u16>, start: u16, end: u16)
    requires
        start <= end,
        strictly_ascending(s),
        forall|i: int| 0 <= i < s.len() ==> start <= #[trigger] s[i] <= end,
    ensures
        forall|i: int| 0 <= i < s.len() ==> #[trigger] s[i] >= start + i,
        forall|i: int| 0 <= i < s.len() ==> #[trigger] s[i] + (s.len() - 1 - i) <= end,
        s.len() <= end - start + 1,
        s.len() == end - start + 1 <==> s == crate::port_range::range_ports(start, end),
{
    assert forall|i: int| 0 <= i < s.len() implies #[trigger] s[i] >= start + i by {
        lemma_ascending_lower(s, start, i);
    }
    assert forall|i: int| 0 <= i < s.len() implies #[trigger] s[i] + (s.len() - 1 - i) <= end by {
        lemma_ascending_upper(s, end, i);
    }
    if s.len() > 0 {
        assert(s[s.len() - 1] >= start + s.len() - 1);
    }
    if s.len() == end - start + 1 {
        assert(s =~= crate::port_range::range_ports(start, end));
    }
}

proof fn lemma_ascending_lower(s: Seq<u16>, start: u16, i: int)
    requires
        strictly_ascending(s),
        forall|k: int| 0 <= k < s.len() ==> start <= #[trigger] s[k],
        0 <= i < s.len(),
    ensures
        s[i] >= start + i,
    decreases i,
{
    if i > 0 {
        lemma_ascending_lower(s, start, i - 1);
        assert(s[i - 1] < s[i]);
    }
}

proof fn lemma_ascending_upper(s: Seq<u16>, end: u16, i: int)
    requires
        strictly_ascending(s),
        forall|k: int| 0 <= k < s.len() ==> #[trigger] s[k] <= end,
        0 <= i < s.len(),
    ensures
        s[i] + (s.len() - 1 - i) <= end,
    decreases s.len() - i,
{
    if i < s.len() - 1 {
        lemma_ascending_upper(s, end, i + 1);
        assert(s[i] < s[i + 1]);
    }
}

/// A strictly ascending sequence of ports within `[start, end]` that holds
/// every port of the range is the range.
proof fn lemma_covering_is_range(s: Seq<u16>, start: u16, end: u16)
    requires
        start <= end,
        strictly_ascending(s),
        forall|i: int| 0 <= i < s.len() ==> start <= #[trigger] s[i] <= end,
        forall|p: u16| start <= p <= end ==> #[trigger] s.contains(p),
    ensures
        s == crate::port_range::range_ports(start, end),
{
    lemma_ascending_in_range_full(s, start, end);
    assert(s.contains(end));
    let k = choose|k: int| 0 <= k < s.len() && s[k] == end;
    assert(s[k] + (s.len() - 1 - k) <= end);
    assert(s[k] >= start + k);
    assert forall|i: int| 0 <= i < s.len() implies #[trigger] s[i] == start + i by {
        lemma_covering_position(s, start, end, i);
    }
    assert(s.len() == end - start + 1) by {
        assert(s.len() >= 1);
        assert(s[s.len() - 1] == start + s.len() - 1);
        if s.len() < end - start + 1 {
            let q = (start + s.len()) as u16;
            assert(s.contains(q));
            let m = choose|m: int| 0 <= m < s.len() && s[m] == q;
            assert(s[m] == start + m);
        }
    }
}

proof fn lemma_covering_position(s: Seq<u16>, start: u16, end: u16, i: int)
    requires
        start <= end,
        strictly_ascending(s),
        forall|k: int| 0 <= k < s.len() ==> start <= #[trigger] s[k] <= end,
        forall|k: int| 0 <= k < s.len() ==> #[trigger] s[k] >= start + k,
        forall|p: u16| start <= p <= end ==> #[trigger] s.contains(p),
        0 <= i < s.len(),
    ensures
        s[i] == start + i,
    decreases i,
{
    if i > 0 {
        lemma_covering_position(s, start, end, i - 1);
    }
    assert(start + i <= s[i] <= end);
    let q = (start + i) as u16;
    assert(s.contains(q));
    let m = choose|m: int| 0 <= m < s.len() && s[m] == q;
    if m < i {
        lemma_covering_position(s, start, end, m);
    }
    assert(s[i] <= s[m]);
}

/// Once a scan that was not cancelled has finished, it holds exactly one
/// outcome for each port of its range, ascending, whatever the concurrency
/// cap and the order in which outcomes came in.
pub proof fn lemma_finished_scan_has_each_port_once(s: &Scheduler)
    requires
        s.inv(),
        s.spec_finished(),
        !s.spec_cancelled(),
    ensures
        ports_of(s.spec_results()) == s.spec_range().ports(),
        ports_of(s.spec_results()).no_duplicates(),
        s.spec_results().len() == s.spec_range().end - s.spec_range().start + 1,
{
    let ps = ports_of(s.results@);
    assert forall|p: u16| s.range.start <= p <= s.range.end implies #[trigger] ps.contains(p) by {
        assert(!s.in_flight@.contains(p));
    }
    lemma_covering_is_range(ps, s.range.start, s.range.end);
}

/// Two finished scans of one range that were not cancelled list the same
/// ports in the same order: the order of the results does not depend on the
/// order in which probes completed.
pub proof fn lemma_result_order_is_independent_of_completion(a: &Scheduler, b: &Scheduler)
    requires
        a.inv(),
        b.inv(),
        a.spec_finished(),
        b.spec_finished(),
        !a.spec_cancelled(),
        !b.spec_cancelled(),
        a.spec_range() == b.spec_range(),
    ensures
        ports_of(a.spec_results()) == ports_of(b.spec_results()),
{
    lemma_finished_scan_has_each_port_once(a);
    lemma_finished_scan_has_each_port_once(b);
}

/// At every step the recorded outcomes ascend by port and lie in the range.
pub proof fn lemma_results_ascend(s: &Scheduler)
    requires
        s.inv(),
    ensures
        strictly_ascending(ports_of(s.spec_results())),
        forall|i: int|
            0 <= i < s.spec_results().len() ==> s.spec_range().start <= #[trigger] s.spec_results()[i].0
                <= s.spec_range().end,
{
    assert forall|i: int| 0 <= i < s.spec_results().len() implies s.spec_range().start
        <= #[trigger] s.spec_results()[i].0 <= s.spec_range().end by {
        assert(ports_of(s.results@)[i] == s.results@[i].0);
    }
}

/// A scan cancelled before its last port was admitted holds fewer outcomes
/// than its range has ports, so its results are not marked complete.
pub proof fn lemma_cancelled_scan_is_partial(s: &Scheduler)
    requires
        s.inv(),
        s.spec_cancelled(),
        s.spec_next() <= s.spec_range().end,
    ensures
        s.spec_results().len() < s.spec_range().end - s.spec_range().start + 1,
        ports_of(s.spec_results()) != s.spec_range().ports(),
{
    let ps = ports_of(s.results@);
    assert(ps.len() == s.results@.len());
    if ps.len() > 0 {
        assert(s.range.start <= ps[0] < s.next);
        let last = (s.next - 1) as u16;
        assert forall|i: int| 0 <= i < ps.len() implies s.range.start <= #[trigger] ps[i] <= last by {}
        lemma_ascending_in_range_full(ps, s.range.start, last);
    }
}

} // verus!
