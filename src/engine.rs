//! The scan's bookkeeping: which (host, port) pair to probe next, how many
//! probes are in flight under the concurrency limit, and where each outcome
//! goes. The probes themselves run outside; they report back through
//! `complete`.
use vstd::prelude::*;

use crate::hosts::{expand_hosts, host_block, host_spec_parse, HostIpRange, Ipv4Address};
use crate::ports::{expand_port_list, port_list_spec};
use crate::NetworkParseError;
use crate::results::{with_outcome, PortState, ScanSummary};

verus! {

/// One unit of work: a port of a host.
#[derive(Debug, Clone, Copy, PartialEq, Eq, Structural)]
pub struct ScanTarget {
    pub host: Ipv4Address,
    pub port: u16,
}

/// The targets for one host, its ports in order.
pub open spec fn host_row(h: u32, ps: Seq<u16>) -> Seq<ScanTarget> {
    ps.map_values(|p: u16| ScanTarget { host: Ipv4Address(h), port: p })
}

/// Every (host, port) pair, host by host, each host's ports in order.
pub open spec fn cross(hs: Seq<u32>, ps: Seq<u16>) -> Seq<ScanTarget>
    decreases hs.len(),
{
    if hs.len() == 0 {
        Seq::empty()
    } else {
        host_row(hs[0], ps) + cross(hs.skip(1), ps)
    }
}

pub proof fn lemma_cross_len(hs: Seq<u32>, ps: Seq<u16>)
    ensures
        cross(hs, ps).len() == hs.len() * ps.len(),
    decreases hs.len(),
{
    if hs.len() > 0 {
        lemma_cross_len(hs.skip(1), ps);
        assert(hs.len() * ps.len() == ps.len() + (hs.len() - 1) * ps.len()) by (nonlinear_arith);
    }
}

/// Hands out the (host, port) pairs of a scan one at a time, host by host,
/// never more than `concurrency_limit` at once without an outcome, and collects
/// the outcomes into a `ScanSummary`.
pub struct ScanEngine {
    hosts: HostIpRange,
    current: Option<Ipv4Address>,
    ports: Vec<u16>,
    port_index: usize,
    limit: usize,
    in_flight: usize,
    dispatched: u128,
    completed: u128,
    total: Ghost<nat>,
    summary: ScanSummary,
}

impl ScanEngine {
    /// The pairs not yet handed out, in the order they will be.
    pub closed spec fn pending(&self) -> Seq<ScanTarget> {
        let row = match self.current {
            Some(h) => host_row(h.0, self.ports@.skip(self.port_index as int)),
            None => Seq::empty(),
        };
        row + cross(self.hosts@, self.ports@)
    }

    /// Probes handed out whose outcome has not come back.
    pub closed spec fn in_flight_spec(&self) -> nat {
        self.in_flight as nat
    }

    pub closed spec fn limit_spec(&self) -> nat {
        self.limit as nat
    }

    /// Outcomes received so far.
    pub closed spec fn completed_spec(&self) -> nat {
        self.completed as nat
    }

    /// Number of pairs of the whole scan.
    pub closed spec fn total_spec(&self) -> nat {
        self.total@
    }

    pub closed spec fn summary_spec(&self) -> Map<u32, Map<u16, PortState>> {
        self.summary@
    }

    pub closed spec fn wf(&self) -> bool {
        &&& 0 < self.limit
        &&& self.in_flight <= self.limit
        &&& self.dispatched == self.completed + self.in_flight
        &&& self.dispatched + self.pending().len() == self.total@
        &&& self.total@ <= 0x1_0000_0000 * 0x1_0000_0000_0000_0000
        &&& self.port_index <= self.ports@.len()
        &&& self.summary.wf()
    }

    /// A scan of every port of `ports` on every address of `hosts`, with at
    /// most `concurrency_limit` probes in flight.
    pub fn new(hosts: HostIpRange, ports: Vec<u16>, concurrency_limit: usize) -> (r: ScanEngine)
        requires
            concurrency_limit > 0,
        ensures
            r.wf(),
            r.pending() == cross(hosts@, ports@),
            r.total_spec() == hosts@.len() * ports@.len(),
            r.limit_spec() == concurrency_limit,
            r.in_flight_spec() == 0,
            r.completed_spec() == 0,
            r.summary_spec() == Map::<u32, Map<u16, PortState>>::empty(),
    {
        let ghost total = hosts@.len() * ports@.len();
        let port_count = ports.len();
        proof {
            lemma_cross_len(hosts@, ports@);
            hosts.lemma_len_bound();
            assert(hosts@.len() * ports@.len() <= 0x1_0000_0000 * 0x1_0000_0000_0000_0000)
                by (nonlinear_arith)
                requires
                    hosts@.len() <= 0x1_0000_0000,
                    ports@.len() <= 0x1_0000_0000_0000_0000,
            ;
            assert(port_count as nat == ports@.len());
        }
        let r = ScanEngine {
            hosts,
            current: None,
            ports,
            port_index: 0,
            limit: concurrency_limit,
            in_flight: 0,
            dispatched: 0,
            completed: 0,
            total: Ghost(total),
            summary: ScanSummary::new(),
        };
        assert(r.pending() =~= cross(r.hosts@, r.ports@));
        r
    }

    /// The next pair to probe, if one is left and fewer than the limit are in
    /// flight; it then counts as in flight until `complete` is called for it.
    pub fn next_target(&mut self) -> (r: Option<ScanTarget>)
        requires
            old(self).wf(),
        ensures
            final(self).wf(),
            final(self).total_spec() == old(self).total_spec(),
            final(self).limit_spec() == old(self).limit_spec(),
            final(self).completed_spec() == old(self).completed_spec(),
            final(self).summary_spec() == old(self).summary_spec(),
            old(self).in_flight_spec() < old(self).limit_spec() && old(self).pending().len() > 0
                ==> {
                &&& r == Some(old(self).pending()[0])
                &&& final(self).pending() == old(self).pending().skip(1)
                &&& final(self).in_flight_spec() == old(self).in_flight_spec() + 1
            },
            !(old(self).in_flight_spec() < old(self).limit_spec() && old(self).pending().len()
                > 0) ==> {
                &&& r is None
                &&& final(self).pending() == old(self).pending()
                &&& final(self).in_flight_spec() == old(self).in_flight_spec()
            },
    {
        if self.in_flight >= self.limit {
            return None;
        }
        if self.ports.len() == 0 {
            proof {
                lemma_cross_len(self.hosts@, self.ports@);
                assert(self.hosts@.len() * self.ports@.len() == 0) by (nonlinear_arith)
                    requires
                        self.ports@.len() == 0,
                ;
                assert(self.ports@.skip(self.port_index as int).len() == 0);
                assert(self.pending() =~= Seq::<ScanTarget>::empty());
            }
            return None;
        }
        loop
            invariant
                self.wf(),
                self.in_flight < self.limit,
                self.ports@.len() > 0,
                self.pending() == old(self).pending(),
                self.total@ == old(self).total@,
                self.limit == old(self).limit,
                self.in_flight == old(self).in_flight,
                self.completed == old(self).completed,
                self.summary@ == old(self).summary@,
            decreases self.hosts@.len() * 2 + (if self.current is Some {
                1int
            } else {
                0int
            }),
        {
            match self.current {
                Some(h) => {
                    if self.port_index < self.ports.len() {
                        let t = ScanTarget { host: h, port: self.ports[self.port_index] };
                        let ghost before = self.pending();
                        let ghost rest = self.ports@.skip(self.port_index as int);
                        proof {
                            assert(rest.skip(1) =~= self.ports@.skip(self.port_index + 1));
                            assert(host_row(h.0, rest).skip(1) =~= host_row(h.0, rest.skip(1)));
                            assert((host_row(h.0, rest) + cross(self.hosts@, self.ports@)).skip(1)
                                =~= host_row(h.0, rest).skip(1) + cross(self.hosts@, self.ports@));
                        }
                        self.port_index = self.port_index + 1;
                        self.in_flight = self.in_flight + 1;
                        self.dispatched = self.dispatched + 1;
                        assert(self.pending() =~= before.skip(1));
                        return Some(t);
                    }
                    proof {
                        assert(self.ports@.skip(self.port_index as int) =~= Seq::<u16>::empty());
                        assert(self.pending() =~= cross(self.hosts@, self.ports@));
                    }
                    self.current = None;
                    assert(self.pending() =~= cross(self.hosts@, self.ports@));
                },
                None => {
                    let ghost before = self.hosts@;
                    match self.hosts.next() {
                        Some(h) => {
                            self.current = Some(h);
                            self.port_index = 0;
                            assert(self.ports@.skip(0) =~= self.ports@);
                            assert(self.pending() =~= cross(before, self.ports@));
                        },
                        None => {
                            assert(self.pending() =~= Seq::<ScanTarget>::empty());
                            return None;
                        },
                    }
                },
            }
        }
    }

    /// Takes the outcome of a probe handed out by `next_target`.
    pub fn complete(&mut self, target: ScanTarget, state: PortState)
        requires
            old(self).wf(),
            old(self).in_flight_spec() > 0,
        ensures
            final(self).wf(),
            final(self).pending() == old(self).pending(),
            final(self).total_spec() == old(self).total_spec(),
            final(self).limit_spec() == old(self).limit_spec(),
            final(self).in_flight_spec() == old(self).in_flight_spec() - 1,
            final(self).completed_spec() == old(self).completed_spec() + 1,
            final(self).summary_spec() == with_outcome(
                old(self).summary_spec(),
                target.host.0,
                target.port,
                state,
            ),
    {
        self.in_flight = self.in_flight - 1;
        self.completed = self.completed + 1;
        self.summary.record(target.host, target.port, state);
    }

    /// Probes in flight now.
    pub fn in_flight(&self) -> (r: usize)
        ensures
            r == self.in_flight_spec(),
    {
        self.in_flight
    }

    /// Outcomes received so far.
    pub fn completed(&self) -> (r: u128)
        ensures
            r == self.completed_spec(),
    {
        self.completed
    }

    /// Whether every pair has been handed out and has come back.
    pub fn is_finished(&self) -> (r: bool)
        requires
            self.wf(),
        ensures
            r == (self.pending().len() == 0 && self.in_flight_spec() == 0),
    {
        self.in_flight == 0 && self.dispatched == self.total_count()
    }

    fn total_count(&self) -> (r: u128)
        requires
            self.wf(),
        ensures
            r == self.dispatched + self.pending().len(),
    {
        let ghost row = match self.current {
            Some(h) => host_row(h.0, self.ports@.skip(self.port_index as int)),
            None => Seq::<ScanTarget>::empty(),
        };
        proof {
            lemma_cross_len(self.hosts@, self.ports@);
        }
        let row_len: u128 = match self.current {
            Some(_) => (self.ports.len() - self.port_index) as u128,
            None => 0,
        };
        let hosts_left = self.hosts.count() as u128;
        let n = self.ports.len() as u128;
        proof {
            assert(hosts_left * n <= 0x1_0000_0000 * 0x1_0000_0000_0000_0000) by {
                assert(hosts_left * n == cross(self.hosts@, self.ports@).len());
            }
        }
        self.dispatched + row_len + hosts_left * n
    }

    /// The outcomes collected.
    pub fn into_summary(self) -> (r: ScanSummary)
        requires
            self.wf(),
        ensures
            r.wf(),
            r@ == self.summary_spec(),
    {
        self.summary
    }
}

/// The pairs a scan of the two specifications probes, in dispatch order, or
/// why the specifications are rejected (the host specification is checked
/// first).
pub open spec fn scan_plan(host_spec: Seq<char>, port_spec: Seq<char>) -> Result<
    Seq<ScanTarget>,
    NetworkParseError,
> {
    match host_spec_parse(host_spec) {
        Err(e) => Err(e),
        Ok((a, m)) => match port_list_spec(port_spec) {
            None => Err(NetworkParseError::InvalidPortNumber),
            Some(ps) => Ok(cross(host_block(a, m), ps)),
        },
    }
}

/// Checks both specifications before any probe and sets up the scan. The
/// pairs it will hand out depend on the two texts alone, so scanning the same
/// specifications again probes the same pairs in the same order.
pub fn plan_scan(host_spec: &str, port_spec: &str, concurrency_limit: usize) -> (r: Result<
    ScanEngine,
    NetworkParseError,
>)
    requires
        concurrency_limit > 0,
    ensures
        match scan_plan(host_spec@, port_spec@) {
            Ok(plan) => r is Ok && r->Ok_0.wf() && r->Ok_0.pending() == plan
                && r->Ok_0.limit_spec() == concurrency_limit && r->Ok_0.in_flight_spec() == 0
                && r->Ok_0.completed_spec() == 0 && r->Ok_0.total_spec() == plan.len()
                && r->Ok_0.summary_spec() == Map::<u32, Map<u16, PortState>>::empty(),
            Err(e) => r == Err::<ScanEngine, NetworkParseError>(e),
        },
{
    let hosts = expand_hosts(host_spec)?;
    let ports = expand_port_list(port_spec)?;
    proof {
        lemma_cross_len(hosts@, ports@);
    }
    Ok(ScanEngine::new(hosts, ports, concurrency_limit))
}

/// Over any run of the engine, no more than the concurrency limit of probes is
/// ever in flight, every pair of the scan is either pending, in flight or
/// completed, and once the engine is finished it has received exactly one
/// outcome per (host, port) pair: |hosts| × |ports| of them.
pub proof fn lemma_scan_accounting(e: &ScanEngine)
    requires
        e.wf(),
    ensures
        e.in_flight_spec() <= e.limit_spec(),
        e.completed_spec() + e.in_flight_spec() + e.pending().len() == e.total_spec(),
        e.pending().len() == 0 && e.in_flight_spec() == 0 ==> e.completed_spec()
            == e.total_spec(),
{
}

} // verus!
