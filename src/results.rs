//! Outcomes of probes: per host, one state per port probed (the last one
//! recorded wins), with running counts of each state; and the whole scan's
//! results, per host.
use std::collections::HashMap;
use vstd::prelude::*;

use crate::hosts::Ipv4Address;

verus! {

broadcast use vstd::std_specs::hash::group_hash_axioms;

/// The classification of one probe.
#[derive(Debug, Clone, Copy, PartialEq, Eq, Structural)]
pub enum PortState {
    /// The connection was established in time.
    Open,
    /// The connection was refused or failed in time.
    Closed,
    /// Neither happened within the timeout.
    Timeout,
}

/// The ports that `m` maps to `st`.
pub open spec fn ports_in_state(m: Map<u16, PortState>, st: PortState) -> Set<u16> {
    m.dom().filter(|p: u16| m[p] == st)
}

/// How many ports `m` maps to `st`.
pub open spec fn count_state(m: Map<u16, PortState>, st: PortState) -> nat {
    ports_in_state(m, st).len()
}

proof fn lemma_ports_in_state_finite(m: Map<u16, PortState>, st: PortState)
    requires
        m.dom().finite(),
    ensures
        ports_in_state(m, st).finite(),
        forall|p: u16| #[trigger]
            ports_in_state(m, st).contains(p) <==> m.contains_key(p) && m[p] == st,
{
    vstd::set_lib::lemma_len_subset(ports_in_state(m, st), m.dom());
}

proof fn lemma_count_insert(m: Map<u16, PortState>, k: u16, v: PortState, st: PortState)
    requires
        m.dom().finite(),
    ensures
        m.contains_key(k) && m[k] == st ==> count_state(m, st) >= 1,
        count_state(m.insert(k, v), st) == count_state(m, st) - (if m.contains_key(k) && m[k]
            == st {
            1int
        } else {
            0int
        }) + (if v == st {
            1int
        } else {
            0int
        }),
{
    let n = m.insert(k, v);
    lemma_ports_in_state_finite(m, st);
    lemma_ports_in_state_finite(n, st);
    let a = ports_in_state(m, st);
    let b = ports_in_state(n, st);
    let a0 = a.remove(k);
    if v == st {
        assert(b =~= a0.insert(k));
    } else {
        assert(b =~= a0);
    }
}

proof fn lemma_count_empty(st: PortState)
    ensures
        count_state(Map::<u16, PortState>::empty(), st) == 0,
{
    assert(ports_in_state(Map::<u16, PortState>::empty(), st) =~= Set::<u16>::empty());
}

proof fn lemma_count_total(m: Map<u16, PortState>)
    requires
        m.dom().finite(),
    ensures
        count_state(m, PortState::Open) + count_state(m, PortState::Closed) + count_state(
            m,
            PortState::Timeout,
        ) == m.dom().len(),
{
    let o = ports_in_state(m, PortState::Open);
    let c = ports_in_state(m, PortState::Closed);
    let t = ports_in_state(m, PortState::Timeout);
    lemma_ports_in_state_finite(m, PortState::Open);
    lemma_ports_in_state_finite(m, PortState::Closed);
    lemma_ports_in_state_finite(m, PortState::Timeout);
    assert(o.disjoint(c));
    vstd::set_lib::lemma_set_disjoint_lens(o, c);
    assert((o + c).disjoint(t));
    vstd::set_lib::lemma_set_disjoint_lens(o + c, t);
    assert(o + c + t =~= m.dom());
}

/// The outcomes for one host: the state last recorded for each port, the ports
/// in the order they were first recorded, and how many ports are in each state.
pub struct HostResult {
    ports: Vec<u16>,
    states: HashMap<u16, PortState>,
    open: u32,
    closed: u32,
    timeout: u32,
}

impl View for HostResult {
    type V = Map<u16, PortState>;

    closed spec fn view(&self) -> Map<u16, PortState> {
        self.states@
    }
}

impl HostResult {
    /// The ports recorded, in the order they were first recorded.
    pub closed spec fn port_order(&self) -> Seq<u16> {
        self.ports@
    }

    pub closed spec fn wf(&self) -> bool {
        &&& self.ports@.no_duplicates()
        &&& self.ports@.to_set() == self.states@.dom()
        &&& self.open as nat == count_state(self.states@, PortState::Open)
        &&& self.closed as nat == count_state(self.states@, PortState::Closed)
        &&& self.timeout as nat == count_state(self.states@, PortState::Timeout)
    }

    /// A host with nothing recorded yet.
    pub fn new() -> (r: HostResult)
        ensures
            r.wf(),
            r@ == Map::<u16, PortState>::empty(),
            r.port_order() == Seq::<u16>::empty(),
    {
        let r = HostResult {
            ports: Vec::new(),
            states: HashMap::new(),
            open: 0,
            closed: 0,
            timeout: 0,
        };
        proof {
            lemma_count_empty(PortState::Open);
            lemma_count_empty(PortState::Closed);
            lemma_count_empty(PortState::Timeout);
            assert(r.ports@.to_set() =~= Set::<u16>::empty());
            assert(r.states@ =~= Map::<u16, PortState>::empty());
        }
        r
    }

    proof fn lemma_counts_bounded(&self)
        requires
            self.wf(),
        ensures
            self.open + self.closed + self.timeout == self@.dom().len(),
            self@.dom().len() <= 0x1_0000,
    {
        lemma_count_total(self.states@);
        let dom = self.states@.dom();
        let as_int = |p: u16| p as int;
        let ints = dom.map(as_int);
        assert(vstd::relations::injective_on(as_int, dom));
        vstd::set_lib::lemma_map_size(dom, ints, as_int);
        vstd::set_lib::lemma_int_range(0, 0x1_0000);
        assert(ints.subset_of(vstd::set_lib::set_int_range(0, 0x1_0000)));
        vstd::set_lib::lemma_len_subset(ints, vstd::set_lib::set_int_range(0, 0x1_0000));
    }

    /// Records the state of a probe of `port`; a port recorded before keeps
    /// only this latest state.
    pub fn record(&mut self, port: u16, state: PortState)
        requires
            old(self).wf(),
        ensures
            final(self).wf(),
            final(self)@ == old(self)@.insert(port, state),
            old(self)@.contains_key(port) ==> final(self).port_order() == old(self).port_order(),
            !old(self)@.contains_key(port) ==> final(self).port_order() == old(
                self,
            ).port_order().push(port),
    {
        proof {
            self.lemma_counts_bounded();
            lemma_count_insert(self.states@, port, state, PortState::Open);
            lemma_count_insert(self.states@, port, state, PortState::Closed);
            lemma_count_insert(self.states@, port, state, PortState::Timeout);
        }
        let ghost before = self.states@;
        let previous = self.states.insert(port, state);
        match previous {
            Some(PortState::Open) => self.open = self.open - 1,
            Some(PortState::Closed) => self.closed = self.closed - 1,
            Some(PortState::Timeout) => self.timeout = self.timeout - 1,
            None => {
                proof {
                    assert(!self.ports@.contains(port)) by {
                        assert(!before.dom().contains(port));
                    }
                    self.ports@.lemma_push_to_set_commute(port);
                }
                self.ports.push(port);
            },
        }
        match state {
            PortState::Open => self.open = self.open + 1,
            PortState::Closed => self.closed = self.closed + 1,
            PortState::Timeout => self.timeout = self.timeout + 1,
        }
        assert(self.ports@.to_set() =~= self.states@.dom());
    }

    /// How many ports have a state recorded.
    pub fn len(&self) -> (r: usize)
        requires
            self.wf(),
        ensures
            r == self@.dom().len(),
    {
        proof {
            self.ports@.unique_seq_to_set();
        }
        self.ports.len()
    }

    /// The `i`-th port in the order of first recording, with its state.
    pub fn entry(&self, i: usize) -> (r: (u16, PortState))
        requires
            self.wf(),
            i < self.port_order().len(),
        ensures
            r.0 == self.port_order()[i as int],
            self@.contains_key(r.0),
            r.1 == self@[r.0],
    {
        let p = self.ports[i];
        assert(self.ports@.to_set().contains(p));
        let s = self.states.get(&p);
        (p, *s.unwrap())
    }
}

/// The number of ports in each state, as `(open, closed, timeout)`.
pub fn port_statistics_from(port_states: &HostResult) -> (r: (u32, u32, u32))
    requires
        port_states.wf(),
    ensures
        r.0 == count_state(port_states@, PortState::Open),
        r.1 == count_state(port_states@, PortState::Closed),
        r.2 == count_state(port_states@, PortState::Timeout),
{
    (port_states.open, port_states.closed, port_states.timeout)
}

impl PortState {
    /// Classifies one connection attempt: whether it ended before the timeout,
    /// and if so whether the connection was established.
    pub fn from_attempt(ended_in_time: bool, connected: bool) -> (r: PortState)
        ensures
            !ended_in_time ==> r == PortState::Timeout,
            ended_in_time && connected ==> r == PortState::Open,
            ended_in_time && !connected ==> r == PortState::Closed,
    {
        if !ended_in_time {
            PortState::Timeout
        } else if connected {
            PortState::Open
        } else {
            PortState::Closed
        }
    }
}

/// The three counts of a host's results add up to the number of distinct
/// ports recorded for it.
pub proof fn lemma_statistics_cover_all_ports(r: &HostResult)
    requires
        r.wf(),
    ensures
        count_state(r@, PortState::Open) + count_state(r@, PortState::Closed) + count_state(
            r@,
            PortState::Timeout,
        ) == r@.dom().len(),
{
    r.lemma_counts_bounded();
}

/// A host's recorded states after one more probe of `port` ended in `state`.
pub open spec fn with_outcome(
    m: Map<u32, Map<u16, PortState>>,
    host: u32,
    port: u16,
    state: PortState,
) -> Map<u32, Map<u16, PortState>> {
    let prior = if m.contains_key(host) {
        m[host]
    } else {
        Map::empty()
    };
    m.insert(host, prior.insert(port, state))
}

/// The results of a whole scan: for each host with at least one outcome, its
/// per-port states, and the hosts in the order of their first outcome.
pub struct ScanSummary {
    hosts: Vec<u32>,
    results: HashMap<u32, HostResult>,
}

impl View for ScanSummary {
    type V = Map<u32, Map<u16, PortState>>;

    closed spec fn view(&self) -> Map<u32, Map<u16, PortState>> {
        self.results@.map_values(|r: HostResult| r@)
    }
}

impl ScanSummary {
    /// The hosts, in the order of their first outcome.
    pub closed spec fn host_order(&self) -> Seq<u32> {
        self.hosts@
    }

    pub closed spec fn wf(&self) -> bool {
        &&& self.hosts@.no_duplicates()
        &&& self.hosts@.to_set() == self.results@.dom()
        &&& forall|h: u32| #[trigger] self.results@.contains_key(h) ==> self.results@[h].wf()
    }

    /// A summary with no outcome yet.
    pub fn new() -> (r: ScanSummary)
        ensures
            r.wf(),
            r@ == Map::<u32, Map<u16, PortState>>::empty(),
            r.host_order() == Seq::<u32>::empty(),
    {
        let r = ScanSummary { hosts: Vec::new(), results: HashMap::new() };
        assert(r.hosts@.to_set() =~= Set::<u32>::empty());
        assert(r@ =~= Map::<u32, Map<u16, PortState>>::empty());
        r
    }

    /// Merges the outcome of one probe; a port probed twice on one host keeps
    /// the latest state.
    pub fn record(&mut self, host: Ipv4Address, port: u16, state: PortState)
        requires
            old(self).wf(),
        ensures
            final(self).wf(),
            final(self)@ == with_outcome(old(self)@, host.0, port, state),
            old(self)@.contains_key(host.0) ==> final(self).host_order() == old(self).host_order(),
            !old(self)@.contains_key(host.0) ==> final(self).host_order() == old(
                self,
            ).host_order().push(host.0),
    {
        let ghost before = self.results@;
        let h = host.0;
        match self.results.remove(&h) {
            Some(mut r) => {
                assert(before.contains_key(h) && before[h] == r);
                r.record(port, state);
                self.results.insert(h, r);
                assert(self.results@ =~= before.insert(h, r));
            },
            None => {
                let mut r = HostResult::new();
                r.record(port, state);
                proof {
                    assert(!self.hosts@.contains(h)) by {
                        assert(!before.dom().contains(h));
                    }
                    self.hosts@.lemma_push_to_set_commute(h);
                }
                self.hosts.push(h);
                self.results.insert(h, r);
                assert(r@ =~= Map::<u16, PortState>::empty().insert(port, state));
            },
        }
        assert(self.hosts@.to_set() =~= self.results@.dom());
        assert(self@ =~= with_outcome(old(self)@, host.0, port, state));
    }

    /// How many hosts have an outcome.
    pub fn len(&self) -> (r: usize)
        requires
            self.wf(),
        ensures
            r == self.host_order().len(),
            r == self@.dom().len(),
    {
        proof {
            self.hosts@.unique_seq_to_set();
            assert(self@.dom() =~= self.results@.dom());
        }
        self.hosts.len()
    }

    /// The `i`-th host in the order of first outcome, with its results.
    pub fn entry(&self, i: usize) -> (r: (Ipv4Address, &HostResult))
        requires
            self.wf(),
            i < self.host_order().len(),
        ensures
            r.0.0 == self.host_order()[i as int],
            self@.contains_key(r.0.0),
            r.1.wf(),
            r.1@ == self@[r.0.0],
    {
        let h = self.hosts[i];
        assert(self.hosts@.to_set().contains(h));
        let r = self.results.get(&h);
        (Ipv4Address(h), r.unwrap())
    }
}

} // verus!
