use portscan::engine::{plan_scan, ScanEngine, ScanTarget};
use portscan::hosts::{expand_hosts, Ipv4Address};
use portscan::results::{port_statistics_from, HostResult, PortState};
use portscan::NetworkParseError;

fn drain(engine: &mut ScanEngine, outcome: impl Fn(&ScanTarget) -> PortState) -> Vec<ScanTarget> {
    let mut seen = Vec::new();
    let mut in_flight: Vec<ScanTarget> = Vec::new();
    let limit = 3;
    loop {
        while let Some(t) = engine.next_target() {
            in_flight.push(t);
            seen.push(t);
            assert!(engine.in_flight() <= limit);
        }
        if in_flight.is_empty() {
            break;
        }
        let t = in_flight.remove(0);
        engine.complete(t, outcome(&t));
    }
    seen
}

#[test]
fn engine_dispatches_every_pair_once_within_limit() {
    let hosts = expand_hosts("10.0.0.0/30").unwrap();
    let mut engine = ScanEngine::new(hosts, vec![22, 80, 443], 3);
    let seen = drain(&mut engine, |t| {
        if t.port == 80 {
            PortState::Open
        } else {
            PortState::Closed
        }
    });
    assert_eq!(seen.len(), 12);
    assert_eq!(engine.completed(), 12);
    assert!(engine.is_finished());
    assert_eq!(seen[0], ScanTarget { host: Ipv4Address::new(10, 0, 0, 0), port: 22 });
    assert_eq!(seen[4], ScanTarget { host: Ipv4Address::new(10, 0, 0, 1), port: 80 });
    let summary = engine.into_summary();
    assert_eq!(summary.len(), 4);
    for i in 0..summary.len() {
        let (_, result) = summary.entry(i);
        assert_eq!(port_statistics_from(result), (1, 2, 0));
    }
}

#[test]
fn engine_stops_at_the_limit() {
    let hosts = expand_hosts("10.0.0.1").unwrap();
    let mut engine = ScanEngine::new(hosts, vec![1, 2, 3, 4, 5], 2);
    let a = engine.next_target().unwrap();
    let _b = engine.next_target().unwrap();
    assert_eq!(engine.next_target(), None);
    assert_eq!(engine.in_flight(), 2);
    engine.complete(a, PortState::Timeout);
    assert_eq!(engine.next_target().map(|t| t.port), Some(3));
    assert!(!engine.is_finished());
}

#[test]
fn engine_with_no_ports_is_finished_at_once() {
    let hosts = expand_hosts("10.0.0.0/24").unwrap();
    let mut engine = ScanEngine::new(hosts, Vec::new(), 4);
    assert_eq!(engine.next_target(), None);
    assert!(engine.is_finished());
    assert_eq!(engine.into_summary().len(), 0);
}

#[test]
fn duplicate_ports_keep_the_last_outcome() {
    let hosts = expand_hosts("10.0.0.1").unwrap();
    let mut engine = ScanEngine::new(hosts, vec![80, 80], 5);
    let a = engine.next_target().unwrap();
    let b = engine.next_target().unwrap();
    engine.complete(a, PortState::Timeout);
    engine.complete(b, PortState::Open);
    assert_eq!(engine.completed(), 2);
    let summary = engine.into_summary();
    assert_eq!(summary.len(), 1);
    let (host, result) = summary.entry(0);
    assert_eq!(host, Ipv4Address::new(10, 0, 0, 1));
    assert_eq!(result.len(), 1);
    assert_eq!(result.entry(0), (80, PortState::Open));
    assert_eq!(port_statistics_from(result), (1, 0, 0));
}

#[test]
fn plan_scan_checks_hosts_then_ports() {
    assert_eq!(plan_scan("", "80", 1).err(), Some(NetworkParseError::MissingAddress));
    assert_eq!(plan_scan("bad", "x", 1).err(), Some(NetworkParseError::BadIpAddress));
    assert_eq!(plan_scan("1.2.3.4", "5..9", 1).err(), Some(NetworkParseError::InvalidPortNumber));
    let mut engine = plan_scan("1.2.3.4/31", "7,8", 10).unwrap();
    let mut order = Vec::new();
    while let Some(t) = engine.next_target() {
        order.push((t.host.octets(), t.port));
    }
    assert_eq!(
        order,
        [((1, 2, 3, 4), 7), ((1, 2, 3, 4), 8), ((1, 2, 3, 5), 7), ((1, 2, 3, 5), 8)]
    );
}

#[test]
fn same_specification_gives_same_plan() {
    let mut first = Vec::new();
    let mut second = Vec::new();
    let mut e1 = plan_scan("192.168.0.0/29", "20-22,80", 100).unwrap();
    let mut e2 = plan_scan("192.168.0.0/29", "20-22,80", 100).unwrap();
    while let Some(t) = e1.next_target() {
        first.push(t);
    }
    while let Some(t) = e2.next_target() {
        second.push(t);
    }
    assert_eq!(first.len(), 32);
    assert_eq!(first, second);
}

#[test]
fn statistics_count_each_state() {
    let mut r = HostResult::new();
    assert_eq!(port_statistics_from(&r), (0, 0, 0));
    r.record(22, PortState::Open);
    r.record(23, PortState::Closed);
    r.record(24, PortState::Timeout);
    r.record(25, PortState::Timeout);
    assert_eq!(port_statistics_from(&r), (1, 1, 2));
    r.record(24, PortState::Open);
    assert_eq!(port_statistics_from(&r), (2, 1, 1));
    assert_eq!(r.len(), 4);
    assert_eq!(r.entry(2), (24, PortState::Open));
}

#[test]
fn attempt_classification() {
    assert_eq!(PortState::from_attempt(true, true), PortState::Open);
    assert_eq!(PortState::from_attempt(true, false), PortState::Closed);
    assert_eq!(PortState::from_attempt(false, false), PortState::Timeout);
    assert_eq!(PortState::from_attempt(false, true), PortState::Timeout);
}
