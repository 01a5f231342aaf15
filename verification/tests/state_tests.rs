use net_scanner::addr::Ipv4Net;
use net_scanner::netinfo::InterfaceInfo;
use net_scanner::scanner::{Host, SubnetScanResult};
use net_scanner::state::{self_ips, ManagerInner, ScanProgress, ScanRound, SubnetState};

fn hosts(used: &[bool]) -> Vec<Host> {
    used.iter()
        .enumerate()
        .map(|(i, u)| {
            let mut h = Host::unused(0x0a00_0001 + i as u32);
            h.used = *u;
            h
        })
        .collect()
}

#[test]
fn progress_counts() {
    let mut p = ScanProgress::new();
    assert_eq!(p.snapshot(), ("idle".to_string(), 0, 0, 0));
    p.reset(10);
    assert_eq!(p.snapshot(), ("starting".to_string(), 0, 10, 0));
    p.set_phase("arp");
    p.tick(false);
    p.tick(true);
    p.tick(true);
    assert_eq!(p.snapshot(), ("arp".to_string(), 3, 10, 2));
    p.reset(4);
    assert_eq!(p.snapshot(), ("starting".to_string(), 0, 4, 0));
}

#[test]
fn subnet_state_counts() {
    let net = Ipv4Net { addr: 0x0a00_0000, prefix: 29 };
    let r = SubnetScanResult { hosts: hosts(&[true, false, true, false, false, false]), method: "tcp".to_string(), error: None };
    let s = SubnetState::from_scan(&net, None, r);
    assert_eq!(s.cidr, "10.0.0.0/29");
    assert_eq!(s.interface, "unknown");
    assert_eq!((s.total, s.used, s.available), (6, 2, 4));
    let r = SubnetScanResult { hosts: Vec::new(), method: "arp".to_string(), error: Some("x".to_string()) };
    let s = SubnetState::from_scan(&net, Some("eth0".to_string()), r);
    assert_eq!(s.interface, "eth0");
    assert_eq!((s.total, s.used, s.available), (0, 0, 0));
}

#[test]
fn scan_round_keeps_first_method_and_error() {
    let net = Ipv4Net { addr: 0x0a00_0000, prefix: 30 };
    let mk = || SubnetState::from_scan(&net, None, SubnetScanResult { hosts: hosts(&[true]), method: String::new(), error: None });
    let mut round = ScanRound::new();
    round.add(mk(), String::new(), None);
    round.add(mk(), "arp".to_string(), Some("first".to_string()));
    round.add(mk(), "tcp".to_string(), Some("second".to_string()));
    assert_eq!(round.method, "arp");
    assert_eq!(round.error.as_deref(), Some("first"));
    assert_eq!(round.subnets.len(), 3);
}

#[test]
fn manager_scan_cycle_and_snapshot() {
    let mut m = ManagerInner::new();
    assert_eq!(m.status, "idle");
    assert!(m.begin_scan());
    assert!(!m.begin_scan());
    let mut p = ScanProgress::new();
    p.reset(10);
    p.tick(true);
    p.tick(false);
    let snap = m.snapshot(&p, vec![]);
    assert_eq!(snap.status, "scanning");
    assert_eq!((snap.scanned, snap.total_ips, snap.used_total, snap.available_total), (2, 10, 1, 9));
    let net = Ipv4Net { addr: 0x0a00_0000, prefix: 29 };
    let mut round = ScanRound::new();
    let st = SubnetState::from_scan(&net, None, SubnetScanResult { hosts: hosts(&[true, true, false]), method: "tcp".to_string(), error: None });
    round.add(st, "tcp".to_string(), None);
    let st = SubnetState::from_scan(&net, None, SubnetScanResult { hosts: hosts(&[false, true]), method: "tcp".to_string(), error: None });
    round.add(st, "tcp".to_string(), None);
    m.finish_scan(round, 1_700_000_000, 1234);
    let snap = m.snapshot(&p, vec!["10.0.0.5".to_string()]);
    assert_eq!(snap.status, "idle");
    assert_eq!((snap.scanned, snap.total_ips, snap.used_total, snap.available_total), (0, 5, 3, 2));
    assert_eq!(snap.last_scan_unix, Some(1_700_000_000));
    assert_eq!(snap.last_duration_ms, Some(1234));
    assert_eq!(snap.method, "tcp");
    assert_eq!(snap.self_ips, vec!["10.0.0.5".to_string()]);
    assert_eq!(snap.subnets.len(), 2);
    assert_eq!(snap.subnets[1].hosts.len(), 2);
    assert!(m.begin_scan());
    assert!(m.error.is_none());
}

#[test]
fn self_ips_per_subnet() {
    let ifs = vec![InterfaceInfo {
        name: "eth0".to_string(),
        is_loopback: false,
        is_up: true,
        mac: None,
        ipv4: vec![Ipv4Net { addr: 0xc0a8_0114, prefix: 24 }],
    }];
    let nets = vec![Ipv4Net { addr: 0xc0a8_0100, prefix: 24 }, Ipv4Net { addr: 0x0a00_0000, prefix: 8 }];
    assert_eq!(self_ips(&ifs, &nets), vec!["192.168.1.20".to_string()]);
}
