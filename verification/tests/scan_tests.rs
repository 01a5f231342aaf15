use net_scanner::addr::Ipv4Net;
use net_scanner::config::ScanMethod;
use net_scanner::netinfo::InterfaceInfo;
use net_scanner::scanner::arp::{arp_request, ArpCollector, ArpHit};
use net_scanner::scanner::os::TtlCollector;
use net_scanner::scanner::{read_again, tcp_port_step, ArpStep, ReadOutcome, SubnetScan, TcpOutcome};

fn ip(a: u8, b: u8, c: u8, d: u8) -> u32 {
    u32::from_be_bytes([a, b, c, d])
}

const MAC: [u8; 6] = [0x02, 0x11, 0x22, 0x33, 0x44, 0x55];

fn lan() -> Vec<InterfaceInfo> {
    vec![InterfaceInfo {
        name: "eth0".to_string(),
        is_loopback: false,
        is_up: true,
        mac: Some(MAC),
        ipv4: vec![Ipv4Net { addr: ip(192, 168, 1, 10), prefix: 24 }],
    }]
}

fn net24() -> Ipv4Net {
    Ipv4Net { addr: ip(192, 168, 1, 0), prefix: 24 }
}

#[test]
fn arp_request_frame_layout() {
    let f = arp_request(&MAC, ip(192, 168, 1, 10), ip(192, 168, 1, 1));
    let expected: Vec<u8> = [
        &[0xff; 6][..],
        &MAC[..],
        &[0x08, 0x06, 0x00, 0x01, 0x08, 0x00, 6, 4, 0x00, 0x01][..],
        &MAC[..],
        &[192, 168, 1, 10][..],
        &[0; 6][..],
        &[192, 168, 1, 1][..],
    ]
    .concat();
    assert_eq!(f, expected);
}

fn reply(sender_mac: [u8; 6], sender: u32, target: u32, op: u8) -> Vec<u8> {
    let mut f = vec![0u8; 42];
    f[12] = 0x08;
    f[13] = 0x06;
    f[21] = op;
    f[22..28].copy_from_slice(&sender_mac);
    f[28..32].copy_from_slice(&sender.to_be_bytes());
    f[38..42].copy_from_slice(&target.to_be_bytes());
    f
}

#[test]
fn arp_collector_keeps_first_reply_of_probed_hosts() {
    let me = ip(192, 168, 1, 10);
    let targets = vec![ip(192, 168, 1, 1), ip(192, 168, 1, 2)];
    let mut c = ArpCollector::new(me, targets);
    let m1 = [0xaa, 0xbb, 0xcc, 0, 0, 1];
    assert!(c.accept(&reply(m1, ip(192, 168, 1, 1), me, 2), 12));
    // duplicate reply
    assert!(!c.accept(&reply(m1, ip(192, 168, 1, 1), me, 2), 20));
    // not a probed address
    assert!(!c.accept(&reply(m1, ip(192, 168, 1, 9), me, 2), 20));
    // a request, not a reply
    assert!(!c.accept(&reply(m1, ip(192, 168, 1, 2), me, 1), 20));
    // addressed to another host
    assert!(!c.accept(&reply(m1, ip(192, 168, 1, 2), ip(192, 168, 1, 3), 2), 20));
    // zero hardware address
    assert!(!c.accept(&reply([0; 6], ip(192, 168, 1, 2), me, 2), 20));
    // too short
    assert!(!c.accept(&reply(m1, ip(192, 168, 1, 2), me, 2)[..41], 20));
    // not ARP
    let mut ipv4 = reply(m1, ip(192, 168, 1, 2), me, 2);
    ipv4[13] = 0x00;
    assert!(!c.accept(&ipv4, 20));
    assert_eq!(c.found.len(), 1);
    assert_eq!(c.found[0].ip, ip(192, 168, 1, 1));
    assert_eq!(c.found[0].mac, m1);
    assert_eq!(c.found[0].rtt_ms, 12);
}

#[test]
fn scan_with_arp() {
    let ifs = lan();
    let mut s = SubnetScan::new(&net24(), ScanMethod::Auto, true, &ifs);
    assert_eq!(s.targets().len(), 254);
    assert_eq!(s.source_ip, Some(ip(192, 168, 1, 10)));
    assert!(matches!(s.arp_step(), ArpStep::Run));
    let hits = vec![
        ArpHit { ip: ip(192, 168, 1, 1), mac: [0xaa, 0xbb, 0xcc, 0xdd, 0xee, 0x01], rtt_ms: 3 },
        ArpHit { ip: ip(10, 0, 0, 1), mac: [1; 6], rtt_ms: 3 },
    ];
    s.apply_arp(&hits, &vec![Some("Acme".to_string()), None]);
    assert!(s.arp_ok);
    s.mark_self(None);
    let used = s.used_ips();
    assert_eq!(used, vec![ip(192, 168, 1, 1), ip(192, 168, 1, 10)]);
    assert!(!s.probes_due());
    s.apply_hostnames(&vec![
        (ip(192, 168, 1, 1), "router".to_string()),
        (ip(192, 168, 1, 10), String::new()),
        (ip(192, 168, 1, 2), "stale".to_string()),
    ]);
    assert!(s.os_detection_due());
    let mut ttl = TtlCollector::new(100, used.clone());
    let mut echo = vec![0u8; 8];
    echo[5] = 100;
    ttl.accept(4, ip(192, 168, 1, 1), 255, &echo);
    let ports = vec![(ip(192, 168, 1, 1), vec![53, 80]), (ip(192, 168, 1, 10), vec![22])];
    assert!(s.check_os_scores(&ttl, &ports));
    // Too many Windows ports for an i32 score on a used host.
    assert!(!s.check_os_scores(&ttl, &vec![(ip(192, 168, 1, 10), vec![445u16; 53_687_092])]));
    // An unused host's ports are never scored.
    assert!(s.check_os_scores(&ttl, &vec![(ip(192, 168, 1, 2), vec![445u16; 53_687_092])]));
    s.apply_os(&ttl, &ports);
    let r = s.finish();
    assert_eq!(r.method, "arp");
    assert!(r.error.is_none());
    assert_eq!(r.hosts.len(), 254);
    let gw = &r.hosts[0];
    assert_eq!(gw.ip, ip(192, 168, 1, 1));
    assert!(gw.used);
    assert_eq!(gw.mac.as_deref(), Some("aa:bb:cc:dd:ee:01"));
    assert_eq!(gw.vendor.as_deref(), Some("Acme"));
    assert_eq!(gw.rtt_ms, Some(3));
    assert_eq!(gw.hostname.as_deref(), Some("router"));
    assert_eq!(gw.os.as_deref(), Some("Network device"));
    let me = &r.hosts[9];
    assert_eq!(me.ip, ip(192, 168, 1, 10));
    assert!(me.used);
    assert_eq!(me.mac.as_deref(), Some("02:11:22:33:44:55"));
    assert_eq!(me.rtt_ms, Some(0));
    assert_eq!(me.hostname, None);
    assert_eq!(me.os.as_deref(), Some("Linux/Unix"));
    assert!(r.hosts.iter().filter(|h| h.used).count() == 2);
    // An unused host gets no name, even when one was resolved for it.
    assert_eq!(r.hosts[1].ip, ip(192, 168, 1, 2));
    assert_eq!(r.hosts[1].hostname, None);
    assert!(r.hosts.windows(2).all(|w| w[0].ip < w[1].ip));
}

#[test]
fn scan_with_probes() {
    let ifs = lan();
    let mut s = SubnetScan::new(&net24(), ScanMethod::Tcp, false, &ifs);
    assert!(matches!(s.arp_step(), ArpStep::Skip));
    assert!(s.probes_due());
    let pings = vec![(ip(192, 168, 1, 5), 7u64), (ip(192, 168, 1, 6), 8u64), (ip(192, 168, 1, 5), 9u64)];
    let tcp = vec![
        TcpOutcome { ip: ip(192, 168, 1, 4), open: vec![22], elapsed_ms: 30 },
        TcpOutcome { ip: ip(192, 168, 1, 5), open: vec![], elapsed_ms: 40 },
        TcpOutcome { ip: ip(192, 168, 1, 7), open: vec![], elapsed_ms: 50 },
    ];
    s.apply_probes(&pings, &tcp);
    s.mark_self(Some("Maker".to_string()));
    assert!(!s.os_detection_due());
    let r = s.finish();
    assert_eq!(r.method, "tcp");
    let h = |n: u8| &r.hosts[(n - 1) as usize];
    assert!(h(4).used && h(4).rtt_ms == Some(30));
    // pingable and probed: the TCP time
    assert!(h(5).used && h(5).rtt_ms == Some(40));
    // pingable, not in the TCP results: the ping's time
    assert!(h(6).used && h(6).rtt_ms == Some(8));
    assert!(!h(7).used && h(7).rtt_ms.is_none());
    assert!(h(10).used && h(10).rtt_ms == Some(0));
    assert_eq!(h(10).vendor.as_deref(), Some("Maker"));
    assert_eq!(r.hosts.iter().filter(|h| h.used).count(), 4);
}

#[test]
fn arp_failure_falls_back_or_fails() {
    let ifs = lan();
    let mut s = SubnetScan::new(&net24(), ScanMethod::Auto, false, &ifs);
    assert!(s.arp_failure("no permission".to_string()).is_none());
    s.apply_probes(&vec![], &vec![]);
    assert_eq!(s.method_used, "tcp");
    let s = SubnetScan::new(&net24(), ScanMethod::Arp, false, &ifs);
    let r = s.arp_failure("no permission".to_string()).unwrap();
    assert!(r.hosts.is_empty());
    assert_eq!(r.method, "arp");
    assert_eq!(r.error.as_deref(), Some("no permission"));
}

#[test]
fn arp_without_interface() {
    let ifs: Vec<InterfaceInfo> = Vec::new();
    let s = SubnetScan::new(&net24(), ScanMethod::Arp, false, &ifs);
    match s.arp_step() {
        ArpStep::Fail(r) => {
            assert_eq!(r.method, "arp");
            assert_eq!(r.error.as_deref(), Some("no interface found for subnet"));
        }
        _ => panic!("expected a failure"),
    }
    let s = SubnetScan::new(&net24(), ScanMethod::Auto, false, &ifs);
    assert!(matches!(s.arp_step(), ArpStep::Skip));
    let mut no_addr = lan();
    no_addr.push(InterfaceInfo {
        name: "eth1".to_string(),
        is_loopback: false,
        is_up: true,
        mac: None,
        ipv4: vec![],
    });
    no_addr[0].ipv4 = vec![Ipv4Net { addr: ip(10, 0, 0, 1), prefix: 8 }];
    let s = SubnetScan::new(&Ipv4Net { addr: ip(10, 0, 0, 0), prefix: 8 }, ScanMethod::Arp, false, &no_addr);
    assert!(matches!(s.arp_step(), ArpStep::Run));
}

#[test]
fn tcp_probe_stops_at_first_open_port_unless_collecting_all() {
    let mut open = Vec::new();
    assert!(tcp_port_step(false, &mut open, 22, false));
    assert!(open.is_empty());
    assert!(!tcp_port_step(false, &mut open, 80, true));
    assert_eq!(open, vec![80]);

    let mut all = Vec::new();
    assert!(tcp_port_step(true, &mut all, 22, true));
    assert!(tcp_port_step(true, &mut all, 53, false));
    assert!(tcp_port_step(true, &mut all, 445, true));
    assert_eq!(all, vec![22, 445]);
}

#[test]
fn receive_loops_stop_at_deadline_or_failure() {
    assert!(read_again(ReadOutcome::Packet, true));
    assert!(read_again(ReadOutcome::WouldBlock, true));
    assert!(!read_again(ReadOutcome::Failed, true));
    assert!(!read_again(ReadOutcome::Packet, false));
    assert!(!read_again(ReadOutcome::WouldBlock, false));
}
