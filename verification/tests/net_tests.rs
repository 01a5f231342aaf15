use net_scanner::addr::Ipv4Net;
use net_scanner::netinfo::{
    default_interface_name, detect_default_subnets, interface_for_ip, interface_name_for_subnet,
    is_private, source_ip, InterfaceInfo,
};
use net_scanner::text::{ip_text, mac_string, net_text};

fn ip(a: u8, b: u8, c: u8, d: u8) -> u32 {
    u32::from_be_bytes([a, b, c, d])
}

fn iface(name: &str, up: bool, lo: bool, nets: &[(u32, u8)]) -> InterfaceInfo {
    InterfaceInfo {
        name: name.to_string(),
        is_loopback: lo,
        is_up: up,
        mac: Some([0x02, 0, 0, 0, 0, 1]),
        ipv4: nets.iter().map(|(a, p)| Ipv4Net { addr: *a, prefix: *p }).collect(),
    }
}

#[test]
fn new_refuses_long_prefix() {
    assert_eq!(Ipv4Net::new(1, 33), None);
    assert_eq!(Ipv4Net::new(1, 32), Some(Ipv4Net { addr: 1, prefix: 32 }));
}

#[test]
fn network_and_size() {
    let n = Ipv4Net { addr: ip(10, 1, 9, 32), prefix: 16 };
    assert_eq!(n.size_exec(), 65536);
    assert_eq!(n.network_exec(), ip(10, 1, 0, 0));
    assert!(n.contains(ip(10, 1, 255, 255)));
    assert!(!n.contains(ip(10, 2, 0, 0)));
    let all = Ipv4Net { addr: ip(1, 2, 3, 4), prefix: 0 };
    assert_eq!(all.size_exec(), 1u64 << 32);
    assert_eq!(all.network_exec(), 0);
    assert!(all.contains(ip(255, 255, 255, 255)));
}

#[test]
fn scan_targets_skip_network_and_broadcast() {
    let n = Ipv4Net { addr: ip(192, 168, 1, 77), prefix: 24 };
    let t = n.scan_targets();
    assert_eq!(t.len(), 254);
    assert_eq!(t[0], ip(192, 168, 1, 1));
    assert_eq!(t[253], ip(192, 168, 1, 254));
    assert!(t.windows(2).all(|w| w[0] < w[1]));
    assert!(t.iter().all(|a| n.contains(*a)));
}

#[test]
fn scan_targets_of_tiny_networks() {
    let n = Ipv4Net { addr: ip(10, 0, 0, 5), prefix: 31 };
    assert_eq!(n.scan_targets(), vec![ip(10, 0, 0, 4), ip(10, 0, 0, 5)]);
    let n = Ipv4Net { addr: ip(10, 0, 0, 5), prefix: 32 };
    assert_eq!(n.scan_targets(), vec![ip(10, 0, 0, 5)]);
    let n = Ipv4Net { addr: ip(10, 0, 0, 5), prefix: 30 };
    assert_eq!(n.scan_targets(), vec![ip(10, 0, 0, 5), ip(10, 0, 0, 6)]);
    let n = Ipv4Net { addr: ip(255, 255, 255, 255), prefix: 30 };
    assert_eq!(n.scan_targets(), vec![ip(255, 255, 255, 253), ip(255, 255, 255, 254)]);
}

#[test]
fn text_renderings() {
    assert_eq!(ip_text(ip(192, 168, 0, 10)), "192.168.0.10");
    assert_eq!(ip_text(0), "0.0.0.0");
    assert_eq!(ip_text(u32::MAX), "255.255.255.255");
    assert_eq!(net_text(&Ipv4Net { addr: ip(10, 1, 9, 32), prefix: 16 }), "10.1.9.32/16");
    assert_eq!(mac_string(&[0x00, 0x1a, 0x2b, 0xff, 0x0c, 0xd0]), "00:1a:2b:ff:0c:d0");
    for text in ["172.16.5.4/12", "0.0.0.0/0", "255.255.255.255/32", "10.0.0.7"] {
        let n: ipnetwork::Ipv4Network = text.parse().unwrap();
        let ours = Ipv4Net { addr: u32::from(n.ip()), prefix: n.prefix() };
        assert_eq!(net_text(&ours), n.to_string());
    }
    let m = pnet::util::MacAddr::new(0xde, 0xad, 0xbe, 0xef, 0x00, 0x01);
    assert_eq!(mac_string(&[0xde, 0xad, 0xbe, 0xef, 0x00, 0x01]), m.to_string());
}

#[test]
fn private_addresses() {
    assert!(is_private(ip(10, 255, 0, 1)));
    assert!(is_private(ip(172, 16, 0, 1)));
    assert!(is_private(ip(172, 31, 255, 255)));
    assert!(!is_private(ip(172, 32, 0, 1)));
    assert!(!is_private(ip(172, 15, 0, 1)));
    assert!(is_private(ip(192, 168, 3, 3)));
    assert!(!is_private(ip(192, 169, 0, 1)));
    assert!(!is_private(ip(8, 8, 8, 8)));
    for text in ["10.0.0.0", "172.20.1.1", "100.64.0.1", "192.168.255.255", "11.0.0.1", "172.32.0.0"] {
        let n: ipnetwork::Ipv4Network = text.parse().unwrap();
        assert_eq!(is_private(u32::from(n.ip())), n.ip().is_private());
    }
}

#[test]
fn interface_lookup() {
    let ifs = vec![
        iface("lo", true, true, &[(ip(127, 0, 0, 1), 8)]),
        iface("eth0", true, false, &[(ip(192, 168, 1, 20), 24)]),
        iface("wlan0", true, false, &[]),
    ];
    assert_eq!(interface_for_ip(&ifs, ip(192, 168, 1, 200)), Some(1));
    assert_eq!(interface_for_ip(&ifs, ip(10, 0, 0, 1)), None);
    assert_eq!(source_ip(&ifs[1]), Some(ip(192, 168, 1, 20)));
    assert_eq!(source_ip(&ifs[2]), None);
    let net = Ipv4Net { addr: ip(192, 168, 1, 0), prefix: 24 };
    assert_eq!(interface_name_for_subnet(&ifs, &net), Some("eth0".to_string()));
    let other = Ipv4Net { addr: ip(10, 9, 0, 0), prefix: 16 };
    assert_eq!(interface_name_for_subnet(&ifs, &other), None);
}

#[test]
fn default_subnets_prefer_default_route_and_dedup() {
    let ifs = vec![
        iface("lo", true, true, &[(ip(127, 0, 0, 1), 8)]),
        iface("docker0", true, false, &[(ip(172, 17, 0, 1), 16)]),
        iface("eth0", true, false, &[(ip(192, 168, 1, 20), 24), (ip(192, 168, 1, 21), 24), (ip(8, 8, 8, 8), 24)]),
        iface("down0", false, false, &[(ip(10, 0, 0, 1), 24)]),
        iface("wide", true, false, &[(ip(10, 1, 0, 1), 0), (ip(10, 2, 0, 1), 31), (ip(10, 3, 0, 1), 30)]),
    ];
    let r = detect_default_subnets(&ifs, &Some("eth0".to_string()));
    assert_eq!(
        r,
        vec![
            Ipv4Net { addr: ip(192, 168, 1, 20), prefix: 24 },
            Ipv4Net { addr: ip(172, 17, 0, 1), prefix: 16 },
            Ipv4Net { addr: ip(10, 3, 0, 1), prefix: 30 },
        ]
    );
    let r = detect_default_subnets(&ifs, &None);
    assert_eq!(
        r,
        vec![
            Ipv4Net { addr: ip(172, 17, 0, 1), prefix: 16 },
            Ipv4Net { addr: ip(192, 168, 1, 20), prefix: 24 },
            Ipv4Net { addr: ip(10, 3, 0, 1), prefix: 30 },
        ]
    );
}

#[test]
fn route_table_default_interface() {
    let table = "Iface\tDestination\tGateway \tFlags\tRefCnt\tUse\tMetric\tMask\t\tMTU\tWindow\tIRTT\n\
                 docker0\t000011AC\t00000000\t0001\t0\t0\t0\t0000FFFF\t0\t0\t0\n\
                 eth0\t00000000\t0101A8C0\t0003\t0\t0\t100\t00000000\t0\t0\t0\n\
                 eth0\t0001A8C0\t00000000\t0001\t0\t0\t100\t00FFFFFF\t0\t0\t0\n";
    assert_eq!(default_interface_name(table), Some("eth0".to_string()));
}

#[test]
fn route_table_without_default() {
    let table = "Iface\tDestination\n  eth0   0001A8C0  x\r\n";
    assert_eq!(default_interface_name(table), None);
    assert_eq!(default_interface_name(""), None);
    // the header line is never a route
    assert_eq!(default_interface_name("eth0 00000000\n"), None);
}

#[test]
fn route_table_stops_at_a_bad_line() {
    // a line without a destination ends the search
    assert_eq!(default_interface_name("h\nwlan0\neth0 0\n"), None);
    // a destination that is not hex ends it too
    assert_eq!(default_interface_name("h\nwlan0 zz\neth0 0\n"), None);
    // an empty line ends it
    assert_eq!(default_interface_name("h\n\neth0 0\n"), None);
    // "+0" is zero; CRLF line endings are fine
    assert_eq!(default_interface_name("h\r\nppp0 +0\r\n"), Some("ppp0".to_string()));
    // "-0" is not a u32
    assert_eq!(default_interface_name("h\nppp0 -0\n"), None);
    // overflow
    assert_eq!(default_interface_name("h\nppp0 100000000\n"), None);
    // leading zeros and upper case digits
    assert_eq!(default_interface_name("h\na 0000000A\nb 0000\n"), Some("b".to_string()));
}
