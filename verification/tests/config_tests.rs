use net_scanner::addr::Ipv4Net;
use net_scanner::config::{subnet_or_error, to_ascii_lowercase, Cli, Config, ScanMethod};

fn empty_cli() -> Cli {
    Cli {
        config: None,
        bind: None,
        interval: None,
        subnets: Vec::new(),
        method: None,
        timeout_ms: None,
        concurrency: None,
        detect_os: None,
    }
}

#[test]
fn parse_methods_ignoring_case() {
    assert_eq!(ScanMethod::parse("auto"), Ok(ScanMethod::Auto));
    assert_eq!(ScanMethod::parse("ARP"), Ok(ScanMethod::Arp));
    assert_eq!(ScanMethod::parse("Tcp"), Ok(ScanMethod::Tcp));
}

#[test]
fn parse_unknown_method() {
    assert_eq!(
        ScanMethod::parse("Ping"),
        Err("unknown scan method 'ping' (use auto, arp or tcp)".to_string())
    );
    assert_eq!(
        ScanMethod::parse(""),
        Err("unknown scan method '' (use auto, arp or tcp)".to_string())
    );
    // only ASCII letters are lowered
    assert_eq!(
        ScanMethod::parse("ÄRP"),
        Err("unknown scan method 'Ärp' (use auto, arp or tcp)".to_string())
    );
}

#[test]
fn lowercase_is_ascii_only() {
    assert_eq!(to_ascii_lowercase("AbC-Ü9z"), "abc-Ü9z");
}

#[test]
fn default_config() {
    let c = Config::default();
    assert_eq!(c.bind, "127.0.0.1:8080");
    assert_eq!(c.scan_interval_secs, 10);
    assert!(c.subnets.is_empty());
    assert_eq!(c.method, ScanMethod::Auto);
    assert_eq!(c.timeout_ms, 100);
    assert_eq!(c.concurrency, 256);
    assert_eq!(
        c.ports,
        vec![22, 53, 80, 111, 123, 135, 139, 443, 445, 631, 993, 3389, 5900, 8080, 8443, 9100]
    );
    assert!(c.detect_os);
    assert_eq!(ScanMethod::default(), ScanMethod::Auto);
}

#[test]
fn cli_overrides_and_clamps() {
    let mut cli = empty_cli();
    cli.bind = Some("0.0.0.0:9000".to_string());
    cli.interval = Some(0);
    cli.subnets = vec!["10.0.0.0/24".to_string()];
    cli.method = Some("TCP".to_string());
    cli.timeout_ms = Some(10);
    cli.concurrency = Some(0);
    cli.detect_os = Some(false);
    let mut base = Config::default();
    base.ports = Vec::new();
    base.subnets = vec!["192.168.1.0/24".to_string()];
    let c = Config::load(base, cli).unwrap();
    assert_eq!(c.bind, "0.0.0.0:9000");
    assert_eq!(c.scan_interval_secs, 1);
    assert_eq!(c.subnets, vec!["10.0.0.0/24".to_string()]);
    assert_eq!(c.method, ScanMethod::Tcp);
    assert_eq!(c.timeout_ms, 50);
    assert_eq!(c.concurrency, 1);
    assert_eq!(c.ports, Config::default().ports);
    assert!(!c.detect_os);
}

#[test]
fn cli_absent_keeps_file_values() {
    let mut base = Config::default();
    base.scan_interval_secs = 60;
    base.timeout_ms = 500;
    base.ports = vec![22];
    base.subnets = vec!["192.168.1.0/24".to_string()];
    let c = Config::load(base, empty_cli()).unwrap();
    assert_eq!(c.scan_interval_secs, 60);
    assert_eq!(c.timeout_ms, 500);
    assert_eq!(c.ports, vec![22]);
    assert_eq!(c.subnets, vec!["192.168.1.0/24".to_string()]);
}

#[test]
fn cli_bad_method_is_an_error() {
    let mut cli = empty_cli();
    cli.method = Some("icmp".to_string());
    let r = Config::load(Config::default(), cli);
    assert_eq!(r.err(), Some("unknown scan method 'icmp' (use auto, arp or tcp)".to_string()));
}

#[test]
fn configured_subnets_are_parsed() {
    let mut c = Config::default();
    c.subnets = vec!["192.168.100.0/24".to_string(), "10.1.9.32/16".to_string(), "10.0.0.1".to_string()];
    let nets = c.resolve_subnets(Vec::new()).unwrap();
    assert_eq!(
        nets,
        vec![
            Ipv4Net { addr: 0xc0a8_6400, prefix: 24 },
            Ipv4Net { addr: 0x0a01_0920, prefix: 16 },
            Ipv4Net { addr: 0x0a00_0001, prefix: 32 },
        ]
    );
}

#[test]
fn configured_subnets_ignore_detected() {
    let mut c = Config::default();
    c.subnets = vec!["10.0.0.0/8".to_string()];
    let nets = c.resolve_subnets(vec![Ipv4Net { addr: 0xc0a8_0100, prefix: 24 }]).unwrap();
    assert_eq!(nets, vec![Ipv4Net { addr: 0x0a00_0000, prefix: 8 }]);
}

#[test]
fn invalid_subnet_error() {
    let mut c = Config::default();
    c.subnets = vec!["10.0.0.0/24".to_string(), "10.0.0.0/33".to_string(), "bogus".to_string()];
    let e = c.resolve_subnets(Vec::new()).unwrap_err();
    assert_eq!(e, "invalid subnet '10.0.0.0/33': invalid prefix");
    c.subnets = vec!["10.a.b/8".to_string()];
    let e = c.resolve_subnets(Vec::new()).unwrap_err();
    assert_eq!(e, "invalid subnet '10.a.b/8': invalid address: 10.a.b");
}

#[test]
fn detected_subnets_when_none_configured() {
    let c = Config::default();
    let d = vec![Ipv4Net { addr: 0xc0a8_0105, prefix: 24 }];
    assert_eq!(c.resolve_subnets(d.clone()).unwrap(), d);
}

#[test]
fn no_subnet_is_an_error() {
    let c = Config::default();
    assert_eq!(
        c.resolve_subnets(Vec::new()).unwrap_err(),
        "no subnet to scan. Use --subnet <CIDR> or add `subnets = [...]` to config.toml"
    );
}

#[test]
fn subnet_or_error_formats_the_message() {
    let n = Ipv4Net { addr: 1, prefix: 32 };
    assert_eq!(subnet_or_error("x", Ok(n)), Ok(n));
    assert_eq!(
        subnet_or_error("1.2.3.4/40", Err("invalid prefix".to_string())),
        Err("invalid subnet '1.2.3.4/40': invalid prefix".to_string())
    );
}
