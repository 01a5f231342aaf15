use net_scanner::scanner::os::{detect, echo_request, scores_fit_check, TtlCollector};

#[test]
fn ttl_and_ssh_is_linux() {
    assert_eq!(detect(Some(64), &[22]).as_deref(), Some("Linux/Unix"));
}

#[test]
fn ttl_alone_is_windows() {
    assert_eq!(detect(Some(128), &[]).as_deref(), Some("Windows"));
}

#[test]
fn windows_ports_beat_linux_ttl() {
    assert_eq!(detect(Some(64), &[135, 139, 445, 3389]).as_deref(), Some("Windows"));
}

#[test]
fn apple_ports_beat_linux_ttl() {
    assert_eq!(detect(Some(64), &[62078]).as_deref(), Some("Apple (macOS/iOS)"));
}

#[test]
fn printer_port_wins() {
    assert_eq!(detect(Some(64), &[9100, 515, 631]).as_deref(), Some("Printer"));
}

#[test]
fn router_ttl_and_web_ports() {
    assert_eq!(detect(Some(255), &[53, 80, 443]).as_deref(), Some("Network device"));
}

#[test]
fn ports_without_ttl() {
    assert_eq!(detect(None, &[445, 3389]).as_deref(), Some("Windows"));
}

#[test]
fn no_signal_is_none() {
    assert_eq!(detect(None, &[]), None);
    assert_eq!(detect(Some(64), &[]).as_deref(), Some("Linux/Unix"));
}

#[test]
fn unknown_ports_alone_give_no_guess() {
    assert_eq!(detect(None, &[1, 2, 3, 65535]), None);
}

#[test]
fn port_order_does_not_matter() {
    assert_eq!(detect(Some(64), &[9100, 515, 631]), detect(Some(64), &[631, 9100, 515]));
    assert_eq!(detect(None, &[22, 445]), detect(None, &[445, 22]));
}

#[test]
fn tie_goes_to_more_specific_family() {
    // Apple 40 against Windows 40: Apple ranks higher.
    assert_eq!(detect(None, &[445, 62078]).as_deref(), Some("Apple (macOS/iOS)"));
    // Windows TTL (20) against Linux ports 22 and 53 (15 + 4 = 19).
    assert_eq!(detect(Some(100), &[22, 53]).as_deref(), Some("Windows"));
    // Linux 20 + 4 against network device 12 + 8.
    assert_eq!(detect(Some(64), &[23, 53]).as_deref(), Some("Linux/Unix"));
    // Linux 20 against network device 15 + 6 = 21.
    assert_eq!(detect(Some(200), &[22, 80]).as_deref(), Some("Network device"));
    // Without a TTL: Linux 10 + 4 against Printer 12.
    assert_eq!(detect(None, &[515, 123]).as_deref(), Some("Linux/Unix"));
}

#[test]
fn ttl_boundaries() {
    assert_eq!(detect(Some(0), &[]).as_deref(), Some("Linux/Unix"));
    assert_eq!(detect(Some(65), &[]).as_deref(), Some("Windows"));
    assert_eq!(detect(Some(129), &[]).as_deref(), Some("Network device"));
}

fn internet_checksum(data: &[u8]) -> u16 {
    let mut sum: u32 = 0;
    let mut i = 0;
    while i + 1 < data.len() {
        if i != 2 {
            sum += u16::from_be_bytes([data[i], data[i + 1]]) as u32;
        }
        i += 2;
    }
    if data.len() % 2 == 1 {
        sum += (data[data.len() - 1] as u32) << 8;
    }
    while sum >> 16 != 0 {
        sum = (sum >> 16) + (sum & 0xffff);
    }
    !(sum as u16)
}

#[test]
fn echo_request_layout_and_checksum() {
    let p = echo_request(0x1234, 7);
    assert_eq!(p.len(), 40);
    assert_eq!(&p[0..2], &[8, 0]);
    assert_eq!(&p[4..8], &[0x12, 0x34, 0x00, 0x07]);
    assert!(p[8..].iter().all(|b| *b == 0));
    let c = internet_checksum(&p);
    assert_eq!(u16::from_be_bytes([p[2], p[3]]), c);
    // 0x0800 + 0x1234 + 0x0007 = 0x1a3b, complemented.
    assert_eq!(c, !0x1a3bu16);
}

#[test]
fn ttl_collector_matches_replies_by_identifier() {
    let targets = vec![0x0a00_0001, 0x0a00_0002, 0x0a00_0003];
    let mut c = TtlCollector::new(0xfffe, targets);
    let req = c.request(2);
    // identifier 0xfffe + 2 wraps to 0x0000
    assert_eq!(&req[4..8], &[0x00, 0x00, 0x00, 0x02]);
    let mut reply = vec![0u8; 8];
    reply[4] = req[4];
    reply[5] = req[5];
    c.accept(4, 0x0a00_0003, 61, &reply);
    assert_eq!(c.ttl_of(0x0a00_0003), Some(61));
    // a second reply keeps the first TTL
    c.accept(4, 0x0a00_0003, 99, &reply);
    assert_eq!(c.ttl_of(0x0a00_0003), Some(61));
    // wrong source, wrong version, not an echo reply: ignored
    c.accept(4, 0x0a00_0002, 50, &reply);
    c.accept(6, 0x0a00_0003, 50, &reply);
    let mut request_type = reply.clone();
    request_type[0] = 8;
    c.accept(4, 0x0a00_0001, 50, &request_type);
    assert_eq!(c.ttl_of(0x0a00_0002), None);
    assert_eq!(c.ttl_of(0x0a00_0001), None);
    assert_eq!(c.ttls.len(), 1);
    // too short
    c.accept(4, 0x0a00_0001, 50, &reply[..7]);
    assert_eq!(c.ttls.len(), 1);
}

#[test]
fn single_fingerprint_ports() {
    for (p, label) in [
        (445, "Windows"),
        (135, "Windows"),
        (3389, "Windows"),
        (62078, "Apple (macOS/iOS)"),
        (7000, "Apple (macOS/iOS)"),
        (22, "Linux/Unix"),
        (631, "Linux/Unix"),
        (9100, "Printer"),
        (23, "Network device"),
        (53, "Network device"),
        (80, "Network device"),
    ] {
        assert_eq!(detect(None, &[p]).as_deref(), Some(label), "port {p}");
    }
    // The line printer port leans to printers.
    assert_eq!(detect(None, &[515]).as_deref(), Some("Printer"));
}

#[test]
fn scores_fit_in_i32() {
    assert!(scores_fit_check(Some(64), &[22, 445, 9100]));
    assert!(scores_fit_check(None, &[]));
    // Ports that score nothing add nothing.
    assert!(scores_fit_check(None, &vec![1u16; 100_000]));
    // 53_687_092 Windows ports score 2_147_483_680, past i32::MAX.
    assert!(!scores_fit_check(None, &vec![445u16; 53_687_092]));
    assert!(scores_fit_check(None, &vec![445u16; 53_687_091]));
    // The TTL counts too: 53_687_091 * 40 + 20 is past i32::MAX.
    assert!(!scores_fit_check(Some(100), &vec![445u16; 53_687_091]));
}
