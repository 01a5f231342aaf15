use vstd::prelude::*;

pub mod arp;
pub mod os;

use crate::addr::Ipv4Net;
use crate::config::ScanMethod;
use crate::netinfo::{first_serving, interface_for_ip, interfaces_wf, source_ip, InterfaceInfo};
use crate::text::{clone_opt, mac_string, mac_text, push_str};
use arp::ArpHit;
use os::{detect, os_guess, scores_fit, scores_fit_check, ttl_lookup, TtlCollector};

verus! {

/// One probed address and what the scan learnt of it.
#[derive(Debug)]
pub struct Host {
    pub ip: u32,
    pub used: bool,
    pub mac: Option<String>,
    pub vendor: Option<String>,
    pub hostname: Option<String>,
    pub os: Option<String>,
    pub rtt_ms: Option<u64>,
}

impl Host {
    /// A host that nothing has answered for yet.
    pub fn unused(ip: u32) -> (r: Host)
        ensures
            r.ip == ip,
            !r.used,
            r.mac is None,
            r.vendor is None,
            r.hostname is None,
            r.os is None,
            r.rtt_ms is None,
    {
        Host { ip, used: false, mac: None, vendor: None, hostname: None, os: None, rtt_ms: None }
    }
}

pub struct SubnetScanResult {
    pub hosts: Vec<Host>,
    pub method: String,
    pub error: Option<String>,
}

/// The result of the TCP connect probe of one address.
#[derive(Debug)]
pub struct TcpOutcome {
    pub ip: u32,
    pub open: Vec<u16>,
    pub elapsed_ms: u64,
}

/// What to do about the ARP probe.
pub enum ArpStep {
    /// Probe with ARP.
    Run,
    /// Go straight to the ICMP and TCP probes.
    Skip,
    /// The scan ends with this result.
    Fail(SubnetScanResult),
}

/// Record one connection attempt of a host's TCP probe; go on unless only the
/// first open port is wanted and it has been found.
pub fn tcp_port_step(collect_all: bool, open: &mut Vec<u16>, port: u16, accepted: bool) -> (go_on: bool)
    ensures
        final(open)@ == (if accepted {
            old(open)@.push(port)
        } else {
            old(open)@
        }),
        go_on == (collect_all || !accepted),
{
    if accepted {
        open.push(port);
        collect_all
    } else {
        true
    }
}

/// What one read of a raw socket gave.
pub enum ReadOutcome {
    /// A frame or packet.
    Packet,
    /// The read timed out with nothing to read.
    WouldBlock,
    /// Any other error.
    Failed,
}

/// Whether a receive loop reads again after a read: only before its
/// deadline, and not after a failed read (a read that timed out is no
/// failure).
pub fn read_again(outcome: ReadOutcome, before_deadline: bool) -> (r: bool)
    ensures
        r == (before_deadline && !(outcome is Failed)),
{
    match outcome {
        ReadOutcome::Failed => false,
        _ => before_deadline,
    }
}

/// The state of the scan of one subnet, between the probes that the caller
/// runs. The hosts are the probed addresses, consecutive and ascending.
pub struct SubnetScan {
    pub method: ScanMethod,
    pub detect_os: bool,
    pub iface_name: Option<String>,
    pub iface_mac: Option<[u8; 6]>,
    pub source_ip: Option<u32>,
    pub hosts: Vec<Host>,
    pub method_used: String,
    pub arp_ok: bool,
}

/// The hosts are the consecutive addresses `hosts[0].ip, hosts[0].ip + 1, ...`.
pub open spec fn hosts_consecutive(hosts: Seq<Host>) -> bool {
    &&& hosts.len() > 0 ==> hosts[0].ip as int + hosts.len() <= 0x1_0000_0000
    &&& forall|i: int| 0 <= i < hosts.len() ==> (#[trigger] hosts[i]).ip as int == hosts[0].ip + i
}

/// Index of the host for `ip`, if `ip` was probed.
pub open spec fn index_of(hosts: Seq<Host>, ip: u32) -> Option<int> {
    if hosts.len() > 0 && hosts[0].ip <= ip && ip - hosts[0].ip < hosts.len() {
        Some(ip - hosts[0].ip)
    } else {
        None
    }
}

/// Index of the last ARP reply from `ip`.
pub open spec fn last_hit(hits: Seq<ArpHit>, ip: u32) -> Option<int>
    decreases hits.len(),
{
    if hits.len() == 0 {
        None
    } else if hits.last().ip == ip {
        Some(hits.len() - 1)
    } else {
        last_hit(hits.drop_last(), ip)
    }
}

/// `b` is `a` marked used by ARP reply `hit`, whose vendor is `vendor`.
pub open spec fn marked_by_arp(a: Host, b: Host, hit: ArpHit, vendor: Option<String>) -> bool {
    &&& b.ip == a.ip
    &&& b.used
    &&& b.mac matches Some(m) && m@ == mac_text(hit.mac@)
    &&& b.vendor == vendor
    &&& b.hostname == a.hostname
    &&& b.os == a.os
    &&& b.rtt_ms == Some(hit.rtt_ms)
}

/// Round-trip time of the first ping reply from `ip`.
pub open spec fn first_ping(pings: Seq<(u32, u64)>, ip: u32) -> Option<u64>
    decreases pings.len(),
{
    if pings.len() == 0 {
        None
    } else {
        match first_ping(pings.drop_last(), ip) {
            Some(r) => Some(r),
            None => if pings.last().0 == ip {
                Some(pings.last().1)
            } else {
                None
            },
        }
    }
}

/// Whether some ping reply came from `ip`.
pub open spec fn pingable(pings: Seq<(u32, u64)>, ip: u32) -> bool {
    first_ping(pings, ip) is Some
}

/// Index of the TCP outcome for `ip` (the outcomes are of distinct addresses).
pub open spec fn tcp_index(tcp: Seq<TcpOutcome>, ip: u32) -> Option<int> {
    if exists|k: int| 0 <= k < tcp.len() && (#[trigger] tcp[k]).ip == ip {
        Some(choose|k: int| 0 <= k < tcp.len() && (#[trigger] tcp[k]).ip == ip)
    } else {
        None
    }
}

/// The TCP outcomes are of distinct addresses.
pub open spec fn distinct_outcomes(tcp: Seq<TcpOutcome>) -> bool {
    forall|j: int, k: int|
        0 <= j < tcp.len() && 0 <= k < tcp.len() && j != k ==> (#[trigger] tcp[j]).ip
            != (#[trigger] tcp[k]).ip
}

/// What the ICMP and TCP probes make of host `a`: a host with an open port
/// or a ping reply is used, with the TCP probe's time if it was probed and
/// else the ping's; a host neither answered keeps what it had.
pub open spec fn after_probes(a: Host, b: Host, pings: Seq<(u32, u64)>, tcp: Seq<TcpOutcome>) -> bool {
    &&& b.ip == a.ip
    &&& b.mac == a.mac
    &&& b.vendor == a.vendor
    &&& b.hostname == a.hostname
    &&& b.os == a.os
    &&& match tcp_index(tcp, a.ip) {
        Some(k) => {
            let used = tcp[k].open@.len() > 0 || pingable(pings, a.ip);
            &&& b.used == used
            &&& b.rtt_ms == (if used {
                Some(tcp[k].elapsed_ms)
            } else {
                a.rtt_ms
            })
        },
        None => if pingable(pings, a.ip) && !a.used {
            b.used && b.rtt_ms == first_ping(pings, a.ip)
        } else {
            b.used == a.used && b.rtt_ms == a.rtt_ms
        },
    }
}

/// Index of the last resolved, non-empty host name of `ip`.
pub open spec fn last_name(names: Seq<(u32, String)>, ip: u32) -> Option<int>
    decreases names.len(),
{
    if names.len() == 0 {
        None
    } else if names.last().0 == ip && names.last().1@.len() > 0 {
        Some(names.len() - 1)
    } else {
        last_name(names.drop_last(), ip)
    }
}

/// The open ports found for `ip` by the fingerprinting probe (the last
/// entry for `ip`; none when there is none).
pub open spec fn ports_of(ports: Seq<(u32, Vec<u16>)>, ip: u32) -> Seq<u16>
    decreases ports.len(),
{
    if ports.len() == 0 {
        Seq::empty()
    } else if ports.last().0 == ip {
        ports.last().1@
    } else {
        ports_of(ports.drop_last(), ip)
    }
}

/// Every used host's fingerprint scores fit in an `i32` (see `scores_fit`).
pub open spec fn os_scores_fit(hosts: Seq<Host>, ttls: Seq<(u32, u8)>, ports: Seq<(u32, Vec<u16>)>) -> bool {
    forall|i: int|
        0 <= i < hosts.len() && (#[trigger] hosts[i]).used ==> scores_fit(
            ttl_lookup(ttls, hosts[i].ip),
            ports_of(ports, hosts[i].ip),
        )
}

pub open spec fn arp_fail_detail(iface_name: Option<String>) -> Seq<char> {
    match iface_name {
        None => "no interface found for subnet"@,
        Some(n) => "no IPv4 address on interface "@ + n@,
    }
}

/// The addresses of the used hosts, in order.
pub open spec fn used_addresses(hosts: Seq<Host>) -> Seq<u32>
    decreases hosts.len(),
{
    if hosts.len() == 0 {
        Seq::empty()
    } else if hosts.last().used {
        used_addresses(hosts.drop_last()).push(hosts.last().ip)
    } else {
        used_addresses(hosts.drop_last())
    }
}

/// `last_hit` finds the last ARP reply from `ip`, and none when no reply
/// came from `ip`.
pub proof fn lemma_last_hit(hits: Seq<ArpHit>, ip: u32)
    ensures
        last_hit(hits, ip) is None <==> forall|k: int| 0 <= k < hits.len() ==> (#[trigger] hits[k]).ip != ip,
        last_hit(hits, ip) matches Some(k) ==> 0 <= k < hits.len() && hits[k].ip == ip && forall|j: int|
            k < j < hits.len() ==> (#[trigger] hits[j]).ip != ip,
    decreases hits.len(),
{
    if hits.len() > 0 {
        let d = hits.drop_last();
        let n = hits.len() - 1;
        lemma_last_hit(d, ip);
        if hits.last().ip == ip {
            assert(hits[n].ip == ip);
        } else {
            assert(last_hit(hits, ip) == last_hit(d, ip));
            assert((forall|k: int| 0 <= k < hits.len() ==> (#[trigger] hits[k]).ip != ip) <==> (forall|k: int|
                0 <= k < d.len() ==> (#[trigger] d[k]).ip != ip)) by {
                if forall|k: int| 0 <= k < d.len() ==> (#[trigger] d[k]).ip != ip {
                    assert forall|k: int| 0 <= k < hits.len() implies (#[trigger] hits[k]).ip != ip by {
                        if k < n {
                            assert(hits[k] == d[k]);
                        }
                    }
                }
                if forall|k: int| 0 <= k < hits.len() ==> (#[trigger] hits[k]).ip != ip {
                    assert forall|k: int| 0 <= k < d.len() implies (#[trigger] d[k]).ip != ip by {
                        assert(hits[k] == d[k]);
                    }
                }
            }
            match last_hit(d, ip) {
                Some(k) => {
                    assert(hits[k] == d[k]);
                    assert forall|j: int| k < j < hits.len() implies (#[trigger] hits[j]).ip != ip by {
                        if j < n {
                            assert(hits[j] == d[j]);
                        }
                    }
                },
                None => {},
            }
        }
    }
}

/// `last_name` finds the last non-empty name given for `ip`, and none when
/// no non-empty name was given for it.
pub proof fn lemma_last_name(names: Seq<(u32, String)>, ip: u32)
    ensures
        last_name(names, ip) is None <==> forall|k: int|
            0 <= k < names.len() && (#[trigger] names[k]).0 == ip ==> names[k].1@.len() == 0,
        last_name(names, ip) matches Some(k) ==> 0 <= k < names.len() && names[k].0 == ip
            && names[k].1@.len() > 0 && forall|j: int|
            k < j < names.len() && (#[trigger] names[j]).0 == ip ==> names[j].1@.len() == 0,
    decreases names.len(),
{
    if names.len() > 0 {
        let d = names.drop_last();
        let n = names.len() - 1;
        lemma_last_name(d, ip);
        if names.last().0 == ip && names.last().1@.len() > 0 {
            assert(names[n].0 == ip && names[n].1@.len() > 0);
        } else {
            assert(last_name(names, ip) == last_name(d, ip));
            assert((forall|k: int|
                0 <= k < names.len() && (#[trigger] names[k]).0 == ip ==> names[k].1@.len() == 0) <==> (
            forall|k: int| 0 <= k < d.len() && (#[trigger] d[k]).0 == ip ==> d[k].1@.len() == 0)) by {
                if forall|k: int| 0 <= k < d.len() && (#[trigger] d[k]).0 == ip ==> d[k].1@.len() == 0 {
                    assert forall|k: int| 0 <= k < names.len() && (#[trigger] names[k]).0 == ip implies names[k].1@.len()
                        == 0 by {
                        if k < n {
                            assert(names[k] == d[k]);
                        }
                    }
                }
                if forall|k: int| 0 <= k < names.len() && (#[trigger] names[k]).0 == ip ==> names[k].1@.len() == 0 {
                    assert forall|k: int| 0 <= k < d.len() && (#[trigger] d[k]).0 == ip implies d[k].1@.len() == 0 by {
                        assert(names[k] == d[k]);
                    }
                }
            }
            match last_name(d, ip) {
                Some(k) => {
                    assert(names[k] == d[k]);
                    assert forall|j: int| k < j < names.len() && (#[trigger] names[j]).0 == ip implies names[j].1@.len()
                        == 0 by {
                        if j < n {
                            assert(names[j] == d[j]);
                        }
                    }
                },
                None => {},
            }
        }
    }
}

/// `ports_of` gives the open ports of the last entry for `ip`, and none
/// when there is no entry for `ip`.
pub proof fn lemma_ports_of(ports: Seq<(u32, Vec<u16>)>, ip: u32)
    ensures
        (forall|k: int| 0 <= k < ports.len() ==> (#[trigger] ports[k]).0 != ip) ==> ports_of(ports, ip)
            == Seq::<u16>::empty(),
        forall|k: int|
            0 <= k < ports.len() && (#[trigger] ports[k]).0 == ip && (forall|j: int|
                k < j < ports.len() ==> ports[j].0 != ip) ==> ports_of(ports, ip) == ports[k].1@,
    decreases ports.len(),
{
    if ports.len() > 0 {
        let d = ports.drop_last();
        lemma_ports_of(d, ip);
        assert forall|j: int| 0 <= j < d.len() implies #[trigger] d[j] == ports[j] by {}
        assert forall|k: int|
            0 <= k < ports.len() && (#[trigger] ports[k]).0 == ip && (forall|j: int|
                k < j < ports.len() ==> ports[j].0 != ip) implies ports_of(ports, ip) == ports[k].1@ by {
            if k < ports.len() - 1 {
                assert(ports[ports.len() - 1].0 != ip);
                assert(d[k] == ports[k]);
                assert(forall|j: int| k < j < d.len() ==> d[j].0 != ip) by {
                    assert forall|j: int| k < j < d.len() implies d[j].0 != ip by {
                        assert(d[j] == ports[j]);
                    }
                }
            }
        }
        if forall|k: int| 0 <= k < ports.len() ==> (#[trigger] ports[k]).0 != ip {
            assert(ports[ports.len() - 1].0 != ip);
            assert forall|k: int| 0 <= k < d.len() implies (#[trigger] d[k]).0 != ip by {
                assert(d[k] == ports[k]);
            }
        }
    }
}

/// The used addresses are the addresses of the used hosts, in host order.
pub proof fn lemma_used_addresses(hosts: Seq<Host>)
    ensures
        used_addresses(hosts) == hosts.filter(|h: Host| h.used).map_values(|h: Host| h.ip),
    decreases hosts.len(),
{
    reveal_with_fuel(Seq::filter, 1);
    if hosts.len() > 0 {
        lemma_used_addresses(hosts.drop_last());
        let f = hosts.drop_last().filter(|h: Host| h.used);
        if hosts.last().used {
            assert(f.push(hosts.last()).map_values(|h: Host| h.ip) =~= f.map_values(|h: Host| h.ip).push(
                hosts.last().ip,
            ));
        }
    }
}

/// Index of the last entry for `ip` in the fingerprinting probe's results.
fn port_entry(ports: &Vec<(u32, Vec<u16>)>, ip: u32) -> (r: Option<usize>)
    ensures
        r matches Some(k) ==> k < ports@.len() && ports_of(ports@, ip) == ports@[k as int].1@,
        r is None ==> ports_of(ports@, ip) == Seq::<u16>::empty(),
{
    let n = ports.len();
    let mut k: usize = n;
    assert(ports@.take(n as int) =~= ports@);
    while k > 0
        invariant
            n == ports@.len(),
            k <= n,
            ports_of(ports@, ip) == ports_of(ports@.take(k as int), ip),
        decreases k,
    {
        assert(ports@.take(k as int).drop_last() =~= ports@.take(k - 1));
        if ports[k - 1].0 == ip {
            return Some(k - 1);
        }
        k = k - 1;
    }
    None
}

/// Round-trip time of the first ping reply from `ip`.
fn ping_rtt(pings: &Vec<(u32, u64)>, ip: u32) -> (r: Option<u64>)
    ensures
        r == first_ping(pings@, ip),
{
    let n = pings.len();
    let mut k: usize = 0;
    while k < n
        invariant
            n == pings@.len(),
            k <= n,
            first_ping(pings@.take(k as int), ip) is None,
        decreases n - k,
    {
        assert(pings@.take(k + 1).drop_last() =~= pings@.take(k as int));
        if pings[k].0 == ip {
            proof {
                lemma_first_ping_prefix(pings@, k as int + 1, ip);
            }
            return Some(pings[k].1);
        }
        k = k + 1;
    }
    assert(pings@.take(n as int) =~= pings@);
    None
}

/// A host is pingable exactly when some ping reply came from it, whatever
/// its round-trip time; the time recorded is that of its first reply.
pub proof fn lemma_ping_replies(pings: Seq<(u32, u64)>, ip: u32)
    ensures
        pingable(pings, ip) <==> exists|k: int| 0 <= k < pings.len() && (#[trigger] pings[k]).0 == ip,
        first_ping(pings, ip) matches Some(r) ==> exists|k: int|
            0 <= k < pings.len() && #[trigger] pings[k] == (ip, r) && forall|j: int|
                0 <= j < k ==> pings[j].0 != ip,
    decreases pings.len(),
{
    if pings.len() > 0 {
        let d = pings.drop_last();
        lemma_ping_replies(d, ip);
        match first_ping(d, ip) {
            Some(r) => {
                let k = choose|k: int|
                    0 <= k < d.len() && #[trigger] d[k] == (ip, r) && forall|j: int|
                        0 <= j < k ==> d[j].0 != ip;
                assert(pings[k] == d[k]);
                assert(pings[k].0 == ip);
                assert(first_ping(pings, ip) == Some(r));
                assert forall|j: int| 0 <= j < k implies pings[j].0 != ip by {
                    assert(pings[j] == d[j]);
                }
                assert(0 <= k < pings.len() && pings[k] == (ip, r) && forall|j: int|
                    0 <= j < k ==> pings[j].0 != ip);
            },
            None => {
                if pings.last().0 == ip {
                    let k = pings.len() - 1;
                    assert(pings[k] == (ip, pings.last().1));
                    assert forall|j: int| 0 <= j < k implies pings[j].0 != ip by {
                        assert(pings[j] == d[j]);
                    }
                    assert(first_ping(pings, ip) == Some(pings.last().1));
                } else {
                    assert forall|k: int| 0 <= k < pings.len() implies (#[trigger] pings[k]).0 != ip by {
                        if k < pings.len() - 1 {
                            assert(pings[k] == d[k]);
                        }
                    }
                }
            },
        }
        assert((exists|k: int| 0 <= k < d.len() && (#[trigger] d[k]).0 == ip) ==> exists|k: int|
            0 <= k < pings.len() && (#[trigger] pings[k]).0 == ip) by {
            if exists|k: int| 0 <= k < d.len() && (#[trigger] d[k]).0 == ip {
                let k = choose|k: int| 0 <= k < d.len() && (#[trigger] d[k]).0 == ip;
                assert(pings[k] == d[k]);
            }
        }
    }
}

/// After the ICMP and TCP probes, a host with a ping reply is used, and a
/// host the TCP probe reached is used exactly when it had an open port or a
/// ping reply, with the TCP probe's time; a host only the ping reached, not
/// used before, takes the time of its first ping reply.
pub proof fn lemma_probes_mark_answering_hosts(
    a: Host,
    b: Host,
    pings: Seq<(u32, u64)>,
    tcp: Seq<TcpOutcome>,
)
    requires
        after_probes(a, b, pings, tcp),
        distinct_outcomes(tcp),
    ensures
        (exists|k: int| 0 <= k < pings.len() && (#[trigger] pings[k]).0 == a.ip) ==> b.used,
        forall|k: int|
            0 <= k < tcp.len() && (#[trigger] tcp[k]).ip == a.ip ==> (b.used <==> (tcp[k].open@.len() > 0
                || exists|j: int| 0 <= j < pings.len() && (#[trigger] pings[j]).0 == a.ip)) && (b.used
                ==> b.rtt_ms == Some(tcp[k].elapsed_ms)),
        ((forall|k: int| 0 <= k < tcp.len() ==> (#[trigger] tcp[k]).ip != a.ip) && !a.used
            && exists|k: int| 0 <= k < pings.len() && (#[trigger] pings[k]).0 == a.ip) ==> exists|k: int|
            0 <= k < pings.len() && #[trigger] pings[k] == (a.ip, b.rtt_ms->0) && b.rtt_ms is Some
                && forall|j: int| 0 <= j < k ==> pings[j].0 != a.ip,
{
    lemma_ping_replies(pings, a.ip);
    match tcp_index(tcp, a.ip) {
        Some(k) => {
            assert forall|m: int| 0 <= m < tcp.len() && (#[trigger] tcp[m]).ip == a.ip implies m == k by {
                if m != k {
                    assert(tcp[m].ip != tcp[k].ip);
                }
            }
        },
        None => {},
    }
}

/// Once a prefix has a ping reply from `ip`, longer lists keep it first.
proof fn lemma_first_ping_prefix(pings: Seq<(u32, u64)>, k: int, ip: u32)
    requires
        0 <= k <= pings.len(),
        first_ping(pings.take(k), ip) is Some,
    ensures
        first_ping(pings, ip) == first_ping(pings.take(k), ip),
    decreases pings.len() - k,
{
    if k < pings.len() {
        assert(pings.take(k + 1).drop_last() =~= pings.take(k));
        lemma_first_ping_prefix(pings, k + 1, ip);
    } else {
        assert(pings.take(k) =~= pings);
    }
}

impl SubnetScan {
    pub open spec fn wf(&self) -> bool {
        &&& hosts_consecutive(self.hosts@)
        &&& self.source_ip is Some ==> self.iface_name is Some
    }

    /// Prepare the scan of `subnet`: every usable address (see
    /// `Ipv4Net::scan_targets_spec`) as an unused host, the interface that
    /// serves the subnet and its source address.
    pub fn new(
        subnet: &Ipv4Net,
        method: ScanMethod,
        detect_os: bool,
        ifaces: &Vec<InterfaceInfo>,
    ) -> (r: SubnetScan)
        requires
            subnet.wf(),
            subnet.prefix >= 1,
            interfaces_wf(ifaces@),
        ensures
            r.wf(),
            r.method == method,
            r.detect_os == detect_os,
            r.hosts@.len() == subnet.scan_targets_spec().len(),
            forall|i: int|
                0 <= i < r.hosts@.len() ==> (#[trigger] r.hosts@[i]).ip
                    == subnet.scan_targets_spec()[i] && !r.hosts@[i].used && r.hosts@[i].mac is None
                    && r.hosts@[i].vendor is None && r.hosts@[i].hostname is None
                    && r.hosts@[i].os is None && r.hosts@[i].rtt_ms is None,
            match first_serving(ifaces@, subnet.addr) {
                None => r.iface_name is None && r.iface_mac is None && r.source_ip is None,
                Some(k) => {
                    &&& r.iface_name matches Some(n) && n@ == ifaces@[k].name@
                    &&& r.iface_mac == ifaces@[k].mac
                    &&& r.source_ip == (if ifaces@[k].ipv4@.len() > 0 {
                        Some(ifaces@[k].ipv4@[0].addr)
                    } else {
                        None::<u32>
                    })
                },
            },
            r.method_used@.len() == 0,
            !r.arp_ok,
    {
        let targets = subnet.scan_targets();
        let mut hosts: Vec<Host> = Vec::new();
        let n = targets.len();
        let mut i: usize = 0;
        while i < n
            invariant
                n == targets@.len(),
                targets@ == subnet.scan_targets_spec(),
                i <= n,
                hosts@.len() == i,
                forall|k: int|
                    0 <= k < i ==> (#[trigger] hosts@[k]).ip == targets@[k] && !hosts@[k].used
                        && hosts@[k].mac is None && hosts@[k].vendor is None
                        && hosts@[k].hostname is None && hosts@[k].os is None
                        && hosts@[k].rtt_ms is None,
            decreases n - i,
        {
            hosts.push(Host::unused(targets[i]));
            i = i + 1;
        }
        proof {
            crate::addr::lemma_targets_consecutive(*subnet);
        }
        let (iface_name, iface_mac, src) = match interface_for_ip(ifaces, subnet.addr) {
            Some(k) => (Some(ifaces[k].name.clone()), ifaces[k].mac, source_ip(&ifaces[k])),
            None => (None, None, None),
        };
        SubnetScan {
            method,
            detect_os,
            iface_name,
            iface_mac,
            source_ip: src,
            hosts,
            method_used: String::new(),
            arp_ok: false,
        }
    }

    /// The probed addresses, ascending.
    pub fn targets(&self) -> (r: Vec<u32>)
        ensures
            r@.len() == self.hosts@.len(),
            forall|i: int| 0 <= i < r@.len() ==> r@[i] == (#[trigger] self.hosts@[i]).ip,
    {
        let mut r: Vec<u32> = Vec::new();
        let mut i: usize = 0;
        while i < self.hosts.len()
            invariant
                i <= self.hosts@.len(),
                r@.len() == i,
                forall|k: int| 0 <= k < i ==> r@[k] == (#[trigger] self.hosts@[k]).ip,
            decreases self.hosts@.len() - i,
        {
            r.push(self.hosts[i].ip);
            i = i + 1;
        }
        r
    }

    /// Whether to probe with ARP: only for the `auto` and `arp` methods,
    /// and only on an interface with an IPv4 source address. With the `arp`
    /// method and no such interface, the scan fails with the reason.
    pub fn arp_step(&self) -> (r: ArpStep)
        requires
            self.wf(),
        ensures
            match r {
                ArpStep::Run => (self.method == ScanMethod::Auto || self.method == ScanMethod::Arp)
                    && self.source_ip is Some,
                ArpStep::Skip => self.method == ScanMethod::Tcp || (self.method
                    == ScanMethod::Auto && self.source_ip is None),
                ArpStep::Fail(res) => {
                    &&& self.method == ScanMethod::Arp
                    &&& self.source_ip is None
                    &&& res.hosts@.len() == 0
                    &&& res.method@ == "arp"@
                    &&& res.error matches Some(e) && e@ == arp_fail_detail(self.iface_name)
                },
            },
    {
        match self.method {
            ScanMethod::Tcp => ArpStep::Skip,
            _ => {
                if self.source_ip.is_some() {
                    ArpStep::Run
                } else if self.method == ScanMethod::Arp {
                    let detail = match &self.iface_name {
                        None => String::from_str("no interface found for subnet"),
                        Some(n) => {
                            let mut d = String::from_str("no IPv4 address on interface ");
                            push_str(&mut d, n.as_str());
                            d
                        },
                    };
                    ArpStep::Fail(
                        SubnetScanResult {
                            hosts: Vec::new(),
                            method: String::from_str("arp"),
                            error: Some(detail),
                        },
                    )
                } else {
                    ArpStep::Skip
                }
            },
        }
    }

    /// The ARP probe failed with `err`: with the `arp` method the scan
    /// ends with that error; otherwise it goes on with the other probes.
    pub fn arp_failure(&self, err: String) -> (r: Option<SubnetScanResult>)
        ensures
            self.method == ScanMethod::Arp ==> (r matches Some(res) && (res.hosts@.len() == 0
                && res.method@ == "arp"@ && res.error == Some(err))),
            self.method != ScanMethod::Arp ==> r is None,
    {
        if self.method == ScanMethod::Arp {
            Some(SubnetScanResult { hosts: Vec::new(), method: String::from_str("arp"), error: Some(err) })
        } else {
            None
        }
    }

    /// Record the ARP replies: each replying probed address is used, with
    /// the reply's hardware address, its vendor (`vendors[k]` for reply `k`)
    /// and round-trip time; the method used is `arp`.
    pub fn apply_arp(&mut self, hits: &Vec<ArpHit>, vendors: &Vec<Option<String>>)
        requires
            old(self).wf(),
            hits@.len() == vendors@.len(),
        ensures
            final(self).wf(),
            final(self).arp_ok,
            final(self).method_used@ == "arp"@,
            final(self).method == old(self).method,
            final(self).detect_os == old(self).detect_os,
            final(self).iface_name == old(self).iface_name,
            final(self).iface_mac == old(self).iface_mac,
            final(self).source_ip == old(self).source_ip,
            final(self).hosts@.len() == old(self).hosts@.len(),
            forall|i: int|
                0 <= i < old(self).hosts@.len() ==> match last_hit(
                    hits@,
                    #[trigger] old(self).hosts@[i].ip,
                ) {
                    Some(k) => marked_by_arp(
                        old(self).hosts@[i],
                        final(self).hosts@[i],
                        hits@[k],
                        vendors@[k],
                    ),
                    None => final(self).hosts@[i] == old(self).hosts@[i],
                },
    {
        let ghost old_hosts = self.hosts@;
        let n = hits.len();
        let mut j: usize = 0;
        while j < n
            invariant
                n == hits@.len(),
                n == vendors@.len(),
                j <= n,
                self.wf(),
                self.hosts@.len() == old_hosts.len(),
                self.source_ip == old(self).source_ip,
                self.iface_name == old(self).iface_name,
                self.iface_mac == old(self).iface_mac,
                self.method == old(self).method,
                self.detect_os == old(self).detect_os,
                forall|i: int|
                    0 <= i < old_hosts.len() ==> (#[trigger] self.hosts@[i]).ip == old_hosts[i].ip,
                forall|i: int|
                    0 <= i < old_hosts.len() ==> match last_hit(
                        hits@.take(j as int),
                        #[trigger] old_hosts[i].ip,
                    ) {
                        Some(k) => marked_by_arp(old_hosts[i], self.hosts@[i], hits@[k], vendors@[k]),
                        None => self.hosts@[i] == old_hosts[i],
                    },
            decreases n - j,
        {
            let hit = hits[j];
            assert(hits@.take(j + 1).drop_last() =~= hits@.take(j as int));
            match self.host_index(hit.ip) {
                Some(i) => {
                    let mut h = Host::unused(0);
                    self.hosts.set_and_swap(i, &mut h);
                    let nh = Host {
                        ip: h.ip,
                        used: true,
                        mac: Some(mac_string(&hit.mac)),
                        vendor: clone_opt(&vendors[j]),
                        hostname: h.hostname,
                        os: h.os,
                        rtt_ms: Some(hit.rtt_ms),
                    };
                    self.hosts.set(i, nh);
                    assert forall|m: int|
                        0 <= m < old_hosts.len() implies match last_hit(
                            hits@.take(j + 1),
                            #[trigger] old_hosts[m].ip,
                        ) {
                            Some(k) => marked_by_arp(
                                old_hosts[m],
                                self.hosts@[m],
                                hits@[k],
                                vendors@[k],
                            ),
                            None => self.hosts@[m] == old_hosts[m],
                        } by {
                        if m == i {
                            assert(hits@.take(j + 1).last() == hit);
                        } else {
                            assert(old_hosts[m].ip != hit.ip);
                        }
                    }
                },
                None => {
                    assert forall|m: int| 0 <= m < old_hosts.len() implies old_hosts[m].ip != hit.ip by {
                        assert(old_hosts[m].ip as int == old_hosts[0].ip + m);
                    }
                },
            }
            j = j + 1;
        }
        assert(hits@.take(n as int) =~= hits@);
        self.arp_ok = true;
        self.method_used = String::from_str("arp");
    }

    /// Record the ICMP and TCP probes (run when ARP did not succeed): a
    /// host with an open port or a ping reply is used (see `after_probes`),
    /// and `tcp` is added to the method used.
    pub fn apply_probes(&mut self, pings: &Vec<(u32, u64)>, tcp: &Vec<TcpOutcome>)
        requires
            old(self).wf(),
            distinct_outcomes(tcp@),
        ensures
            final(self).wf(),
            final(self).method_used@ == (if old(self).method_used@.len() == 0 {
                "tcp"@
            } else {
                old(self).method_used@ + "+tcp"@
            }),
            final(self).arp_ok == old(self).arp_ok,
            final(self).method == old(self).method,
            final(self).detect_os == old(self).detect_os,
            final(self).iface_name == old(self).iface_name,
            final(self).iface_mac == old(self).iface_mac,
            final(self).source_ip == old(self).source_ip,
            final(self).hosts@.len() == old(self).hosts@.len(),
            forall|i: int|
                0 <= i < old(self).hosts@.len() ==> after_probes(
                    #[trigger] old(self).hosts@[i],
                    final(self).hosts@[i],
                    pings@,
                    tcp@,
                ),
    {
        if self.method_used.unicode_len() == 0 {
            self.method_used = String::from_str("tcp");
        } else {
            push_str(&mut self.method_used, "+tcp");
        }
        let ghost old_hosts = self.hosts@;
        let n = tcp.len();
        let mut j: usize = 0;
        while j < n
            invariant
                n == tcp@.len(),
                j <= n,
                distinct_outcomes(tcp@),
                self.wf(),
                self.hosts@.len() == old_hosts.len(),
                self.source_ip == old(self).source_ip,
                self.iface_name == old(self).iface_name,
                self.iface_mac == old(self).iface_mac,
                self.method == old(self).method,
                self.detect_os == old(self).detect_os,
                self.arp_ok == old(self).arp_ok,
                self.method_used@ == (if old(self).method_used@.len() == 0 {
                    "tcp"@
                } else {
                    old(self).method_used@ + "+tcp"@
                }),
                forall|i: int|
                    0 <= i < old_hosts.len() ==> {
                        let a = #[trigger] old_hosts[i];
                        let b = self.hosts@[i];
                        &&& b.ip == a.ip
                        &&& b.mac == a.mac
                        &&& b.vendor == a.vendor
                        &&& b.hostname == a.hostname
                        &&& b.os == a.os
                        &&& if exists|k: int| 0 <= k < j && (#[trigger] tcp@[k]).ip == a.ip {
                            let k = choose|k: int| 0 <= k < j && (#[trigger] tcp@[k]).ip == a.ip;
                            let used = tcp@[k].open@.len() > 0 || pingable(pings@, a.ip);
                            &&& b.used == used
                            &&& b.rtt_ms == (if used {
                                Some(tcp@[k].elapsed_ms)
                            } else {
                                a.rtt_ms
                            })
                        } else {
                            b.used == a.used && b.rtt_ms == a.rtt_ms
                        }
                    },
            decreases n - j,
        {
            let ip = tcp[j].ip;
            match self.host_index(ip) {
                Some(i) => {
                    let p = ping_rtt(pings, ip).is_some();
                    let used = tcp[j].open.len() > 0 || p;
                    let mut h = Host::unused(0);
                    self.hosts.set_and_swap(i, &mut h);
                    let nh = Host {
                        ip: h.ip,
                        used,
                        mac: h.mac,
                        vendor: h.vendor,
                        hostname: h.hostname,
                        os: h.os,
                        rtt_ms: if used {
                            Some(tcp[j].elapsed_ms)
                        } else {
                            h.rtt_ms
                        },
                    };
                    self.hosts.set(i, nh);
                    assert forall|m: int| 0 <= m < old_hosts.len() && m != i implies old_hosts[m].ip
                        != ip by {
                        assert(old_hosts[m].ip as int == old_hosts[0].ip + m);
                    }
                    proof {
                        let a = old_hosts[i as int];
                        assert(!exists|k: int| 0 <= k < j && (#[trigger] tcp@[k]).ip == a.ip) by {
                            if exists|k: int| 0 <= k < j && (#[trigger] tcp@[k]).ip == a.ip {
                                let k = choose|k: int| 0 <= k < j && (#[trigger] tcp@[k]).ip == a.ip;
                                assert(tcp@[k].ip != tcp@[j as int].ip);
                            }
                        }
                        let k = choose|k: int| 0 <= k < j + 1 && (#[trigger] tcp@[k]).ip == a.ip;
                        assert(tcp@[j as int].ip == a.ip);
                        assert(k == j) by {
                            if k != j {
                                assert(tcp@[k].ip != tcp@[j as int].ip);
                            }
                        }
                    }
                },
                None => {
                    assert forall|m: int| 0 <= m < old_hosts.len() implies old_hosts[m].ip != ip by {
                        assert(old_hosts[m].ip as int == old_hosts[0].ip + m);
                    }
                },
            }
            j = j + 1;
        }
        let ghost mid = self.hosts@;
        let np = pings.len();
        let mut q: usize = 0;
        while q < np
            invariant
                np == pings@.len(),
                q <= np,
                self.wf(),
                self.hosts@.len() == old_hosts.len(),
                mid.len() == old_hosts.len(),
                self.source_ip == old(self).source_ip,
                self.iface_name == old(self).iface_name,
                self.iface_mac == old(self).iface_mac,
                self.method == old(self).method,
                self.detect_os == old(self).detect_os,
                self.arp_ok == old(self).arp_ok,
                self.method_used@ == (if old(self).method_used@.len() == 0 {
                    "tcp"@
                } else {
                    old(self).method_used@ + "+tcp"@
                }),
                forall|i: int|
                    0 <= i < old_hosts.len() ==> {
                        let a = #[trigger] mid[i];
                        let b = self.hosts@[i];
                        &&& b.ip == a.ip
                        &&& b.mac == a.mac
                        &&& b.vendor == a.vendor
                        &&& b.hostname == a.hostname
                        &&& b.os == a.os
                        &&& if !a.used && first_ping(pings@.take(q as int), a.ip) is Some {
                            b.used && b.rtt_ms == first_ping(pings@.take(q as int), a.ip)
                        } else {
                            b.used == a.used && b.rtt_ms == a.rtt_ms
                        }
                    },
            decreases np - q,
        {
            let (ip, rtt) = pings[q];
            assert(pings@.take(q + 1).drop_last() =~= pings@.take(q as int));
            match self.host_index(ip) {
                Some(i) => {
                    if !self.hosts[i].used {
                        let mut h = Host::unused(0);
                        self.hosts.set_and_swap(i, &mut h);
                        let nh = Host {
                            ip: h.ip,
                            used: true,
                            mac: h.mac,
                            vendor: h.vendor,
                            hostname: h.hostname,
                            os: h.os,
                            rtt_ms: Some(rtt),
                        };
                        self.hosts.set(i, nh);
                    }
                    assert forall|m: int| 0 <= m < old_hosts.len() && m != i implies mid[m].ip
                        != ip by {
                        assert(mid[m].ip as int == mid[0].ip + m);
                    }
                },
                None => {
                    assert forall|m: int| 0 <= m < old_hosts.len() implies mid[m].ip != ip by {
                        assert(mid[m].ip as int == mid[0].ip + m);
                    }
                },
            }
            q = q + 1;
        }
        assert(pings@.take(np as int) =~= pings@);
        assert(tcp@.take(n as int) =~= tcp@);
        assert forall|i: int|
            0 <= i < old_hosts.len() implies after_probes(
                #[trigger] old_hosts[i],
                self.hosts@[i],
                pings@,
                tcp@,
            ) by {
            let a = old_hosts[i];
            if exists|k: int| 0 <= k < n && (#[trigger] tcp@[k]).ip == a.ip {
                let k = choose|k: int| 0 <= k < n && (#[trigger] tcp@[k]).ip == a.ip;
                assert(tcp_index(tcp@, a.ip) == Some(k));
            } else {
                assert(tcp_index(tcp@, a.ip) is None);
            }
        }
    }

    /// This machine is always used: mark the host of the source address
    /// used, give it the interface's hardware address (and `vendor`, that
    /// address's vendor) when it has none, and a round-trip time of 0 when
    /// it has none.
    pub fn mark_self(&mut self, vendor: Option<String>)
        requires
            old(self).wf(),
        ensures
            final(self).wf(),
            final(self).arp_ok == old(self).arp_ok,
            final(self).method_used == old(self).method_used,
            final(self).method == old(self).method,
            final(self).detect_os == old(self).detect_os,
            final(self).iface_name == old(self).iface_name,
            final(self).iface_mac == old(self).iface_mac,
            final(self).source_ip == old(self).source_ip,
            final(self).hosts@.len() == old(self).hosts@.len(),
            forall|i: int|
                0 <= i < old(self).hosts@.len() ==> {
                    let a = #[trigger] old(self).hosts@[i];
                    let b = final(self).hosts@[i];
                    if old(self).source_ip == Some(a.ip) {
                        &&& b.ip == a.ip
                        &&& b.used
                        &&& b.hostname == a.hostname
                        &&& b.os == a.os
                        &&& b.rtt_ms == (if a.rtt_ms is None {
                            Some(0u64)
                        } else {
                            a.rtt_ms
                        })
                        &&& if a.mac is None && old(self).iface_mac is Some {
                            &&& b.mac matches Some(m) && m@ == mac_text(old(self).iface_mac->0@)
                            &&& b.vendor == (if a.vendor is None {
                                vendor
                            } else {
                                a.vendor
                            })
                        } else {
                            b.mac == a.mac && b.vendor == a.vendor
                        }
                    } else {
                        b == a
                    }
                },
    {
        if let Some(src) = self.source_ip {
            if let Some(i) = self.host_index(src) {
                let mut h = Host::unused(0);
                self.hosts.set_and_swap(i, &mut h);
                let (mac, new_vendor) = if h.mac.is_none() {
                    match self.iface_mac {
                        Some(m) => (
                            Some(mac_string(&m)),
                            if h.vendor.is_none() {
                                vendor
                            } else {
                                h.vendor
                            },
                        ),
                        None => (h.mac, h.vendor),
                    }
                } else {
                    (h.mac, h.vendor)
                };
                let nh = Host {
                    ip: h.ip,
                    used: true,
                    mac,
                    vendor: new_vendor,
                    hostname: h.hostname,
                    os: h.os,
                    rtt_ms: if h.rtt_ms.is_none() {
                        Some(0)
                    } else {
                        h.rtt_ms
                    },
                };
                self.hosts.set(i, nh);
                assert forall|m: int| 0 <= m < self.hosts@.len() && m != i implies old(self).hosts@[m].ip
                    != src by {
                    assert(old(self).hosts@[m].ip as int == old(self).hosts@[0].ip + m);
                }
            } else {
                assert forall|m: int| 0 <= m < self.hosts@.len() implies old(self).hosts@[m].ip
                    != src by {
                    assert(old(self).hosts@[m].ip as int == old(self).hosts@[0].ip + m);
                }
            }
        }
    }

    /// The addresses of the used hosts, ascending.
    pub fn used_ips(&self) -> (r: Vec<u32>)
        ensures
            r@ == used_addresses(self.hosts@),
    {
        let mut r: Vec<u32> = Vec::new();
        let n = self.hosts.len();
        let mut i: usize = 0;
        while i < n
            invariant
                n == self.hosts@.len(),
                i <= n,
                r@ == used_addresses(self.hosts@.take(i as int)),
            decreases n - i,
        {
            assert(self.hosts@.take(i + 1).drop_last() =~= self.hosts@.take(i as int));
            if self.hosts[i].used {
                r.push(self.hosts[i].ip);
            }
            i = i + 1;
        }
        assert(self.hosts@.take(n as int) =~= self.hosts@);
        r
    }

    /// Record the reverse-DNS names: a used host with a non-empty resolved
    /// name gets that name (the last one given for it); unused hosts get no
    /// name.
    pub fn apply_hostnames(&mut self, names: &Vec<(u32, String)>)
        requires
            old(self).wf(),
        ensures
            final(self).wf(),
            final(self).arp_ok == old(self).arp_ok,
            final(self).method_used == old(self).method_used,
            final(self).method == old(self).method,
            final(self).detect_os == old(self).detect_os,
            final(self).iface_name == old(self).iface_name,
            final(self).iface_mac == old(self).iface_mac,
            final(self).source_ip == old(self).source_ip,
            final(self).hosts@.len() == old(self).hosts@.len(),
            forall|i: int|
                0 <= i < old(self).hosts@.len() ==> {
                    let a = #[trigger] old(self).hosts@[i];
                    let b = final(self).hosts@[i];
                    match (a.used, last_name(names@, a.ip)) {
                        (true, Some(k)) => b == Host { hostname: Some(names@[k].1), ..a },
                        _ => b == a,
                    }
                },
    {
        let ghost old_hosts = self.hosts@;
        let n = names.len();
        let mut j: usize = 0;
        while j < n
            invariant
                n == names@.len(),
                j <= n,
                self.wf(),
                self.hosts@.len() == old_hosts.len(),
                self.source_ip == old(self).source_ip,
                self.iface_name == old(self).iface_name,
                self.iface_mac == old(self).iface_mac,
                self.method == old(self).method,
                self.detect_os == old(self).detect_os,
                self.arp_ok == old(self).arp_ok,
                self.method_used == old(self).method_used,
                forall|i: int|
                    0 <= i < old_hosts.len() ==> {
                        let a = #[trigger] old_hosts[i];
                        let b = self.hosts@[i];
                        match (a.used, last_name(names@.take(j as int), a.ip)) {
                            (true, Some(k)) => b == Host { hostname: Some(names@[k].1), ..a },
                            _ => b == a,
                        }
                    },
            decreases n - j,
        {
            assert(names@.take(j + 1).drop_last() =~= names@.take(j as int));
            let ip = names[j].0;
            if names[j].1.unicode_len() > 0 {
                match self.host_index(ip) {
                    Some(i) => if self.hosts[i].used {
                        let mut h = Host::unused(0);
                        self.hosts.set_and_swap(i, &mut h);
                        let nh = Host {
                            ip: h.ip,
                            used: h.used,
                            mac: h.mac,
                            vendor: h.vendor,
                            hostname: Some(names[j].1.clone()),
                            os: h.os,
                            rtt_ms: h.rtt_ms,
                        };
                        self.hosts.set(i, nh);
                        assert forall|m: int| 0 <= m < old_hosts.len() && m != i implies old_hosts[m].ip
                            != ip by {
                            assert(old_hosts[m].ip as int == old_hosts[0].ip + m);
                        }
                    } else {
                        assert forall|m: int| 0 <= m < old_hosts.len() && m != i implies old_hosts[m].ip
                            != ip by {
                            assert(old_hosts[m].ip as int == old_hosts[0].ip + m);
                        }
                    },
                    None => {
                        assert forall|m: int| 0 <= m < old_hosts.len() implies old_hosts[m].ip != ip by {
                            assert(old_hosts[m].ip as int == old_hosts[0].ip + m);
                        }
                    },
                }
            }
            j = j + 1;
        }
        assert(names@.take(n as int) =~= names@);
    }

    /// Whether to run the ICMP and TCP probes: only when ARP found nothing
    /// usable, that is when its probe failed or was not run.
    pub fn probes_due(&self) -> (r: bool)
        ensures
            r == !self.arp_ok,
    {
        !self.arp_ok
    }

    /// Whether to fingerprint operating systems: when asked to, and some
    /// host is used.
    pub fn os_detection_due(&self) -> (r: bool)
        ensures
            r == (self.detect_os && used_addresses(self.hosts@).len() > 0),
    {
        if !self.detect_os {
            return false;
        }
        let u = self.used_ips();
        u.len() > 0
    }

    /// Whether `apply_os` can sum the fingerprint scores of every used host
    /// (see `os_scores_fit`).
    pub fn check_os_scores(&self, ttls: &TtlCollector, ports: &Vec<(u32, Vec<u16>)>) -> (r: bool)
        ensures
            r == os_scores_fit(self.hosts@, ttls.ttls@, ports@),
    {
        let n = self.hosts.len();
        let empty: Vec<u16> = Vec::new();
        let mut i: usize = 0;
        while i < n
            invariant
                n == self.hosts@.len(),
                i <= n,
                empty@.len() == 0,
                forall|m: int|
                    0 <= m < i && (#[trigger] self.hosts@[m]).used ==> scores_fit(
                        ttl_lookup(ttls.ttls@, self.hosts@[m].ip),
                        ports_of(ports@, self.hosts@[m].ip),
                    ),
            decreases n - i,
        {
            if self.hosts[i].used {
                let ip = self.hosts[i].ip;
                let ttl = ttls.ttl_of(ip);
                let fits = match port_entry(ports, ip) {
                    Some(k) => scores_fit_check(ttl, ports[k].1.as_slice()),
                    None => {
                        assert(empty@ =~= ports_of(ports@, ip));
                        scores_fit_check(ttl, empty.as_slice())
                    },
                };
                if !fits {
                    assert(!scores_fit(ttl_lookup(ttls.ttls@, self.hosts@[i as int].ip), ports_of(ports@, self.hosts@[i as int].ip)));
                    return false;
                }
            }
            i = i + 1;
        }
        true
    }

    /// Record the OS guesses of the used hosts, from the TTLs of their echo
    /// replies and the open ports of the fingerprinting probe; a host with
    /// no guess keeps what it had.
    pub fn apply_os(&mut self, ttls: &TtlCollector, ports: &Vec<(u32, Vec<u16>)>)
        requires
            old(self).wf(),
            os_scores_fit(old(self).hosts@, ttls.ttls@, ports@),
        ensures
            final(self).wf(),
            final(self).arp_ok == old(self).arp_ok,
            final(self).method_used == old(self).method_used,
            final(self).method == old(self).method,
            final(self).detect_os == old(self).detect_os,
            final(self).iface_name == old(self).iface_name,
            final(self).iface_mac == old(self).iface_mac,
            final(self).source_ip == old(self).source_ip,
            final(self).hosts@.len() == old(self).hosts@.len(),
            forall|i: int|
                0 <= i < old(self).hosts@.len() ==> {
                    let a = #[trigger] old(self).hosts@[i];
                    let b = final(self).hosts@[i];
                    &&& b.ip == a.ip
                    &&& b.used == a.used
                    &&& b.mac == a.mac
                    &&& b.vendor == a.vendor
                    &&& b.hostname == a.hostname
                    &&& b.rtt_ms == a.rtt_ms
                    &&& match (a.used, os_guess(ttl_lookup(ttls.ttls@, a.ip), ports_of(ports@, a.ip))) {
                        (true, Some(l)) => b.os matches Some(s) && s@ == l,
                        _ => b.os == a.os,
                    }
                },
    {
        let ghost old_hosts = self.hosts@;
        let n = self.hosts.len();
        let empty: Vec<u16> = Vec::new();
        let mut i: usize = 0;
        while i < n
            invariant
                n == old_hosts.len(),
                i <= n,
                empty@.len() == 0,
                os_scores_fit(old_hosts, ttls.ttls@, ports@),
                self.wf(),
                self.hosts@.len() == old_hosts.len(),
                self.source_ip == old(self).source_ip,
                self.iface_name == old(self).iface_name,
                self.iface_mac == old(self).iface_mac,
                self.method == old(self).method,
                self.detect_os == old(self).detect_os,
                self.arp_ok == old(self).arp_ok,
                self.method_used == old(self).method_used,
                forall|m: int| i <= m < n ==> self.hosts@[m] == old_hosts[m],
                forall|m: int|
                    0 <= m < i ==> {
                        let a = #[trigger] old_hosts[m];
                        let b = self.hosts@[m];
                        &&& b.ip == a.ip
                        &&& b.used == a.used
                        &&& b.mac == a.mac
                        &&& b.vendor == a.vendor
                        &&& b.hostname == a.hostname
                        &&& b.rtt_ms == a.rtt_ms
                        &&& match (a.used, os_guess(ttl_lookup(ttls.ttls@, a.ip), ports_of(ports@, a.ip))) {
                            (true, Some(l)) => b.os matches Some(s) && s@ == l,
                            _ => b.os == a.os,
                        }
                    },
            decreases n - i,
        {
            if self.hosts[i].used {
                let ip = self.hosts[i].ip;
                let ttl = ttls.ttl_of(ip);
                let guess = match port_entry(ports, ip) {
                    Some(k) => {
                        assert(old_hosts[i as int].used);
                        detect(ttl, ports[k].1.as_slice())
                    },
                    None => {
                        assert(empty@ =~= ports_of(ports@, ip));
                        assert(old_hosts[i as int].used);
                        detect(ttl, empty.as_slice())
                    },
                };
                assert(guess matches Some(s) ==> os_guess(ttl_lookup(ttls.ttls@, ip), ports_of(ports@, ip)) == Some(s@));
                assert(guess is None ==> os_guess(ttl_lookup(ttls.ttls@, ip), ports_of(ports@, ip)) is None);
                if let Some(label) = guess {
                    let mut h = Host::unused(0);
                    self.hosts.set_and_swap(i, &mut h);
                    let nh = Host {
                        ip: h.ip,
                        used: h.used,
                        mac: h.mac,
                        vendor: h.vendor,
                        hostname: h.hostname,
                        os: Some(label),
                        rtt_ms: h.rtt_ms,
                    };
                    self.hosts.set(i, nh);
                }
            }
            i = i + 1;
        }
    }

    /// The scan's result: the hosts, ascending by address, and the method
    /// used.
    pub fn finish(self) -> (r: SubnetScanResult)
        ensures
            r.hosts == self.hosts,
            r.method == self.method_used,
            r.error is None,
    {
        SubnetScanResult { hosts: self.hosts, method: self.method_used, error: None }
    }

    fn host_index(&self, ip: u32) -> (r: Option<usize>)
        requires
            self.wf(),
        ensures
            r matches Some(i) ==> index_of(self.hosts@, ip) == Some(i as int) && i < self.hosts@.len(),
            r is None ==> index_of(self.hosts@, ip) is None,
    {
        if self.hosts.len() > 0 && self.hosts[0].ip <= ip && ((ip - self.hosts[0].ip) as usize)
            < self.hosts.len() {
            Some((ip - self.hosts[0].ip) as usize)
        } else {
            None
        }
    }
}

} // verus!
