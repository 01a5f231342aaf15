use vstd::prelude::*;

use crate::addr::Ipv4Net;
use crate::netinfo::{first_serving, interface_for_ip, interfaces_wf, source_ip, InterfaceInfo};
use crate::scanner::{Host, SubnetScanResult};
use crate::text::{cidr_text, clone_opt, dotted, ip_text, net_text};

verus! {

/// Live scan progress: the phase and the counts of probed and used hosts.
#[derive(Debug)]
pub struct ScanProgress {
    phase: String,
    total: usize,
    done: usize,
    used: usize,
}

impl View for ScanProgress {
    /// (phase, total, done, used)
    type V = (Seq<char>, usize, usize, usize);

    closed spec fn view(&self) -> Self::V {
        (self.phase@, self.total, self.done, self.used)
    }
}

/// `x + 1`, wrapping around at the top of `usize` as an atomic add does.
pub open spec fn wrapping_inc(x: usize) -> usize {
    if x == usize::MAX {
        0
    } else {
        (x + 1) as usize
    }
}

impl ScanProgress {
    pub fn new() -> (r: ScanProgress)
        ensures
            r@ == ("idle"@, 0usize, 0usize, 0usize),
    {
        ScanProgress { phase: String::from_str("idle"), total: 0, done: 0, used: 0 }
    }

    /// Start counting a scan of `total` hosts.
    pub fn reset(&mut self, total: usize)
        ensures
            final(self)@ == ("starting"@, total, 0usize, 0usize),
    {
        self.phase = String::from_str("starting");
        self.total = total;
        self.done = 0;
        self.used = 0;
    }

    pub fn set_phase(&mut self, phase: &str)
        ensures
            final(self)@ == (phase@, old(self)@.1, old(self)@.2, old(self)@.3),
    {
        self.phase = String::from_str(phase);
    }

    /// One more host probed, and one more used if `used`.
    pub fn tick(&mut self, used: bool)
        ensures
            final(self)@ == (
                old(self)@.0,
                old(self)@.1,
                wrapping_inc(old(self)@.2),
                if used {
                    wrapping_inc(old(self)@.3)
                } else {
                    old(self)@.3
                },
            ),
    {
        self.done = if self.done == usize::MAX {
            0
        } else {
            self.done + 1
        };
        if used {
            self.used = if self.used == usize::MAX {
                0
            } else {
                self.used + 1
            };
        }
    }

    /// (phase, done, total, used)
    pub fn snapshot(&self) -> (r: (String, usize, usize, usize))
        ensures
            r.0@ == self@.0,
            r.1 == self@.2,
            r.2 == self@.1,
            r.3 == self@.3,
    {
        (self.phase.clone(), self.done, self.total, self.used)
    }
}

/// The outcome of the last scan of one subnet.
#[derive(Debug)]
pub struct SubnetState {
    pub cidr: String,
    pub interface: String,
    pub hosts: Vec<Host>,
    pub total: usize,
    pub used: usize,
    pub available: usize,
}

/// Number of used hosts.
pub open spec fn used_count(hosts: Seq<Host>) -> nat
    decreases hosts.len(),
{
    if hosts.len() == 0 {
        0
    } else {
        used_count(hosts.drop_last()) + if hosts.last().used {
            1nat
        } else {
            0nat
        }
    }
}

/// The used count is the number of hosts marked used.
pub proof fn lemma_used_count_counts(hosts: Seq<Host>)
    ensures
        used_count(hosts) == hosts.filter(|h: Host| h.used).len(),
    decreases hosts.len(),
{
    reveal_with_fuel(Seq::filter, 1);
    if hosts.len() > 0 {
        lemma_used_count_counts(hosts.drop_last());
    }
}

proof fn lemma_used_count_le(hosts: Seq<Host>)
    ensures
        used_count(hosts) <= hosts.len(),
    decreases hosts.len(),
{
    if hosts.len() > 0 {
        lemma_used_count_le(hosts.drop_last());
    }
}

fn clone_host(h: &Host) -> (r: Host)
    ensures
        r == *h,
{
    Host {
        ip: h.ip,
        used: h.used,
        mac: clone_opt(&h.mac),
        vendor: clone_opt(&h.vendor),
        hostname: clone_opt(&h.hostname),
        os: clone_opt(&h.os),
        rtt_ms: h.rtt_ms,
    }
}

fn clone_hosts(v: &Vec<Host>) -> (r: Vec<Host>)
    ensures
        r@ == v@,
{
    let mut r: Vec<Host> = Vec::new();
    let mut i: usize = 0;
    while i < v.len()
        invariant
            i <= v@.len(),
            r@ == v@.take(i as int),
        decreases v@.len() - i,
    {
        r.push(clone_host(&v[i]));
        i = i + 1;
        assert(r@ =~= v@.take(i as int));
    }
    assert(v@.take(v@.len() as int) =~= v@);
    r
}

impl SubnetState {
    /// The state of a scanned subnet: its CIDR text, the name of the
    /// interface serving it (`unknown` when there is none), the hosts and
    /// the counts of all, used and available hosts.
    pub fn from_scan(net: &Ipv4Net, interface: Option<String>, result: SubnetScanResult) -> (r:
        SubnetState)
        ensures
            r.cidr@ == cidr_text(*net),
            r.interface@ == (match interface {
                Some(n) => n@,
                None => "unknown"@,
            }),
            r.hosts == result.hosts,
            r.total == result.hosts@.len(),
            r.used == used_count(result.hosts@),
            r.available == r.total - r.used,
    {
        let total = result.hosts.len();
        let mut used: usize = 0;
        let mut i: usize = 0;
        while i < total
            invariant
                total == result.hosts@.len(),
                i <= total,
                used == used_count(result.hosts@.take(i as int)),
            decreases total - i,
        {
            assert(result.hosts@.take(i + 1).drop_last() =~= result.hosts@.take(i as int));
            proof {
                lemma_used_count_le(result.hosts@.take(i as int));
            }
            if result.hosts[i].used {
                used = used + 1;
            }
            i = i + 1;
        }
        assert(result.hosts@.take(total as int) =~= result.hosts@);
        proof {
            lemma_used_count_le(result.hosts@);
        }
        SubnetState {
            cidr: net_text(net),
            interface: match interface {
                Some(n) => n,
                None => String::from_str("unknown"),
            },
            hosts: result.hosts,
            total,
            used,
            available: total.saturating_sub(used),
        }
    }
}

fn clone_subnet_state(s: &SubnetState) -> (r: SubnetState)
    ensures
        r.cidr == s.cidr,
        r.interface == s.interface,
        r.hosts@ == s.hosts@,
        r.total == s.total,
        r.used == s.used,
        r.available == s.available,
{
    SubnetState {
        cidr: s.cidr.clone(),
        interface: s.interface.clone(),
        hosts: clone_hosts(&s.hosts),
        total: s.total,
        used: s.used,
        available: s.available,
    }
}

/// The address this machine scans `net` from: the source address of the
/// interface serving the network's address.
pub open spec fn self_ip_of(ifaces: Seq<InterfaceInfo>, net: Ipv4Net) -> Option<u32> {
    match first_serving(ifaces, net.addr) {
        Some(k) => if ifaces[k].ipv4@.len() > 0 {
            Some(ifaces[k].ipv4@[0].addr)
        } else {
            None
        },
        None => None,
    }
}

/// The addresses of this machine on the scanned subnets, in the order of
/// the subnets (a subnet with none adds nothing).
pub open spec fn self_ips_spec(ifaces: Seq<InterfaceInfo>, nets: Seq<Ipv4Net>) -> Seq<Seq<char>>
    decreases nets.len(),
{
    if nets.len() == 0 {
        Seq::empty()
    } else {
        let rest = self_ips_spec(ifaces, nets.drop_last());
        match self_ip_of(ifaces, nets.last()) {
            Some(ip) => rest.push(dotted(ip)),
            None => rest,
        }
    }
}

/// The addresses of this machine on the scanned subnets, as text.
pub fn self_ips(ifaces: &Vec<InterfaceInfo>, nets: &Vec<Ipv4Net>) -> (r: Vec<String>)
    requires
        interfaces_wf(ifaces@),
    ensures
        r@.map_values(|s: String| s@) == self_ips_spec(ifaces@, nets@),
{
    let mut r: Vec<String> = Vec::new();
    let n = nets.len();
    let mut i: usize = 0;
    while i < n
        invariant
            n == nets@.len(),
            i <= n,
            interfaces_wf(ifaces@),
            r@.map_values(|s: String| s@) == self_ips_spec(ifaces@, nets@.take(i as int)),
        decreases n - i,
    {
        assert(nets@.take(i + 1).drop_last() =~= nets@.take(i as int));
        let ghost before = r@;
        match interface_for_ip(ifaces, nets[i].addr) {
            Some(k) => match source_ip(&ifaces[k]) {
                Some(ip) => {
                    r.push(ip_text(ip));
                    assert(r@.map_values(|s: String| s@) =~= before.map_values(|s: String| s@).push(
                        dotted(ip),
                    ));
                },
                None => {},
            },
            None => {},
        }
        i = i + 1;
    }
    assert(nets@.take(n as int) =~= nets@);
    r
}

/// The subnets, method and first error gathered over one scan round.
pub struct ScanRound {
    pub subnets: Vec<SubnetState>,
    pub method: String,
    pub error: Option<String>,
}

impl ScanRound {
    pub fn new() -> (r: ScanRound)
        ensures
            r.subnets@.len() == 0,
            r.method@.len() == 0,
            r.error is None,
    {
        ScanRound { subnets: Vec::new(), method: String::new(), error: None }
    }

    /// Add one subnet's outcome: the round's method is the first non-empty
    /// one, its error the first one.
    pub fn add(&mut self, state: SubnetState, method: String, error: Option<String>)
        ensures
            final(self).subnets@ == old(self).subnets@.push(state),
            final(self).method@ == (if old(self).method@.len() == 0 {
                method@
            } else {
                old(self).method@
            }),
            final(self).error == (if old(self).error is None {
                error
            } else {
                old(self).error
            }),
    {
        if self.method.unicode_len() == 0 {
            self.method = method;
        }
        if self.error.is_none() {
            self.error = error;
        }
        self.subnets.push(state);
    }
}

/// The scan results as the web UI shows them.
pub struct AppStateJson {
    pub status: String,
    pub phase: String,
    pub scanned: usize,
    pub total_ips: usize,
    pub used_total: usize,
    pub available_total: usize,
    pub last_scan_unix: Option<i64>,
    pub last_duration_ms: Option<u64>,
    pub method: String,
    pub error: Option<String>,
    pub self_ips: Vec<String>,
    pub subnets: Vec<SubnetState>,
}

/// The scanner's shared state.
pub struct ManagerInner {
    pub subnets: Vec<SubnetState>,
    pub status: String,
    pub method: String,
    pub last_scan_unix: Option<i64>,
    pub last_duration_ms: Option<u64>,
    pub error: Option<String>,
}

pub open spec fn sum_total(s: Seq<SubnetState>) -> nat
    decreases s.len(),
{
    if s.len() == 0 {
        0
    } else {
        sum_total(s.drop_last()) + s.last().total as nat
    }
}

pub open spec fn sum_used(s: Seq<SubnetState>) -> nat
    decreases s.len(),
{
    if s.len() == 0 {
        0
    } else {
        sum_used(s.drop_last()) + s.last().used as nat
    }
}

pub open spec fn sum_available(s: Seq<SubnetState>) -> nat
    decreases s.len(),
{
    if s.len() == 0 {
        0
    } else {
        sum_available(s.drop_last()) + s.last().available as nat
    }
}

/// When every subnet's available count is its total less its used count,
/// so are the sums over the subnets.
pub proof fn lemma_available_sums(s: Seq<SubnetState>)
    requires
        forall|i: int| 0 <= i < s.len() ==> (#[trigger] s[i]).available + s[i].used == s[i].total,
    ensures
        sum_available(s) + sum_used(s) == sum_total(s),
    decreases s.len(),
{
    if s.len() > 0 {
        assert forall|i: int| 0 <= i < s.drop_last().len() implies (#[trigger] s.drop_last()[i]).available
            + s.drop_last()[i].used == s.drop_last()[i].total by {
            assert(s.drop_last()[i] == s[i]);
        }
        lemma_available_sums(s.drop_last());
        assert(s.last() == s[s.len() - 1]);
    }
}

proof fn lemma_sums_monotone(s: Seq<SubnetState>, k: int)
    requires
        0 <= k <= s.len(),
    ensures
        sum_total(s.take(k)) <= sum_total(s),
        sum_used(s.take(k)) <= sum_used(s),
        sum_available(s.take(k)) <= sum_available(s),
    decreases s.len() - k,
{
    if k < s.len() {
        lemma_sums_monotone(s, k + 1);
        assert(s.take(k + 1).drop_last() =~= s.take(k));
    } else {
        assert(s.take(k) =~= s);
    }
}

impl ManagerInner {
    pub fn new() -> (r: ManagerInner)
        ensures
            r.subnets@.len() == 0,
            r.status@ == "idle"@,
            r.method@.len() == 0,
            r.last_scan_unix is None,
            r.last_duration_ms is None,
            r.error is None,
    {
        ManagerInner {
            subnets: Vec::new(),
            status: String::from_str("idle"),
            method: String::new(),
            last_scan_unix: None,
            last_duration_ms: None,
            error: None,
        }
    }

    /// Start a scan unless one is running: overlapping scans are skipped.
    /// Returns whether the scan starts; it is then `scanning`, with no error.
    pub fn begin_scan(&mut self) -> (r: bool)
        ensures
            r == (old(self).status@ != "scanning"@),
            r ==> final(self).status@ == "scanning"@ && final(self).error is None
                && final(self).subnets == old(self).subnets && final(self).method
                == old(self).method && final(self).last_scan_unix == old(self).last_scan_unix
                && final(self).last_duration_ms == old(self).last_duration_ms,
            !r ==> *final(self) == *old(self),
    {
        if self.status == String::from_str("scanning") {
            return false;
        }
        self.status = String::from_str("scanning");
        self.error = None;
        true
    }

    /// Record a finished scan round, completed at `now_unix` after
    /// `elapsed_ms`; the scanner is `idle` again.
    pub fn finish_scan(&mut self, round: ScanRound, now_unix: i64, elapsed_ms: u64)
        ensures
            final(self).subnets == round.subnets,
            final(self).status@ == "idle"@,
            final(self).method == round.method,
            final(self).last_scan_unix == Some(now_unix),
            final(self).last_duration_ms == Some(elapsed_ms),
            final(self).error == round.error,
    {
        self.subnets = round.subnets;
        self.status = String::from_str("idle");
        self.method = round.method;
        self.last_scan_unix = Some(now_unix);
        self.last_duration_ms = Some(elapsed_ms);
        self.error = round.error;
    }

    /// The state for the web UI: while a scan runs, the live progress; else
    /// the totals of the last scan.
    pub fn snapshot(&self, progress: &ScanProgress, self_ips: Vec<String>) -> (r: AppStateJson)
        requires
            sum_total(self.subnets@) <= usize::MAX,
            sum_used(self.subnets@) <= usize::MAX,
            sum_available(self.subnets@) <= usize::MAX,
        ensures
            ({
                let scanning = self.status@ == "scanning"@;
                let (phase, total, done, used) = progress@;
                &&& r.status == self.status
                &&& r.phase@ == phase
                &&& r.scanned == (if scanning {
                    done
                } else {
                    0
                })
                &&& r.total_ips == (if scanning {
                    total as nat
                } else {
                    sum_total(self.subnets@)
                })
                &&& r.used_total == (if scanning {
                    used as nat
                } else {
                    sum_used(self.subnets@)
                })
                &&& r.available_total == (if scanning {
                    if total >= used {
                        (total - used) as nat
                    } else {
                        0
                    }
                } else {
                    sum_available(self.subnets@)
                })
                &&& r.last_scan_unix == self.last_scan_unix
                &&& r.last_duration_ms == self.last_duration_ms
                &&& r.method == self.method
                &&& r.error == self.error
                &&& r.self_ips == self_ips
                &&& r.subnets@.len() == self.subnets@.len()
                &&& forall|i: int|
                    0 <= i < self.subnets@.len() ==> {
                        let a = #[trigger] self.subnets@[i];
                        let b = r.subnets@[i];
                        &&& b.cidr == a.cidr
                        &&& b.interface == a.interface
                        &&& b.hosts@ == a.hosts@
                        &&& b.total == a.total
                        &&& b.used == a.used
                        &&& b.available == a.available
                    }
            }),
    {
        let (phase, done, total, used) = progress.snapshot();
        let scanning = self.status == String::from_str("scanning");
        let mut st: usize = 0;
        let mut su: usize = 0;
        let mut sa: usize = 0;
        let mut subnets: Vec<SubnetState> = Vec::new();
        let n = self.subnets.len();
        let mut i: usize = 0;
        while i < n
            invariant
                n == self.subnets@.len(),
                i <= n,
                sum_total(self.subnets@) <= usize::MAX,
                sum_used(self.subnets@) <= usize::MAX,
                sum_available(self.subnets@) <= usize::MAX,
                st == sum_total(self.subnets@.take(i as int)),
                su == sum_used(self.subnets@.take(i as int)),
                sa == sum_available(self.subnets@.take(i as int)),
                subnets@.len() == i,
                forall|k: int|
                    0 <= k < i ==> {
                        let a = #[trigger] self.subnets@[k];
                        let b = subnets@[k];
                        &&& b.cidr == a.cidr
                        &&& b.interface == a.interface
                        &&& b.hosts@ == a.hosts@
                        &&& b.total == a.total
                        &&& b.used == a.used
                        &&& b.available == a.available
                    },
            decreases n - i,
        {
            assert(self.subnets@.take(i + 1).drop_last() =~= self.subnets@.take(i as int));
            proof {
                lemma_sums_monotone(self.subnets@, i + 1);
            }
            let s = &self.subnets[i];
            st = st + s.total;
            su = su + s.used;
            sa = sa + s.available;
            subnets.push(clone_subnet_state(s));
            i = i + 1;
        }
        assert(self.subnets@.take(n as int) =~= self.subnets@);
        AppStateJson {
            status: self.status.clone(),
            phase,
            scanned: if scanning {
                done
            } else {
                0
            },
            total_ips: if scanning {
                total
            } else {
                st
            },
            used_total: if scanning {
                used
            } else {
                su
            },
            available_total: if scanning {
                total.saturating_sub(used)
            } else {
                sa
            },
            last_scan_unix: self.last_scan_unix,
            last_duration_ms: self.last_duration_ms,
            method: self.method.clone(),
            error: clone_opt(&self.error),
            self_ips,
            subnets,
        }
    }
}

} // verus!
