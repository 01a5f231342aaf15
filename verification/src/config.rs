use vstd::prelude::*;

use crate::addr::Ipv4Net;
use crate::text::{push_char, push_str};

verus! {

/// Command-line options; every one left out keeps the configured value.
#[derive(Debug)]
pub struct Cli {
    /// Path to a TOML config file (defaults to ./config.toml if present)
    pub config: Option<String>,
    /// Web server bind address, e.g. 0.0.0.0:8080
    pub bind: Option<String>,
    /// Seconds between automatic scans
    pub interval: Option<u64>,
    /// Subnets in CIDR form to scan, e.g. 192.168.1.0/24
    pub subnets: Vec<String>,
    /// Scan method: auto | arp | tcp
    pub method: Option<String>,
    /// Per-host probe timeout in milliseconds
    pub timeout_ms: Option<u64>,
    /// Max concurrent probes during TCP scan
    pub concurrency: Option<usize>,
    /// Attempt OS fingerprinting of used hosts (TTL + open ports)
    pub detect_os: Option<bool>,
}

#[derive(Clone, Copy, Debug, PartialEq, Eq, Structural)]
pub enum ScanMethod {
    Auto,
    Arp,
    Tcp,
}

impl Default for ScanMethod {
    fn default() -> (r: ScanMethod)
        ensures
            r == ScanMethod::Auto,
    {
        ScanMethod::Auto
    }
}

/// ASCII lower-casing of one character; other characters are unchanged.
pub open spec fn lower_char(c: char) -> char {
    if 'A' <= c && c <= 'Z' {
        ((c as u32) + 32) as char
    } else {
        c
    }
}

/// ASCII lower-casing of a string.
pub open spec fn ascii_lower(s: Seq<char>) -> Seq<char> {
    s.map_values(|c: char| lower_char(c))
}

/// The error text for an unrecognised scan method (given lower-cased).
pub open spec fn unknown_method_message(lower: Seq<char>) -> Seq<char> {
    "unknown scan method '"@ + lower + "' (use auto, arp or tcp)"@
}

/// What `ScanMethod::parse` gives for a string: the method it names,
/// compared without regard to ASCII case.
pub open spec fn method_parse(s: Seq<char>) -> Result<ScanMethod, Seq<char>> {
    let l = ascii_lower(s);
    if l == "auto"@ {
        Ok(ScanMethod::Auto)
    } else if l == "arp"@ {
        Ok(ScanMethod::Arp)
    } else if l == "tcp"@ {
        Ok(ScanMethod::Tcp)
    } else {
        Err(unknown_method_message(l))
    }
}

fn lower_char_exec(c: char) -> (r: char)
    ensures
        r == lower_char(c),
{
    if 'A' <= c && c <= 'Z' {
        let b = (c as u8) + 32;
        b as char
    } else {
        c
    }
}

/// ASCII lower-casing (std's `str::to_ascii_lowercase`).
pub fn to_ascii_lowercase(s: &str) -> (r: String)
    ensures
        r@ == ascii_lower(s@),
{
    let mut out = String::new();
    let n = s.unicode_len();
    let mut i: usize = 0;
    while i < n
        invariant
            n == s@.len(),
            i <= n,
            out@ == ascii_lower(s@.take(i as int)),
        decreases n - i,
    {
        let c = s.get_char(i);
        push_char(&mut out, lower_char_exec(c));
        assert(ascii_lower(s@.take(i + 1)) =~= ascii_lower(s@.take(i as int)).push(lower_char(c)));
        i = i + 1;
    }
    assert(s@.take(n as int) =~= s@);
    out
}

impl ScanMethod {
    /// Parses a scan method name, ignoring ASCII case.
    pub fn parse(s: &str) -> (r: Result<Self, String>)
        ensures
            match r {
                Ok(m) => method_parse(s@) == Ok::<ScanMethod, Seq<char>>(m),
                Err(e) => method_parse(s@) == Err::<ScanMethod, Seq<char>>(e@),
            },
    {
        let l = to_ascii_lowercase(s);
        if l == String::from_str("auto") {
            Ok(ScanMethod::Auto)
        } else if l == String::from_str("arp") {
            Ok(ScanMethod::Arp)
        } else if l == String::from_str("tcp") {
            Ok(ScanMethod::Tcp)
        } else {
            let mut msg = String::from_str("unknown scan method '");
            push_str(&mut msg, l.as_str());
            push_str(&mut msg, "' (use auto, arp or tcp)");
            Err(msg)
        }
    }
}

/// Parsing a method name ignores ASCII case: a name and its lower-cased
/// form parse alike.
pub proof fn lemma_parse_ignores_case(s: Seq<char>)
    ensures
        method_parse(s) == method_parse(ascii_lower(s)),
{
    assert(ascii_lower(ascii_lower(s)) =~= ascii_lower(s));
}

/// `s` spells `word` (lower-case letters) with any letter possibly in upper
/// case.
pub open spec fn case_variant(s: Seq<char>, word: Seq<char>) -> bool {
    &&& s.len() == word.len()
    &&& forall|i: int|
        0 <= i < s.len() ==> #[trigger] s[i] == word[i] || s[i] as int + 32 == word[i] as int
}

proof fn lemma_lower_is_word(s: Seq<char>, word: Seq<char>)
    requires
        forall|i: int| 0 <= i < word.len() ==> 'a' as int <= #[trigger] word[i] as int <= 'z' as int,
    ensures
        ascii_lower(s) == word <==> case_variant(s, word),
{
    let l = ascii_lower(s);
    assert forall|i: int| 0 <= i < s.len() implies #[trigger] l[i] == lower_char(s[i]) by {}
    if case_variant(s, word) {
        assert forall|i: int| 0 <= i < s.len() implies l[i] == word[i] by {
            assert(l[i] == lower_char(s[i]));
            if s[i] != word[i] {
                assert(s[i] as int + 32 == word[i] as int);
                assert('A' <= s[i] && s[i] <= 'Z');
            }
        }
        assert(l =~= word);
    }
    if l == word {
        assert forall|i: int| 0 <= i < s.len() implies #[trigger] s[i] == word[i] || s[i] as int + 32
            == word[i] as int by {
            assert(l[i] == word[i]);
        }
    }
}

/// A method name parses to its method in any mix of ASCII case: "auto",
/// "arp" and "tcp", each letter lower or upper case; any other string is
/// an error.
pub proof fn lemma_method_names(s: Seq<char>)
    ensures
        case_variant(s, "auto"@) ==> method_parse(s) == Ok::<ScanMethod, Seq<char>>(ScanMethod::Auto),
        case_variant(s, "arp"@) ==> method_parse(s) == Ok::<ScanMethod, Seq<char>>(ScanMethod::Arp),
        case_variant(s, "tcp"@) ==> method_parse(s) == Ok::<ScanMethod, Seq<char>>(ScanMethod::Tcp),
        !case_variant(s, "auto"@) && !case_variant(s, "arp"@) && !case_variant(s, "tcp"@) ==> method_parse(
            s,
        ) is Err,
{
    reveal_strlit("auto");
    reveal_strlit("arp");
    reveal_strlit("tcp");
    lemma_lower_is_word(s, "auto"@);
    lemma_lower_is_word(s, "arp"@);
    lemma_lower_is_word(s, "tcp"@);
    assert("tcp"@ != "arp"@) by {
        assert("tcp"@[0] != "arp"@[0]);
    }
}

/// `max_u64` is the larger of its arguments.
pub proof fn lemma_max_u64(a: u64, b: u64)
    ensures
        max_u64(a, b) >= a,
        max_u64(a, b) >= b,
        max_u64(a, b) == a || max_u64(a, b) == b,
{
}

pub open spec fn default_ports() -> Seq<u16> {
    seq![22u16, 53, 80, 111, 123, 135, 139, 443, 445, 631, 993, 3389, 5900, 8080, 8443, 9100]
}

#[derive(Debug)]
pub struct Config {
    pub bind: String,
    pub scan_interval_secs: u64,
    pub subnets: Vec<String>,
    pub method: ScanMethod,
    pub timeout_ms: u64,
    pub concurrency: usize,
    pub ports: Vec<u16>,
    pub detect_os: bool,
}

pub open spec fn is_default_config(c: Config) -> bool {
    &&& c.bind@ == "127.0.0.1:8080"@
    &&& c.scan_interval_secs == 10
    &&& c.subnets@.len() == 0
    &&& c.method == ScanMethod::Auto
    &&& c.timeout_ms == 100
    &&& c.concurrency == 256
    &&& c.ports@ == default_ports()
    &&& c.detect_os
}

fn default_port_list() -> (r: Vec<u16>)
    ensures
        r@ == default_ports(),
{
    let mut v: Vec<u16> = Vec::new();
    v.push(22);
    v.push(53);
    v.push(80);
    v.push(111);
    v.push(123);
    v.push(135);
    v.push(139);
    v.push(443);
    v.push(445);
    v.push(631);
    v.push(993);
    v.push(3389);
    v.push(5900);
    v.push(8080);
    v.push(8443);
    v.push(9100);
    assert(v@ =~= default_ports());
    v
}

impl Default for Config {
    fn default() -> (r: Config)
        ensures
            is_default_config(r),
    {
        Config {
            bind: String::from_str("127.0.0.1:8080"),
            scan_interval_secs: 10,
            subnets: Vec::new(),
            method: ScanMethod::Auto,
            timeout_ms: 100,
            concurrency: 256,
            ports: default_port_list(),
            detect_os: true,
        }
    }
}

pub open spec fn max_u64(a: u64, b: u64) -> u64 {
    if a >= b { a } else { b }
}

pub open spec fn or_keep<T>(o: Option<T>, keep: T) -> T {
    match o {
        Some(v) => v,
        None => keep,
    }
}

impl Config {
    /// Apply the command-line overrides to a configuration (read from the
    /// config file, or the defaults), then clamp the settings: at least one
    /// second between scans, a probe timeout of at least 50 ms, a
    /// concurrency of at least one, and the default ports when none are
    /// configured. An unknown scan method on the command line is an error.
    pub fn load(base: Config, cli: Cli) -> (r: Result<Config, String>)
        ensures
            r is Err <==> (cli.method matches Some(m) && method_parse(m@) is Err),
            r matches Err(e) ==> (cli.method matches Some(m) && method_parse(m@)
                == Err::<ScanMethod, Seq<char>>(e@)),
            r matches Ok(c) ==> c.scan_interval_secs >= 1 && c.timeout_ms >= 50 && c.concurrency
                >= 1 && c.ports@.len() > 0,
            r matches Ok(c) ==> {
                &&& c.bind@ == (match cli.bind {
                    Some(b) => b@,
                    None => base.bind@,
                })
                &&& c.scan_interval_secs == max_u64(or_keep(cli.interval, base.scan_interval_secs), 1)
                &&& c.subnets@ == (if cli.subnets@.len() > 0 {
                    cli.subnets@
                } else {
                    base.subnets@
                })
                &&& c.method == (match cli.method {
                    Some(m) => method_parse(m@)->Ok_0,
                    None => base.method,
                })
                &&& c.timeout_ms == max_u64(or_keep(cli.timeout_ms, base.timeout_ms), 50)
                &&& c.concurrency as u64 == max_u64(
                    or_keep(cli.concurrency, base.concurrency) as u64,
                    1,
                )
                &&& c.ports@ == (if base.ports@.len() > 0 {
                    base.ports@
                } else {
                    default_ports()
                })
                &&& c.detect_os == or_keep(cli.detect_os, base.detect_os)
            },
    {
        let mut cfg = base;
        if let Some(bind) = cli.bind {
            cfg.bind = bind;
        }
        if let Some(interval) = cli.interval {
            cfg.scan_interval_secs = interval;
        }
        if cli.subnets.len() > 0 {
            cfg.subnets = cli.subnets;
        }
        if let Some(method) = cli.method {
            match ScanMethod::parse(method.as_str()) {
                Ok(m) => {
                    cfg.method = m;
                },
                Err(e) => {
                    return Err(e);
                },
            }
        }
        if let Some(timeout) = cli.timeout_ms {
            cfg.timeout_ms = timeout;
        }
        if let Some(concurrency) = cli.concurrency {
            cfg.concurrency = concurrency;
        }
        if let Some(detect_os) = cli.detect_os {
            cfg.detect_os = detect_os;
        }
        if cfg.scan_interval_secs < 1 {
            cfg.scan_interval_secs = 1;
        }
        if cfg.timeout_ms < 50 {
            cfg.timeout_ms = 50;
        }
        if cfg.concurrency < 1 {
            cfg.concurrency = 1;
        }
        if cfg.ports.len() == 0 {
            cfg.ports = Config::default().ports;
        }
        Ok(cfg)
    }
}

/// What ipnetwork's `Ipv4Network::from_str` gives for a string: the address
/// and prefix of the network, or the text of its error.
pub uninterp spec fn cidr_parse(s: Seq<char>) -> Result<(u32, u8), Seq<char>>;

/// Parses CIDR text with ipnetwork's `Ipv4Network::from_str`. The result is
/// `cidr_parse` of the text; ipnetwork refuses a prefix longer than 32 bits
/// (`Ipv4Network::new`), so a parsed network is well formed.
#[verifier::external_body]
fn parse_ipv4_network(s: &str) -> (r: Result<Ipv4Net, String>)
    ensures
        match r {
            Ok(n) => cidr_parse(s@) == Ok::<(u32, u8), Seq<char>>((n.addr, n.prefix)) && n.wf(),
            Err(e) => cidr_parse(s@) == Err::<(u32, u8), Seq<char>>(e@),
        },
{
    match s.parse::<ipnetwork::Ipv4Network>() {
        Ok(n) => Ok(Ipv4Net { addr: u32::from(n.ip()), prefix: n.prefix() }),
        Err(e) => Err(e.to_string()),
    }
}

pub open spec fn invalid_subnet_message(cidr: Seq<char>, err: Seq<char>) -> Seq<char> {
    "invalid subnet '"@ + cidr + "': "@ + err
}

pub open spec fn no_subnet_message() -> Seq<char> {
    "no subnet to scan. Use --subnet <CIDR> or add `subnets = [...]` to config.toml"@
}

/// The subnets that configured CIDR texts give: each parsed in turn, the
/// first failure ending the list with its message.
pub open spec fn parse_subnets(cidrs: Seq<String>) -> Result<Seq<Ipv4Net>, Seq<char>>
    decreases cidrs.len(),
{
    if cidrs.len() == 0 {
        Ok(Seq::empty())
    } else {
        match parse_subnets(cidrs.drop_last()) {
            Err(e) => Err(e),
            Ok(nets) => match cidr_parse(cidrs.last()@) {
                Ok((a, p)) => Ok(nets.push(Ipv4Net { addr: a, prefix: p })),
                Err(e) => Err(invalid_subnet_message(cidrs.last()@, e)),
            },
        }
    }
}

/// The subnets to scan: the configured ones, or the detected ones when
/// none is configured; none at all is an error.
pub open spec fn resolve_subnets_spec(configured: Seq<String>, detected: Seq<Ipv4Net>) -> Result<
    Seq<Ipv4Net>,
    Seq<char>,
> {
    let nets = if configured.len() == 0 {
        Ok(detected)
    } else {
        parse_subnets(configured)
    };
    match nets {
        Err(e) => Err(e),
        Ok(n) => if n.len() == 0 {
            Err(no_subnet_message())
        } else {
            Ok(n)
        },
    }
}

/// The outcome of parsing one configured CIDR text: the network, or the
/// error `invalid subnet '<text>': <parse error>`.
pub fn subnet_or_error(cidr: &str, parsed: Result<Ipv4Net, String>) -> (r: Result<Ipv4Net, String>)
    ensures
        match parsed {
            Ok(n) => r == Ok::<Ipv4Net, String>(n),
            Err(e) => r matches Err(m) && m@ == invalid_subnet_message(cidr@, e@),
        },
{
    match parsed {
        Ok(n) => Ok(n),
        Err(e) => {
            let mut msg = String::from_str("invalid subnet '");
            push_str(&mut msg, cidr);
            push_str(&mut msg, "': ");
            push_str(&mut msg, e.as_str());
            Err(msg)
        },
    }
}

impl Config {
    /// Resolve the list of subnets to scan: the configured CIDR texts, or,
    /// when none is configured, `detected` (the auto-detected subnets).
    pub fn resolve_subnets(&self, detected: Vec<Ipv4Net>) -> (r: Result<Vec<Ipv4Net>, String>)
        requires
            forall|i: int| 0 <= i < detected@.len() ==> (#[trigger] detected@[i]).wf(),
        ensures
            r matches Ok(n) ==> forall|i: int| 0 <= i < n@.len() ==> (#[trigger] n@[i]).wf(),
            match r {
                Ok(n) => resolve_subnets_spec(self.subnets@, detected@) == Ok::<
                    Seq<Ipv4Net>,
                    Seq<char>,
                >(n@),
                Err(e) => resolve_subnets_spec(self.subnets@, detected@) == Err::<
                    Seq<Ipv4Net>,
                    Seq<char>,
                >(e@),
            },
    {
        let nets = if self.subnets.len() == 0 {
            detected
        } else {
            let mut nets: Vec<Ipv4Net> = Vec::new();
            let n = self.subnets.len();
            let mut i: usize = 0;
            while i < n
                invariant
                    n == self.subnets@.len(),
                    i <= n,
                    parse_subnets(self.subnets@.take(i as int)) == Ok::<
                        Seq<Ipv4Net>,
                        Seq<char>,
                    >(nets@),
                    forall|k: int| 0 <= k < nets@.len() ==> (#[trigger] nets@[k]).wf(),
                decreases n - i,
            {
                let cidr = &self.subnets[i];
                assert(self.subnets@.take(i + 1).drop_last() =~= self.subnets@.take(i as int));
                match subnet_or_error(cidr.as_str(), parse_ipv4_network(cidr.as_str())) {
                    Ok(net) => {
                        nets.push(net);
                    },
                    Err(msg) => {
                        proof {
                            lemma_parse_subnets_err_prefix(self.subnets@, i as int + 1);
                        }
                        return Err(msg);
                    },
                }
                i = i + 1;
            }
            assert(self.subnets@.take(n as int) =~= self.subnets@);
            nets
        };
        if nets.len() == 0 {
            return Err(String::from_str("no subnet to scan. Use --subnet <CIDR> or add `subnets = [...]` to config.toml"));
        }
        Ok(nets)
    }
}

/// A parse failure in a prefix of the list is the failure of the whole list.
proof fn lemma_parse_subnets_err_prefix(cidrs: Seq<String>, k: int)
    requires
        0 <= k <= cidrs.len(),
        parse_subnets(cidrs.take(k)) is Err,
    ensures
        parse_subnets(cidrs) == parse_subnets(cidrs.take(k)),
    decreases cidrs.len() - k,
{
    if k < cidrs.len() {
        assert(cidrs.take(k + 1).drop_last() =~= cidrs.take(k));
        lemma_parse_subnets_err_prefix(cidrs, k + 1);
    } else {
        assert(cidrs.take(k) =~= cidrs);
    }
}

} // verus!
