use vstd::prelude::*;

use crate::addr::{span, Ipv4Net};

verus! {

/// What the scanner reads of a network interface: its name, flags, hardware
/// address and IPv4 networks (in the order the system lists them).
#[derive(Debug)]
pub struct InterfaceInfo {
    pub name: String,
    pub is_loopback: bool,
    pub is_up: bool,
    pub mac: Option<[u8; 6]>,
    pub ipv4: Vec<Ipv4Net>,
}

/// Every IPv4 network of every interface is well formed.
pub open spec fn interfaces_wf(ifaces: Seq<InterfaceInfo>) -> bool {
    forall|i: int, j: int|
        0 <= i < ifaces.len() && 0 <= j < ifaces[i].ipv4@.len() ==> (#[trigger] ifaces[i].ipv4@[j]).wf()
}

/// Some IPv4 network of the interface holds `ip`.
pub open spec fn serves(iface: InterfaceInfo, ip: u32) -> bool {
    exists|j: int| 0 <= j < iface.ipv4@.len() && (#[trigger] iface.ipv4@[j]).contains_spec(ip)
}

/// Index of the first interface one of whose networks holds `ip`.
pub open spec fn first_serving(ifaces: Seq<InterfaceInfo>, ip: u32) -> Option<int> {
    if exists|i: int| 0 <= i < ifaces.len() && serves(#[trigger] ifaces[i], ip) {
        Some(
            choose|i: int|
                0 <= i < ifaces.len() && serves(#[trigger] ifaces[i], ip) && forall|k: int|
                    0 <= k < i ==> !serves(#[trigger] ifaces[k], ip),
        )
    } else {
        None
    }
}

fn serves_exec(iface: &InterfaceInfo, ip: u32) -> (r: bool)
    requires
        forall|j: int| 0 <= j < iface.ipv4@.len() ==> (#[trigger] iface.ipv4@[j]).wf(),
    ensures
        r == serves(*iface, ip),
{
    let n = iface.ipv4.len();
    let mut j: usize = 0;
    while j < n
        invariant
            n == iface.ipv4@.len(),
            j <= n,
            forall|k: int| 0 <= k < n ==> (#[trigger] iface.ipv4@[k]).wf(),
            forall|k: int| 0 <= k < j ==> !(#[trigger] iface.ipv4@[k]).contains_spec(ip),
        decreases n - j,
    {
        if iface.ipv4[j].contains(ip) {
            return true;
        }
        j = j + 1;
    }
    false
}

/// Find the interface whose subnet contains `ip`: the index of the first
/// interface with an IPv4 network that holds `ip`.
pub fn interface_for_ip(ifaces: &Vec<InterfaceInfo>, ip: u32) -> (r: Option<usize>)
    requires
        interfaces_wf(ifaces@),
    ensures
        match r {
            Some(i) => i < ifaces@.len() && first_serving(ifaces@, ip) == Some(i as int),
            None => first_serving(ifaces@, ip) is None,
        },
{
    let n = ifaces.len();
    let mut i: usize = 0;
    while i < n
        invariant
            n == ifaces@.len(),
            i <= n,
            interfaces_wf(ifaces@),
            forall|k: int| 0 <= k < i ==> !serves(#[trigger] ifaces@[k], ip),
        decreases n - i,
    {
        assert forall|j: int| 0 <= j < ifaces@[i as int].ipv4@.len() implies (#[trigger] ifaces@[i as int].ipv4@[j]).wf() by {
            assert(ifaces@[i as int].ipv4@[j].wf());
        }
        if serves_exec(&ifaces[i], ip) {
            proof {
                assert(0 <= i < ifaces@.len() && serves(ifaces@[i as int], ip) && forall|m: int|
                        0 <= m < i ==> !serves(#[trigger] ifaces@[m], ip));
                let c = choose|k: int|
                    0 <= k < ifaces@.len() && serves(#[trigger] ifaces@[k], ip) && forall|m: int|
                        0 <= m < k ==> !serves(#[trigger] ifaces@[m], ip);
                assert(c == i) by {
                    if c < i {
                        assert(!serves(ifaces@[c], ip));
                    }
                    if c > i {
                        assert(!serves(ifaces@[i as int], ip));
                    }
                }
            }
            return Some(i);
        }
        i = i + 1;
    }
    None
}

/// The IPv4 source address to use when scanning on an interface: the
/// address of its first IPv4 network.
pub fn source_ip(iface: &InterfaceInfo) -> (r: Option<u32>)
    ensures
        iface.ipv4@.len() == 0 ==> r is None,
        iface.ipv4@.len() > 0 ==> r == Some(iface.ipv4@[0].addr),
{
    if iface.ipv4.len() == 0 {
        None
    } else {
        Some(iface.ipv4[0].addr)
    }
}

/// Interface name for a subnet (used for display): the name of the first
/// interface serving the subnet's address.
pub fn interface_name_for_subnet(ifaces: &Vec<InterfaceInfo>, net: &Ipv4Net) -> (r: Option<String>)
    requires
        interfaces_wf(ifaces@),
    ensures
        match first_serving(ifaces@, net.addr) {
            Some(i) => r matches Some(s) && s@ == ifaces@[i].name@,
            None => r is None,
        },
{
    match interface_for_ip(ifaces, net.addr) {
        Some(i) => Some(ifaces[i].name.clone()),
        None => None,
    }
}

/// A private IPv4 address (RFC 1918, as std's `Ipv4Addr::is_private`):
/// 10.0.0.0/8, 172.16.0.0/12 or 192.168.0.0/16.
pub open spec fn is_private_spec(ip: u32) -> bool {
    let a = ip as nat / 0x100_0000;
    let b = (ip as nat / 0x1_0000) % 256;
    a == 10 || (a == 172 && 16 <= b && b < 32) || (a == 192 && b == 168)
}

/// The private addresses are those of the networks 10.0.0.0/8,
/// 172.16.0.0/12 and 192.168.0.0/16.
pub proof fn lemma_private_networks(ip: u32)
    ensures
        is_private_spec(ip) <==> (Ipv4Net { addr: 0x0a00_0000, prefix: 8 }.contains_spec(ip)
            || Ipv4Net { addr: 0xac10_0000, prefix: 12 }.contains_spec(ip) || Ipv4Net {
            addr: 0xc0a8_0000,
            prefix: 16,
        }.contains_spec(ip)),
{
    assert(span(24) == 0x100_0000 && span(20) == 0x10_0000 && span(16) == 0x1_0000) by {
        reveal_with_fuel(span, 25);
    }
    let x = ip as int;
    assert(x / 0x100_0000 == (x / 0x1_0000) / 256);
    assert(x / 0x10_0000 == (x / 0x1_0000) / 16);
    let q = x / 0x1_0000;
    assert(q == (q / 256) * 256 + q % 256);
    assert(q / 16 == 0xac1 <==> (q / 256 == 172 && 16 <= q % 256 < 32));
    assert(q == 0xc0a8 <==> (q / 256 == 192 && q % 256 == 168));
    let n8 = Ipv4Net { addr: 0x0a00_0000, prefix: 8 };
    let n12 = Ipv4Net { addr: 0xac10_0000, prefix: 12 };
    let n16 = Ipv4Net { addr: 0xc0a8_0000, prefix: 16 };
    assert(n8.size() == 0x100_0000 && n12.size() == 0x10_0000 && n16.size() == 0x1_0000);
    assert(n8.contains_spec(ip) <==> x / 0x100_0000 == 10);
    assert(n12.contains_spec(ip) <==> q / 16 == 0xac1);
    assert(n16.contains_spec(ip) <==> q == 0xc0a8);
    assert(is_private_spec(ip) <==> (x / 0x100_0000 == 10 || (q / 256 == 172 && 16 <= q % 256 < 32)
        || (q / 256 == 192 && q % 256 == 168)));
}

pub fn is_private(ip: u32) -> (r: bool)
    ensures
        r == is_private_spec(ip),
{
    let a = ip / 0x100_0000;
    let b = (ip / 0x1_0000) % 256;
    a == 10 || (a == 172 && 16 <= b && b < 32) || (a == 192 && b == 168)
}

/// A network worth scanning: a private address and a prefix of 1 to 30 bits.
pub open spec fn scannable(net: Ipv4Net) -> bool {
    is_private_spec(net.addr) && 0 < net.prefix && net.prefix <= 30
}

/// The scannable networks among `nets`, in order.
pub open spec fn scannable_nets(nets: Seq<Ipv4Net>) -> Seq<Ipv4Net>
    decreases nets.len(),
{
    if nets.len() == 0 {
        Seq::empty()
    } else if scannable(nets.last()) {
        scannable_nets(nets.drop_last()).push(nets.last())
    } else {
        scannable_nets(nets.drop_last())
    }
}

/// The scannable networks of the interfaces that are up and not loopback.
pub open spec fn candidates(ifaces: Seq<InterfaceInfo>) -> Seq<Ipv4Net>
    decreases ifaces.len(),
{
    if ifaces.len() == 0 {
        Seq::empty()
    } else {
        candidates(ifaces.drop_last()) + if !ifaces.last().is_loopback && ifaces.last().is_up {
            scannable_nets(ifaces.last().ipv4@)
        } else {
            Seq::empty()
        }
    }
}

/// The interfaces with (or without) the given name, in order.
pub open spec fn with_name(ifaces: Seq<InterfaceInfo>, name: Seq<char>, want: bool) -> Seq<
    InterfaceInfo,
>
    decreases ifaces.len(),
{
    if ifaces.len() == 0 {
        Seq::empty()
    } else if (ifaces.last().name@ == name) == want {
        with_name(ifaces.drop_last(), name, want).push(ifaces.last())
    } else {
        with_name(ifaces.drop_last(), name, want)
    }
}

/// Two networks are the same subnet: same network address and prefix.
pub open spec fn same_subnet(a: Ipv4Net, b: Ipv4Net) -> bool {
    a.network() == b.network() && a.prefix == b.prefix
}

/// `nets` with every network after the first of its subnet left out.
pub open spec fn first_of_each(nets: Seq<Ipv4Net>) -> Seq<Ipv4Net>
    decreases nets.len(),
{
    if nets.len() == 0 {
        Seq::empty()
    } else if exists|j: int| 0 <= j < nets.len() - 1 && same_subnet(#[trigger] nets[j], nets.last()) {
        first_of_each(nets.drop_last())
    } else {
        first_of_each(nets.drop_last()).push(nets.last())
    }
}

/// The subnets of the main LAN(s): the scannable networks of the usable
/// interfaces, those of the interface owning the default route first, each
/// subnet once.
pub open spec fn default_subnets(ifaces: Seq<InterfaceInfo>, default_name: Option<Seq<char>>) -> Seq<
    Ipv4Net,
> {
    match default_name {
        None => first_of_each(candidates(ifaces)),
        Some(n) => first_of_each(
            candidates(with_name(ifaces, n, true)) + candidates(with_name(ifaces, n, false)),
        ),
    }
}

proof fn lemma_first_of_each_has(nets: Seq<Ipv4Net>, x: Ipv4Net)
    ensures
        (exists|j: int| 0 <= j < nets.len() && same_subnet(#[trigger] nets[j], x)) <==> (exists|j: int|
            0 <= j < first_of_each(nets).len() && same_subnet(#[trigger] first_of_each(nets)[j], x)),
    decreases nets.len(),
{
    if nets.len() > 0 {
        let d = nets.drop_last();
        let last = nets.last();
        let fd = first_of_each(d);
        let f = first_of_each(nets);
        lemma_first_of_each_has(d, x);
        let in_nets = exists|j: int| 0 <= j < nets.len() && same_subnet(#[trigger] nets[j], x);
        let in_d = exists|j: int| 0 <= j < d.len() && same_subnet(#[trigger] d[j], x);
        let in_fd = exists|j: int| 0 <= j < fd.len() && same_subnet(#[trigger] fd[j], x);
        let in_f = exists|j: int| 0 <= j < f.len() && same_subnet(#[trigger] f[j], x);
        assert(in_nets <==> (in_d || same_subnet(last, x))) by {
            if in_nets {
                let j = choose|j: int| 0 <= j < nets.len() && same_subnet(#[trigger] nets[j], x);
                if j < nets.len() - 1 {
                    assert(same_subnet(d[j], x));
                }
            }
            if in_d {
                let j = choose|j: int| 0 <= j < d.len() && same_subnet(#[trigger] d[j], x);
                assert(same_subnet(nets[j], x));
            }
            if same_subnet(last, x) {
                assert(same_subnet(nets[nets.len() - 1], x));
            }
        }
        if exists|j: int| 0 <= j < nets.len() - 1 && same_subnet(#[trigger] nets[j], nets.last()) {
            let j = choose|j: int| 0 <= j < nets.len() - 1 && same_subnet(#[trigger] nets[j], nets.last());
            assert(f == fd);
            if same_subnet(last, x) {
                assert(same_subnet(d[j], x));
            }
        } else {
            assert(f == fd.push(last));
            assert(in_f <==> (in_fd || same_subnet(last, x))) by {
                if in_f {
                    let j = choose|j: int| 0 <= j < f.len() && same_subnet(#[trigger] f[j], x);
                    if j < f.len() - 1 {
                        assert(same_subnet(fd[j], x));
                    }
                }
                if in_fd {
                    let j = choose|j: int| 0 <= j < fd.len() && same_subnet(#[trigger] fd[j], x);
                    assert(same_subnet(f[j], x));
                }
                if same_subnet(last, x) {
                    assert(same_subnet(f[f.len() - 1], x));
                }
            }
        }
    }
}

/// Appends the networks of `nets` not yet among `out`, keeping `keys` the
/// subnet keys of `out`.
fn add_new_subnets(
    out: &mut Vec<Ipv4Net>,
    keys: &mut Vec<(u32, u8)>,
    nets: &Vec<Ipv4Net>,
    Ghost(before): Ghost<Seq<Ipv4Net>>,
)
    requires
        old(out)@ == first_of_each(before),
        old(keys)@.len() == old(out)@.len(),
        forall|j: int|
            0 <= j < old(out)@.len() ==> (#[trigger] old(keys)@[j]).0 == old(out)@[j].network()
                && old(keys)@[j].1 == old(out)@[j].prefix,
        forall|j: int| 0 <= j < nets@.len() ==> (#[trigger] nets@[j]).wf(),
    ensures
        final(out)@ == first_of_each(before + scannable_nets(nets@)),
        final(keys)@.len() == final(out)@.len(),
        forall|j: int|
            0 <= j < final(out)@.len() ==> (#[trigger] final(keys)@[j]).0
                == final(out)@[j].network() && final(keys)@[j].1 == final(out)@[j].prefix,
{
    let n = nets.len();
    let mut i: usize = 0;
    assert(before + scannable_nets(nets@.take(0)) =~= before);
    while i < n
        invariant
            n == nets@.len(),
            i <= n,
            forall|j: int| 0 <= j < nets@.len() ==> (#[trigger] nets@[j]).wf(),
            out@ == first_of_each(before + scannable_nets(nets@.take(i as int))),
            keys@.len() == out@.len(),
            forall|j: int|
                0 <= j < out@.len() ==> (#[trigger] keys@[j]).0 == out@[j].network() && keys@[j].1
                    == out@[j].prefix,
        decreases n - i,
    {
        let net = nets[i];
        assert(nets@.take(i + 1).drop_last() =~= nets@.take(i as int));
        let ghost s = before + scannable_nets(nets@.take(i as int));
        if is_private(net.addr) && net.prefix > 0 && net.prefix <= 30 {
            let key = (net.network_exec(), net.prefix);
            let mut found = false;
            let mut k: usize = 0;
            while k < keys.len()
                invariant
                    k <= keys@.len(),
                    keys@.len() == out@.len(),
                    forall|j: int|
                        0 <= j < out@.len() ==> (#[trigger] keys@[j]).0 == out@[j].network()
                            && keys@[j].1 == out@[j].prefix,
                    key.0 == net.network(),
                    key.1 == net.prefix,
                    found <==> exists|j: int| 0 <= j < k && same_subnet(#[trigger] out@[j], net),
                decreases keys@.len() - k,
            {
                assert(keys@[k as int].0 == out@[k as int].network() && keys@[k as int].1 == out@[k as int].prefix);
                if keys[k].0 == key.0 && keys[k].1 == key.1 {
                    found = true;
                }
                k = k + 1;
            }
            proof {
                lemma_first_of_each_has(s, net);
                assert(before + scannable_nets(nets@.take(i + 1)) =~= s.push(net));
                assert(s.push(net).drop_last() =~= s);
                if exists|j: int| 0 <= j < s.len() && same_subnet(#[trigger] s[j], net) {
                    let j = choose|j: int| 0 <= j < s.len() && same_subnet(#[trigger] s[j], net);
                    assert(same_subnet(s.push(net)[j], s.push(net).last()));
                }
                if exists|j: int| 0 <= j < s.push(net).len() - 1 && same_subnet(#[trigger] s.push(net)[j], s.push(net).last()) {
                    let j = choose|j: int| 0 <= j < s.push(net).len() - 1 && same_subnet(#[trigger] s.push(net)[j], s.push(net).last());
                    assert(same_subnet(s[j], net));
                }
            }
            if !found {
                out.push(net);
                keys.push(key);
            }
        } else {
            assert(before + scannable_nets(nets@.take(i + 1)) =~= s);
        }
        i = i + 1;
    }
    assert(nets@.take(n as int) =~= nets@);
}

proof fn lemma_candidates_step(ifaces: Seq<InterfaceInfo>, i: int)
    requires
        0 <= i < ifaces.len(),
    ensures
        candidates(ifaces.take(i + 1)) == candidates(ifaces.take(i)) + if !ifaces[i].is_loopback
            && ifaces[i].is_up {
            scannable_nets(ifaces[i].ipv4@)
        } else {
            Seq::empty()
        },
{
    assert(ifaces.take(i + 1).drop_last() =~= ifaces.take(i));
}

proof fn lemma_with_name_step(ifaces: Seq<InterfaceInfo>, i: int, name: Seq<char>, want: bool)
    requires
        0 <= i < ifaces.len(),
    ensures
        with_name(ifaces.take(i + 1), name, want) == if (ifaces[i].name@ == name) == want {
            with_name(ifaces.take(i), name, want).push(ifaces[i])
        } else {
            with_name(ifaces.take(i), name, want)
        },
{
    assert(ifaces.take(i + 1).drop_last() =~= ifaces.take(i));
}

proof fn lemma_candidates_push(s: Seq<InterfaceInfo>, x: InterfaceInfo)
    ensures
        candidates(s.push(x)) == candidates(s) + if !x.is_loopback && x.is_up {
            scannable_nets(x.ipv4@)
        } else {
            Seq::empty()
        },
{
    assert(s.push(x).drop_last() =~= s);
}

/// Return the IPv4 subnet(s) of the "main" LAN(s) to scan (see
/// `default_subnets`), given the interfaces and the name of the interface
/// owning the default route.
pub fn detect_default_subnets(ifaces: &Vec<InterfaceInfo>, default_name: &Option<String>) -> (r: Vec<
    Ipv4Net,
>)
    requires
        interfaces_wf(ifaces@),
    ensures
        r@ == default_subnets(
            ifaces@,
            match default_name {
                Some(s) => Some(s@),
                None => None,
            },
        ),
{
    let mut out: Vec<Ipv4Net> = Vec::new();
    let mut keys: Vec<(u32, u8)> = Vec::new();
    let n = ifaces.len();
    let ghost dn: Option<Seq<char>> = match default_name {
        Some(s) => Some(s@),
        None => None,
    };
    // First pass: the default-route interface (all of them when there is
    // no default route); second pass: the others.
    let mut pass: usize = 0;
    let ghost mut done: Seq<Ipv4Net> = Seq::empty();
    while pass < 2
        invariant
            n == ifaces@.len(),
            pass <= 2,
            interfaces_wf(ifaces@),
            dn == (match default_name {
                Some(s) => Some(s@),
                None => None::<Seq<char>>,
            }),
            out@ == first_of_each(done),
            keys@.len() == out@.len(),
            forall|j: int|
                0 <= j < out@.len() ==> (#[trigger] keys@[j]).0 == out@[j].network() && keys@[j].1
                    == out@[j].prefix,
            pass == 0 ==> done == Seq::<Ipv4Net>::empty(),
            pass == 1 ==> done == (match dn {
                None => candidates(ifaces@),
                Some(nm) => candidates(with_name(ifaces@, nm, true)),
            }),
            pass == 2 ==> done == (match dn {
                None => candidates(ifaces@),
                Some(nm) => candidates(with_name(ifaces@, nm, true)) + candidates(
                    with_name(ifaces@, nm, false),
                ),
            }),
        decreases 2 - pass,
    {
        if pass == 1 && default_name.is_none() {
            pass = 2;
            continue;
        }
        let ghost start = done;
        let ghost want = pass == 0;
        let mut i: usize = 0;
        while i < n
            invariant
                n == ifaces@.len(),
                i <= n,
                pass < 2,
                want == (pass == 0),
                interfaces_wf(ifaces@),
                dn == (match default_name {
                    Some(s) => Some(s@),
                    None => None::<Seq<char>>,
                }),
                pass == 1 ==> dn is Some,
                out@ == first_of_each(done),
                keys@.len() == out@.len(),
                forall|j: int|
                    0 <= j < out@.len() ==> (#[trigger] keys@[j]).0 == out@[j].network()
                        && keys@[j].1 == out@[j].prefix,
                done == start + (match dn {
                    None => candidates(ifaces@.take(i as int)),
                    Some(nm) => candidates(with_name(ifaces@.take(i as int), nm, want)),
                }),
            decreases n - i,
        {
            let iface = &ifaces[i];
            let selected = match default_name {
                None => true,
                Some(name) => (iface.name == *name) == (pass == 0),
            };
            proof {
                lemma_candidates_step(ifaces@, i as int);
                if let Some(nm) = dn {
                    lemma_with_name_step(ifaces@, i as int, nm, want);
                    lemma_candidates_push(with_name(ifaces@.take(i as int), nm, want), ifaces@[i as int]);
                }
            }
            if selected && !iface.is_loopback && iface.is_up {
                assert forall|j: int| 0 <= j < iface.ipv4@.len() implies (#[trigger] iface.ipv4@[j]).wf() by {
                    assert(ifaces@[i as int].ipv4@[j].wf());
                }
                add_new_subnets(&mut out, &mut keys, &iface.ipv4, Ghost(done));
                proof {
                    assert(start + (match dn {
                        None => candidates(ifaces@.take(i + 1)),
                        Some(nm) => candidates(with_name(ifaces@.take(i + 1), nm, want)),
                    }) =~= done + scannable_nets(iface.ipv4@));
                    done = done + scannable_nets(iface.ipv4@);
                }
            } else {
                proof {
                    assert(start + (match dn {
                        None => candidates(ifaces@.take(i + 1)),
                        Some(nm) => candidates(with_name(ifaces@.take(i + 1), nm, want)),
                    }) =~= done);
                }
            }
            i = i + 1;
        }
        assert(ifaces@.take(n as int) =~= ifaces@);
        if default_name.is_none() {
            pass = 2;
        } else {
            pass = pass + 1;
        }
    }
    out
}

proof fn lemma_first_of_each_props(s: Seq<Ipv4Net>)
    ensures
        forall|i: int, j: int|
            0 <= i < j < first_of_each(s).len() ==> !same_subnet(
                #[trigger] first_of_each(s)[i],
                #[trigger] first_of_each(s)[j],
            ),
        forall|i: int|
            0 <= i < first_of_each(s).len() ==> exists|k: int|
                0 <= k < s.len() && #[trigger] first_of_each(s)[i] == s[k],
    decreases s.len(),
{
    if s.len() > 0 {
        let d = s.drop_last();
        lemma_first_of_each_props(d);
        let f = first_of_each(s);
        let fd = first_of_each(d);
        assert forall|i: int| 0 <= i < fd.len() implies exists|k: int|
            0 <= k < s.len() && #[trigger] fd[i] == s[k] by {
            let k = choose|k: int| 0 <= k < d.len() && fd[i] == d[k];
            assert(fd[i] == s[k]);
        }
        if !(exists|j: int| 0 <= j < s.len() - 1 && same_subnet(#[trigger] s[j], s.last())) {
            lemma_first_of_each_has(d, s.last());
            assert(f == fd.push(s.last()));
            assert forall|i: int, j: int| 0 <= i < j < f.len() implies !same_subnet(
                #[trigger] f[i],
                #[trigger] f[j],
            ) by {
                if j == f.len() - 1 {
                    if same_subnet(f[i], f[j]) {
                        assert(same_subnet(fd[i], s.last()));
                    }
                } else {
                    assert(f[i] == fd[i] && f[j] == fd[j]);
                }
            }
            assert forall|i: int| 0 <= i < f.len() implies exists|k: int|
                0 <= k < s.len() && #[trigger] f[i] == s[k] by {
                if i == f.len() - 1 {
                    assert(f[i] == s[s.len() - 1]);
                } else {
                    assert(f[i] == fd[i]);
                }
            }
        }
    }
}

proof fn lemma_scannable_nets(nets: Seq<Ipv4Net>)
    ensures
        forall|i: int| 0 <= i < scannable_nets(nets).len() ==> scannable(#[trigger] scannable_nets(nets)[i]),
    decreases nets.len(),
{
    if nets.len() > 0 {
        lemma_scannable_nets(nets.drop_last());
        let a = scannable_nets(nets.drop_last());
        let c = scannable_nets(nets);
        assert forall|i: int| 0 <= i < c.len() implies scannable(#[trigger] c[i]) by {
            if i < a.len() {
                assert(c[i] == a[i]);
            }
        }
    }
}

proof fn lemma_candidates_scannable(ifaces: Seq<InterfaceInfo>)
    ensures
        forall|i: int| 0 <= i < candidates(ifaces).len() ==> scannable(#[trigger] candidates(ifaces)[i]),
    decreases ifaces.len(),
{
    if ifaces.len() > 0 {
        lemma_candidates_scannable(ifaces.drop_last());
        lemma_scannable_nets(ifaces.last().ipv4@);
        let a = candidates(ifaces.drop_last());
        let c = candidates(ifaces);
        assert forall|i: int| 0 <= i < c.len() implies scannable(#[trigger] c[i]) by {
            if i < a.len() {
                assert(c[i] == a[i]);
            } else {
                assert(c[i] == scannable_nets(ifaces.last().ipv4@)[i - a.len()]);
            }
        }
    }
}

/// The detected subnets are all scannable (private, prefix 1 to 30) and
/// name each subnet at most once.
pub proof fn lemma_default_subnets_distinct(ifaces: Seq<InterfaceInfo>, default_name: Option<Seq<char>>)
    ensures
        forall|i: int, j: int|
            0 <= i < j < default_subnets(ifaces, default_name).len() ==> !same_subnet(
                #[trigger] default_subnets(ifaces, default_name)[i],
                #[trigger] default_subnets(ifaces, default_name)[j],
            ),
        forall|i: int|
            0 <= i < default_subnets(ifaces, default_name).len() ==> scannable(
                #[trigger] default_subnets(ifaces, default_name)[i],
            ),
{
    let s = match default_name {
        None => candidates(ifaces),
        Some(n) => candidates(with_name(ifaces, n, true)) + candidates(with_name(ifaces, n, false)),
    };
    lemma_first_of_each_props(s);
    match default_name {
        None => {
            lemma_candidates_scannable(ifaces);
        },
        Some(n) => {
            lemma_candidates_scannable(with_name(ifaces, n, true));
            lemma_candidates_scannable(with_name(ifaces, n, false));
            let a = candidates(with_name(ifaces, n, true));
            let b = candidates(with_name(ifaces, n, false));
            assert forall|k: int| 0 <= k < s.len() implies scannable(#[trigger] s[k]) by {
                if k < a.len() {
                    assert(s[k] == a[k]);
                } else {
                    assert(s[k] == b[k - a.len()]);
                }
            }
        },
    }
    let f = first_of_each(s);
    assert forall|i: int| 0 <= i < f.len() implies scannable(#[trigger] f[i]) by {
        let k = choose|k: int| 0 <= k < s.len() && f[i] == s[k];
        assert(scannable(s[k]));
    }
}

/// Some interface that is up and not loopback, and whose name is `name`
/// when one is given, lists the network `x`.
pub open spec fn usable_net(ifaces: Seq<InterfaceInfo>, x: Ipv4Net, name: Option<Seq<char>>) -> bool {
    exists|k: int, m: int|
        0 <= k < ifaces.len() && !ifaces[k].is_loopback && ifaces[k].is_up && 0 <= m
            < ifaces[k].ipv4@.len() && #[trigger] ifaces[k].ipv4@[m] == x && (name matches Some(n)
            ==> ifaces[k].name@ == n)
}

proof fn lemma_scannable_nets_has(nets: Seq<Ipv4Net>, x: Ipv4Net)
    ensures
        scannable_nets(nets).contains(x) <==> (nets.contains(x) && scannable(x)),
    decreases nets.len(),
{
    if nets.len() > 0 {
        let d = nets.drop_last();
        lemma_scannable_nets_has(d, x);
        let sd = scannable_nets(d);
        if nets.contains(x) && scannable(x) {
            let m = choose|m: int| 0 <= m < nets.len() && nets[m] == x;
            if m < nets.len() - 1 {
                assert(d[m] == x);
                if scannable(nets.last()) {
                    let i = choose|i: int| 0 <= i < sd.len() && sd[i] == x;
                    assert(scannable_nets(nets)[i] == x);
                }
            } else {
                assert(scannable_nets(nets) == sd.push(x));
                assert(scannable_nets(nets)[sd.len() as int] == x);
            }
        }
        if scannable_nets(nets).contains(x) {
            let i = choose|i: int| 0 <= i < scannable_nets(nets).len() && scannable_nets(nets)[i] == x;
            if scannable(nets.last()) && i == sd.len() {
                assert(nets[nets.len() - 1] == x);
            } else {
                assert(sd[i] == x);
                let m = choose|m: int| 0 <= m < d.len() && d[m] == x;
                assert(nets[m] == x);
            }
        }
    }
}

proof fn lemma_candidates_has(ifaces: Seq<InterfaceInfo>, x: Ipv4Net)
    ensures
        candidates(ifaces).contains(x) <==> (scannable(x) && usable_net(ifaces, x, None)),
    decreases ifaces.len(),
{
    if ifaces.len() > 0 {
        let d = ifaces.drop_last();
        let l = ifaces.last();
        let n = ifaces.len() - 1;
        lemma_candidates_has(d, x);
        lemma_scannable_nets_has(l.ipv4@, x);
        let cd = candidates(d);
        let tail = if !l.is_loopback && l.is_up {
            scannable_nets(l.ipv4@)
        } else {
            Seq::empty()
        };
        assert(candidates(ifaces) == cd + tail);
        if candidates(ifaces).contains(x) {
            let i = choose|i: int| 0 <= i < (cd + tail).len() && (cd + tail)[i] == x;
            if i < cd.len() {
                assert(cd[i] == x);
                let (k, m) = choose|k: int, m: int|
                    0 <= k < d.len() && !d[k].is_loopback && d[k].is_up && 0 <= m < d[k].ipv4@.len()
                        && #[trigger] d[k].ipv4@[m] == x;
                assert(ifaces[k] == d[k]);
                assert(ifaces[k].ipv4@[m] == x);
            } else {
                assert(tail[i - cd.len()] == x);
                let m = choose|m: int| 0 <= m < l.ipv4@.len() && l.ipv4@[m] == x;
                assert(ifaces[n].ipv4@[m] == x);
            }
        }
        if scannable(x) && usable_net(ifaces, x, None) {
            let (k, m) = choose|k: int, m: int|
                0 <= k < ifaces.len() && !ifaces[k].is_loopback && ifaces[k].is_up && 0 <= m
                    < ifaces[k].ipv4@.len() && #[trigger] ifaces[k].ipv4@[m] == x;
            if k < n {
                assert(d[k] == ifaces[k]);
                assert(d[k].ipv4@[m] == x);
                let i = choose|i: int| 0 <= i < cd.len() && cd[i] == x;
                assert((cd + tail)[i] == x);
            } else {
                assert(l.ipv4@[m] == x);
                assert(l.ipv4@.contains(x));
                let i = choose|i: int| 0 <= i < tail.len() && tail[i] == x;
                assert((cd + tail)[cd.len() + i] == x);
            }
        }
    }
}

proof fn lemma_with_name_has(ifaces: Seq<InterfaceInfo>, name: Seq<char>, want: bool)
    ensures
        forall|j: int|
            0 <= j < with_name(ifaces, name, want).len() ==> ifaces.contains(
                #[trigger] with_name(ifaces, name, want)[j],
            ) && (with_name(ifaces, name, want)[j].name@ == name) == want,
        forall|k: int|
            0 <= k < ifaces.len() && (#[trigger] ifaces[k].name@ == name) == want ==> with_name(
                ifaces,
                name,
                want,
            ).contains(ifaces[k]),
    decreases ifaces.len(),
{
    if ifaces.len() > 0 {
        let d = ifaces.drop_last();
        let w = with_name(d, name, want);
        lemma_with_name_has(d, name, want);
        let r = with_name(ifaces, name, want);
        assert forall|j: int| 0 <= j < r.len() implies ifaces.contains(#[trigger] r[j]) && (r[j].name@ == name)
            == want by {
            let last = ifaces.last();
            if (last.name@ == name) == want {
                assert(r == w.push(last));
            } else {
                assert(r == w);
            }
            if j < w.len() {
                assert(r[j] == w[j]);
                assert(d.contains(w[j]));
                let k = choose|k: int| 0 <= k < d.len() && d[k] == w[j];
                assert(ifaces[k] == d[k]);
                assert(0 <= k < ifaces.len() && ifaces[k] == r[j] && (ifaces[k].name@ == name) == want);
            } else {
                let k = ifaces.len() - 1;
                assert(r[j] == last);
                assert(ifaces[k] == last);
                assert(0 <= k < ifaces.len() && ifaces[k] == r[j] && (ifaces[k].name@ == name) == want);
            }
        }
        assert forall|k: int| 0 <= k < ifaces.len() && (#[trigger] ifaces[k].name@ == name) == want implies r.contains(
            ifaces[k],
        ) by {
            if k < ifaces.len() - 1 {
                assert(d[k] == ifaces[k]);
                assert(w.contains(d[k]));
                let i = choose|i: int| 0 <= i < w.len() && w[i] == d[k];
                assert(r[i] == w[i]);
            } else {
                assert(r[w.len() as int] == ifaces[k]);
            }
        }
    } else {
        assert(with_name(ifaces, name, want).len() == 0);
    }
}

/// The usable networks of the interfaces named `name` (or not) are the
/// usable networks of `ifaces` from interfaces named `name` (or not).
proof fn lemma_with_name_usable(ifaces: Seq<InterfaceInfo>, name: Seq<char>, want: bool, x: Ipv4Net)
    ensures
        usable_net(with_name(ifaces, name, want), x, None) <==> exists|k: int, m: int|
            0 <= k < ifaces.len() && !ifaces[k].is_loopback && ifaces[k].is_up && 0 <= m
                < ifaces[k].ipv4@.len() && #[trigger] ifaces[k].ipv4@[m] == x && (ifaces[k].name@
                == name) == want,
{
    lemma_with_name_has(ifaces, name, want);
    let w = with_name(ifaces, name, want);
    if usable_net(w, x, None) {
        let (j, m) = choose|j: int, m: int|
            0 <= j < w.len() && !w[j].is_loopback && w[j].is_up && 0 <= m < w[j].ipv4@.len()
                && #[trigger] w[j].ipv4@[m] == x;
        assert(ifaces.contains(w[j]));
        let k = choose|k: int| 0 <= k < ifaces.len() && ifaces[k] == w[j];
        assert(ifaces[k].ipv4@[m] == x);
    }
    if exists|k: int, m: int|
        0 <= k < ifaces.len() && !ifaces[k].is_loopback && ifaces[k].is_up && 0 <= m
            < ifaces[k].ipv4@.len() && #[trigger] ifaces[k].ipv4@[m] == x && (ifaces[k].name@ == name) == want {
        let (k, m) = choose|k: int, m: int|
            0 <= k < ifaces.len() && !ifaces[k].is_loopback && ifaces[k].is_up && 0 <= m
                < ifaces[k].ipv4@.len() && #[trigger] ifaces[k].ipv4@[m] == x && (ifaces[k].name@ == name) == want;
        assert((ifaces[k].name@ == name) == want);
        assert(w.contains(ifaces[k]));
        let j = choose|j: int| 0 <= j < w.len() && w[j] == ifaces[k];
        assert(w[j].ipv4@[m] == x);
    }
}

proof fn lemma_first_of_each_first(s: Seq<Ipv4Net>)
    requires
        s.len() > 0,
    ensures
        first_of_each(s).len() > 0,
        first_of_each(s)[0] == s[0],
    decreases s.len(),
{
    if s.len() > 1 {
        let d = s.drop_last();
        lemma_first_of_each_first(d);
        assert(d[0] == s[0]);
        if exists|j: int| 0 <= j < s.len() - 1 && same_subnet(#[trigger] s[j], s.last()) {
            assert(first_of_each(s) == first_of_each(d));
        } else {
            assert(first_of_each(s) == first_of_each(d).push(s.last()));
            assert(first_of_each(s)[0] == first_of_each(d)[0]);
        }
    } else {
        assert(!(exists|j: int| 0 <= j < s.len() - 1 && same_subnet(#[trigger] s[j], s.last())));
        assert(first_of_each(s.drop_last()) == Seq::<Ipv4Net>::empty());
        assert(first_of_each(s) == Seq::<Ipv4Net>::empty().push(s.last()));
        assert(s.last() == s[0]);
    }
}

/// Every private network (prefix 1 to 30) of an interface that is up and
/// not loopback is among the detected subnets, up to the same subnet; every
/// detected subnet is such a network; and when the interface owning the
/// default route has one, the first detected subnet is one of its own.
pub proof fn lemma_default_subnets_cover(ifaces: Seq<InterfaceInfo>, default_name: Option<Seq<char>>)
    ensures
        forall|x: Ipv4Net|
            scannable(x) && #[trigger] usable_net(ifaces, x, None) ==> exists|j: int|
                0 <= j < default_subnets(ifaces, default_name).len() && same_subnet(
                    #[trigger] default_subnets(ifaces, default_name)[j],
                    x,
                ),
        forall|j: int|
            0 <= j < default_subnets(ifaces, default_name).len() ==> usable_net(
                ifaces,
                #[trigger] default_subnets(ifaces, default_name)[j],
                None,
            ),
        (default_name is Some && exists|x: Ipv4Net| scannable(x) && #[trigger] usable_net(ifaces, x, default_name))
            ==> default_subnets(ifaces, default_name).len() > 0 && usable_net(
            ifaces,
            default_subnets(ifaces, default_name)[0],
            default_name,
        ),
{
    let s = match default_name {
        None => candidates(ifaces),
        Some(n) => candidates(with_name(ifaces, n, true)) + candidates(with_name(ifaces, n, false)),
    };
    let r = default_subnets(ifaces, default_name);
    assert(r == first_of_each(s));
    lemma_first_of_each_props(s);
    // What `s` holds: exactly the scannable usable networks.
    assert forall|x: Ipv4Net| #[trigger] s.contains(x) <==> (scannable(x) && usable_net(ifaces, x, None)) by {
        match default_name {
            None => {
                lemma_candidates_has(ifaces, x);
            },
            Some(n) => {
                let a = candidates(with_name(ifaces, n, true));
                let b = candidates(with_name(ifaces, n, false));
                lemma_candidates_has(with_name(ifaces, n, true), x);
                lemma_candidates_has(with_name(ifaces, n, false), x);
                lemma_with_name_usable(ifaces, n, true, x);
                lemma_with_name_usable(ifaces, n, false, x);
                if s.contains(x) {
                    let i = choose|i: int| 0 <= i < s.len() && s[i] == x;
                    if i < a.len() {
                        assert(a[i] == x);
                    } else {
                        assert(b[i - a.len()] == x);
                    }
                }
                if scannable(x) && usable_net(ifaces, x, None) {
                    let (k, m) = choose|k: int, m: int|
                        0 <= k < ifaces.len() && !ifaces[k].is_loopback && ifaces[k].is_up && 0 <= m
                            < ifaces[k].ipv4@.len() && #[trigger] ifaces[k].ipv4@[m] == x;
                    if ifaces[k].name@ == n {
                        let i = choose|i: int| 0 <= i < a.len() && a[i] == x;
                        assert(s[i] == x);
                    } else {
                        let i = choose|i: int| 0 <= i < b.len() && b[i] == x;
                        assert(s[a.len() + i] == x);
                    }
                }
            },
        }
    }
    assert forall|x: Ipv4Net| scannable(x) && #[trigger] usable_net(ifaces, x, None) implies exists|j: int|
        0 <= j < r.len() && same_subnet(#[trigger] r[j], x) by {
        assert(s.contains(x));
        let i = choose|i: int| 0 <= i < s.len() && s[i] == x;
        lemma_first_of_each_has(s, x);
        assert(same_subnet(s[i], x));
    }
    assert forall|j: int| 0 <= j < r.len() implies usable_net(ifaces, #[trigger] r[j], None) by {
        let k = choose|k: int| 0 <= k < s.len() && #[trigger] r[j] == s[k];
        assert(s.contains(r[j]));
    }
    if default_name is Some && exists|x: Ipv4Net| scannable(x) && #[trigger] usable_net(ifaces, x, default_name) {
        let n = default_name->0;
        let x = choose|x: Ipv4Net| scannable(x) && #[trigger] usable_net(ifaces, x, default_name);
        let a = candidates(with_name(ifaces, n, true));
        let b = candidates(with_name(ifaces, n, false));
        lemma_candidates_has(with_name(ifaces, n, true), x);
        lemma_with_name_usable(ifaces, n, true, x);
        let (k, m) = choose|k: int, m: int|
            0 <= k < ifaces.len() && !ifaces[k].is_loopback && ifaces[k].is_up && 0 <= m
                < ifaces[k].ipv4@.len() && #[trigger] ifaces[k].ipv4@[m] == x && (default_name matches Some(
                nn) ==> ifaces[k].name@ == nn);
        assert(ifaces[k].ipv4@[m] == x && (ifaces[k].name@ == n) == true);
        assert(a.contains(x));
        assert(a.len() > 0);
        lemma_first_of_each_first(s);
        assert(r[0] == a[0]);
        let y = a[0];
        lemma_candidates_has(with_name(ifaces, n, true), y);
        lemma_with_name_usable(ifaces, n, true, y);
        assert(a.contains(y));
        let (k2, m2) = choose|k: int, m: int|
            0 <= k < ifaces.len() && !ifaces[k].is_loopback && ifaces[k].is_up && 0 <= m
                < ifaces[k].ipv4@.len() && #[trigger] ifaces[k].ipv4@[m] == y && (ifaces[k].name@ == n) == true;
        assert(ifaces[k2].ipv4@[m2] == y);
    }
}

/// `char::is_whitespace`: the Unicode White_Space characters.
pub open spec fn is_ws(c: char) -> bool {
    let u = c as u32;
    (0x9 <= u && u <= 0xd) || u == 0x20 || u == 0x85 || u == 0xa0 || u == 0x1680 || (0x2000 <= u
        && u <= 0x200a) || u == 0x2028 || u == 0x2029 || u == 0x202f || u == 0x205f || u == 0x3000
}

fn is_ws_exec(c: char) -> (r: bool)
    ensures
        r == is_ws(c),
{
    let u = c as u32;
    (0x9 <= u && u <= 0xd) || u == 0x20 || u == 0x85 || u == 0xa0 || u == 0x1680 || (0x2000 <= u
        && u <= 0x200a) || u == 0x2028 || u == 0x2029 || u == 0x202f || u == 0x205f || u == 0x3000
}

/// Number of leading characters of `s` that satisfy `p`.
pub open spec fn run_len(s: Seq<char>, p: spec_fn(char) -> bool) -> nat
    decreases s.len(),
{
    if s.len() == 0 || !p(s[0]) {
        0
    } else {
        1 + run_len(s.drop_first(), p)
    }
}

pub open spec fn not_newline() -> spec_fn(char) -> bool {
    |c: char| c != '\n'
}

pub open spec fn whitespace() -> spec_fn(char) -> bool {
    |c: char| is_ws(c)
}

pub open spec fn non_whitespace() -> spec_fn(char) -> bool {
    |c: char| !is_ws(c)
}

/// `str::lines`: the text split at each `\n`, a `\r` just before the `\n`
/// removed, and no empty last line after a final `\n`.
pub open spec fn lines(t: Seq<char>) -> Seq<Seq<char>>
    decreases t.len(),
{
    if t.len() == 0 {
        Seq::empty()
    } else {
        let k = run_len(t, not_newline());
        if k >= t.len() {
            seq![t]
        } else {
            let line = t.take(k as int);
            let line = if k > 0 && line.last() == '\r' {
                line.drop_last()
            } else {
                line
            };
            seq![line] + lines(t.skip((k + 1) as int))
        }
    }
}

/// The first two whitespace-separated words of a line, if it has two.
pub open spec fn first_two_words(line: Seq<char>) -> Option<(Seq<char>, Seq<char>)> {
    let a = line.skip(run_len(line, whitespace()) as int);
    let w1 = a.take(run_len(a, non_whitespace()) as int);
    let b = a.skip(run_len(a, non_whitespace()) as int);
    let b = b.skip(run_len(b, whitespace()) as int);
    let w2 = b.take(run_len(b, non_whitespace()) as int);
    if a.len() == 0 || b.len() == 0 {
        None
    } else {
        Some((w1, w2))
    }
}

pub open spec fn hex_val(c: char) -> Option<nat> {
    if '0' <= c && c <= '9' {
        Some((c as u32 - '0' as u32) as nat)
    } else if 'a' <= c && c <= 'f' {
        Some((c as u32 - 'a' as u32 + 10) as nat)
    } else if 'A' <= c && c <= 'F' {
        Some((c as u32 - 'A' as u32 + 10) as nat)
    } else {
        None
    }
}

/// The value of a string of hex digits (`None` if one is not a hex digit).
pub open spec fn hex_digits_value(s: Seq<char>) -> Option<nat>
    decreases s.len(),
{
    if s.len() == 0 {
        Some(0)
    } else {
        match (hex_digits_value(s.drop_last()), hex_val(s.last())) {
            (Some(v), Some(d)) => Some(v * 16 + d),
            _ => None,
        }
    }
}

/// `u32::from_str_radix(s, 16)`: hex digits, optionally after a `+`, with
/// a value that fits in 32 bits.
pub open spec fn parse_hex_u32(s: Seq<char>) -> Option<u32> {
    let d = if s.len() > 0 && s[0] == '+' {
        s.drop_first()
    } else {
        s
    };
    if d.len() == 0 {
        None
    } else {
        match hex_digits_value(d) {
            Some(v) => if v <= u32::MAX {
                Some(v as u32)
            } else {
                None
            },
            None => None,
        }
    }
}

/// Scan route lines: the interface of the first route whose destination is
/// 0; `None` at the first line without a name and a hex destination.
pub open spec fn route_default(ls: Seq<Seq<char>>) -> Option<Seq<char>>
    decreases ls.len(),
{
    if ls.len() == 0 {
        None
    } else {
        match first_two_words(ls[0]) {
            None => None,
            Some((name, dest)) => match parse_hex_u32(dest) {
                None => None,
                Some(v) => if v == 0 {
                    Some(name)
                } else {
                    route_default(ls.drop_first())
                },
            },
        }
    }
}

/// The interface owning the default route, from the text of the Linux
/// routing table (`/proc/net/route`): its header line skipped.
pub open spec fn default_route_name(t: Seq<char>) -> Option<Seq<char>> {
    let ls = lines(t);
    if ls.len() == 0 {
        None
    } else {
        route_default(ls.drop_first())
    }
}

/// In a routing table whose first line after the header names an
/// interface and gives the destination `00000000` (the default route), that
/// interface owns the default route, whatever the header and the rest of
/// the line.
pub proof fn lemma_default_route_first_line(header: Seq<char>, name: Seq<char>, rest: Seq<char>)
    requires
        forall|i: int| 0 <= i < header.len() ==> #[trigger] header[i] != '\n',
        name.len() > 0,
        forall|i: int| 0 <= i < name.len() ==> !is_ws(#[trigger] name[i]),
        forall|i: int| 0 <= i < rest.len() ==> #[trigger] rest[i] != '\n',
    ensures
        default_route_name(header + seq!['\n'] + name + seq!['\t'] + "00000000"@ + seq!['\t'] + rest)
            == Some(name),
{
    let z = "00000000"@;
    let line = name + seq!['\t'] + z + seq!['\t'] + rest;
    lemma_default_route_line(name, rest);
    let t = header + seq!['\n'] + line;
    let h = header.len() as int;
    assert(t =~= header + (seq!['\n'] + line));
    lemma_run_len_split(t, not_newline(), h);
    assert(t.skip(h)[0] == '\n');
    assert(run_len(t.skip(h), not_newline()) == 0);
    assert(t.skip(h + 1) =~= line);
    assert(lines(t).drop_first() =~= seq![line]);
    assert(seq![line][0] == line);
    assert(header + seq!['\n'] + name + seq!['\t'] + z + seq!['\t'] + rest =~= t);
}

/// A route line `name<TAB>00000000<TAB>rest` is one line whose first two
/// words are the name and a destination of 0.
proof fn lemma_default_route_line(name: Seq<char>, rest: Seq<char>)
    requires
        name.len() > 0,
        forall|i: int| 0 <= i < name.len() ==> !is_ws(#[trigger] name[i]),
        forall|i: int| 0 <= i < rest.len() ==> #[trigger] rest[i] != '\n',
    ensures
        lines(name + seq!['\t'] + "00000000"@ + seq!['\t'] + rest) == seq![
            name + seq!['\t'] + "00000000"@ + seq!['\t'] + rest,
        ],
        route_default(seq![name + seq!['\t'] + "00000000"@ + seq!['\t'] + rest]) == Some(name),
{
    reveal_strlit("00000000");
    let z = "00000000"@;
    let line = name + seq!['\t'] + z + seq!['\t'] + rest;
    assert forall|i: int| 0 <= i < line.len() implies (not_newline())(#[trigger] line[i]) by {
        if i < name.len() {
            assert(line[i] == name[i]);
            assert(is_ws('\n'));
        } else if i >= name.len() + 10 {
            assert(line[i] == rest[i - name.len() - 10]);
        }
    }
    lemma_run_len_split(line, not_newline(), line.len() as int);
    assert(line.skip(line.len() as int) =~= Seq::<char>::empty());
    lemma_default_route_words(name, rest);
    assert(seq![line][0] == line);
}

proof fn lemma_default_route_words(name: Seq<char>, rest: Seq<char>)
    requires
        name.len() > 0,
        forall|i: int| 0 <= i < name.len() ==> !is_ws(#[trigger] name[i]),
    ensures
        first_two_words(name + seq!['\t'] + "00000000"@ + seq!['\t'] + rest) == Some((name, "00000000"@)),
        parse_hex_u32("00000000"@) == Some(0u32),
{
    reveal_strlit("00000000");
    let z = "00000000"@;
    let line = name + seq!['\t'] + z + seq!['\t'] + rest;
    assert(!is_ws(line[0])) by {
        assert(line[0] == name[0]);
    }
    assert(run_len(line, whitespace()) == 0);
    assert(line.skip(0) =~= line);
    let n = name.len() as int;
    assert forall|i: int| 0 <= i < n implies (non_whitespace())(#[trigger] line[i]) by {
        assert(line[i] == name[i]);
    }
    lemma_run_len_split(line, non_whitespace(), n);
    let b = line.skip(n);
    assert(b[0] == '\t');
    assert(is_ws('\t'));
    assert(run_len(b, non_whitespace()) == 0);
    assert(line.take(n) =~= name);
    lemma_run_len_split(b, whitespace(), 1);
    let b2 = b.skip(1);
    assert(b2 =~= z + seq!['\t'] + rest);
    assert(b2[0] == '0');
    assert(run_len(b2, whitespace()) == 0);
    assert(b2.skip(0) =~= b2);
    assert forall|i: int| 0 <= i < 8 implies (non_whitespace())(#[trigger] b2[i]) by {
        assert(b2[i] == z[i]);
    }
    lemma_run_len_split(b2, non_whitespace(), 8);
    assert(b2.skip(8)[0] == '\t');
    assert(run_len(b2.skip(8), non_whitespace()) == 0);
    assert(b2.take(8) =~= z);
    assert(hex_digits_value(z) == Some(0nat)) by {
        reveal_with_fuel(hex_digits_value, 9);
        assert(hex_val('0') == Some(0nat));
        assert(z.drop_last().drop_last().drop_last().drop_last().drop_last().drop_last().drop_last().drop_last()
            =~= Seq::<char>::empty());
    }
}

proof fn lemma_run_len_split(s: Seq<char>, p: spec_fn(char) -> bool, j: int)
    requires
        0 <= j <= s.len(),
        forall|i: int| 0 <= i < j ==> p(#[trigger] s[i]),
    ensures
        run_len(s, p) == j + run_len(s.skip(j), p),
    decreases j,
{
    if j > 0 {
        assert(p(s[0]));
        lemma_run_len_split(s.drop_first(), p, j - 1);
        assert(s.drop_first().skip(j - 1) =~= s.skip(j));
    } else {
        assert(s.skip(0) =~= s);
    }
}

proof fn lemma_run_len_bound(s: Seq<char>, p: spec_fn(char) -> bool)
    ensures
        run_len(s, p) <= s.len(),
        forall|i: int| 0 <= i < run_len(s, p) ==> p(#[trigger] s[i]),
        run_len(s, p) < s.len() ==> !p(s[run_len(s, p) as int]),
    decreases s.len(),
{
    if s.len() > 0 && p(s[0]) {
        lemma_run_len_bound(s.drop_first(), p);
        assert forall|i: int| 0 <= i < run_len(s, p) implies p(#[trigger] s[i]) by {
            if i > 0 {
                assert(s[i] == s.drop_first()[i - 1]);
            }
        }
    }
}

fn chars_of(s: &str) -> (r: Vec<char>)
    ensures
        r@ == s@,
{
    let n = s.unicode_len();
    let mut v: Vec<char> = Vec::new();
    let mut i: usize = 0;
    while i < n
        invariant
            n == s@.len(),
            i <= n,
            v@ == s@.take(i as int),
        decreases n - i,
    {
        v.push(s.get_char(i));
        i = i + 1;
        assert(v@ =~= s@.take(i as int));
    }
    assert(s@.take(n as int) =~= s@);
    v
}

/// Index of the first character at or after `from`, before `end`, whose
/// whitespace-ness differs from `ws` (or `end`).
fn skip_run(t: &Vec<char>, from: usize, end: usize, ws: bool) -> (r: usize)
    requires
        from <= end <= t@.len(),
    ensures
        from <= r <= end,
        run_len(t@.subrange(from as int, end as int), if ws { whitespace() } else { non_whitespace() })
            == r - from,
{
    let ghost p = if ws {
        whitespace()
    } else {
        non_whitespace()
    };
    let ghost s = t@.subrange(from as int, end as int);
    let mut i = from;
    while i < end && is_ws_exec(t[i]) == ws
        invariant
            from <= i <= end <= t@.len(),
            s == t@.subrange(from as int, end as int),
            p == (if ws { whitespace() } else { non_whitespace() }),
            forall|k: int| from <= k < i ==> p(#[trigger] t@[k]),
        decreases end - i,
    {
        i = i + 1;
    }
    proof {
        assert forall|k: int| 0 <= k < i - from implies p(#[trigger] s[k]) by {
            assert(s[k] == t@[from + k]);
        }
        lemma_run_len_split(s, p, i - from);
        if i < end {
            assert(s.skip(i - from)[0] == t@[i as int]);
        } else {
            assert(s.skip(i - from).len() == 0);
        }
    }
    i
}

fn hex_char_value(c: char) -> (r: Option<u64>)
    ensures
        match hex_val(c) {
            Some(v) => r == Some(v as u64),
            None => r is None,
        },
{
    let u = c as u32;
    if '0' <= c && c <= '9' {
        Some((u - 48) as u64)
    } else if 'a' <= c && c <= 'f' {
        Some((u - 97 + 10) as u64)
    } else if 'A' <= c && c <= 'F' {
        Some((u - 65 + 10) as u64)
    } else {
        None
    }
}

proof fn lemma_hex_digits_value_grows(s: Seq<char>, k: int)
    requires
        0 <= k <= s.len(),
        hex_digits_value(s) is Some,
    ensures
        hex_digits_value(s.take(k)) is Some,
        hex_digits_value(s.take(k))->0 <= hex_digits_value(s)->0,
    decreases s.len() - k,
{
    if k < s.len() {
        lemma_hex_digits_value_grows(s, k + 1);
        assert(s.take(k + 1).drop_last() =~= s.take(k));
    } else {
        assert(s.take(k) =~= s);
    }
}

/// `u32::from_str_radix` in base 16 on `t[from..end]`.
fn parse_hex_range(t: &Vec<char>, from: usize, end: usize) -> (r: Option<u32>)
    requires
        from <= end <= t@.len(),
    ensures
        r == parse_hex_u32(t@.subrange(from as int, end as int)),
{
    let ghost s = t@.subrange(from as int, end as int);
    let mut i = from;
    if i < end && t[i] == '+' {
        i = i + 1;
    }
    let ghost d = t@.subrange(i as int, end as int);
    assert(d =~= (if s.len() > 0 && s[0] == '+' { s.drop_first() } else { s }));
    if i == end {
        return None;
    }
    let start = i;
    let mut v: u64 = 0;
    while i < end
        invariant
            start <= i <= end <= t@.len(),
            from <= start,
            s == t@.subrange(from as int, end as int),
            d.len() > 0,
            d =~= (if s.len() > 0 && s[0] == '+' { s.drop_first() } else { s }),
            d == t@.subrange(start as int, end as int),
            hex_digits_value(d.take(i - start)) == Some(v as nat),
            v <= u32::MAX,
        decreases end - i,
    {
        assert(d.take(i - start + 1).drop_last() =~= d.take(i - start));
        assert(d.take(i - start + 1).last() == t@[i as int]);
        match hex_char_value(t[i]) {
            None => {
                proof {
                    lemma_hex_none_prefix(d, i - start + 1);
                }
                return None;
            },
            Some(x) => {
                let nv = v * 16 + x;
                if nv > 0xffff_ffff {
                    proof {
                        lemma_hex_too_big(d, i - start + 1);
                    }
                    return None;
                }
                v = nv;
            },
        }
        i = i + 1;
    }
    assert(d.take(end - start) =~= d);
    Some(v as u32)
}

proof fn lemma_hex_none_prefix(d: Seq<char>, k: int)
    requires
        0 <= k <= d.len(),
        hex_digits_value(d.take(k)) is None,
    ensures
        hex_digits_value(d) is None,
{
    if hex_digits_value(d) is Some {
        lemma_hex_digits_value_grows(d, k);
    }
}

proof fn lemma_hex_too_big(d: Seq<char>, k: int)
    requires
        0 <= k <= d.len(),
        hex_digits_value(d.take(k)) matches Some(v) && v > u32::MAX,
    ensures
        !(hex_digits_value(d) matches Some(v) && v <= u32::MAX),
{
    if hex_digits_value(d) is Some {
        lemma_hex_digits_value_grows(d, k);
    }
}

/// What one route line says: nothing usable (`Stop`), a route that is not
/// the default (`Next`), or the default route's interface.
enum RouteLine {
    Stop,
    Next,
    Default(String),
}

fn route_line(t: &Vec<char>, pos: usize, le: usize) -> (r: RouteLine)
    requires
        pos <= le <= t@.len(),
    ensures
        ({
            let line = t@.subrange(pos as int, le as int);
            match first_two_words(line) {
                None => r is Stop,
                Some((name, dest)) => match parse_hex_u32(dest) {
                    None => r is Stop,
                    Some(v) => if v == 0 {
                        r matches RouteLine::Default(s) && s@ == name
                    } else {
                        r is Next
                    },
                },
            }
        }),
{
    let ghost line = t@.subrange(pos as int, le as int);
    let a = skip_run(t, pos, le, true);
    let b = skip_run(t, a, le, false);
    let c = skip_run(t, b, le, true);
    let d = skip_run(t, c, le, false);
    proof {
        let l = line;
        assert(l.skip(a - pos) =~= t@.subrange(a as int, le as int));
        let aa = l.skip(a - pos);
        assert(aa.take(b - a) =~= t@.subrange(a as int, b as int));
        assert(aa.skip(b - a) =~= t@.subrange(b as int, le as int));
        let bb = aa.skip(b - a).skip(c - b);
        assert(bb =~= t@.subrange(c as int, le as int));
        assert(bb.take(d - c) =~= t@.subrange(c as int, d as int));
    }
    if a == le || c == le {
        return RouteLine::Stop;
    }
    match parse_hex_range(t, c, d) {
        None => RouteLine::Stop,
        Some(v) => {
            if v == 0 {
                let mut name = String::new();
                let mut k = a;
                while k < b
                    invariant
                        a <= k <= b <= t@.len(),
                        name@ == t@.subrange(a as int, k as int),
                    decreases b - k,
                {
                    crate::text::push_char(&mut name, t[k]);
                    k = k + 1;
                    assert(name@ =~= t@.subrange(a as int, k as int));
                }
                RouteLine::Default(name)
            } else {
                RouteLine::Next
            }
        },
    }
}

/// The first line of `t[pos..]` ends at `e` (a newline or the end), and
/// is `t[pos..le]` once a carriage return before the newline is dropped.
proof fn lemma_lines_step(t: Seq<char>, pos: int, e: int, le: int, next: int)
    requires
        0 <= pos < e <= t.len() || (0 <= pos <= e <= t.len() && pos < t.len()),
        forall|k: int| pos <= k < e ==> t[k] != '\n',
        e < t.len() ==> t[e] == '\n',
        next == (if e < t.len() {
            e + 1
        } else {
            t.len() as int
        }),
        le == (if e < t.len() && e > pos && t[e - 1] == '\r' {
            e - 1
        } else {
            e
        }),
    ensures
        lines(t.skip(pos)) == seq![t.subrange(pos, le)] + lines(t.skip(next)),
{
    let rest = t.skip(pos);
    assert forall|k: int| 0 <= k < e - pos implies (not_newline())(#[trigger] rest[k]) by {
        assert(rest[k] == t[pos + k]);
    }
    lemma_run_len_split(rest, not_newline(), e - pos);
    if e < t.len() {
        assert(rest.skip(e - pos)[0] == t[e]);
    } else {
        assert(rest.skip(e - pos).len() == 0);
    }
    assert(run_len(rest, not_newline()) == e - pos);
    if e < t.len() {
        if e > pos {
            assert(rest.take(e - pos).last() == t[e - 1]);
        }
        assert(t.subrange(pos, le) =~= (if e - pos > 0 && rest.take(e - pos).last() == '\r' {
            rest.take(e - pos).drop_last()
        } else {
            rest.take(e - pos)
        }));
        assert(rest.skip(e - pos + 1) =~= t.skip(next));
    } else {
        assert(t.subrange(pos, le) =~= rest);
        assert(t.skip(next).len() == 0);
        assert(lines(t.skip(next)) =~= Seq::<Seq<char>>::empty());
        assert(seq![t.subrange(pos, le)] + lines(t.skip(next)) =~= seq![t.subrange(pos, le)]);
    }
}

/// Find the name of the interface owning the default route, from the text
/// of `/proc/net/route` (see `default_route_name`).
pub fn default_interface_name(route: &str) -> (r: Option<String>)
    ensures
        match r {
            Some(n) => default_route_name(route@) == Some(n@),
            None => default_route_name(route@) is None,
        },
{
    let t = chars_of(route);
    let n = t.len();
    let mut pos: usize = 0;
    let mut header = true;
    assert(t@.skip(0) =~= t@);
    while pos < n
        invariant
            n == t@.len(),
            pos <= n,
            t@ == route@,
            default_route_name(route@) == (if header {
                default_route_name(t@.skip(pos as int))
            } else {
                route_default(lines(t@.skip(pos as int)))
            }),
        decreases n - pos,
    {
        let mut e = pos;
        while e < n && t[e] != '\n'
            invariant
                pos <= e <= n,
                n == t@.len(),
                forall|k: int| pos <= k < e ==> t@[k] != '\n',
            decreases n - e,
        {
            e = e + 1;
        }
        let mut le = e;
        if e < n && le > pos && t[le - 1] == '\r' {
            le = le - 1;
        }
        let next = if e < n {
            e + 1
        } else {
            n
        };
        proof {
            lemma_lines_step(t@, pos as int, e as int, le as int, next as int);
            let ls = seq![t@.subrange(pos as int, le as int)] + lines(t@.skip(next as int));
            assert(ls.drop_first() =~= lines(t@.skip(next as int)));
            assert(ls[0] == t@.subrange(pos as int, le as int));
        }
        if !header {
            match route_line(&t, pos, le) {
                RouteLine::Stop => {
                    return None;
                },
                RouteLine::Default(name) => {
                    return Some(name);
                },
                RouteLine::Next => {},
            }
        }
        header = false;
        pos = next;
    }
    proof {
        assert(t@.skip(pos as int).len() == 0);
        assert(lines(t@.skip(pos as int)) =~= Seq::<Seq<char>>::empty());
    }
    None
}

} // verus!
