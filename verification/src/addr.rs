use vstd::prelude::*;

verus! {

/// `2^bits`.
pub open spec fn span(bits: nat) -> nat
    decreases bits,
{
    if bits == 0 {
        1
    } else {
        2 * span((bits - 1) as nat)
    }
}

pub proof fn lemma_span_bounds(bits: nat)
    requires
        bits <= 32,
    ensures
        1 <= span(bits) <= span(32),
        span(32) == 0x1_0000_0000,
        bits >= 1 ==> span(bits) >= 2,
        bits >= 2 ==> span(bits) >= 4,
    decreases 32 - bits,
{
    assert(span(32) == 0x1_0000_0000) by {
        reveal_with_fuel(span, 33);
    }
    if bits < 32 {
        lemma_span_bounds(bits + 1);
    }
    if bits >= 1 {
        assert(span(bits) == 2 * span((bits - 1) as nat));
        lemma_span_pos((bits - 1) as nat);
    }
    if bits >= 2 {
        assert(span((bits - 1) as nat) == 2 * span((bits - 2) as nat));
        lemma_span_pos((bits - 2) as nat);
    }
    lemma_span_pos(bits);
}

proof fn lemma_span_pos(bits: nat)
    ensures
        span(bits) >= 1,
    decreases bits,
{
    if bits > 0 {
        lemma_span_pos((bits - 1) as nat);
    }
}

/// An IPv4 network: an address (host bits need not be zero) and a prefix
/// length. An address is held as a `u32` in network byte order, so
/// `a.b.c.d` is `a * 2^24 + b * 2^16 + c * 2^8 + d`.
#[derive(Clone, Copy, Debug, PartialEq, Eq)]
pub struct Ipv4Net {
    pub addr: u32,
    pub prefix: u8,
}

impl Ipv4Net {
    /// A well-formed network has a prefix of at most 32 bits.
    pub open spec fn wf(self) -> bool {
        self.prefix <= 32
    }

    /// Number of addresses in the network.
    pub open spec fn size(self) -> nat {
        span((32 - self.prefix) as nat)
    }

    /// First address of the network (host bits cleared).
    pub open spec fn network(self) -> int {
        (self.addr as int / self.size() as int) * self.size() as int
    }

    /// Last address of the network (host bits set).
    pub open spec fn broadcast(self) -> int {
        self.network() + self.size() - 1
    }

    /// `ip` lies in the network: it agrees with the network's address on
    /// the prefix bits.
    pub open spec fn contains_spec(self, ip: u32) -> bool {
        ip as int / self.size() as int == self.addr as int / self.size() as int
    }

    /// The addresses a scan probes: every address of the network, less the
    /// network and broadcast addresses when the network has more than two.
    pub open spec fn scan_targets_spec(self) -> Seq<u32> {
        let n = self.network();
        let s = self.size();
        if s > 2 {
            Seq::new((s - 2) as nat, |i: int| (n + 1 + i) as u32)
        } else {
            Seq::new(s, |i: int| (n + i) as u32)
        }
    }

    /// Constructs a network; `None` when the prefix is longer than 32 bits.
    pub fn new(addr: u32, prefix: u8) -> (r: Option<Ipv4Net>)
        ensures
            prefix <= 32 ==> r == Some(Ipv4Net { addr, prefix }),
            prefix > 32 ==> r is None,
    {
        if prefix > 32 {
            None
        } else {
            Some(Ipv4Net { addr, prefix })
        }
    }

    /// Number of addresses, as a `u64`.
    pub fn size_exec(&self) -> (r: u64)
        requires
            self.wf(),
        ensures
            r == self.size(),
            1 <= r <= 0x1_0000_0000,
    {
        let bits: u8 = 32 - self.prefix;
        let mut r: u64 = 1;
        let mut k: u8 = 0;
        proof {
            lemma_span_bounds(bits as nat);
        }
        while k < bits
            invariant
                k <= bits <= 32,
                r == span(k as nat),
                span(bits as nat) <= 0x1_0000_0000,
            decreases bits - k,
        {
            proof {
                lemma_span_bounds((k + 1) as nat);
            }
            r = r * 2;
            k = k + 1;
        }
        r
    }

    /// The network address.
    pub fn network_exec(&self) -> (r: u32)
        requires
            self.wf(),
        ensures
            r == self.network(),
    {
        let s = self.size_exec();
        let a = self.addr as u64;
        proof {
            assert((a / s) * s <= a) by (nonlinear_arith)
                requires
                    s >= 1,
            ;
        }
        ((a / s) * s) as u32
    }

    /// Whether the network holds `ip`.
    pub fn contains(&self, ip: u32) -> (r: bool)
        requires
            self.wf(),
        ensures
            r == self.contains_spec(ip),
    {
        let s = self.size_exec();
        (ip as u64) / s == (self.addr as u64) / s
    }

    /// Every address to probe, in ascending order (see `scan_targets_spec`).
    /// A /0 network is refused: it has more addresses than a `u32` counts.
    pub fn scan_targets(&self) -> (r: Vec<u32>)
        requires
            self.wf(),
            self.prefix >= 1,
        ensures
            r@ == self.scan_targets_spec(),
    {
        let s = self.size_exec();
        let n = self.network_exec() as u64;
        proof {
            lemma_span_bounds((32 - self.prefix) as nat);
            assert(s <= 0x8000_0000) by {
                assert(span(32) == 2 * span(31));
                lemma_span_mono((32 - self.prefix) as nat, 31);
            }
            let a = self.addr as int;
            lemma_size_divides(*self);
            assert((a / s as int) * s as int + s as int <= 0x1_0000_0000) by (nonlinear_arith)
                requires
                    s >= 1,
                    0 <= a < 0x1_0000_0000,
                    0x1_0000_0000int % (s as int) == 0,
            {
                assert(a / (s as int) < 0x1_0000_0000int / (s as int));
            }
        }
        let (first, count): (u64, u64) = if s > 2 {
            (n + 1, s - 2)
        } else {
            (n, s)
        };
        let mut out: Vec<u32> = Vec::new();
        let mut i: u64 = 0;
        while i < count
            invariant
                i <= count,
                first + count <= 0x1_0000_0000,
                out@.len() == i,
                forall|j: int| 0 <= j < i ==> out@[j] == (first + j) as u32,
            decreases count - i,
        {
            out.push((first + i) as u32);
            i = i + 1;
        }
        assert(out@ =~= self.scan_targets_spec());
        out
    }
}

proof fn lemma_span_add(a: nat, b: nat)
    ensures
        span(a + b) == span(a) * span(b),
    decreases a,
{
    if a > 0 {
        let k = (a - 1) as nat;
        lemma_span_add(k, b);
        assert(span(a + b) == 2 * span(k + b));
        let x = span((a - 1) as nat) as int;
        let y = span(b) as int;
        assert(span(a) * span(b) == 2 * (x * y)) by (nonlinear_arith)
            requires
                span(a) == 2 * x,
                y == span(b),
        ;
        assert(span(k + b) == x * y);
        assert(span(a + b) == 2 * (x * y));
    } else {
        assert(span(a) == 1);
        assert(a + b == b);
    }
}

/// The size of a network divides `2^32`.
proof fn lemma_size_divides(net: Ipv4Net)
    requires
        net.wf(),
    ensures
        0x1_0000_0000int % (net.size() as int) == 0,
{
    let k = (32 - net.prefix) as nat;
    lemma_span_add(k, net.prefix as nat);
    lemma_span_bounds(k);
    lemma_span_bounds(net.prefix as nat);
    let s = span(k) as int;
    let t = span(net.prefix as nat) as int;
    assert(s * t == 0x1_0000_0000);
    assert((s * t) % s == 0) by (nonlinear_arith)
        requires
            s >= 1,
    ;
}

/// The network's addresses all fit in 32 bits.
pub proof fn lemma_network_fits(net: Ipv4Net)
    requires
        net.wf(),
    ensures
        0 <= net.network(),
        net.network() + net.size() <= 0x1_0000_0000,
{
    lemma_span_bounds((32 - net.prefix) as nat);
    lemma_size_divides(net);
    let s = net.size() as int;
    let a = net.addr as int;
    assert((a / s) * s + s <= 0x1_0000_0000 && (a / s) * s >= 0) by (nonlinear_arith)
        requires
            s >= 1,
            0 <= a < 0x1_0000_0000,
            0x1_0000_0000int % s == 0,
    {
        assert(a / s < 0x1_0000_0000int / s);
    }
}

/// The scan targets are consecutive ascending addresses.
pub proof fn lemma_targets_consecutive(net: Ipv4Net)
    requires
        net.wf(),
    ensures
        net.scan_targets_spec().len() > 0 ==> net.scan_targets_spec()[0] as int
            + net.scan_targets_spec().len() <= 0x1_0000_0000,
        forall|i: int|
            0 <= i < net.scan_targets_spec().len() ==> (#[trigger] net.scan_targets_spec()[i]) as int
                == net.scan_targets_spec()[0] + i,
{
    lemma_network_fits(net);
}

/// Every scan target lies in the network; when the network has more than
/// two addresses the targets are all its addresses but the network and
/// broadcast addresses, and otherwise all of them. Targets ascend strictly.
pub proof fn lemma_targets_in_subnet(net: Ipv4Net)
    requires
        net.wf(),
    ensures
        net.size() > 2 ==> net.scan_targets_spec().len() == net.size() - 2,
        net.size() <= 2 ==> net.scan_targets_spec().len() == net.size(),
        forall|i: int|
            0 <= i < net.scan_targets_spec().len() ==> net.contains_spec(
                #[trigger] net.scan_targets_spec()[i],
            ),
        forall|i: int|
            0 <= i < net.scan_targets_spec().len() && net.size() > 2 ==> net.network()
                < #[trigger] net.scan_targets_spec()[i] < net.broadcast(),
        forall|i: int, j: int|
            0 <= i < j < net.scan_targets_spec().len() ==> net.scan_targets_spec()[i]
                < net.scan_targets_spec()[j],
{
    lemma_network_fits(net);
    let s = net.size() as int;
    let a = net.addr as int;
    let nw = net.network();
    assert forall|i: int|
        0 <= i < net.scan_targets_spec().len() implies net.contains_spec(
        #[trigger] net.scan_targets_spec()[i],
    ) by {
        let x = net.scan_targets_spec()[i] as int;
        assert(nw <= x < nw + s);
        assert(x / s == a / s) by (nonlinear_arith)
            requires
                s >= 1,
                nw == (a / s) * s,
                nw <= x < nw + s,
        {
            assert(x - nw >= 0);
        }
    }
}

proof fn lemma_span_mono(a: nat, b: nat)
    requires
        a <= b,
    ensures
        span(a) <= span(b),
    decreases b - a,
{
    if a < b {
        lemma_span_mono(a, (b - 1) as nat);
        lemma_span_pos((b - 1) as nat);
    }
}

} // verus!
