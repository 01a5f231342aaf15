use vstd::prelude::*;

verus! {

/// The four bytes of an IPv4 address, most significant first.
pub open spec fn be32(x: u32) -> Seq<u8> {
    seq![
        (x as nat / 0x100_0000) as u8,
        ((x as nat / 0x1_0000) % 256) as u8,
        ((x as nat / 0x100) % 256) as u8,
        (x as nat % 256) as u8,
    ]
}

/// The IPv4 address held in the four bytes of `s` starting at `at`.
pub open spec fn read_be32(s: Seq<u8>, at: int) -> u32 {
    (s[at] as nat * 0x100_0000 + s[at + 1] as nat * 0x1_0000 + s[at + 2] as nat * 0x100
        + s[at + 3] as nat) as u32
}

/// An Ethernet frame carrying an ARP request (who-has `target`, tell
/// `source_ip`), broadcast from `source_mac`: 14 bytes of Ethernet header
/// (broadcast destination, source, EtherType 0x0806) and 28 bytes of ARP
/// (hardware type Ethernet, protocol IPv4, lengths 6 and 4, operation
/// request, sender hardware and protocol address, zero target hardware
/// address, target protocol address).
pub open spec fn arp_request_frame(source_mac: Seq<u8>, source_ip: u32, target: u32) -> Seq<u8> {
    seq![0xffu8, 0xff, 0xff, 0xff, 0xff, 0xff] + source_mac + seq![
        0x08u8,
        0x06,
        0x00,
        0x01,
        0x08,
        0x00,
        6,
        4,
        0x00,
        0x01,
    ] + source_mac + be32(source_ip) + seq![0u8, 0, 0, 0, 0, 0] + be32(target)
}

/// What an ARP reply frame addressed to `source_ip` tells: the sender's
/// IPv4 address and hardware address. `None` for a frame too short for
/// Ethernet and ARP, not of EtherType ARP, not a reply, or whose target
/// protocol address is not `source_ip`.
pub open spec fn arp_reply_of(frame: Seq<u8>, source_ip: u32) -> Option<(u32, Seq<u8>)> {
    if frame.len() < 42 {
        None
    } else if frame[12] != 0x08 || frame[13] != 0x06 {
        None
    } else if frame[20] != 0 || frame[21] != 2 {
        None
    } else if read_be32(frame, 38) != source_ip {
        None
    } else {
        Some((read_be32(frame, 28), frame.subrange(22, 28)))
    }
}

fn push_be32(v: &mut Vec<u8>, x: u32)
    ensures
        final(v)@ == old(v)@ + be32(x),
{
    v.push((x / 0x100_0000) as u8);
    v.push(((x / 0x1_0000) % 256) as u8);
    v.push(((x / 0x100) % 256) as u8);
    v.push((x % 256) as u8);
    assert(v@ =~= old(v)@ + be32(x));
}

fn push_mac(v: &mut Vec<u8>, mac: &[u8; 6])
    ensures
        final(v)@ == old(v)@ + mac@,
{
    let mut i: usize = 0;
    while i < 6
        invariant
            i <= 6,
            v@ == old(v)@ + mac@.take(i as int),
        decreases 6 - i,
    {
        v.push(mac[i]);
        assert(mac@.take(i + 1) =~= mac@.take(i as int).push(mac@[i as int]));
        i = i + 1;
    }
    assert(mac@.take(6) =~= mac@);
}

/// The ARP request frame for `target` (see `arp_request_frame`).
pub fn arp_request(source_mac: &[u8; 6], source_ip: u32, target: u32) -> (r: Vec<u8>)
    ensures
        r@ == arp_request_frame(source_mac@, source_ip, target),
        r@.len() == 42,
{
    let mut v: Vec<u8> = Vec::new();
    let mut i: usize = 0;
    while i < 6
        invariant
            i <= 6,
            v@ == Seq::new(i as nat, |k: int| 0xffu8),
        decreases 6 - i,
    {
        v.push(0xff);
        i = i + 1;
        assert(v@ =~= Seq::new(i as nat, |k: int| 0xffu8));
    }
    push_mac(&mut v, source_mac);
    v.push(0x08);
    v.push(0x06);
    v.push(0x00);
    v.push(0x01);
    v.push(0x08);
    v.push(0x00);
    v.push(6);
    v.push(4);
    v.push(0x00);
    v.push(0x01);
    push_mac(&mut v, source_mac);
    push_be32(&mut v, source_ip);
    let ghost head = v@;
    let mut j: usize = 0;
    while j < 6
        invariant
            j <= 6,
            v@ == head + Seq::new(j as nat, |k: int| 0u8),
        decreases 6 - j,
    {
        v.push(0);
        j = j + 1;
        assert(v@ =~= head + Seq::new(j as nat, |k: int| 0u8));
    }
    push_be32(&mut v, target);
    assert(v@ =~= arp_request_frame(source_mac@, source_ip, target));
    v
}

fn read_u32_be(s: &[u8], at: usize) -> (r: u32)
    requires
        at + 4 <= s@.len(),
    ensures
        r == read_be32(s@, at as int),
{
    let a = s[at] as u32;
    let b = s[at + 1] as u32;
    let c = s[at + 2] as u32;
    let d = s[at + 3] as u32;
    a * 0x100_0000 + b * 0x1_0000 + c * 0x100 + d
}

/// A host that answered the ARP probe.
#[derive(Clone, Copy, Debug)]
pub struct ArpHit {
    pub ip: u32,
    pub mac: [u8; 6],
    pub rtt_ms: u64,
}

/// Collects the ARP replies to a scan: the first reply of each probed
/// address, with a non-zero hardware address.
pub struct ArpCollector {
    pub source_ip: u32,
    pub targets: Vec<u32>,
    pub found: Vec<ArpHit>,
}

/// `ip` already has a reply in `found`.
pub open spec fn has_hit(found: Seq<ArpHit>, ip: u32) -> bool {
    exists|k: int| 0 <= k < found.len() && (#[trigger] found[k]).ip == ip
}

/// At most one reply per address, each from a probed address.
pub open spec fn hits_distinct(c: ArpCollector) -> bool {
    &&& forall|j: int, k: int|
        0 <= j < k < c.found@.len() ==> (#[trigger] c.found@[j]).ip != (#[trigger] c.found@[k]).ip
    &&& forall|j: int| 0 <= j < c.found@.len() ==> c.targets@.contains(#[trigger] c.found@[j].ip)
}

/// The reply that a frame brings to a collector, if it is one to keep.
pub open spec fn accepted_reply(c: ArpCollector, frame: Seq<u8>) -> Option<(u32, Seq<u8>)> {
    match arp_reply_of(frame, c.source_ip) {
        Some((ip, mac)) => if c.targets@.contains(ip) && !has_hit(c.found@, ip) && mac
            != seq![0u8, 0, 0, 0, 0, 0] {
            Some((ip, mac))
        } else {
            None
        },
        None => None,
    }
}

/// Four bytes read back as the address they were written from, and an
/// address read from four bytes writes back as those bytes.
pub proof fn lemma_be32_round_trip(s: Seq<u8>, at: int, x: u32)
    requires
        0 <= at,
        at + 4 <= s.len(),
    ensures
        read_be32(be32(x), 0) == x,
        read_be32(s, at) == x <==> s.subrange(at, at + 4) == be32(x),
{
    let xi = x as int;
    let a = xi / 0x100_0000;
    let b = (xi / 0x1_0000) % 256;
    let c = (xi / 0x100) % 256;
    let d = xi % 256;
    assert(xi == a * 0x100_0000 + b * 0x1_0000 + c * 0x100 + d);
    assert(read_be32(be32(x), 0) == x);
    let v = s[at] as int * 0x100_0000 + s[at + 1] as int * 0x1_0000 + s[at + 2] as int * 0x100
        + s[at + 3] as int;
    assert(0 <= v < 0x1_0000_0000);
    if read_be32(s, at) == x {
        assert(v == xi);
        assert(s[at] as int == a && s[at + 1] as int == b && s[at + 2] as int == c && s[at + 3] as int
            == d);
        assert(s.subrange(at, at + 4) =~= be32(x));
    }
    if s.subrange(at, at + 4) == be32(x) {
        assert(s[at] == s.subrange(at, at + 4)[0] && s[at + 1] == s.subrange(at, at + 4)[1] && s[at
            + 2] == s.subrange(at, at + 4)[2] && s[at + 3] == s.subrange(at, at + 4)[3]);
    }
}

/// An ARP reply (EtherType 0x0806, operation 2) addressed to the
/// collector's address, whose sender is a probed address with no reply yet,
/// is kept exactly when its sender hardware address is not all zeros, and
/// then it is kept as that sender and hardware address. No other frame is
/// kept.
pub proof fn lemma_kept_replies(c: ArpCollector, frame: Seq<u8>)
    ensures
        accepted_reply(c, frame) is Some <==> {
            &&& frame.len() >= 42
            &&& frame[12] == 0x08 && frame[13] == 0x06
            &&& frame[20] == 0x00 && frame[21] == 0x02
            &&& frame.subrange(38, 42) == be32(c.source_ip)
            &&& c.targets@.contains(read_be32(frame, 28))
            &&& !has_hit(c.found@, read_be32(frame, 28))
            &&& exists|i: int| 22 <= i < 28 && frame[i] != 0
        },
        accepted_reply(c, frame) matches Some((ip, mac)) ==> frame.subrange(28, 32) == be32(ip)
            && mac == frame.subrange(22, 28),
{
    if frame.len() >= 42 {
        lemma_be32_round_trip(frame, 38, c.source_ip);
        lemma_be32_round_trip(frame, 28, read_be32(frame, 28));
        let mac = frame.subrange(22, 28);
        if mac == seq![0u8, 0, 0, 0, 0, 0] {
            assert forall|i: int| 22 <= i < 28 implies frame[i] == 0 by {
                assert(frame[i] == mac[i - 22]);
            }
        } else {
            assert(exists|i: int| 22 <= i < 28 && frame[i] != 0) by {
                if forall|i: int| 22 <= i < 28 ==> frame[i] == 0 {
                    assert(mac =~= seq![0u8, 0, 0, 0, 0, 0]);
                }
            }
        }
    }
}

impl ArpCollector {
    pub fn new(source_ip: u32, targets: Vec<u32>) -> (r: ArpCollector)
        ensures
            r.source_ip == source_ip,
            r.targets == targets,
            r.found@.len() == 0,
    {
        ArpCollector { source_ip, targets, found: Vec::new() }
    }

    /// Take in one received frame, `elapsed_ms` after the first request
    /// was sent. Returns whether it recorded a new host.
    pub fn accept(&mut self, frame: &[u8], elapsed_ms: u64) -> (r: bool)
        ensures
            final(self).source_ip == old(self).source_ip,
            final(self).targets == old(self).targets,
            r == accepted_reply(*old(self), frame@) is Some,
            hits_distinct(*old(self)) ==> hits_distinct(*final(self)),
            match accepted_reply(*old(self), frame@) {
                Some((ip, mac)) => final(self).found@ == old(self).found@.push(
                    ArpHit { ip, mac: final(self).found@.last().mac, rtt_ms: elapsed_ms },
                ) && final(self).found@.last().mac@ == mac,
                None => final(self).found@ == old(self).found@,
            },
    {
        if frame.len() < 42 {
            return false;
        }
        if frame[12] != 0x08 || frame[13] != 0x06 {
            return false;
        }
        if frame[20] != 0 || frame[21] != 2 {
            return false;
        }
        if read_u32_be(frame, 38) != self.source_ip {
            return false;
        }
        let sender = read_u32_be(frame, 28);
        let mut known = false;
        let mut i: usize = 0;
        while i < self.targets.len()
            invariant
                i <= self.targets@.len(),
                known <==> exists|k: int| 0 <= k < i && self.targets@[k] == sender,
            decreases self.targets@.len() - i,
        {
            if self.targets[i] == sender {
                known = true;
            }
            i = i + 1;
        }
        if !known {
            return false;
        }
        let mut seen = false;
        let mut j: usize = 0;
        while j < self.found.len()
            invariant
                j <= self.found@.len(),
                seen <==> exists|k: int| 0 <= k < j && (#[trigger] self.found@[k]).ip == sender,
            decreases self.found@.len() - j,
        {
            if self.found[j].ip == sender {
                seen = true;
            }
            j = j + 1;
        }
        if seen {
            return false;
        }
        let mac: [u8; 6] = [frame[22], frame[23], frame[24], frame[25], frame[26], frame[27]];
        let ghost macseq = frame@.subrange(22, 28);
        assert(mac@ =~= macseq);
        if mac[0] == 0 && mac[1] == 0 && mac[2] == 0 && mac[3] == 0 && mac[4] == 0 && mac[5]
            == 0 {
            assert(macseq =~= seq![0u8, 0, 0, 0, 0, 0]);
            return false;
        }
        assert(macseq != seq![0u8, 0, 0, 0, 0, 0]) by {
            if macseq == seq![0u8, 0, 0, 0, 0, 0] {
                assert(macseq[0] == 0 && macseq[1] == 0 && macseq[2] == 0 && macseq[3] == 0
                    && macseq[4] == 0 && macseq[5] == 0);
            }
        }
        self.found.push(ArpHit { ip: sender, mac, rtt_ms: elapsed_ms });
        assert(self.targets@.contains(sender)) by {
            let k = choose|k: int| 0 <= k < self.targets@.len() && self.targets@[k] == sender;
            assert(self.targets@[k] == sender);
        }
        true
    }
}

} // verus!
