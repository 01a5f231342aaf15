use vstd::prelude::*;

verus! {

// OS families are numbered 0 Windows, 1 Apple, 2 Printer, 3 Linux/Unix,
// 4 Network device.
pub const WINDOWS: usize = 0;
pub const APPLE: usize = 1;
pub const PRINTER: usize = 2;
pub const LINUX: usize = 3;
pub const DEVICE: usize = 4;
pub const FAMILIES: usize = 5;

/// Score that the TTL of an ICMP reply adds to family `c`.
pub open spec fn ttl_score(ttl: Option<u8>, c: int) -> int {
    match ttl {
        Some(t) => if t <= 64 {
            if c == 3 { 20 } else { 0 }
        } else if t <= 128 {
            if c == 0 { 20 } else { 0 }
        } else {
            if c == 4 { 15 } else { 0 }
        },
        None => 0,
    }
}

/// Score that one open TCP port adds to family `c`.
pub open spec fn port_score(p: u16, c: int) -> int {
    if p == 135 || p == 139 || p == 445 || p == 593 || p == 3389 || p == 5985 || p == 5986 {
        if c == 0 { 40 } else { 0 }
    } else if p == 88 || p == 3283 || p == 3689 || p == 5000 || p == 548 || p == 7000
        || p == 8787 || p == 62022 || p == 62078 {
        if c == 1 { 40 } else { 0 }
    } else if p == 22 || p == 111 || p == 2049 {
        if c == 3 { 15 } else { 0 }
    } else if p == 515 {
        if c == 3 { 10 } else if c == 2 { 12 } else { 0 }
    } else if p == 631 {
        if c == 3 { 12 } else if c == 2 { 10 } else { 0 }
    } else if p == 9100 {
        if c == 2 { 40 } else { 0 }
    } else if p == 23 || p == 161 || p == 1900 {
        if c == 4 { 12 } else { 0 }
    } else if p == 53 || p == 123 {
        if c == 4 { 8 } else if c == 3 { 4 } else { 0 }
    } else if p == 80 || p == 443 || p == 8080 || p == 8443 {
        if c == 4 { 6 } else { 0 }
    } else {
        0
    }
}

/// A port that carries a fingerprint for at least one family.
pub open spec fn is_fingerprint_port(p: u16) -> bool {
    exists|c: int| 0 <= c < 5 && port_score(p, c) > 0
}

/// Sum of the port scores of family `c` over `ports`.
pub open spec fn ports_score(ports: Seq<u16>, c: int) -> int
    decreases ports.len(),
{
    if ports.len() == 0 {
        0
    } else {
        ports_score(ports.drop_last(), c) + port_score(ports.last(), c)
    }
}

/// Total score of family `c`.
pub open spec fn score(ttl: Option<u8>, ports: Seq<u16>, c: int) -> int {
    ttl_score(ttl, c) + ports_score(ports, c)
}

/// Tie-break rank: the more specific family wins a tie.
pub open spec fn priority(c: int) -> int {
    if c == 0 { 3 } else if c == 1 { 4 } else if c == 2 { 2 } else if c == 3 { 1 } else { 0 }
}

/// Family `c` ranks above family `d`: a higher score, or an equal score and
/// a higher tie-break rank.
pub open spec fn ranks_above(ttl: Option<u8>, ports: Seq<u16>, c: int, d: int) -> bool {
    score(ttl, ports, c) > score(ttl, ports, d) || (score(ttl, ports, c) == score(ttl, ports, d)
        && priority(c) > priority(d))
}

/// The best-ranked family among families `0..n`.
pub open spec fn best_among(ttl: Option<u8>, ports: Seq<u16>, n: int) -> int
    decreases n,
{
    if n <= 1 {
        0
    } else {
        let b = best_among(ttl, ports, n - 1);
        if ranks_above(ttl, ports, n - 1, b) {
            n - 1
        } else {
            b
        }
    }
}

/// The winning family.
pub open spec fn winner(ttl: Option<u8>, ports: Seq<u16>) -> int {
    best_among(ttl, ports, 5)
}

/// Display label of family `c`.
pub open spec fn family_label(c: int) -> Seq<char> {
    if c == 0 {
        "Windows"@
    } else if c == 1 {
        "Apple (macOS/iOS)"@
    } else if c == 2 {
        "Printer"@
    } else if c == 3 {
        "Linux/Unix"@
    } else {
        "Network device"@
    }
}

/// The OS guess: the winning family's label, or none when the winner has
/// no positive score.
pub open spec fn os_guess(ttl: Option<u8>, ports: Seq<u16>) -> Option<Seq<char>> {
    let w = winner(ttl, ports);
    if score(ttl, ports, w) <= 0 {
        None
    } else {
        Some(family_label(w))
    }
}

/// Every family's score fits in an `i32`, the type the scores are summed in.
pub open spec fn scores_fit(ttl: Option<u8>, ports: Seq<u16>) -> bool {
    forall|c: int| 0 <= c < 5 ==> #[trigger] score(ttl, ports, c) <= i32::MAX
}

proof fn lemma_ports_score_bounds(ports: Seq<u16>, c: int)
    ensures
        0 <= ports_score(ports, c) <= 40 * ports.len(),
    decreases ports.len(),
{
    if ports.len() > 0 {
        lemma_ports_score_bounds(ports.drop_last(), c);
    }
}

proof fn lemma_ports_score_take(ports: Seq<u16>, i: int, c: int)
    requires
        0 <= i < ports.len(),
    ensures
        ports_score(ports.take(i + 1), c) == ports_score(ports.take(i), c) + port_score(ports[i], c),
{
    assert(ports.take(i + 1).drop_last() =~= ports.take(i));
}

/// A prefix of the ports scores no more than all of them.
proof fn lemma_ports_score_prefix(ports: Seq<u16>, i: int, c: int)
    requires
        0 <= i <= ports.len(),
    ensures
        ports_score(ports.take(i), c) <= ports_score(ports, c),
    decreases ports.len(),
{
    if i < ports.len() {
        assert(ports.drop_last().take(i) =~= ports.take(i));
        lemma_ports_score_prefix(ports.drop_last(), i, c);
    } else {
        assert(ports.take(i) =~= ports);
    }
}

proof fn lemma_best_among_ranks_above(ttl: Option<u8>, ports: Seq<u16>, n: int)
    requires
        1 <= n <= 5,
    ensures
        0 <= best_among(ttl, ports, n) < n,
        forall|d: int|
            0 <= d < n && d != best_among(ttl, ports, n) ==> ranks_above(
                ttl,
                ports,
                best_among(ttl, ports, n),
                d,
            ),
    decreases n,
{
    if n > 1 {
        lemma_best_among_ranks_above(ttl, ports, n - 1);
        let b = best_among(ttl, ports, n - 1);
        let w = best_among(ttl, ports, n);
        assert forall|d: int| 0 <= d < n && d != w implies ranks_above(ttl, ports, w, d) by {
            assert(priority(d) != priority(b) || d == b);
            assert(priority(n - 1) != priority(b));
            if d != b && d != n - 1 {
                assert(ranks_above(ttl, ports, b, d));
            }
        }
    }
}

/// The winning family ranks above every other family: its score is the
/// highest, and among families with that score it has the highest tie-break
/// rank.
pub proof fn lemma_winner_ranks_above_all(ttl: Option<u8>, ports: Seq<u16>)
    ensures
        0 <= winner(ttl, ports) < 5,
        forall|d: int|
            0 <= d < 5 && d != winner(ttl, ports) ==> ranks_above(ttl, ports, winner(ttl, ports), d),
{
    lemma_best_among_ranks_above(ttl, ports, 5);
}

proof fn lemma_ports_score_positive(ports: Seq<u16>, i: int, c: int)
    requires
        0 <= i < ports.len(),
        port_score(ports[i], c) > 0,
    ensures
        ports_score(ports, c) > 0,
    decreases ports.len(),
{
    lemma_ports_score_bounds(ports.drop_last(), c);
    if i < ports.len() - 1 {
        lemma_ports_score_positive(ports.drop_last(), i, c);
    }
}

proof fn lemma_ports_score_zero(ports: Seq<u16>, c: int)
    requires
        forall|i: int| 0 <= i < ports.len() ==> !is_fingerprint_port(#[trigger] ports[i]),
        0 <= c < 5,
    ensures
        ports_score(ports, c) == 0,
    decreases ports.len(),
{
    if ports.len() > 0 {
        let last = ports.last();
        assert(!is_fingerprint_port(ports[ports.len() - 1]));
        assert(port_score(last, c) <= 0);
        lemma_ports_score_zero(ports.drop_last(), c);
    }
}

/// With no signal there is no guess: the guess is `None` exactly when there
/// is no TTL and none of the open ports is a fingerprint port.
pub proof fn lemma_no_signal_no_guess(ttl: Option<u8>, ports: Seq<u16>)
    ensures
        os_guess(ttl, ports) is None <==> (ttl is None && forall|i: int|
            0 <= i < ports.len() ==> !is_fingerprint_port(#[trigger] ports[i])),
{
    lemma_winner_ranks_above_all(ttl, ports);
    let w = winner(ttl, ports);
    assert forall|c: int| 0 <= c < 5 implies score(ttl, ports, c) <= score(ttl, ports, w) by {
        if c != w {
            assert(ranks_above(ttl, ports, w, c));
        }
    }
    if ttl is None && forall|i: int| 0 <= i < ports.len() ==> !is_fingerprint_port(#[trigger] ports[i]) {
        lemma_ports_score_zero(ports, w);
    }
    if let Some(t) = ttl {
        lemma_ports_score_bounds(ports, 0);
        lemma_ports_score_bounds(ports, 3);
        lemma_ports_score_bounds(ports, 4);
        if t <= 64 {
            assert(score(ttl, ports, 3) > 0);
        } else if t <= 128 {
            assert(score(ttl, ports, 0) > 0);
        } else {
            assert(score(ttl, ports, 4) > 0);
        }
    }
    if exists|i: int| 0 <= i < ports.len() && is_fingerprint_port(#[trigger] ports[i]) {
        let i = choose|i: int| 0 <= i < ports.len() && is_fingerprint_port(#[trigger] ports[i]);
        let c = choose|c: int| 0 <= c < 5 && port_score(ports[i], c) > 0;
        lemma_ports_score_positive(ports, i, c);
        assert(ttl_score(ttl, c) >= 0);
        assert(score(ttl, ports, c) > 0);
    }
}

proof fn lemma_ports_score_remove(ports: Seq<u16>, i: int, c: int)
    requires
        0 <= i < ports.len(),
    ensures
        ports_score(ports, c) == ports_score(ports.remove(i), c) + port_score(ports[i], c),
    decreases ports.len(),
{
    if i == ports.len() - 1 {
        assert(ports.remove(i) =~= ports.drop_last());
    } else {
        lemma_ports_score_remove(ports.drop_last(), i, c);
        assert(ports.remove(i).drop_last() =~= ports.drop_last().remove(i));
        assert(ports.remove(i).last() == ports.last());
    }
}

proof fn lemma_ports_score_permutation(a: Seq<u16>, b: Seq<u16>, c: int)
    requires
        a.to_multiset() =~= b.to_multiset(),
    ensures
        ports_score(a, c) == ports_score(b, c),
    decreases a.len(),
{
    broadcast use vstd::seq_lib::to_multiset_len, vstd::seq_lib::to_multiset_contains,
        vstd::seq_lib::to_multiset_remove;

    if a.len() == 0 {
        assert(b.to_multiset().len() == 0);
    } else {
        let x = a.last();
        assert(a.contains(x)) by {
            assert(a[a.len() - 1] == x);
        }
        assert(b.to_multiset().count(x) > 0);
        assert(b.contains(x));
        let i = choose|i: int| 0 <= i < b.len() && b[i] == x;
        assert(a.drop_last() =~= a.remove(a.len() - 1));
        assert(a.drop_last().to_multiset() =~= b.remove(i).to_multiset());
        lemma_ports_score_permutation(a.drop_last(), b.remove(i), c);
        lemma_ports_score_remove(b, i, c);
    }
}

/// Only the set of open ports matters, not the order in which they were
/// found: two port lists with the same elements give the same guess.
pub proof fn lemma_guess_ignores_port_order(ttl: Option<u8>, a: Seq<u16>, b: Seq<u16>)
    requires
        a.to_multiset() =~= b.to_multiset(),
    ensures
        os_guess(ttl, a) == os_guess(ttl, b),
{
    assert forall|c: int| score(ttl, a, c) == score(ttl, b, c) by {
        lemma_ports_score_permutation(a, b, c);
    }
    assert(best_among(ttl, a, 1) == best_among(ttl, b, 1));
    assert(best_among(ttl, a, 2) == best_among(ttl, b, 2));
    assert(best_among(ttl, a, 3) == best_among(ttl, b, 3));
    assert(best_among(ttl, a, 4) == best_among(ttl, b, 4));
    assert(best_among(ttl, a, 5) == best_among(ttl, b, 5));
}

/// A single open port names its family: a Windows, Apple or printer
/// (9100) port wins over any TTL; without a TTL a Unix port (22, 111, 2049,
/// 631) gives Linux/Unix, the line printer port 515 a printer, and a network
/// service port (23, 161, 1900, 53, 123, 80, 443, 8080, 8443) a network
/// device; any other port alone gives no guess.
pub proof fn lemma_single_port_guess(ttl: Option<u8>, p: u16)
    ensures
        (p == 135 || p == 139 || p == 445 || p == 593 || p == 3389 || p == 5985 || p == 5986)
            ==> os_guess(ttl, seq![p]) == Some("Windows"@),
        (p == 88 || p == 548 || p == 3283 || p == 3689 || p == 5000 || p == 7000 || p == 8787
            || p == 62022 || p == 62078) ==> os_guess(ttl, seq![p]) == Some("Apple (macOS/iOS)"@),
        p == 9100 ==> os_guess(ttl, seq![p]) == Some("Printer"@),
        (p == 22 || p == 111 || p == 2049 || p == 631) ==> os_guess(None, seq![p]) == Some(
            "Linux/Unix"@,
        ),
        p == 515 ==> os_guess(None, seq![p]) == Some("Printer"@),
        (p == 23 || p == 161 || p == 1900 || p == 53 || p == 123 || p == 80 || p == 443 || p == 8080
            || p == 8443) ==> os_guess(None, seq![p]) == Some("Network device"@),
        !(p == 135 || p == 139 || p == 445 || p == 593 || p == 3389 || p == 5985 || p == 5986
            || p == 88 || p == 548 || p == 3283 || p == 3689 || p == 5000 || p == 7000 || p == 8787
            || p == 62022 || p == 62078 || p == 9100 || p == 22 || p == 111 || p == 2049 || p == 631
            || p == 515 || p == 23 || p == 161 || p == 1900 || p == 53 || p == 123 || p == 80
            || p == 443 || p == 8080 || p == 8443) ==> os_guess(None, seq![p]) is None,
{
    lemma_single_port_any_ttl(ttl, p);
    lemma_single_port_no_ttl(p);
}

/// The TTL alone names the family: up to 64 Linux/Unix, up to 128
/// Windows, above that a network device.
pub proof fn lemma_ttl_alone_guess(t: u8)
    ensures
        t <= 64 ==> os_guess(Some(t), Seq::<u16>::empty()) == Some("Linux/Unix"@),
        64 < t <= 128 ==> os_guess(Some(t), Seq::<u16>::empty()) == Some("Windows"@),
        128 < t ==> os_guess(Some(t), Seq::<u16>::empty()) == Some("Network device"@),
{
    let ports = Seq::<u16>::empty();
    let ttl = Some(t);
    lemma_winner_ranks_above_all(ttl, ports);
    let w = winner(ttl, ports);
    let f: int = if t <= 64 { 3 } else if t <= 128 { 0 } else { 4 };
    if w != f {
        assert(ranks_above(ttl, ports, w, f));
    }
}

proof fn lemma_single_port_scores(p: u16)
    ensures
        forall|c: int| #[trigger] ports_score(seq![p], c) == port_score(p, c),
{
    let ports = seq![p];
    assert(ports.drop_last() =~= Seq::<u16>::empty());
    assert forall|c: int| #[trigger] ports_score(ports, c) == port_score(p, c) by {
        assert(ports_score(ports, c) == ports_score(ports.drop_last(), c) + port_score(ports.last(), c));
    }
}

proof fn lemma_single_port_any_ttl(ttl: Option<u8>, p: u16)
    ensures
        (p == 135 || p == 139 || p == 445 || p == 593 || p == 3389 || p == 5985 || p == 5986)
            ==> os_guess(ttl, seq![p]) == Some("Windows"@),
        (p == 88 || p == 548 || p == 3283 || p == 3689 || p == 5000 || p == 7000 || p == 8787
            || p == 62022 || p == 62078) ==> os_guess(ttl, seq![p]) == Some("Apple (macOS/iOS)"@),
        p == 9100 ==> os_guess(ttl, seq![p]) == Some("Printer"@),
{
    let ports = seq![p];
    lemma_single_port_scores(p);
    lemma_winner_ranks_above_all(ttl, ports);
    let w = winner(ttl, ports);
    assert forall|c: int| 0 <= c < 5 implies 0 <= #[trigger] ttl_score(ttl, c) <= 20 by {}
    if p == 135 || p == 139 || p == 445 || p == 593 || p == 3389 || p == 5985 || p == 5986 {
        if w != 0 {
            assert(ranks_above(ttl, ports, w, 0));
            assert(score(ttl, ports, w) <= 20);
            assert(score(ttl, ports, 0) >= 40);
        }
    }
    if p == 88 || p == 548 || p == 3283 || p == 3689 || p == 5000 || p == 7000 || p == 8787
        || p == 62022 || p == 62078 {
        if w != 1 {
            assert(ranks_above(ttl, ports, w, 1));
            assert(score(ttl, ports, w) <= 20);
            assert(score(ttl, ports, 1) >= 40);
        }
    }
    if p == 9100 {
        if w != 2 {
            assert(ranks_above(ttl, ports, w, 2));
            assert(score(ttl, ports, w) <= 20);
            assert(score(ttl, ports, 2) >= 40);
        }
    }
}

proof fn lemma_single_port_no_ttl(p: u16)
    ensures
        (p == 22 || p == 111 || p == 2049 || p == 631) ==> os_guess(None, seq![p]) == Some(
            "Linux/Unix"@,
        ),
        p == 515 ==> os_guess(None, seq![p]) == Some("Printer"@),
        (p == 23 || p == 161 || p == 1900 || p == 53 || p == 123 || p == 80 || p == 443 || p == 8080
            || p == 8443) ==> os_guess(None, seq![p]) == Some("Network device"@),
        !(p == 135 || p == 139 || p == 445 || p == 593 || p == 3389 || p == 5985 || p == 5986
            || p == 88 || p == 548 || p == 3283 || p == 3689 || p == 5000 || p == 7000 || p == 8787
            || p == 62022 || p == 62078 || p == 9100 || p == 22 || p == 111 || p == 2049 || p == 631
            || p == 515 || p == 23 || p == 161 || p == 1900 || p == 53 || p == 123 || p == 80
            || p == 443 || p == 8080 || p == 8443) ==> os_guess(None, seq![p]) is None,
{
    let ports = seq![p];
    lemma_single_port_scores(p);
    lemma_winner_ranks_above_all(None, ports);
    let w = winner(None, ports);
    if p == 22 || p == 111 || p == 2049 || p == 631 {
        if w != 3 {
            assert(ranks_above(None, ports, w, 3));
        }
    }
    if p == 515 {
        if w != 2 {
            assert(ranks_above(None, ports, w, 2));
        }
    }
    if p == 23 || p == 161 || p == 1900 || p == 53 || p == 123 || p == 80 || p == 443 || p == 8080
        || p == 8443 {
        if w != 4 {
            assert(ranks_above(None, ports, w, 4));
        }
    }
}

fn rank(c: usize) -> (r: i32)
    requires
        c < 5,
    ensures
        r == priority(c as int),
{
    let ranks: [i32; 5] = [3, 4, 2, 1, 0];
    ranks[c]
}

fn pick_label(c: usize) -> (r: String)
    requires
        c < 5,
    ensures
        r@ == family_label(c as int),
{
    if c == WINDOWS {
        String::from_str("Windows")
    } else if c == APPLE {
        String::from_str("Apple (macOS/iOS)")
    } else if c == PRINTER {
        String::from_str("Printer")
    } else if c == LINUX {
        String::from_str("Linux/Unix")
    } else {
        String::from_str("Network device")
    }
}

/// The scores that the TTL adds to the five families.
fn ttl_weights(ttl: Option<u8>) -> (w: [i32; 5])
    ensures
        forall|c: int| 0 <= c < 5 ==> w@[c] == ttl_score(ttl, c),
{
    match ttl {
        Some(t) => if t <= 64 {
            [0, 0, 0, 20, 0]
        } else if t <= 128 {
            [20, 0, 0, 0, 0]
        } else {
            [0, 0, 0, 0, 15]
        },
        None => [0, 0, 0, 0, 0],
    }
}

/// The scores that open port `p` adds to the five families.
fn port_weights(p: u16) -> (w: [i32; 5])
    ensures
        forall|c: int| 0 <= c < 5 ==> w@[c] == port_score(p, c),
{
    if p == 135 || p == 139 || p == 445 || p == 593 || p == 3389 || p == 5985 || p == 5986 {
        [40, 0, 0, 0, 0]
    } else if p == 88 || p == 3283 || p == 3689 || p == 5000 || p == 548 || p == 7000
        || p == 8787 || p == 62022 || p == 62078 {
        [0, 40, 0, 0, 0]
    } else if p == 22 || p == 111 || p == 2049 {
        [0, 0, 0, 15, 0]
    } else if p == 515 {
        [0, 0, 12, 10, 0]
    } else if p == 631 {
        [0, 0, 10, 12, 0]
    } else if p == 9100 {
        [0, 0, 40, 0, 0]
    } else if p == 23 || p == 161 || p == 1900 {
        [0, 0, 0, 0, 12]
    } else if p == 53 || p == 123 {
        [0, 0, 0, 4, 8]
    } else if p == 80 || p == 443 || p == 8080 || p == 8443 {
        [0, 0, 0, 0, 6]
    } else {
        [0, 0, 0, 0, 0]
    }
}

/// Whether `detect` can sum the scores of these inputs: every family's
/// score fits in an `i32`.
pub fn scores_fit_check(ttl: Option<u8>, open_ports: &[u16]) -> (r: bool)
    ensures
        r == scores_fit(ttl, open_ports@),
{
    let ghost ports = open_ports@;
    let max: i64 = 0x7fff_ffff;
    let t = ttl_weights(ttl);
    let (t0, t1, t2, t3, t4) = (t[0], t[1], t[2], t[3], t[4]);
    assert(ports.take(0) =~= Seq::<u16>::empty());
    assert(t0 == score(ttl, ports.take(0), 0) && t1 == score(ttl, ports.take(0), 1) && t2 == score(
        ttl,
        ports.take(0),
        2,
    ) && t3 == score(ttl, ports.take(0), 3) && t4 == score(ttl, ports.take(0), 4));
    let mut sw: i64 = t0 as i64;
    let mut sa: i64 = t1 as i64;
    let mut sp: i64 = t2 as i64;
    let mut sl: i64 = t3 as i64;
    let mut sd: i64 = t4 as i64;
    let n = open_ports.len();
    let mut i: usize = 0;
    while i < n
        invariant
            n == ports.len(),
            ports == open_ports@,
            max == i32::MAX,
            0 <= i <= n,
            0 <= sw <= max && sw == score(ttl, ports.take(i as int), 0),
            0 <= sa <= max && sa == score(ttl, ports.take(i as int), 1),
            0 <= sp <= max && sp == score(ttl, ports.take(i as int), 2),
            0 <= sl <= max && sl == score(ttl, ports.take(i as int), 3),
            0 <= sd <= max && sd == score(ttl, ports.take(i as int), 4),
        decreases n - i,
    {
        proof {
            lemma_ports_score_take(ports, i as int, 0);
            lemma_ports_score_take(ports, i as int, 1);
            lemma_ports_score_take(ports, i as int, 2);
            lemma_ports_score_take(ports, i as int, 3);
            lemma_ports_score_take(ports, i as int, 4);
        }
        let w = port_weights(open_ports[i]);
        sw = sw + w[0] as i64;
        sa = sa + w[1] as i64;
        sp = sp + w[2] as i64;
        sl = sl + w[3] as i64;
        sd = sd + w[4] as i64;
        if sw > max || sa > max || sp > max || sl > max || sd > max {
            proof {
                lemma_ports_score_prefix(ports, i + 1, 0);
                lemma_ports_score_prefix(ports, i + 1, 1);
                lemma_ports_score_prefix(ports, i + 1, 2);
                lemma_ports_score_prefix(ports, i + 1, 3);
                lemma_ports_score_prefix(ports, i + 1, 4);
                if sw > max {
                    assert(score(ttl, ports, 0) > i32::MAX);
                } else if sa > max {
                    assert(score(ttl, ports, 1) > i32::MAX);
                } else if sp > max {
                    assert(score(ttl, ports, 2) > i32::MAX);
                } else if sl > max {
                    assert(score(ttl, ports, 3) > i32::MAX);
                } else {
                    assert(score(ttl, ports, 4) > i32::MAX);
                }
            }
            return false;
        }
        i = i + 1;
    }
    assert(ports.take(n as int) =~= ports);
    true
}

/// Fingerprint an OS from the initial TTL of an ICMP reply plus the set of
/// open TCP ports. Returns a short human label, or `None` when there is no
/// usable signal.
pub fn detect(ttl: Option<u8>, open_ports: &[u16]) -> (r: Option<String>)
    requires
        scores_fit(ttl, open_ports@),
    ensures
        r matches Some(s) ==> os_guess(ttl, open_ports@) == Some(s@),
        r is None ==> os_guess(ttl, open_ports@) is None,
{
    let ghost ports = open_ports@;
    let t = ttl_weights(ttl);
    let mut sw: i32 = t[0];
    let mut sa: i32 = t[1];
    let mut sp: i32 = t[2];
    let mut sl: i32 = t[3];
    let mut sd: i32 = t[4];
    assert(ports.take(0) =~= Seq::<u16>::empty());
    let n = open_ports.len();
    let mut i: usize = 0;
    while i < n
        invariant
            n == ports.len(),
            ports == open_ports@,
            scores_fit(ttl, ports),
            0 <= i <= n,
            sw == score(ttl, ports.take(i as int), 0),
            sa == score(ttl, ports.take(i as int), 1),
            sp == score(ttl, ports.take(i as int), 2),
            sl == score(ttl, ports.take(i as int), 3),
            sd == score(ttl, ports.take(i as int), 4),
        decreases n - i,
    {
        proof {
            lemma_ports_score_take(ports, i as int, 0);
            lemma_ports_score_take(ports, i as int, 1);
            lemma_ports_score_take(ports, i as int, 2);
            lemma_ports_score_take(ports, i as int, 3);
            lemma_ports_score_take(ports, i as int, 4);
            lemma_ports_score_prefix(ports, i + 1, 0);
            lemma_ports_score_prefix(ports, i + 1, 1);
            lemma_ports_score_prefix(ports, i + 1, 2);
            lemma_ports_score_prefix(ports, i + 1, 3);
            lemma_ports_score_prefix(ports, i + 1, 4);
            lemma_ports_score_bounds(ports.take(i + 1), 0);
            lemma_ports_score_bounds(ports.take(i + 1), 1);
            lemma_ports_score_bounds(ports.take(i + 1), 2);
            lemma_ports_score_bounds(ports.take(i + 1), 3);
            lemma_ports_score_bounds(ports.take(i + 1), 4);
            assert(score(ttl, ports, 0) <= i32::MAX);
            assert(score(ttl, ports, 1) <= i32::MAX);
            assert(score(ttl, ports, 2) <= i32::MAX);
            assert(score(ttl, ports, 3) <= i32::MAX);
            assert(score(ttl, ports, 4) <= i32::MAX);
        }
        let w = port_weights(open_ports[i]);
        sw = sw + w[0];
        sa = sa + w[1];
        sp = sp + w[2];
        sl = sl + w[3];
        sd = sd + w[4];
        i = i + 1;
    }
    assert(ports.take(n as int) =~= ports);
    // Pick the best family; ties go to the more specific one.
    let s: [i32; 5] = [sw, sa, sp, sl, sd];
    let mut best: usize = WINDOWS;
    let mut c: usize = 1;
    while c < FAMILIES
        invariant
            1 <= c <= 5,
            best < c,
            best as int == best_among(ttl, ports, c as int),
            forall|k: int| 0 <= k < 5 ==> s@[k] == score(ttl, ports, k),
        decreases 5 - c,
    {
        if s[c] > s[best] || (s[c] == s[best] && rank(c) > rank(best)) {
            best = c;
        }
        c = c + 1;
    }
    let best_score = s[best];
    if best_score <= 0 {
        return None;
    }
    Some(pick_label(best))
}

/// Sum of the big-endian 16-bit words of `data` from word `k` on, leaving
/// out word `skip`; an odd final byte counts as the high byte of a word.
pub open spec fn word_sum(data: Seq<u8>, skip: nat, k: nat) -> nat
    decreases data.len() - 2 * k,
{
    if 2 * k + 1 < data.len() {
        (if k != skip {
            data[2 * k as int] as nat * 256 + data[(2 * k + 1) as int] as nat
        } else {
            0
        }) + word_sum(data, skip, k + 1)
    } else if 2 * k < data.len() {
        if k != skip {
            data[2 * k as int] as nat * 256
        } else {
            0
        }
    } else {
        0
    }
}

/// Folds the carries of a one's-complement sum into 16 bits.
pub open spec fn fold_carries(s: nat) -> nat
    decreases s,
{
    if s < 0x1_0000 {
        s
    } else {
        proof {
            assert(s / 0x1_0000 + s % 0x1_0000 < s) by (nonlinear_arith)
                requires
                    s >= 0x1_0000,
            ;
        }
        fold_carries(s / 0x1_0000 + s % 0x1_0000)
    }
}

/// The Internet checksum of `data`, word `skip` (the checksum field) taken
/// as zero: the one's complement of the one's-complement word sum, and 0
/// for empty data.
pub open spec fn ones_complement_checksum(data: Seq<u8>, skip: nat) -> u16 {
    if data.len() == 0 {
        0
    } else {
        (0xffff - fold_carries(word_sum(data, skip, 0))) as u16
    }
}

/// pnet's `util::checksum(data, 1)`, the checksum that pnet's
/// `msg::checksum` takes of an ICMP packet (its word 1 is the checksum
/// field). The contract restates pnet's code: the big-endian words are
/// summed into a `u32` (hence the bound on the length), the carries folded,
/// and the result complemented.
#[verifier::external_body]
fn packet_checksum(data: &[u8]) -> (r: u16)
    requires
        data@.len() <= 0x1_0000,
    ensures
        r == ones_complement_checksum(data@, 1),
{
    pnet::packet::util::checksum(data, 1)
}

pub open spec fn hi(x: u16) -> u8 {
    (x as nat / 256) as u8
}

pub open spec fn lo(x: u16) -> u8 {
    (x as nat % 256) as u8
}

/// A 40-byte ICMP echo request with a zero checksum field: type 8, code 0,
/// then the payload `ident`, `seq` (big-endian) and zeros.
pub open spec fn echo_body(ident: u16, seq: u16) -> Seq<u8> {
    seq![8u8, 0, 0, 0, hi(ident), lo(ident), hi(seq), lo(seq)] + Seq::new(32, |k: int| 0u8)
}

/// The echo request with its checksum filled in.
pub open spec fn echo_request_packet(ident: u16, seq: u16) -> Seq<u8> {
    let c = ones_complement_checksum(echo_body(ident, seq), 1);
    echo_body(ident, seq).update(2, hi(c)).update(3, lo(c))
}

/// Build the ICMP echo request that carries `ident` and `seq` in its
/// payload (see `echo_request_packet`).
pub fn echo_request(ident: u16, seq: u16) -> (r: Vec<u8>)
    ensures
        r@ == echo_request_packet(ident, seq),
{
    let mut buf: Vec<u8> = Vec::new();
    buf.push(8);
    buf.push(0);
    buf.push(0);
    buf.push(0);
    buf.push((ident / 256) as u8);
    buf.push((ident % 256) as u8);
    buf.push((seq / 256) as u8);
    buf.push((seq % 256) as u8);
    let mut k: usize = 0;
    while k < 32
        invariant
            k <= 32,
            buf@ == seq![8u8, 0, 0, 0, hi(ident), lo(ident), hi(seq), lo(seq)] + Seq::new(
                k as nat,
                |j: int| 0u8,
            ),
        decreases 32 - k,
    {
        buf.push(0);
        k = k + 1;
        assert(buf@ =~= seq![8u8, 0, 0, 0, hi(ident), lo(ident), hi(seq), lo(seq)] + Seq::new(
            k as nat,
            |j: int| 0u8,
        ));
    }
    let c = packet_checksum(buf.as_slice());
    buf.set(2, (c / 256) as u8);
    buf.set(3, (c % 256) as u8);
    buf
}

/// Collects the TTL of the echo replies to a TTL probe: the first reply of
/// each probed address, matched to its request by the identifier.
pub struct TtlCollector {
    pub id_base: u16,
    pub targets: Vec<u32>,
    pub ttls: Vec<(u32, u8)>,
}

/// The TTL recorded for `ip` (its first entry).
pub open spec fn ttl_lookup(ttls: Seq<(u32, u8)>, ip: u32) -> Option<u8>
    decreases ttls.len(),
{
    if ttls.len() == 0 {
        None
    } else if ttls[0].0 == ip {
        Some(ttls[0].1)
    } else {
        ttl_lookup(ttls.drop_first(), ip)
    }
}

/// `ip` already has a TTL in `ttls`.
pub open spec fn has_ttl(ttls: Seq<(u32, u8)>, ip: u32) -> bool {
    exists|k: int| 0 <= k < ttls.len() && (#[trigger] ttls[k]).0 == ip
}

/// The identifier of the echo request for target `i`.
pub open spec fn request_ident(id_base: u16, i: int) -> u16 {
    ((id_base as int + (i as u16) as int) % 0x1_0000) as u16
}

/// A reply is kept when it is an IPv4 echo reply (type 0) whose identifier
/// names target `idx` (counted from the base identifier), `idx` is the
/// sender, and the sender has no TTL yet.
pub open spec fn reply_kept(
    c: TtlCollector,
    version: u8,
    source: u32,
    msg: Seq<u8>,
) -> bool {
    &&& version == 4
    &&& msg.len() >= 8
    &&& msg[0] == 0
    &&& {
        let ident = msg[4] as int * 256 + msg[5] as int;
        let idx = (ident - c.id_base as int) % 0x1_0000;
        &&& idx < c.targets@.len()
        &&& c.targets@[idx] == source
    }
    &&& !has_ttl(c.ttls@, source)
}

impl TtlCollector {
    pub fn new(id_base: u16, targets: Vec<u32>) -> (r: TtlCollector)
        ensures
            r.id_base == id_base,
            r.targets == targets,
            r.ttls@.len() == 0,
    {
        TtlCollector { id_base, targets, ttls: Vec::new() }
    }

    /// The echo request sent to target `i`: identifier `id_base + i`, and
    /// sequence `i` (both modulo 2^16).
    pub fn request(&self, i: usize) -> (r: Vec<u8>)
        ensures
            r@ == echo_request_packet(request_ident(self.id_base, i as int), i as u16),
    {
        let seq = (i % 0x1_0000) as u16;
        assert(seq == i as u16) by (bit_vector)
            requires
                seq == (i % 0x1_0000) as u16,
        ;
        let ident = self.id_base.wrapping_add(seq);
        echo_request(ident, seq)
    }

    /// Take in one received IPv4 packet: its version, source address, TTL
    /// and ICMP bytes.
    pub fn accept(&mut self, version: u8, source: u32, ttl: u8, msg: &[u8])
        ensures
            final(self).id_base == old(self).id_base,
            final(self).targets == old(self).targets,
            reply_kept(*old(self), version, source, msg@) ==> final(self).ttls@ == old(
                self,
            ).ttls@.push((source, ttl)),
            !reply_kept(*old(self), version, source, msg@) ==> final(self).ttls@ == old(
                self,
            ).ttls@,
    {
        if version != 4 {
            return;
        }
        if msg.len() < 8 || msg[0] != 0 {
            return;
        }
        let ident = (msg[4] as u16) * 256 + msg[5] as u16;
        let idx = ident.wrapping_sub(self.id_base) as usize;
        if idx < self.targets.len() && self.targets[idx] == source {
            let mut k: usize = 0;
            while k < self.ttls.len()
                invariant
                    k <= self.ttls@.len(),
                    forall|m: int| 0 <= m < k ==> (#[trigger] self.ttls@[m]).0 != source,
                decreases self.ttls@.len() - k,
            {
                if self.ttls[k].0 == source {
                    return;
                }
                k = k + 1;
            }
            self.ttls.push((source, ttl));
        }
    }

    /// The TTL recorded for `ip`, if any.
    pub fn ttl_of(&self, ip: u32) -> (r: Option<u8>)
        ensures
            r == ttl_lookup(self.ttls@, ip),
    {
        let mut k: usize = 0;
        assert(self.ttls@.skip(0) =~= self.ttls@);
        while k < self.ttls.len()
            invariant
                k <= self.ttls@.len(),
                ttl_lookup(self.ttls@, ip) == ttl_lookup(self.ttls@.skip(k as int), ip),
            decreases self.ttls@.len() - k,
        {
            assert(self.ttls@.skip(k as int).drop_first() =~= self.ttls@.skip(k + 1));
            if self.ttls[k].0 == ip {
                return Some(self.ttls[k].1);
            }
            k = k + 1;
        }
        None
    }
}

/// An echo reply to the request for target `i` (the reply carries the
/// request's identifier back), coming from that target, is recorded unless
/// the target already has a TTL. Holds for the first 2^16 targets, whose
/// identifiers are distinct.
pub proof fn lemma_reply_to_request_is_kept(c: TtlCollector, i: int, reply: Seq<u8>)
    requires
        0 <= i < c.targets@.len(),
        i < 0x1_0000,
        reply.len() >= 8,
        reply[0] == 0,
        reply[4] == echo_request_packet(request_ident(c.id_base, i), i as u16)[4],
        reply[5] == echo_request_packet(request_ident(c.id_base, i), i as u16)[5],
        !has_ttl(c.ttls@, c.targets@[i]),
    ensures
        reply_kept(c, 4, c.targets@[i], reply),
{
    let id = request_ident(c.id_base, i);
    assert(reply[4] as int * 256 + reply[5] as int == id as int);
    assert((i as u16) as int == i);
}

} // verus!
