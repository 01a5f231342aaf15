use vstd::prelude::*;

use crate::addr::Ipv4Net;

verus! {

/// `String::push` of std: the string afterwards is the old one with `c`
/// appended.
#[verifier::external_body]
pub(crate) fn push_char(s: &mut String, c: char)
    ensures
        final(s)@ == old(s)@.push(c),
{
    s.push(c);
}

/// The decimal digit character for `d < 10`.
pub open spec fn digit_char(d: nat) -> char {
    if d == 0 {
        '0'
    } else if d == 1 {
        '1'
    } else if d == 2 {
        '2'
    } else if d == 3 {
        '3'
    } else if d == 4 {
        '4'
    } else if d == 5 {
        '5'
    } else if d == 6 {
        '6'
    } else if d == 7 {
        '7'
    } else if d == 8 {
        '8'
    } else {
        '9'
    }
}

/// The lower-case hexadecimal digit character for `d < 16`.
pub open spec fn hex_char(d: nat) -> char {
    if d < 10 {
        digit_char(d)
    } else if d == 10 {
        'a'
    } else if d == 11 {
        'b'
    } else if d == 12 {
        'c'
    } else if d == 13 {
        'd'
    } else if d == 14 {
        'e'
    } else {
        'f'
    }
}

/// Decimal rendering of `n`, without leading zeros.
pub open spec fn decimal(n: nat) -> Seq<char>
    decreases n,
{
    if n < 10 {
        seq![digit_char(n)]
    } else {
        decimal(n / 10).push(digit_char(n % 10))
    }
}

/// The number that a string of decimal digits denotes, most significant
/// digit first (each character counts for its code point less that of `'0'`).
pub open spec fn digits_value(s: Seq<char>) -> int
    decreases s.len(),
{
    if s.len() == 0 {
        0
    } else {
        digits_value(s.drop_last()) * 10 + (s.last() as int - '0' as int)
    }
}

/// The value of a lower-case hexadecimal digit character.
pub open spec fn hex_value(c: char) -> int {
    if '0' as int <= c as int <= '9' as int {
        c as int - '0' as int
    } else {
        c as int - 'a' as int + 10
    }
}

/// `decimal` is the base-10 rendering: a non-empty string of the digits
/// `'0'` to `'9'` that reads back as `n`, with no leading zero.
pub proof fn lemma_decimal_reads_back(n: nat)
    ensures
        decimal(n).len() > 0,
        forall|i: int|
            0 <= i < decimal(n).len() ==> '0' as int <= #[trigger] decimal(n)[i] as int <= '9' as int,
        digits_value(decimal(n)) == n,
        decimal(n)[0] == '0' ==> n == 0,
    decreases n,
{
    if n >= 10 {
        lemma_decimal_reads_back(n / 10);
        let d = decimal(n / 10);
        assert(decimal(n) == d.push(digit_char(n % 10)));
        assert(decimal(n).drop_last() =~= d);
        assert(digit_char(n % 10) as int == '0' as int + n % 10);
        assert(n == (n / 10) * 10 + n % 10);
        assert(decimal(n).last() == digit_char(n % 10));
        assert(digits_value(decimal(n)) == digits_value(d) * 10 + (digit_char(n % 10) as int
            - '0' as int));
    } else {
        assert(decimal(n).drop_last() =~= Seq::<char>::empty());
        assert(digit_char(n) as int == '0' as int + n);
        assert(digits_value(decimal(n)) == digits_value(Seq::<char>::empty()) * 10 + (digit_char(n) as int
            - '0' as int));
    }
}

/// Each character of `hex_byte(b)` is a lower-case hex digit, and the two
/// read back as `b`.
pub proof fn lemma_hex_byte_reads_back(b: u8)
    ensures
        hex_byte(b).len() == 2,
        forall|i: int|
            0 <= i < 2 ==> ('0' as int <= #[trigger] hex_byte(b)[i] as int <= '9' as int || 'a' as int
                <= hex_byte(b)[i] as int <= 'f' as int),
        hex_value(hex_byte(b)[0]) * 16 + hex_value(hex_byte(b)[1]) == b,
{
}

/// Dotted-quad rendering of an IPv4 address, as std's `Ipv4Addr` shows it.
pub open spec fn dotted(ip: u32) -> Seq<char> {
    decimal(ip as nat / 0x100_0000) + seq!['.'] + decimal((ip as nat / 0x1_0000) % 256)
        + seq!['.'] + decimal((ip as nat / 0x100) % 256) + seq!['.'] + decimal(ip as nat % 256)
}

/// The dotted quad of the address with bytes `b0.b1.b2.b3` shows those
/// bytes in that order, each in decimal.
pub proof fn lemma_dotted_bytes(b0: u8, b1: u8, b2: u8, b3: u8)
    ensures
        dotted((b0 as int * 0x100_0000 + b1 as int * 0x1_0000 + b2 as int * 0x100 + b3 as int) as u32)
            == decimal(b0 as nat) + seq!['.'] + decimal(b1 as nat) + seq!['.'] + decimal(b2 as nat)
            + seq!['.'] + decimal(b3 as nat),
{
    let x = b0 as int * 0x100_0000 + b1 as int * 0x1_0000 + b2 as int * 0x100 + b3 as int;
    assert(0 <= x < 0x1_0000_0000);
    let ip = x as u32;
    assert(ip as nat / 0x100_0000 == b0);
    assert(ip as nat / 0x1_0000 == b0 as int * 0x100 + b1 as int);
    assert((ip as nat / 0x1_0000) % 256 == b1);
    assert(ip as nat / 0x100 == b0 as int * 0x1_0000 + b1 as int * 0x100 + b2 as int);
    assert((ip as nat / 0x100) % 256 == b2);
    assert(ip as nat % 256 == b3);
}

/// `address/prefix`, as ipnetwork's `Ipv4Network` shows a network.
pub open spec fn cidr_text(net: Ipv4Net) -> Seq<char> {
    dotted(net.addr) + seq!['/'] + decimal(net.prefix as nat)
}

/// Two lower-case hex digits of a byte.
pub open spec fn hex_byte(b: u8) -> Seq<char> {
    seq![hex_char(b as nat / 16), hex_char(b as nat % 16)]
}

/// `aa:bb:cc:dd:ee:ff`, as pnet's `MacAddr` shows a hardware address.
pub open spec fn mac_text(m: Seq<u8>) -> Seq<char> {
    hex_byte(m[0]) + seq![':'] + hex_byte(m[1]) + seq![':'] + hex_byte(m[2]) + seq![':']
        + hex_byte(m[3]) + seq![':'] + hex_byte(m[4]) + seq![':'] + hex_byte(m[5])
}

/// The text of a hardware address is 17 characters: byte `k` as two hex
/// digits at `3k` and `3k + 1`, with colons between the bytes.
pub proof fn lemma_mac_text_reads_back(m: Seq<u8>)
    requires
        m.len() == 6,
    ensures
        mac_text(m).len() == 17,
        forall|k: int| 0 <= k < 5 ==> #[trigger] mac_text(m)[3 * k + 2] == ':',
        forall|k: int|
            0 <= k < 6 ==> hex_value(#[trigger] mac_text(m)[3 * k]) * 16 + hex_value(mac_text(m)[3 * k + 1])
                == m[k],
{
    let t = mac_text(m);
    assert forall|k: int| 0 <= k < 6 implies hex_value(#[trigger] t[3 * k]) * 16 + hex_value(t[3 * k + 1])
        == m[k] by {
        lemma_hex_byte_reads_back(m[k]);
        assert(t[3 * k] == hex_byte(m[k])[0]);
        assert(t[3 * k + 1] == hex_byte(m[k])[1]);
    }
}

fn hex_digit(d: u8) -> (c: char)
    requires
        d < 16,
    ensures
        c == hex_char(d as nat),
{
    if d == 0 {
        '0'
    } else if d == 1 {
        '1'
    } else if d == 2 {
        '2'
    } else if d == 3 {
        '3'
    } else if d == 4 {
        '4'
    } else if d == 5 {
        '5'
    } else if d == 6 {
        '6'
    } else if d == 7 {
        '7'
    } else if d == 8 {
        '8'
    } else if d == 9 {
        '9'
    } else if d == 10 {
        'a'
    } else if d == 11 {
        'b'
    } else if d == 12 {
        'c'
    } else if d == 13 {
        'd'
    } else if d == 14 {
        'e'
    } else {
        'f'
    }
}

/// Appends the decimal rendering of `n`.
pub fn push_decimal(s: &mut String, n: u32)
    ensures
        final(s)@ == old(s)@ + decimal(n as nat),
    decreases n,
{
    if n >= 10 {
        push_decimal(s, n / 10);
    }
    let d = (n % 10) as u8;
    push_char(s, hex_digit(d));
    proof {
        if n >= 10 {
            assert(decimal(n as nat) == decimal((n / 10) as nat).push(digit_char((n % 10) as nat)));
        }
    }
    assert(s@ =~= old(s)@ + decimal(n as nat));
}

/// Appends the dotted-quad rendering of `ip`.
pub fn push_dotted(s: &mut String, ip: u32)
    ensures
        final(s)@ == old(s)@ + dotted(ip),
{
    push_decimal(s, ip / 0x100_0000);
    push_char(s, '.');
    push_decimal(s, (ip / 0x1_0000) % 256);
    push_char(s, '.');
    push_decimal(s, (ip / 0x100) % 256);
    push_char(s, '.');
    push_decimal(s, ip % 256);
    assert(s@ =~= old(s)@ + dotted(ip));
}

/// The dotted-quad rendering of `ip`.
pub fn ip_text(ip: u32) -> (r: String)
    ensures
        r@ == dotted(ip),
{
    let mut s = String::new();
    push_dotted(&mut s, ip);
    assert(s@ =~= dotted(ip));
    s
}

/// The `address/prefix` rendering of a network.
pub fn net_text(net: &Ipv4Net) -> (r: String)
    ensures
        r@ == cidr_text(*net),
{
    let mut s = String::new();
    push_dotted(&mut s, net.addr);
    push_char(&mut s, '/');
    push_decimal(&mut s, net.prefix as u32);
    assert(s@ =~= cidr_text(*net));
    s
}

fn push_hex_byte(s: &mut String, b: u8)
    ensures
        final(s)@ == old(s)@ + hex_byte(b),
{
    push_char(s, hex_digit(b / 16));
    push_char(s, hex_digit(b % 16));
    assert(s@ =~= old(s)@ + hex_byte(b));
}

/// The `aa:bb:cc:dd:ee:ff` rendering of a hardware address.
pub fn mac_string(mac: &[u8; 6]) -> (r: String)
    ensures
        r@ == mac_text(mac@),
{
    let mut s = String::new();
    push_hex_byte(&mut s, mac[0]);
    push_char(&mut s, ':');
    push_hex_byte(&mut s, mac[1]);
    push_char(&mut s, ':');
    push_hex_byte(&mut s, mac[2]);
    push_char(&mut s, ':');
    push_hex_byte(&mut s, mac[3]);
    push_char(&mut s, ':');
    push_hex_byte(&mut s, mac[4]);
    push_char(&mut s, ':');
    push_hex_byte(&mut s, mac[5]);
    assert(s@ =~= mac_text(mac@));
    s
}

/// Appends a string slice.
pub fn push_str(s: &mut String, t: &str)
    ensures
        final(s)@ == old(s)@ + t@,
{
    s.append(t);
}

/// A copy of an optional string.
pub(crate) fn clone_opt(o: &Option<String>) -> (r: Option<String>)
    ensures
        r == *o,
{
    match o {
        Some(s) => Some(s.clone()),
        None => None,
    }
}

} // verus!
