//! IPv4 and IPv6 socket addresses and their text forms.

use vstd::prelude::*;

verus! {

/// An IPv4 address, octets in network order: `a.b.c.d`.
#[derive(Clone, Copy, Debug, PartialEq, Eq, Structural)]
pub struct Ipv4 {
    pub a: u8,
    pub b: u8,
    pub c: u8,
    pub d: u8,
}

/// An IPv6 address as its eight 16-bit groups, `g0:g1:...:g7`.
#[derive(Clone, Copy, Debug, PartialEq, Eq, Structural)]
pub struct Ipv6 {
    pub g0: u16,
    pub g1: u16,
    pub g2: u16,
    pub g3: u16,
    pub g4: u16,
    pub g5: u16,
    pub g6: u16,
    pub g7: u16,
}

#[derive(Clone, Copy, Debug, PartialEq, Eq, Structural)]
pub enum IpAddress {
    V4(Ipv4),
    V6(Ipv6),
}

/// A transport address: an IP address and a port.
#[derive(Clone, Copy, Debug, PartialEq, Eq, Structural)]
pub struct SocketAddress {
    pub ip: IpAddress,
    pub port: u16,
}

pub open spec fn is_digit(c: char) -> bool {
    '0' <= c && c <= '9'
}

pub open spec fn digit_value(c: char) -> nat {
    (c as nat - '0' as nat) as nat
}

pub open spec fn digit_char(d: nat) -> char {
    if d == 0 { '0' } else if d == 1 { '1' } else if d == 2 { '2' } else if d == 3 { '3' }
    else if d == 4 { '4' } else if d == 5 { '5' } else if d == 6 { '6' } else if d == 7 { '7' }
    else if d == 8 { '8' } else { '9' }
}

pub open spec fn all_digits(s: Seq<char>) -> bool {
    forall|i: int| 0 <= i < s.len() ==> is_digit(#[trigger] s[i])
}

/// The number that a string of decimal digits denotes.
pub open spec fn decimal_value(s: Seq<char>) -> nat
    decreases s.len(),
{
    if s.len() == 0 {
        0
    } else {
        decimal_value(s.drop_last()) * 10 + digit_value(s.last())
    }
}

/// The shortest decimal text of `n`.
pub open spec fn decimal_text(n: nat) -> Seq<char>
    decreases n,
{
    if n < 10 {
        seq![digit_char(n)]
    } else {
        decimal_text(n / 10).push(digit_char(n % 10))
    }
}

/// Dotted-quad text of an IPv4 address.
pub open spec fn ip_text(ip: Ipv4) -> Seq<char> {
    decimal_text(ip.a as nat) + seq!['.'] + decimal_text(ip.b as nat) + seq!['.']
        + decimal_text(ip.c as nat) + seq!['.'] + decimal_text(ip.d as nat)
}

/// The fields joined with `sep` between each two.
pub open spec fn join(fs: Seq<Seq<char>>, sep: char) -> Seq<char>
    decreases fs.len(),
{
    if fs.len() == 0 {
        Seq::<char>::empty()
    } else if fs.len() == 1 {
        fs[0]
    } else {
        join(fs.drop_last(), sep) + seq![sep] + fs.last()
    }
}

pub open spec fn is_hex_digit(c: char) -> bool {
    ('0' <= c && c <= '9') || ('a' <= c && c <= 'f') || ('A' <= c && c <= 'F')
}

pub open spec fn hex_digit_value(c: char) -> nat {
    if '0' <= c && c <= '9' {
        (c as nat - '0' as nat) as nat
    } else if 'a' <= c && c <= 'f' {
        (c as nat - 'a' as nat + 10) as nat
    } else {
        (c as nat - 'A' as nat + 10) as nat
    }
}

pub open spec fn hex_digit_char(d: nat) -> char {
    if d < 10 {
        digit_char(d)
    } else if d == 10 { 'a' } else if d == 11 { 'b' } else if d == 12 { 'c' } else if d == 13 { 'd' }
    else if d == 14 { 'e' } else { 'f' }
}

pub open spec fn all_hex(s: Seq<char>) -> bool {
    forall|i: int| 0 <= i < s.len() ==> is_hex_digit(#[trigger] s[i])
}

/// The number that a string of hexadecimal digits denotes.
pub open spec fn hex_value(s: Seq<char>) -> nat
    decreases s.len(),
{
    if s.len() == 0 {
        0
    } else {
        hex_value(s.drop_last()) * 16 + hex_digit_value(s.last())
    }
}

/// The shortest lowercase hexadecimal text of `n`.
pub open spec fn hex_text(n: nat) -> Seq<char>
    decreases n,
{
    if n < 16 {
        seq![hex_digit_char(n)]
    } else {
        hex_text(n / 16).push(hex_digit_char(n % 16))
    }
}

impl Ipv6 {
    pub open spec fn groups(self) -> Seq<u16> {
        seq![self.g0, self.g1, self.g2, self.g3, self.g4, self.g5, self.g6, self.g7]
    }

    pub open spec fn from_groups(g: Seq<u16>) -> Ipv6 {
        Ipv6 { g0: g[0], g1: g[1], g2: g[2], g3: g[3], g4: g[4], g5: g[5], g6: g[6], g7: g[7] }
    }

    pub fn group(&self, i: usize) -> (r: u16)
        requires
            i < 8,
        ensures
            r == self.groups()[i as int],
    {
        if i == 0 { self.g0 } else if i == 1 { self.g1 } else if i == 2 { self.g2 }
        else if i == 3 { self.g3 } else if i == 4 { self.g4 } else if i == 5 { self.g5 }
        else if i == 6 { self.g6 } else { self.g7 }
    }
}

/// The hexadecimal texts of some groups.
pub open spec fn group_texts(g: Seq<u16>) -> Seq<Seq<char>> {
    g.map_values(|x: u16| hex_text(x as nat))
}

/// How many zero groups follow from index `i` on.
pub open spec fn zeros_from(g: Seq<u16>, i: int) -> nat
    decreases g.len() - i,
{
    if i < 0 || i >= g.len() || g[i] != 0 {
        0
    } else {
        1 + zeros_from(g, i + 1)
    }
}

/// Start and length of the first longest run of zero groups at or after
/// index `i`; length 0 when there is none.
pub open spec fn longest_zero_run(g: Seq<u16>, i: int) -> (int, nat)
    decreases g.len() - i,
{
    if i < 0 || i >= g.len() {
        (0, 0)
    } else {
        let r = longest_zero_run(g, i + 1);
        let z = zeros_from(g, i);
        if z > 0 && z >= r.1 {
            (i, z)
        } else {
            r
        }
    }
}

/// An IPv4 address mapped into IPv6: `::ffff:a.b.c.d`.
pub open spec fn is_v4_mapped(ip: Ipv6) -> bool {
    ip.g0 == 0 && ip.g1 == 0 && ip.g2 == 0 && ip.g3 == 0 && ip.g4 == 0 && ip.g5 == 0xffff
}

pub open spec fn mapped_v4(ip: Ipv6) -> Ipv4 {
    Ipv4 {
        a: (ip.g6 / 256) as u8,
        b: (ip.g6 % 256) as u8,
        c: (ip.g7 / 256) as u8,
        d: (ip.g7 % 256) as u8,
    }
}

/// The usual text of an IPv6 address: an IPv4-mapped one as
/// `::ffff:a.b.c.d`; otherwise lowercase groups without leading zeros, the
/// first longest run of two or more zero groups written `::`.
pub open spec fn ipv6_text(ip: Ipv6) -> Seq<char> {
    let g = ip.groups();
    let r = longest_zero_run(g, 0);
    if is_v4_mapped(ip) {
        seq![':', ':', 'f', 'f', 'f', 'f', ':'] + ip_text(mapped_v4(ip))
    } else if r.1 >= 2 {
        join(group_texts(g.subrange(0, r.0)), ':') + seq![':', ':'] + join(
            group_texts(g.subrange(r.0 + r.1, 8)),
            ':',
        )
    } else {
        join(group_texts(g), ':')
    }
}

/// The text of a socket address: `a.b.c.d:port`, or `[ipv6]:port`.
pub open spec fn address_text(a: SocketAddress) -> Seq<char> {
    match a.ip {
        IpAddress::V4(v4) => ip_text(v4) + seq![':'] + decimal_text(a.port as nat),
        IpAddress::V6(v6) => seq!['['] + ipv6_text(v6) + seq![']', ':'] + decimal_text(
            a.port as nat,
        ),
    }
}

pub proof fn lemma_digit_char(d: nat)
    requires
        d < 10,
    ensures
        is_digit(digit_char(d)),
        digit_value(digit_char(d)) == d,
{
}

/// The decimal text of a number is a non-empty digit string without a
/// leading zero that denotes the number.
pub proof fn lemma_decimal_text(n: nat)
    ensures
        decimal_text(n).len() >= 1,
        all_digits(decimal_text(n)),
        decimal_value(decimal_text(n)) == n,
        decimal_text(n).len() > 1 ==> decimal_text(n)[0] != '0',
        n < 10 ==> decimal_text(n).len() == 1,
        n >= 10 ==> decimal_text(n).len() >= 2,
        n < 100 ==> decimal_text(n).len() <= 2,
        n < 1000 ==> decimal_text(n).len() <= 3,
        n < 10000 ==> decimal_text(n).len() <= 4,
        n < 100000 ==> decimal_text(n).len() <= 5,
    decreases n,
{
    lemma_digit_char(n % 10);
    if n < 10 {
        let t = decimal_text(n);
        assert(t.drop_last() =~= Seq::<char>::empty());
        assert(decimal_value(t) == decimal_value(t.drop_last()) * 10 + digit_value(t.last()));
    } else {
        lemma_decimal_text(n / 10);
        let t = decimal_text(n);
        let p = decimal_text(n / 10);
        assert(t.drop_last() =~= p);
        assert(t.last() == digit_char(n % 10));
        assert(n == (n / 10) * 10 + n % 10);
        assert(decimal_value(t) == decimal_value(p) * 10 + digit_value(t.last()));
        assert(all_digits(t)) by {
            assert forall|i: int| 0 <= i < t.len() implies is_digit(#[trigger] t[i]) by {
                if i < p.len() {
                    assert(t[i] == p[i]);
                }
            }
        }
        assert(t[0] == p[0]);
        if n / 10 < 10 {
            lemma_digit_char(n / 10);
        }
    }
}

fn digit_str(d: u32) -> (r: &'static str)
    requires
        d < 10,
    ensures
        r@ == seq![digit_char(d as nat)],
{
    proof {
        reveal_strlit("0");
        reveal_strlit("1");
        reveal_strlit("2");
        reveal_strlit("3");
        reveal_strlit("4");
        reveal_strlit("5");
        reveal_strlit("6");
        reveal_strlit("7");
        reveal_strlit("8");
        reveal_strlit("9");
    }
    let r = if d == 0 { "0" } else if d == 1 { "1" } else if d == 2 { "2" } else if d == 3 { "3" }
    else if d == 4 { "4" } else if d == 5 { "5" } else if d == 6 { "6" } else if d == 7 { "7" }
    else if d == 8 { "8" } else { "9" };
    assert(r@ =~= seq![digit_char(d as nat)]);
    r
}

/// Appends the decimal text of `n` to `out`.
pub fn push_decimal(out: &mut String, n: u32)
    ensures
        final(out)@ == old(out)@ + decimal_text(n as nat),
    decreases n,
{
    if n >= 10 {
        push_decimal(out, n / 10);
    }
    let d = digit_str(n % 10);
    out.append(d);
    proof {
        if n >= 10 {
            assert(decimal_text(n as nat) == decimal_text((n / 10) as nat).push(digit_char((n % 10) as nat)));
        }
    }
    assert(final(out)@ =~= old(out)@ + decimal_text(n as nat));
}

impl SocketAddress {
    /// The `ip:port` text of the address, as in `192.0.2.5:54321`.
    pub fn to_text(&self) -> (r: String)
        ensures
            r@ == address_text(*self),
    {
        let mut s = String::new();
        proof {
            reveal_strlit(":");
            reveal_strlit("[");
            reveal_strlit("]:");
        }
        match self.ip {
            IpAddress::V4(v4) => {
                push_ip(&mut s, v4);
                s.append(":");
            },
            IpAddress::V6(v6) => {
                s.append("[");
                push_ipv6(&mut s, &v6);
                s.append("]:");
            },
        }
        push_decimal(&mut s, self.port as u32);
        assert(s@ =~= address_text(*self));
        s
    }
}

/// Appends the dotted-quad text of `ip` to `out`.
pub fn push_ip(out: &mut String, ip: Ipv4)
    ensures
        final(out)@ == old(out)@ + ip_text(ip),
{
    proof {
        reveal_strlit(".");
    }
    push_decimal(out, ip.a as u32);
    out.append(".");
    push_decimal(out, ip.b as u32);
    out.append(".");
    push_decimal(out, ip.c as u32);
    out.append(".");
    push_decimal(out, ip.d as u32);
    assert(final(out)@ =~= old(out)@ + ip_text(ip));
}

pub proof fn lemma_hex_digit_char(d: nat)
    requires
        d < 16,
    ensures
        is_hex_digit(hex_digit_char(d)),
        hex_digit_value(hex_digit_char(d)) == d,
{
    if d < 10 {
        lemma_digit_char(d);
    }
}

/// The hexadecimal text of a number is a non-empty hex digit string that
/// denotes the number; a 16-bit number takes at most four digits.
pub proof fn lemma_hex_text(n: nat)
    ensures
        hex_text(n).len() >= 1,
        all_hex(hex_text(n)),
        hex_value(hex_text(n)) == n,
        n < 16 ==> hex_text(n).len() == 1,
        n < 256 ==> hex_text(n).len() <= 2,
        n < 4096 ==> hex_text(n).len() <= 3,
        n < 65536 ==> hex_text(n).len() <= 4,
    decreases n,
{
    lemma_hex_digit_char(n % 16);
    let t = hex_text(n);
    if n < 16 {
        assert(t.drop_last() =~= Seq::<char>::empty());
        assert(hex_value(t) == hex_value(t.drop_last()) * 16 + hex_digit_value(t.last()));
    } else {
        lemma_hex_text(n / 16);
        let p = hex_text(n / 16);
        assert(t.drop_last() =~= p);
        assert(t.last() == hex_digit_char(n % 16));
        assert(n == (n / 16) * 16 + n % 16);
        assert(hex_value(t) == hex_value(p) * 16 + hex_digit_value(t.last()));
        assert forall|i: int| 0 <= i < t.len() implies is_hex_digit(#[trigger] t[i]) by {
            if i < p.len() {
                assert(t[i] == p[i]);
            }
        }
    }
}

fn hex_digit_str(d: u32) -> (r: &'static str)
    requires
        d < 16,
    ensures
        r@ == seq![hex_digit_char(d as nat)],
{
    if d < 10 {
        return digit_str(d);
    }
    proof {
        reveal_strlit("a");
        reveal_strlit("b");
        reveal_strlit("c");
        reveal_strlit("d");
        reveal_strlit("e");
        reveal_strlit("f");
    }
    let r = if d == 10 { "a" } else if d == 11 { "b" } else if d == 12 { "c" } else if d == 13 {
        "d"
    } else if d == 14 { "e" } else { "f" };
    assert(r@ =~= seq![hex_digit_char(d as nat)]);
    r
}

/// Appends the lowercase hexadecimal text of `n` to `out`.
pub fn push_hex(out: &mut String, n: u32)
    ensures
        final(out)@ == old(out)@ + hex_text(n as nat),
    decreases n,
{
    if n >= 16 {
        push_hex(out, n / 16);
    }
    let d = hex_digit_str(n % 16);
    out.append(d);
    proof {
        if n >= 16 {
            assert(hex_text(n as nat) == hex_text((n / 16) as nat).push(
                hex_digit_char((n % 16) as nat),
            ));
        }
    }
    assert(final(out)@ =~= old(out)@ + hex_text(n as nat));
}

/// Appends groups `from..to` of `ip`, joined with `:`.
pub fn push_groups(out: &mut String, ip: &Ipv6, from: usize, to: usize)
    requires
        from <= to <= 8,
    ensures
        final(out)@ == old(out)@ + join(group_texts(ip.groups().subrange(from as int, to as int)), ':'),
{
    let ghost g = ip.groups();
    proof {
        reveal_strlit(":");
    }
    let mut k = from;
    assert(group_texts(g.subrange(from as int, from as int)) =~= Seq::<Seq<char>>::empty());
    while k < to
        invariant
            from <= k <= to <= 8,
            g == ip.groups(),
            out@ == old(out)@ + join(group_texts(g.subrange(from as int, k as int)), ':'),
        decreases to - k,
    {
        let ghost before = group_texts(g.subrange(from as int, k as int));
        let ghost after = group_texts(g.subrange(from as int, k + 1));
        assert(after.drop_last() =~= before);
        assert(after.last() == hex_text(g[k as int] as nat));
        if k > from {
            proof {
                reveal_strlit(":");
            }
            out.append(":");
            assert(join(after, ':') == join(before, ':') + seq![':'] + hex_text(g[k as int] as nat));
        } else {
            assert(after =~= seq![hex_text(g[k as int] as nat)]);
        }
        push_hex(out, ip.group(k) as u32);
        k = k + 1;
    }
}

/// The first longest run of zero groups of `ip`.
pub fn zero_run(ip: &Ipv6) -> (r: (usize, usize))
    ensures
        r.0 as int == longest_zero_run(ip.groups(), 0).0,
        r.1 as nat == longest_zero_run(ip.groups(), 0).1,
        r.0 + r.1 <= 8,
{
    let ghost g = ip.groups();
    let mut i: usize = 8;
    let mut z: usize = 0;
    let mut best: (usize, usize) = (0, 0);
    while i > 0
        invariant
            i <= 8,
            g == ip.groups(),
            z as nat == zeros_from(g, i as int),
            z + i <= 8,
            best.0 as int == longest_zero_run(g, i as int).0,
            best.1 as nat == longest_zero_run(g, i as int).1,
            best.0 + best.1 <= 8,
        decreases i,
    {
        i = i - 1;
        if ip.group(i) == 0 {
            z = z + 1;
        } else {
            z = 0;
        }
        if z > 0 && z >= best.1 {
            best = (i, z);
        }
    }
    best
}

/// Appends the usual text of `ip` (see `ipv6_text`).
pub fn push_ipv6(out: &mut String, ip: &Ipv6)
    ensures
        final(out)@ == old(out)@ + ipv6_text(*ip),
{
    if ip.g0 == 0 && ip.g1 == 0 && ip.g2 == 0 && ip.g3 == 0 && ip.g4 == 0 && ip.g5 == 0xffff {
        out.append("::ffff:");
        proof {
            reveal_strlit("::ffff:");
        }
        let v4 = Ipv4 {
            a: (ip.g6 / 256) as u8,
            b: (ip.g6 % 256) as u8,
            c: (ip.g7 / 256) as u8,
            d: (ip.g7 % 256) as u8,
        };
        push_ip(out, v4);
        assert(final(out)@ =~= old(out)@ + ipv6_text(*ip));
        return;
    }
    let (start, len) = zero_run(ip);
    if len >= 2 {
        push_groups(out, ip, 0, start);
        out.append("::");
        push_groups(out, ip, start + len, 8);
        proof {
            reveal_strlit("::");
        }
    } else {
        push_groups(out, ip, 0, 8);
        assert(ip.groups().subrange(0, 8) =~= ip.groups());
    }
    assert(final(out)@ =~= old(out)@ + ipv6_text(*ip));
}

} // verus!
