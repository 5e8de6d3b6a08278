//! ICE candidate lines: the transport address they carry, and a line that
//! carries a given address.

use vstd::prelude::*;
use vstd::string::*;
use crate::address::{
    all_digits, all_hex, decimal_text, decimal_value, digit_value, group_texts, hex_digit_value,
    hex_text, hex_value, ip_text, ipv6_text, is_digit, is_hex_digit, is_v4_mapped,
    join, lemma_decimal_text, lemma_hex_text, longest_zero_run, mapped_v4, push_decimal, push_ip,
    push_ipv6, zeros_from, IpAddress, Ipv4, Ipv6, SocketAddress,
};

verus! {

/// The fields of `s` between occurrences of `sep`; `n` separators give
/// `n + 1` fields, empty ones included.
pub open spec fn split_on(s: Seq<char>, sep: char) -> Seq<Seq<char>>
    decreases s.len(),
{
    if s.len() == 0 {
        seq![Seq::<char>::empty()]
    } else {
        let f = split_on(s.drop_last(), sep);
        if s.last() == sep {
            f.push(Seq::<char>::empty())
        } else {
            f.update(f.len() - 1, f.last().push(s.last()))
        }
    }
}

pub open spec fn free_of(s: Seq<char>, sep: char) -> bool {
    forall|i: int| 0 <= i < s.len() ==> #[trigger] s[i] != sep
}

/// A decimal octet: one to three digits, at most 255, no leading zero.
pub open spec fn octet_ok(s: Seq<char>) -> bool {
    &&& s.len() >= 1
    &&& all_digits(s)
    &&& decimal_value(s) <= 255
    &&& s.len() > 1 ==> s[0] != '0'
}

/// The digits of a port field: the field without one leading `+`.
pub open spec fn port_digits(s: Seq<char>) -> Seq<char> {
    if s.len() > 0 && s[0] == '+' {
        s.drop_first()
    } else {
        s
    }
}

/// A decimal port: an optional `+`, then one or more digits, at most 65535.
pub open spec fn port_ok(s: Seq<char>) -> bool {
    &&& port_digits(s).len() >= 1
    &&& all_digits(port_digits(s))
    &&& decimal_value(port_digits(s)) <= 65535
}

/// The IPv4 address that dotted-quad text denotes, if it is one.
pub open spec fn ipv4_of(s: Seq<char>) -> Option<Ipv4> {
    let p = split_on(s, '.');
    if p.len() == 4 && octet_ok(p[0]) && octet_ok(p[1]) && octet_ok(p[2]) && octet_ok(p[3]) {
        Some(
            Ipv4 {
                a: decimal_value(p[0]) as u8,
                b: decimal_value(p[1]) as u8,
                c: decimal_value(p[2]) as u8,
                d: decimal_value(p[3]) as u8,
            },
        )
    } else {
        None
    }
}

pub open spec fn port_of(s: Seq<char>) -> Option<u16> {
    if port_ok(s) {
        Some(decimal_value(port_digits(s)) as u16)
    } else {
        None
    }
}

/// One to four hexadecimal digits.
pub open spec fn is_hex_group(s: Seq<char>) -> bool {
    1 <= s.len() <= 4 && all_hex(s)
}

/// The two groups that an IPv4 address fills at the end of an IPv6 one.
pub open spec fn v4_groups(v: Ipv4) -> Seq<u16> {
    seq![((v.a as nat) * 256 + v.b as nat) as u16, ((v.c as nat) * 256 + v.d as nat) as u16]
}

/// The groups of colon-separated hex text; none for empty text. With
/// `v4_tail`, the last field may instead be a dotted quad, which fills two
/// groups.
pub open spec fn groups_of(t: Seq<char>, v4_tail: bool) -> Option<Seq<u16>> {
    let f = split_on(t, ':');
    let last = f[f.len() - 1];
    if t.len() == 0 {
        Some(Seq::<u16>::empty())
    } else if !(forall|i: int| 0 <= i < f.len() - 1 ==> is_hex_group(#[trigger] f[i])) {
        None
    } else if is_hex_group(last) {
        Some(f.map_values(|x: Seq<char>| hex_value(x) as u16))
    } else if v4_tail && ipv4_of(last) is Some {
        Some(
            f.drop_last().map_values(|x: Seq<char>| hex_value(x) as u16) + v4_groups(
                ipv4_of(last).unwrap(),
            ),
        )
    } else {
        None
    }
}

/// The first index at or after `from` where `::` starts.
pub open spec fn find_pair(s: Seq<char>, from: int) -> Option<int>
    decreases s.len() - from,
{
    if from < 0 || from + 1 >= s.len() {
        None
    } else if s[from] == ':' && s[from + 1] == ':' {
        Some(from)
    } else {
        find_pair(s, from + 1)
    }
}

/// The IPv6 address that the text denotes: eight hex groups of one to four
/// digits joined by `:`, or fewer around one `::` that stands for at least
/// one zero group; the last two groups may be written as a dotted quad.
pub open spec fn ipv6_of(s: Seq<char>) -> Option<Ipv6> {
    match find_pair(s, 0) {
        None => match groups_of(s, true) {
            Some(g) => if g.len() == 8 {
                Some(Ipv6::from_groups(g))
            } else {
                None
            },
            None => None,
        },
        Some(k) => match (
            groups_of(s.subrange(0, k), false),
            groups_of(s.subrange(k + 2, s.len() as int), true),
        ) {
            (Some(h), Some(t)) => if h.len() + t.len() <= 7 {
                Some(
                    Ipv6::from_groups(
                        h + Seq::new((8 - h.len() - t.len()) as nat, |i: int| 0u16) + t,
                    ),
                )
            } else {
                None
            },
            _ => None,
        },
    }
}

/// The IP address that the text denotes, IPv4 or IPv6.
pub open spec fn ip_of(s: Seq<char>) -> Option<IpAddress> {
    match ipv4_of(s) {
        Some(v4) => Some(IpAddress::V4(v4)),
        None => match ipv6_of(s) {
            Some(v6) => Some(IpAddress::V6(v6)),
            None => None,
        },
    }
}

/// The transport address of an ICE candidate line. Its space-separated
/// fields are foundation, component, protocol, priority, connection
/// address, port and the rest; the line carries an address when it has at
/// least six fields, the fifth is an IPv4 or IPv6 address and the sixth a
/// port.
pub open spec fn candidate_address(line: Seq<char>) -> Option<SocketAddress> {
    let f = split_on(line, ' ');
    if f.len() >= 6 {
        match (ip_of(f[4]), port_of(f[5])) {
            (Some(ip), Some(port)) => Some(SocketAddress { ip, port }),
            _ => None,
        }
    } else {
        None
    }
}

/// How `encode_candidate` writes an address: its usual text.
pub open spec fn ip_field(ip: IpAddress) -> Seq<char> {
    match ip {
        IpAddress::V4(v4) => ip_text(v4),
        IpAddress::V6(v6) => ipv6_text(v6),
    }
}

/// The fields of the host candidate line that `encode_candidate` writes.
pub open spec fn candidate_fields(a: SocketAddress) -> Seq<Seq<char>> {
    seq![
        "candidate:1"@,
        "1"@,
        "UDP"@,
        "2122260223"@,
        ip_field(a.ip),
        decimal_text(a.port as nat),
        "typ"@,
        "host"@,
    ]
}

pub open spec fn candidate_line(a: SocketAddress) -> Seq<char> {
    join(candidate_fields(a), ' ')
}

pub proof fn lemma_split_len(s: Seq<char>, sep: char)
    ensures
        split_on(s, sep).len() >= 1,
    decreases s.len(),
{
    if s.len() > 0 {
        lemma_split_len(s.drop_last(), sep);
    }
}

/// Text without a separator is one field.
pub proof fn lemma_split_free(s: Seq<char>, sep: char)
    requires
        free_of(s, sep),
    ensures
        split_on(s, sep) == seq![s],
    decreases s.len(),
{
    if s.len() > 0 {
        let t = s.drop_last();
        assert(free_of(t, sep)) by {
            assert forall|i: int| 0 <= i < t.len() implies #[trigger] t[i] != sep by {
                assert(t[i] == s[i]);
            }
        }
        lemma_split_free(t, sep);
        assert(s.last() == s[s.len() - 1]);
        assert(t.push(s.last()) =~= s);
        assert(seq![t].update(0, t.push(s.last())) =~= seq![s]);
    } else {
        assert(s =~= Seq::<char>::empty());
    }
}

/// Splitting at one separator splits the two sides apart.
pub proof fn lemma_split_concat(a: Seq<char>, b: Seq<char>, sep: char)
    ensures
        split_on(a + seq![sep] + b, sep) == split_on(a, sep) + split_on(b, sep),
    decreases b.len(),
{
    let s = a + seq![sep] + b;
    lemma_split_len(a, sep);
    if b.len() == 0 {
        assert(s.drop_last() =~= a);
        assert(split_on(b, sep) =~= seq![Seq::<char>::empty()]);
        assert(split_on(a, sep).push(Seq::<char>::empty()) =~= split_on(a, sep) + split_on(b, sep));
    } else {
        let b2 = b.drop_last();
        lemma_split_concat(a, b2, sep);
        lemma_split_len(b2, sep);
        assert(s.drop_last() =~= a + seq![sep] + b2);
        assert(s.last() == b.last());
        let x = split_on(a, sep);
        let y = split_on(b2, sep);
        if b.last() == sep {
            assert((x + y).push(Seq::<char>::empty()) =~= x + y.push(Seq::<char>::empty()));
        } else {
            assert((x + y).update((x + y).len() - 1, (x + y).last().push(b.last())) =~= x + y.update(
                y.len() - 1,
                y.last().push(b.last()),
            ));
        }
    }
}

/// Splitting joined fields that hold no separator gives the fields back.
pub proof fn lemma_split_join(fs: Seq<Seq<char>>, sep: char)
    requires
        fs.len() >= 1,
        forall|i: int| 0 <= i < fs.len() ==> free_of(#[trigger] fs[i], sep),
    ensures
        split_on(join(fs, sep), sep) == fs,
    decreases fs.len(),
{
    if fs.len() == 1 {
        lemma_split_free(fs[0], sep);
        assert(seq![fs[0]] =~= fs);
    } else {
        let init = fs.drop_last();
        assert forall|i: int| 0 <= i < init.len() implies free_of(#[trigger] init[i], sep) by {
            assert(init[i] == fs[i]);
        }
        lemma_split_join(init, sep);
        lemma_split_concat(join(init, sep), fs.last(), sep);
        assert(free_of(fs[fs.len() - 1], sep));
        lemma_split_free(fs.last(), sep);
        assert(init + seq![fs.last()] =~= fs);
    }
}

/// Splits `s` at every `sep`.
pub fn split_fields<'a>(s: &'a str, sep: char) -> (r: Vec<&'a str>)
    ensures
        r@.len() == split_on(s@, sep).len(),
        forall|i: int| 0 <= i < r@.len() ==> (#[trigger] r@[i])@ == split_on(s@, sep)[i],
{
    let n = s.unicode_len();
    let mut out: Vec<&'a str> = Vec::new();
    let mut start: usize = 0;
    let mut i: usize = 0;
    assert(s@.subrange(0, 0) =~= Seq::<char>::empty());
    while i < n
        invariant
            n == s@.len(),
            start <= i <= n,
            split_on(s@.subrange(0, i as int), sep).len() == out@.len() + 1,
            forall|j: int|
                0 <= j < out@.len() ==> (#[trigger] out@[j])@ == split_on(
                    s@.subrange(0, i as int),
                    sep,
                )[j],
            split_on(s@.subrange(0, i as int), sep).last() == s@.subrange(start as int, i as int),
        decreases n - i,
    {
        let c = s.get_char(i);
        let ghost pre = s@.subrange(0, i as int);
        let ghost next = s@.subrange(0, i + 1);
        assert(next.drop_last() =~= pre);
        assert(next.last() == c);
        if c == sep {
            let piece = s.substring_char(start, i);
            out.push(piece);
            start = i + 1;
            assert(s@.subrange(start as int, i + 1) =~= Seq::<char>::empty());
        } else {
            assert(s@.subrange(start as int, i + 1) =~= s@.subrange(start as int, i as int).push(c));
        }
        i = i + 1;
    }
    let last = s.substring_char(start, n);
    out.push(last);
    assert(s@.subrange(0, n as int) =~= s@);
    out
}

/// The value of a decimal digit string when it is one and does not exceed
/// `max`.
pub fn parse_decimal(s: &str, max: u32) -> (r: Option<u32>)
    requires
        max <= 65535,
    ensures
        r == (if s@.len() >= 1 && all_digits(s@) && decimal_value(s@) <= max {
            Some(decimal_value(s@) as u32)
        } else {
            None::<u32>
        }),
{
    let n = s.unicode_len();
    let mut digits = n >= 1;
    let mut v: u64 = 0;
    let mut i: usize = 0;
    assert(s@.subrange(0, 0) =~= Seq::<char>::empty());
    while i < n
        invariant
            n == s@.len(),
            i <= n,
            digits == (n >= 1 && all_digits(s@.subrange(0, i as int))),
            digits ==> v as int == (if decimal_value(s@.subrange(0, i as int)) <= max {
                decimal_value(s@.subrange(0, i as int)) as int
            } else {
                max + 1
            }),
        decreases n - i,
    {
        let c = s.get_char(i);
        let ghost pre = s@.subrange(0, i as int);
        let ghost next = s@.subrange(0, i + 1);
        assert(next.drop_last() =~= pre);
        assert(next.last() == c);
        assert(decimal_value(next) == decimal_value(pre) * 10 + digit_value(c));
        if '0' <= c && c <= '9' {
            let d = (c as u32 - '0' as u32) as u64;
            if v <= max as u64 {
                let w = v * 10 + d;
                v = if w <= max as u64 { w } else { max as u64 + 1 };
            }
        } else {
            digits = false;
        }
        assert(all_digits(next) == (all_digits(pre) && '0' <= c && c <= '9')) by {
            if all_digits(pre) && '0' <= c && c <= '9' {
                assert forall|j: int| 0 <= j < next.len() implies is_digit(#[trigger] next[j]) by {
                    if j < pre.len() {
                        assert(next[j] == pre[j]);
                    }
                }
            }
            if all_digits(next) {
                assert(is_digit(next[i as int]));
                assert forall|j: int| 0 <= j < pre.len() implies is_digit(#[trigger] pre[j]) by {
                    assert(next[j] == pre[j]);
                }
            }
        }
        i = i + 1;
    }
    assert(s@.subrange(0, n as int) =~= s@);
    if digits && v <= max as u64 {
        Some(v as u32)
    } else {
        None
    }
}

/// The value of a decimal octet (see `octet_ok`).
fn parse_octet(s: &str) -> (r: Option<u8>)
    ensures
        r == (if octet_ok(s@) {
            Some(decimal_value(s@) as u8)
        } else {
            None::<u8>
        }),
{
    let n = s.unicode_len();
    if n > 1 && s.get_char(0) == '0' {
        return None;
    }
    match parse_decimal(s, 255) {
        Some(v) => Some(v as u8),
        None => None,
    }
}

/// The IPv4 address that dotted-quad text denotes.
pub fn parse_ipv4(s: &str) -> (r: Option<Ipv4>)
    ensures
        r == ipv4_of(s@),
{
    let parts = split_fields(s, '.');
    if parts.len() != 4 {
        return None;
    }
    let a = parse_octet(parts[0]);
    let b = parse_octet(parts[1]);
    let c = parse_octet(parts[2]);
    let d = parse_octet(parts[3]);
    match (a, b, c, d) {
        (Some(a), Some(b), Some(c), Some(d)) => Some(Ipv4 { a, b, c, d }),
        _ => None,
    }
}

/// Extracts the transport address from an ICE candidate line; `None` when
/// the line does not have the expected shape.
pub fn parse_candidate(line: &str) -> (r: Option<SocketAddress>)
    ensures
        r == candidate_address(line@),
{
    let fields = split_fields(line, ' ');
    if fields.len() < 6 {
        return None;
    }
    let ip = parse_ip(fields[4]);
    let port = parse_port(fields[5]);
    match (ip, port) {
        (Some(ip), Some(port)) => Some(SocketAddress { ip, port: port as u16 }),
        _ => None,
    }
}

/// The port that a port field denotes (see `port_ok`).
pub fn parse_port(s: &str) -> (r: Option<u16>)
    ensures
        r == port_of(s@),
{
    let n = s.unicode_len();
    let digits = if n > 0 && s.get_char(0) == '+' {
        s.substring_char(1, n)
    } else {
        s
    };
    assert(digits@ =~= port_digits(s@));
    match parse_decimal(digits, 65535) {
        Some(v) => Some(v as u16),
        None => None,
    }
}

fn push_ip_field(out: &mut String, ip: IpAddress)
    ensures
        final(out)@ == old(out)@ + ip_field(ip),
{
    match ip {
        IpAddress::V4(v4) => push_ip(out, v4),
        IpAddress::V6(v6) => push_ipv6(out, &v6),
    }
}

/// A host candidate line that carries `a` as its transport address, as in
/// `candidate:1 1 UDP 2122260223 192.0.2.5 54321 typ host`.
#[verifier::rlimit(40)]
pub fn encode_candidate(a: &SocketAddress) -> (r: String)
    ensures
        r@ == candidate_line(*a),
{
    let mut s = String::new();
    s.append("candidate:1 1 UDP 2122260223 ");
    push_ip_field(&mut s, a.ip);
    s.append(" ");
    push_decimal(&mut s, a.port as u32);
    s.append(" typ host");
    proof {
        reveal_strlit("candidate:1 1 UDP 2122260223 ");
        reveal_strlit(" ");
        reveal_strlit(" typ host");
        reveal_strlit("candidate:1");
        reveal_strlit("1");
        reveal_strlit("UDP");
        reveal_strlit("2122260223");
        reveal_strlit("typ");
        reveal_strlit("host");
        reveal_with_fuel(join, 9);
    }
    assert(s@ =~= candidate_line(*a));
    s
}

proof fn lemma_digits_free(s: Seq<char>, sep: char)
    requires
        all_digits(s),
        !is_digit(sep),
    ensures
        free_of(s, sep),
{
    assert forall|i: int| 0 <= i < s.len() implies #[trigger] s[i] != sep by {
        assert(is_digit(s[i]));
    }
}

proof fn lemma_join_free(fs: Seq<Seq<char>>, sep: char, other: char)
    requires
        sep != other,
        forall|i: int| 0 <= i < fs.len() ==> free_of(#[trigger] fs[i], other),
    ensures
        free_of(join(fs, sep), other),
    decreases fs.len(),
{
    if fs.len() > 1 {
        let init = fs.drop_last();
        assert forall|i: int| 0 <= i < init.len() implies free_of(#[trigger] init[i], other) by {
            assert(init[i] == fs[i]);
        }
        lemma_join_free(init, sep, other);
        assert(free_of(fs[fs.len() - 1], other));
        let j = join(fs, sep);
        let x = join(init, sep);
        assert forall|i: int| 0 <= i < j.len() implies #[trigger] j[i] != other by {
            if i < x.len() {
                assert(j[i] == x[i]);
            } else if i > x.len() {
                assert(j[i] == fs.last()[i - x.len() - 1]);
            }
        }
    } else if fs.len() == 1 {
        assert(free_of(fs[0], other));
    }
}

pub open spec fn octet_texts(ip: Ipv4) -> Seq<Seq<char>> {
    seq![
        decimal_text(ip.a as nat),
        decimal_text(ip.b as nat),
        decimal_text(ip.c as nat),
        decimal_text(ip.d as nat),
    ]
}

proof fn lemma_octet_ok(n: u8)
    ensures
        octet_ok(decimal_text(n as nat)),
        decimal_value(decimal_text(n as nat)) as u8 == n,
        free_of(decimal_text(n as nat), '.'),
        free_of(decimal_text(n as nat), ' '),
        free_of(decimal_text(n as nat), ':'),
{
    lemma_decimal_text(n as nat);
    lemma_digits_free(decimal_text(n as nat), ':');
    lemma_digits_free(decimal_text(n as nat), '.');
    lemma_digits_free(decimal_text(n as nat), ' ');
}

/// Dotted-quad text parses back to the address it was written from.
pub proof fn lemma_ipv4_round_trip(ip: Ipv4)
    ensures
        ipv4_of(ip_text(ip)) == Some(ip),
        free_of(ip_text(ip), ' '),
        free_of(ip_text(ip), ':'),
        ip_text(ip).len() >= 7,
{
    let fs = octet_texts(ip);
    lemma_octet_ok(ip.a);
    lemma_octet_ok(ip.b);
    lemma_octet_ok(ip.c);
    lemma_octet_ok(ip.d);
    reveal_with_fuel(join, 5);
    assert(join(fs, '.') =~= ip_text(ip));
    lemma_split_join(fs, '.');
    lemma_join_free(fs, '.', ' ');
    lemma_join_free(fs, '.', ':');
}

pub open spec fn no_pair(s: Seq<char>) -> bool {
    forall|k: int| 0 <= k < s.len() - 1 ==> !(s[k] == ':' && #[trigger] s[k + 1] == ':')
}

proof fn lemma_no_pair_find(s: Seq<char>, from: int)
    requires
        no_pair(s),
        from >= 0,
    ensures
        find_pair(s, from) is None,
    decreases s.len() - from,
{
    if from + 1 < s.len() {
        assert(!(s[from] == ':' && s[from + 1] == ':'));
        lemma_no_pair_find(s, from + 1);
    }
}

/// Joined non-empty fields without a separator hold no doubled separator.
proof fn lemma_join_no_pair(fs: Seq<Seq<char>>)
    requires
        fs.len() >= 1,
        forall|i: int| 0 <= i < fs.len() ==> free_of(#[trigger] fs[i], ':') && fs[i].len() >= 1,
    ensures
        no_pair(join(fs, ':')),
        join(fs, ':').len() >= 1,
        join(fs, ':').last() == fs.last().last(),
    decreases fs.len(),
{
    if fs.len() == 1 {
        assert(free_of(fs[0], ':') && fs[0].len() >= 1);
    } else {
        let init = fs.drop_last();
        assert forall|i: int| 0 <= i < init.len() implies free_of(#[trigger] init[i], ':')
            && init[i].len() >= 1 by {
            assert(init[i] == fs[i]);
        }
        lemma_join_no_pair(init);
        let x = join(init, ':');
        let l = fs.last();
        assert(free_of(fs[fs.len() - 1], ':') && fs[fs.len() - 1].len() >= 1);
        let j = join(fs, ':');
        assert(j == x + seq![':'] + l);
        assert(x.last() == init.last().last());
        assert(init.last() == init[init.len() - 1]);
        assert(free_of(init[init.len() - 1], ':') && init[init.len() - 1].len() >= 1);
        assert(x.last() != ':');
        assert forall|k: int| 0 <= k < j.len() - 1 implies !(j[k] == ':' && #[trigger] j[k + 1]
            == ':') by {
            if k + 1 < x.len() {
                assert(j[k] == x[k] && j[k + 1] == x[k + 1]);
            } else if k + 1 == x.len() {
                assert(j[k] == x.last());
            } else if k == x.len() {
                assert(j[k + 1] == l[0]);
            } else {
                assert(j[k + 1] == l[k + 1 - x.len() - 1]);
            }
        }
        assert(j.last() == l.last());
    }
}

/// Groups written in hex and joined with `:` parse back to the groups.
proof fn lemma_group_texts(gs: Seq<u16>, v4_tail: bool)
    requires
        gs.len() >= 1,
    ensures
        groups_of(join(group_texts(gs), ':'), v4_tail) == Some(gs),
        no_pair(join(group_texts(gs), ':')),
        join(group_texts(gs), ':').len() >= 1,
        join(group_texts(gs), ':').last() != ':',
        free_of(join(group_texts(gs), ':'), ' '),
        free_of(join(group_texts(gs), ':'), '.'),
{
    let fs = group_texts(gs);
    assert forall|i: int| 0 <= i < fs.len() implies is_hex_group(#[trigger] fs[i]) && free_of(
        fs[i],
        ':',
    ) && free_of(fs[i], ' ') && free_of(fs[i], '.') && hex_value(fs[i]) as u16 == gs[i] by {
        lemma_hex_text(gs[i] as nat);
        let t = fs[i];
        assert forall|k: int| 0 <= k < t.len() implies #[trigger] t[k] != ':' && t[k] != ' ' && t[k]
            != '.' by {
            assert(is_hex_digit(t[k]));
        }
    }
    lemma_join_no_pair(fs);
    let s = join(fs, ':');
    lemma_split_join(fs, ':');
    lemma_join_free(fs, ':', ' ');
    lemma_join_free(fs, ':', '.');
    assert(free_of(fs[fs.len() - 1], ':'));
    assert(fs.last() == fs[fs.len() - 1]);
    assert(fs.map_values(|x: Seq<char>| hex_value(x) as u16) =~= gs);
}

proof fn lemma_zeros_from(g: Seq<u16>, j: int)
    requires
        0 <= j <= g.len(),
    ensures
        j + zeros_from(g, j) <= g.len(),
        forall|m: int| j <= m < j + zeros_from(g, j) ==> g[m] == 0,
    decreases g.len() - j,
{
    if j < g.len() && g[j] == 0 {
        lemma_zeros_from(g, j + 1);
    }
}

proof fn lemma_longest_run(g: Seq<u16>, i: int)
    requires
        0 <= i,
    ensures
        longest_zero_run(g, i).1 > 0 ==> 0 <= longest_zero_run(g, i).0 < g.len()
            && longest_zero_run(g, i).1 == zeros_from(g, longest_zero_run(g, i).0),
    decreases g.len() - i,
{
    if i < g.len() {
        lemma_longest_run(g, i + 1);
    }
}

proof fn lemma_find_after(x: Seq<char>, y: Seq<char>, from: int)
    requires
        no_pair(x),
        x.len() == 0 || x.last() != ':',
        0 <= from <= x.len(),
    ensures
        find_pair(x + seq![':', ':'] + y, from) == Some(x.len() as int),
    decreases x.len() - from,
{
    let s = x + seq![':', ':'] + y;
    if from < x.len() {
        assert(!(s[from] == ':' && s[from + 1] == ':')) by {
            if from + 1 < x.len() {
                assert(s[from] == x[from] && s[from + 1] == x[from + 1]);
            } else {
                assert(s[from] == x[x.len() - 1]);
            }
        }
        lemma_find_after(x, y, from + 1);
    } else {
        assert(s[from] == ':' && s[from + 1] == ':');
    }
}

proof fn lemma_split_first(s: Seq<char>, sep: char)
    requires
        s.len() > 0,
        s[0] != sep,
    ensures
        split_on(s, sep)[0].len() > 0,
        split_on(s, sep)[0][0] == s[0],
    decreases s.len(),
{
    let t = s.drop_last();
    lemma_split_len(t, sep);
    if t.len() == 0 {
        assert(split_on(t, sep) =~= seq![Seq::<char>::empty()]);
    } else {
        lemma_split_first(t, sep);
    }
}

/// Text that does not start with a decimal digit is no IPv4 address.
proof fn lemma_not_ipv4(s: Seq<char>)
    requires
        s.len() > 0,
        !is_digit(s[0]),
    ensures
        ipv4_of(s) is None,
{
    if s[0] != '.' {
        lemma_split_first(s, '.');
    } else {
        lemma_split_len(s, '.');
        let p = split_on(s, '.');
        if p.len() == 4 && octet_ok(p[0]) {
            assert(s.subrange(0, 0) + seq!['.'] + s.subrange(1, s.len() as int) =~= s);
            lemma_split_concat(Seq::<char>::empty(), s.subrange(1, s.len() as int), '.');
            assert(split_on(Seq::<char>::empty(), '.') =~= seq![Seq::<char>::empty()]);
            assert(p[0] == Seq::<char>::empty());
        }
    }
}

proof fn lemma_mapped_round_trip(ip: Ipv6)
    requires
        is_v4_mapped(ip),
    ensures
        ipv6_of(ipv6_text(ip)) == Some(ip),
        free_of(ipv6_text(ip), ' '),
        ipv4_of(ipv6_text(ip)) is None,
{
    let g = ip.groups();
    let r = longest_zero_run(g, 0);
    let s = ipv6_text(ip);
        let v4 = mapped_v4(ip);
        lemma_ipv4_round_trip(v4);
        let ff = seq!['f', 'f', 'f', 'f'];
        let it = ip_text(v4);
        assert(s == seq![':', ':', 'f', 'f', 'f', 'f', ':'] + it);
        assert(s[0] == ':' && s[1] == ':');
        assert(find_pair(s, 0) == Some(0int));
        assert(s.subrange(0, 0) =~= Seq::<char>::empty());
        let tail = s.subrange(2, s.len() as int);
        assert(tail =~= ff + seq![':'] + it);
        lemma_split_concat(ff, it, ':');
        assert(free_of(ff, ':'));
        lemma_split_free(ff, ':');
        lemma_split_free(it, ':');
        let f = split_on(tail, ':');
        assert(f =~= seq![ff, it]);
        assert(all_hex(ff));
        assert(is_hex_group(ff));
        reveal_with_fuel(hex_value, 5);
        assert(hex_value(ff) == 65535);
        assert(!is_hex_group(it));
        assert(groups_of(tail, true) == Some(
            seq![0xffffu16] + v4_groups(v4),
        )) by {
            assert(f.drop_last().map_values(|x: Seq<char>| hex_value(x) as u16) =~= seq![0xffffu16]);
        }
        assert(groups_of(Seq::<char>::empty(), false) == Some(Seq::<u16>::empty()));
        assert(v4_groups(v4) =~= seq![ip.g6, ip.g7]);
        let full = Seq::<u16>::empty() + Seq::new(5, |i: int| 0u16) + (seq![0xffffu16] + v4_groups(
            v4,
        ));
        assert(full =~= g);
        assert(Ipv6::from_groups(g) == ip);
        assert(free_of(s, ' ')) by {
            assert forall|i: int| 0 <= i < s.len() implies #[trigger] s[i] != ' ' by {
                if i >= 7 {
                    assert(s[i] == it[i - 7]);
                }
            }
        }
        lemma_not_ipv4(s);
}

#[verifier::rlimit(40)]
proof fn lemma_compressed_round_trip(ip: Ipv6)
    requires
        !is_v4_mapped(ip),
        longest_zero_run(ip.groups(), 0).1 >= 2,
    ensures
        ipv6_of(ipv6_text(ip)) == Some(ip),
        free_of(ipv6_text(ip), ' '),
        ipv4_of(ipv6_text(ip)) is None,
{
    let g = ip.groups();
    let r = longest_zero_run(g, 0);
    let s = ipv6_text(ip);
        lemma_longest_run(g, 0);
        lemma_zeros_from(g, r.0);
        let st = r.0;
        let en = r.0 + r.1;
        let hg = g.subrange(0, st);
        let tg = g.subrange(en, 8);
        let x = join(group_texts(hg), ':');
        let y = join(group_texts(tg), ':');
        assert(s == x + seq![':', ':'] + y);
        if hg.len() >= 1 {
            lemma_group_texts(hg, false);
        } else {
            assert(group_texts(hg) =~= Seq::<Seq<char>>::empty());
            assert(hg =~= Seq::<u16>::empty());
        }
        if tg.len() >= 1 {
            lemma_group_texts(tg, true);
        } else {
            assert(group_texts(tg) =~= Seq::<Seq<char>>::empty());
            assert(tg =~= Seq::<u16>::empty());
        }
        lemma_find_after(x, y, 0);
        assert(s.subrange(0, x.len() as int) =~= x);
        assert(s.subrange(x.len() + 2int, s.len() as int) =~= y);
        assert(hg + Seq::new((8 - hg.len() - tg.len()) as nat, |i: int| 0u16) + tg =~= g);
        assert(Ipv6::from_groups(g) == ip);
        assert forall|i: int| 0 <= i < s.len() implies #[trigger] s[i] != ' ' && s[i] != '.' by {
            if i < x.len() {
                assert(s[i] == x[i]);
            } else if i >= x.len() + 2 {
                assert(s[i] == y[i - x.len() - 2]);
            }
        }
        lemma_split_free(s, '.');
}

/// The usual text of an IPv6 address parses back to it.
pub proof fn lemma_ipv6_text_round_trip(ip: Ipv6)
    ensures
        ipv6_of(ipv6_text(ip)) == Some(ip),
        free_of(ipv6_text(ip), ' '),
        ipv4_of(ipv6_text(ip)) is None,
{
    let g = ip.groups();
    let r = longest_zero_run(g, 0);
    let s = ipv6_text(ip);
    if is_v4_mapped(ip) {
        lemma_mapped_round_trip(ip);
    } else if r.1 >= 2 {
        lemma_compressed_round_trip(ip);
    } else {
        lemma_group_texts(g, true);
        lemma_no_pair_find(s, 0);
        lemma_split_free(s, '.');
        assert(Ipv6::from_groups(g) == ip);
    }
}

/// Encoding a candidate line for an address and parsing it back yields
/// that address.
pub proof fn lemma_candidate_round_trip(a: SocketAddress)
    ensures
        candidate_address(candidate_line(a)) == Some(a),
{
    let fs = candidate_fields(a);
    match a.ip {
        IpAddress::V4(v4) => lemma_ipv4_round_trip(v4),
        IpAddress::V6(v6) => lemma_ipv6_text_round_trip(v6),
    }
    lemma_decimal_text(a.port as nat);
    lemma_digits_free(decimal_text(a.port as nat), ' ');
    assert(is_digit(decimal_text(a.port as nat)[0]));
    assert(port_digits(decimal_text(a.port as nat)) == decimal_text(a.port as nat));
    reveal_strlit("candidate:1");
    reveal_strlit("1");
    reveal_strlit("UDP");
    reveal_strlit("2122260223");
    reveal_strlit("typ");
    reveal_strlit("host");
    assert forall|i: int| 0 <= i < fs.len() implies free_of(#[trigger] fs[i], ' ') by {
        if i != 4 && i != 5 {
            assert(fs[i] == fs[i]);
        }
    }
    lemma_split_join(fs, ' ');
}

/// Whether a line carries an address, and which, depends on its field
/// count and on its connection-address and port fields alone.
pub proof fn lemma_candidate_fields_decide(l1: Seq<char>, l2: Seq<char>)
    requires
        split_on(l1, ' ').len() >= 6,
        split_on(l2, ' ').len() >= 6,
        split_on(l1, ' ')[4] == split_on(l2, ' ')[4],
        split_on(l1, ' ')[5] == split_on(l2, ' ')[5],
    ensures
        candidate_address(l1) == candidate_address(l2),
{
}

fn is_hex_char(c: char) -> (r: bool)
    ensures
        r == is_hex_digit(c),
{
    ('0' <= c && c <= '9') || ('a' <= c && c <= 'f') || ('A' <= c && c <= 'F')
}

fn hex_char_value(c: char) -> (r: u64)
    requires
        is_hex_digit(c),
    ensures
        r as nat == hex_digit_value(c),
        r < 16,
{
    if '0' <= c && c <= '9' {
        (c as u32 - '0' as u32) as u64
    } else if 'a' <= c && c <= 'f' {
        (c as u32 - 'a' as u32 + 10) as u64
    } else {
        (c as u32 - 'A' as u32 + 10) as u64
    }
}

/// The value of one to four hex digits.
pub fn parse_hex_group(s: &str) -> (r: Option<u16>)
    ensures
        r == (if is_hex_group(s@) {
            Some(hex_value(s@) as u16)
        } else {
            None::<u16>
        }),
{
    let n = s.unicode_len();
    if n < 1 || n > 4 {
        return None;
    }
    let mut v: u64 = 0;
    let mut i: usize = 0;
    assert(s@.subrange(0, 0) =~= Seq::<char>::empty());
    while i < n
        invariant
            n == s@.len(),
            1 <= n <= 4,
            i <= n,
            all_hex(s@.subrange(0, i as int)),
            v as nat == hex_value(s@.subrange(0, i as int)),
            i == 0 ==> v < 1,
            i == 1 ==> v < 16,
            i == 2 ==> v < 256,
            i == 3 ==> v < 4096,
            i == 4 ==> v < 65536,
        decreases n - i,
    {
        let c = s.get_char(i);
        let ghost pre = s@.subrange(0, i as int);
        let ghost next = s@.subrange(0, i + 1);
        assert(next.drop_last() =~= pre);
        assert(next.last() == c);
        if !is_hex_char(c) {
            assert(!all_hex(s@)) by {
                assert(s@[i as int] == c);
            }
            return None;
        }
        let d = hex_char_value(c);
        v = v * 16 + d;
        assert forall|j: int| 0 <= j < next.len() implies is_hex_digit(#[trigger] next[j]) by {
            if j < pre.len() {
                assert(next[j] == pre[j]);
            }
        }
        i = i + 1;
    }
    assert(s@.subrange(0, n as int) =~= s@);
    Some(v as u16)
}

/// The groups of colon-separated hex text (see `groups_of`).
pub fn parse_groups(t: &str, v4_tail: bool) -> (r: Option<Vec<u16>>)
    ensures
        match groups_of(t@, v4_tail) {
            Some(g) => r is Some && r.unwrap()@ == g,
            None => r is None,
        },
{
    let mut out: Vec<u16> = Vec::new();
    if t.unicode_len() == 0 {
        assert(out@ =~= Seq::<u16>::empty());
        return Some(out);
    }
    let fields = split_fields(t, ':');
    let ghost f = split_on(t@, ':');
    proof {
        lemma_split_len(t@, ':');
    }
    let last = fields.len() - 1;
    let mut i: usize = 0;
    while i < last
        invariant
            fields@.len() == f.len(),
            last == f.len() - 1,
            forall|j: int| 0 <= j < fields@.len() ==> (#[trigger] fields@[j])@ == f[j],
            f == split_on(t@, ':'),
            t@.len() != 0,
            i <= last,
            out@.len() == i,
            forall|j: int| 0 <= j < i ==> is_hex_group(#[trigger] f[j]),
            forall|j: int| 0 <= j < i ==> out@[j] == hex_value(#[trigger] f[j]) as u16,
        decreases last - i,
    {
        match parse_hex_group(fields[i]) {
            Some(v) => out.push(v),
            None => {
                assert(!is_hex_group(f[i as int]));
                assert(!(forall|j: int| 0 <= j < f.len() - 1 ==> is_hex_group(#[trigger] f[j])));
                return None;
            },
        }
        i = i + 1;
    }
    let ghost init = f.drop_last().map_values(|x: Seq<char>| hex_value(x) as u16);
    assert(out@ =~= init);
    match parse_hex_group(fields[last]) {
        Some(v) => {
            out.push(v);
            assert(out@ =~= f.map_values(|x: Seq<char>| hex_value(x) as u16));
            Some(out)
        },
        None => {
            if !v4_tail {
                return None;
            }
            match parse_ipv4(fields[last]) {
                Some(v) => {
                    out.push(v.a as u16 * 256 + v.b as u16);
                    out.push(v.c as u16 * 256 + v.d as u16);
                    assert(out@ =~= init + v4_groups(v));
                    Some(out)
                },
                None => None,
            }
        },
    }
}

/// Where the first `::` of `s` starts.
fn find_double_colon(s: &str) -> (r: Option<usize>)
    ensures
        match find_pair(s@, 0) {
            Some(k) => r == Some(k as usize),
            None => r is None,
        },
{
    let n = s.unicode_len();
    let mut i: usize = 0;
    while i < n
        invariant
            n == s@.len(),
            i <= n,
            find_pair(s@, 0) == find_pair(s@, i as int),
        decreases n - i,
    {
        if i + 1 < n && s.get_char(i) == ':' && s.get_char(i + 1) == ':' {
            return Some(i);
        }
        i = i + 1;
    }
    None
}

fn ipv6_from_vec(g: &Vec<u16>) -> (r: Ipv6)
    requires
        g@.len() == 8,
    ensures
        r == Ipv6::from_groups(g@),
{
    Ipv6 { g0: g[0], g1: g[1], g2: g[2], g3: g[3], g4: g[4], g5: g[5], g6: g[6], g7: g[7] }
}

proof fn lemma_find_pair_bounds(s: Seq<char>, from: int)
    ensures
        find_pair(s, from) matches Some(k) ==> from <= k && k + 1 < s.len(),
    decreases s.len() - from,
{
    if from >= 0 && from + 1 < s.len() && !(s[from] == ':' && s[from + 1] == ':') {
        lemma_find_pair_bounds(s, from + 1);
    }
}

/// The IPv6 address that the text denotes (see `ipv6_of`).
pub fn parse_ipv6(s: &str) -> (r: Option<Ipv6>)
    ensures
        r == ipv6_of(s@),
{
    match find_double_colon(s) {
        None => match parse_groups(s, true) {
            Some(g) => if g.len() == 8 {
                Some(ipv6_from_vec(&g))
            } else {
                None
            },
            None => None,
        },
        Some(k) => {
            proof {
                lemma_find_pair_bounds(s@, 0);
            }
            let n = s.unicode_len();
            let head = parse_groups(s.substring_char(0, k), false);
            let tail = parse_groups(s.substring_char(k + 2, n), true);
            match (head, tail) {
                (Some(h), Some(t)) => {
                    if h.len() > 7 || t.len() > 7 - h.len() {
                        return None;
                    }
                    let mut g: Vec<u16> = Vec::new();
                    let mut i: usize = 0;
                    while i < h.len()
                        invariant
                            i <= h@.len(),
                            g@ == h@.subrange(0, i as int),
                        decreases h.len() - i,
                    {
                        g.push(h[i]);
                        i = i + 1;
                        assert(g@ =~= h@.subrange(0, i as int));
                    }
                    let zeros = 8 - h.len() - t.len();
                    let ghost zs = Seq::new(zeros as nat, |i: int| 0u16);
                    let mut j: usize = 0;
                    while j < zeros
                        invariant
                            i == h@.len(),
                            j <= zeros,
                            zeros == 8 - h@.len() - t@.len(),
                            g@ == h@ + Seq::new(j as nat, |i: int| 0u16),
                        decreases zeros - j,
                    {
                        g.push(0);
                        j = j + 1;
                        assert(g@ =~= h@ + Seq::new(j as nat, |i: int| 0u16));
                    }
                    let mut m: usize = 0;
                    while m < t.len()
                        invariant
                            m <= t@.len(),
                            zeros == 8 - h@.len() - t@.len(),
                            g@ == h@ + zs + t@.subrange(0, m as int),
                            zs == Seq::new(zeros as nat, |i: int| 0u16),
                        decreases t.len() - m,
                    {
                        g.push(t[m]);
                        m = m + 1;
                        assert(g@ =~= h@ + zs + t@.subrange(0, m as int));
                    }
                    assert(h@ + Seq::new(zeros as nat, |i: int| 0u16) =~= h@ + zs);
                    assert(t@.subrange(0, t@.len() as int) =~= t@);
                    Some(ipv6_from_vec(&g))
                },
                _ => None,
            }
        },
    }
}

/// The IP address that the text denotes (see `ip_of`).
pub fn parse_ip(s: &str) -> (r: Option<IpAddress>)
    ensures
        r == ip_of(s@),
{
    match parse_ipv4(s) {
        Some(v4) => Some(IpAddress::V4(v4)),
        None => match parse_ipv6(s) {
            Some(v6) => Some(IpAddress::V6(v6)),
            None => None,
        },
    }
}

} // verus!
