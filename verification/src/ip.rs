//! IP addresses: their values, their order, and their textual forms
//! (dotted-decimal IPv4 and colon-separated hexadecimal IPv6, with `::`
//! for a run of zero groups and an optional dotted IPv4 tail), accepted
//! exactly as `std::net::IpAddr`'s `FromStr` accepts them.
use vstd::prelude::*;
use crate::text::{split_on, split, sub_chars, contains_char, chars_of, lemma_split_nonempty};
use crate::number::{is_dec_digit, dec_digit_value, decimal_text, decimal_digit, lemma_decimal_digit};
use crate::text::{lemma_split_append_field, lemma_split_no_separator};

verus! {

/// An IP address, by its numeric value: the 32 bits of an IPv4 address or
/// the 128 bits of an IPv6 address, most significant octet first.
#[derive(Clone, Copy, Debug, PartialEq, Eq, Structural)]
pub enum IpAddress {
    V4(u32),
    V6(u128),
}

/// The order of `std::net::IpAddr`: every IPv4 address comes before every
/// IPv6 address, and within one family addresses go by numeric value.
pub open spec fn ip_lt(a: IpAddress, b: IpAddress) -> bool {
    match (a, b) {
        (IpAddress::V4(x), IpAddress::V4(y)) => x < y,
        (IpAddress::V4(_), IpAddress::V6(_)) => true,
        (IpAddress::V6(_), IpAddress::V4(_)) => false,
        (IpAddress::V6(x), IpAddress::V6(y)) => x < y,
    }
}

/// The order on addresses is a strict total order.
pub proof fn lemma_ip_order(a: IpAddress, b: IpAddress, c: IpAddress)
    ensures
        !ip_lt(a, a),
        ip_lt(a, b) ==> !ip_lt(b, a),
        ip_lt(a, b) && ip_lt(b, c) ==> ip_lt(a, c),
        a == b || ip_lt(a, b) || ip_lt(b, a),
{
}

/// Whether `a` comes before `b`.
pub fn ip_less(a: &IpAddress, b: &IpAddress) -> (r: bool)
    ensures
        r == ip_lt(*a, *b),
{
    match (a, b) {
        (IpAddress::V4(x), IpAddress::V4(y)) => *x < *y,
        (IpAddress::V4(_), IpAddress::V6(_)) => true,
        (IpAddress::V6(_), IpAddress::V4(_)) => false,
        (IpAddress::V6(x), IpAddress::V6(y)) => *x < *y,
    }
}

// ---------------------------------------------------------------------
// Dotted-decimal IPv4
// ---------------------------------------------------------------------

pub open spec fn all_dec_digits(f: Seq<char>) -> bool {
    forall|i: int| 0 <= i < f.len() ==> is_dec_digit(#[trigger] f[i])
}

/// The value of a string of decimal digits.
pub open spec fn dec_value(f: Seq<char>) -> nat
    decreases f.len(),
{
    if f.len() == 0 {
        0
    } else {
        dec_value(f.drop_last()) * 10 + dec_digit_value(f.last())
    }
}

/// One octet of a dotted-decimal address: one to three decimal digits, no
/// leading zero unless the octet is `0` itself, value at most 255.
pub open spec fn octet_field(f: Seq<char>) -> Option<u8> {
    if 1 <= f.len() <= 3 && all_dec_digits(f) && (f.len() == 1 || f[0] != '0') && dec_value(f)
        <= 255 {
        Some(dec_value(f) as u8)
    } else {
        None
    }
}

/// The 32-bit value of the four octets `a.b.c.d`.
pub open spec fn ipv4_value(a: u8, b: u8, c: u8, d: u8) -> nat {
    (a * 16777216 + b * 65536 + c * 256 + d) as nat
}

/// A dotted-decimal IPv4 address: exactly four octets separated by `.`.
pub open spec fn parse_ipv4_spec(s: Seq<char>) -> Option<u32> {
    let f = split_on(s, '.');
    if f.len() == 4 && octet_field(f[0]) is Some && octet_field(f[1]) is Some && octet_field(
        f[2],
    ) is Some && octet_field(f[3]) is Some {
        Some(
            ipv4_value(
                octet_field(f[0])->0,
                octet_field(f[1])->0,
                octet_field(f[2])->0,
                octet_field(f[3])->0,
            ) as u32,
        )
    } else {
        None
    }
}

// ---------------------------------------------------------------------
// Colon-separated IPv6
// ---------------------------------------------------------------------

pub open spec fn is_hex_digit(c: char) -> bool {
    ||| '0' <= c <= '9'
    ||| 'a' <= c <= 'f'
    ||| 'A' <= c <= 'F'
}

pub open spec fn hex_digit_value(c: char) -> nat {
    if '0' <= c <= '9' {
        (c as int - '0' as int) as nat
    } else if 'a' <= c <= 'f' {
        (c as int - 'a' as int + 10) as nat
    } else {
        (c as int - 'A' as int + 10) as nat
    }
}

pub open spec fn all_hex_digits(f: Seq<char>) -> bool {
    forall|i: int| 0 <= i < f.len() ==> is_hex_digit(#[trigger] f[i])
}

/// The value of a string of hexadecimal digits.
pub open spec fn hex_value(f: Seq<char>) -> nat
    decreases f.len(),
{
    if f.len() == 0 {
        0
    } else {
        hex_value(f.drop_last()) * 16 + hex_digit_value(f.last())
    }
}

/// One group of an IPv6 address: one to four hexadecimal digits, either case.
pub open spec fn hex_group(f: Seq<char>) -> Option<u16> {
    if 1 <= f.len() <= 4 && all_hex_digits(f) {
        Some(hex_value(f) as u16)
    } else {
        None
    }
}

/// The groups of `fields`, when every field is a group.
pub open spec fn hex_groups(fields: Seq<Seq<char>>) -> Option<Seq<u16>> {
    if forall|i: int| 0 <= i < fields.len() ==> (#[trigger] hex_group(fields[i])) is Some {
        Some(Seq::new(fields.len(), |i: int| hex_group(fields[i])->0))
    } else {
        None
    }
}

/// The groups of `fields`, where the last field may instead be a
/// dotted-decimal IPv4 address that stands for the last two groups.
pub open spec fn groups_with_ipv4_tail(fields: Seq<Seq<char>>) -> Option<Seq<u16>> {
    if fields.len() > 0 && fields.last().contains('.') {
        match (hex_groups(fields.drop_last()), parse_ipv4_spec(fields.last())) {
            (Some(g), Some(v)) => Some(g + seq![(v / 65536) as u16, (v % 65536) as u16]),
            _ => None,
        }
    } else {
        hex_groups(fields)
    }
}

/// A `::` starts at position `i` of `s`.
pub open spec fn double_colon_at(s: Seq<char>, i: int) -> bool {
    0 <= i && i + 1 < s.len() && s[i] == ':' && s[i + 1] == ':'
}

/// `i` is where the first `::` of `s` starts.
pub open spec fn is_first_double_colon(s: Seq<char>, i: int) -> bool {
    &&& double_colon_at(s, i)
    &&& forall|j: int| 0 <= j < i ==> !double_colon_at(s, j)
}

/// The eight groups that an IPv6 text stands for. Without `::`, the text is
/// exactly eight groups (an IPv4 tail counting as two). With `::`, the part
/// before the first `::` is plain groups, the part after it is groups with
/// an optional IPv4 tail, together at most seven, and the `::` stands for
/// the zero groups that make up eight.
pub open spec fn parse_ipv6_groups(s: Seq<char>) -> Option<Seq<u16>> {
    if exists|i: int| is_first_double_colon(s, i) {
        let k = choose|i: int| is_first_double_colon(s, i);
        let head = s.take(k);
        let tail = s.skip(k + 2);
        let hg = if head.len() == 0 {
            Some(Seq::<u16>::empty())
        } else {
            hex_groups(split_on(head, ':'))
        };
        let tg = if tail.len() == 0 {
            Some(Seq::<u16>::empty())
        } else {
            groups_with_ipv4_tail(split_on(tail, ':'))
        };
        match (hg, tg) {
            (Some(h), Some(t)) => if h.len() + t.len() <= 7 {
                Some(h + Seq::new((8 - h.len() - t.len()) as nat, |i: int| 0u16) + t)
            } else {
                None
            },
            _ => None,
        }
    } else {
        match groups_with_ipv4_tail(split_on(s, ':')) {
            Some(g) => if g.len() == 8 {
                Some(g)
            } else {
                None
            },
            None => None,
        }
    }
}

/// The value of 16-bit groups, most significant first.
pub open spec fn groups_value(g: Seq<u16>) -> nat
    decreases g.len(),
{
    if g.len() == 0 {
        0
    } else {
        groups_value(g.drop_last()) * 65536 + g.last() as nat
    }
}

pub open spec fn parse_ipv6_spec(s: Seq<char>) -> Option<u128> {
    match parse_ipv6_groups(s) {
        Some(g) => Some(groups_value(g) as u128),
        None => None,
    }
}

/// What `IpAddr::from_str` accepts: an IPv4 address, or else an IPv6 address.
pub open spec fn parse_ip_spec(s: Seq<char>) -> Option<IpAddress> {
    match parse_ipv4_spec(s) {
        Some(v) => Some(IpAddress::V4(v)),
        None => match parse_ipv6_spec(s) {
            Some(v) => Some(IpAddress::V6(v)),
            None => None,
        },
    }
}

pub open spec fn pow65536(n: nat) -> nat
    decreases n,
{
    if n == 0 {
        1
    } else {
        pow65536((n - 1) as nat) * 65536
    }
}

proof fn lemma_groups_value_bound(g: Seq<u16>)
    ensures
        groups_value(g) < pow65536(g.len()),
    decreases g.len(),
{
    if g.len() > 0 {
        lemma_groups_value_bound(g.drop_last());
        let v = groups_value(g.drop_last());
        let p = pow65536((g.len() - 1) as nat);
        let x = g.last() as nat;
        assert(v * 65536 + x < p * 65536) by (nonlinear_arith)
            requires
                v < p,
                x < 65536,
        ;
    }
}

proof fn lemma_pow65536_monotone(a: nat, b: nat)
    requires
        a <= b,
    ensures
        pow65536(a) <= pow65536(b),
    decreases b,
{
    if a < b {
        lemma_pow65536_monotone(a, (b - 1) as nat);
    }
}

/// The hexadecimal digit for `d` (below 16), in upper or lower case.
pub open spec fn hex_digit_char(d: nat, upper: bool) -> char {
    if upper {
        seq!['0', '1', '2', '3', '4', '5', '6', '7', '8', '9', 'A', 'B', 'C', 'D', 'E', 'F'][d as int]
    } else {
        seq!['0', '1', '2', '3', '4', '5', '6', '7', '8', '9', 'a', 'b', 'c', 'd', 'e', 'f'][d as int]
    }
}

/// The usual hexadecimal writing of `v`, without leading zeros.
pub open spec fn hex_text(v: nat, upper: bool) -> Seq<char>
    decreases v,
{
    if v < 16 {
        seq![hex_digit_char(v, upper)]
    } else {
        hex_text(v / 16, upper).push(hex_digit_char(v % 16, upper))
    }
}

proof fn lemma_hex_digit_char(d: nat, upper: bool)
    requires
        d < 16,
    ensures
        is_hex_digit(hex_digit_char(d, upper)),
        hex_digit_value(hex_digit_char(d, upper)) == d,
{
    assert(d == 0 || d == 1 || d == 2 || d == 3 || d == 4 || d == 5 || d == 6 || d == 7 || d == 8
        || d == 9 || d == 10 || d == 11 || d == 12 || d == 13 || d == 14 || d == 15);
}

proof fn lemma_hex_text(v: nat, upper: bool, k: nat)
    requires
        v < pow16(k),
        k >= 1,
    ensures
        all_hex_digits(hex_text(v, upper)),
        hex_value(hex_text(v, upper)) == v,
        1 <= hex_text(v, upper).len() <= k,
    decreases v,
{
    let t = hex_text(v, upper);
    if v < 16 {
        lemma_hex_digit_char(v, upper);
        assert(t.drop_last() =~= Seq::<char>::empty());
        assert(t.last() == hex_digit_char(v, upper));
        assert(hex_value(t) == hex_value(t.drop_last()) * 16 + hex_digit_value(t.last()));
        assert(hex_value(t.drop_last()) == 0);
        assert(all_hex_digits(t)) by {
            assert forall|i: int| 0 <= i < t.len() implies is_hex_digit(#[trigger] t[i]) by {
                assert(i == 0);
            }
        }
    } else {
        assert(k >= 2) by {
            if k == 1 {
                reveal_with_fuel(pow16, 2);
            }
        }
        assert(v / 16 < pow16((k - 1) as nat)) by {
            assert(pow16(k) == pow16((k - 1) as nat) * 16);
            let p = pow16((k - 1) as nat);
            assert(v / 16 < p) by (nonlinear_arith)
                requires
                    v < p * 16,
            ;
        }
        lemma_hex_text(v / 16, upper, (k - 1) as nat);
        lemma_hex_digit_char(v % 16, upper);
        let h = hex_text(v / 16, upper);
        assert(t.drop_last() == h);
        assert(t.last() == hex_digit_char(v % 16, upper));
        assert((v / 16) * 16 + v % 16 == v);
        assert(hex_value(t) == hex_value(h) * 16 + hex_digit_value(t.last()));
        assert(all_hex_digits(t)) by {
            assert forall|i: int| 0 <= i < t.len() implies is_hex_digit(#[trigger] t[i]) by {
                if i < h.len() {
                    assert(t[i] == h[i]);
                }
            }
        }
    }
}

/// Every 16-bit value, written in hexadecimal without leading zeros in
/// either case, is one IPv6 group with that value: each of the digits
/// 0-9, a-f and A-F is accepted with its value 0 to 15.
pub proof fn lemma_hex_group_round_trip(v: u16, upper: bool)
    ensures
        hex_group(hex_text(v as nat, upper)) == Some(v),
{
    reveal_with_fuel(pow16, 5);
    assert(pow16(4) == 65536);
    lemma_hex_text(v as nat, upper, 4);
}

/// A group written with leading zeros up to four digits has the same value.
pub proof fn lemma_hex_group_leading_zeros(v: u16, upper: bool, z: nat)
    requires
        hex_text(v as nat, upper).len() + z <= 4,
    ensures
        hex_group(Seq::new(z, |i: int| '0') + hex_text(v as nat, upper)) == Some(v),
    decreases z,
{
    reveal_with_fuel(pow16, 5);
    lemma_hex_text(v as nat, upper, 4);
    lemma_zero_prefix_hex(hex_text(v as nat, upper), z);
}

proof fn lemma_zero_prefix_hex(t: Seq<char>, z: nat)
    requires
        all_hex_digits(t),
    ensures
        all_hex_digits(Seq::new(z, |i: int| '0') + t),
        hex_value(Seq::new(z, |i: int| '0') + t) == hex_value(t),
    decreases t.len(),
{
    let zs = Seq::new(z, |i: int| '0');
    let u = zs + t;
    assert(all_hex_digits(u)) by {
        assert forall|i: int| 0 <= i < u.len() implies is_hex_digit(#[trigger] u[i]) by {
            if i >= z {
                assert(u[i] == t[i - z]);
            }
        }
    }
    if t.len() == 0 {
        lemma_zeros_value(z);
        assert(u =~= zs);
    } else {
        assert(all_hex_digits(t.drop_last())) by {
            assert forall|i: int| 0 <= i < t.len() - 1 implies is_hex_digit(#[trigger] t.drop_last()[i]) by {
                assert(t.drop_last()[i] == t[i]);
            }
        }
        lemma_zero_prefix_hex(t.drop_last(), z);
        assert(u.drop_last() =~= zs + t.drop_last());
        assert(u.last() == t.last());
    }
}

proof fn lemma_zeros_value(z: nat)
    ensures
        hex_value(Seq::new(z, |i: int| '0')) == 0,
    decreases z,
{
    if z > 0 {
        lemma_zeros_value((z - 1) as nat);
        assert(Seq::new(z, |i: int| '0').drop_last() =~= Seq::new((z - 1) as nat, |i: int| '0'));
    }
}

proof fn lemma_decimal_text_octet(n: nat, k: nat)
    requires
        n < pow10(k),
        k >= 1,
    ensures
        all_dec_digits(decimal_text(n)),
        dec_value(decimal_text(n)) == n,
        1 <= decimal_text(n).len() <= k,
        n >= 1 ==> decimal_text(n)[0] != '0',
        !decimal_text(n).contains('.'),
        !decimal_text(n).contains(':'),
    decreases n,
{
    let t = decimal_text(n);
    if n < 10 {
        lemma_decimal_digit(n);
        assert(t.drop_last() =~= Seq::<char>::empty());
        assert(t.last() == decimal_digit(n));
        assert(dec_value(t) == dec_value(t.drop_last()) * 10 + dec_digit_value(t.last()));
        assert(t[0] == decimal_digit(n));
        assert(n >= 1 ==> decimal_digit(n) != '0');
    } else {
        assert(k >= 2) by {
            if k == 1 {
                reveal_with_fuel(pow10, 2);
            }
        }
        assert(n / 10 < pow10((k - 1) as nat)) by {
            let p = pow10((k - 1) as nat);
            assert(n / 10 < p) by (nonlinear_arith)
                requires
                    n < p * 10,
            ;
        }
        lemma_decimal_text_octet(n / 10, (k - 1) as nat);
        lemma_decimal_digit(n % 10);
        let h = decimal_text(n / 10);
        assert(t.drop_last() == h);
        assert(t.last() == decimal_digit(n % 10));
        assert((n / 10) * 10 + n % 10 == n);
        assert(dec_value(t) == dec_value(h) * 10 + dec_digit_value(t.last()));
        assert(t[0] == h[0]);
        assert(all_dec_digits(t)) by {
            assert forall|i: int| 0 <= i < t.len() implies is_dec_digit(#[trigger] t[i]) by {
                if i < h.len() {
                    assert(t[i] == h[i]);
                }
            }
        }
    }
    assert(!t.contains('.') && !t.contains(':')) by {
        if t.contains('.') || t.contains(':') {
            let i = choose|i: int| 0 <= i < t.len() && (t[i] == '.' || t[i] == ':');
            assert(is_dec_digit(t[i]));
        }
    }
}

/// The dotted-decimal writing of four octets.
pub open spec fn dotted_text(a: u8, b: u8, c: u8, d: u8) -> Seq<char> {
    decimal_text(a as nat) + seq!['.'] + decimal_text(b as nat) + seq!['.'] + decimal_text(c as nat)
        + seq!['.'] + decimal_text(d as nat)
}

/// Any four octets written in dotted decimal are read back as the IPv4
/// address with those octets, most significant first.
pub proof fn lemma_ipv4_round_trip(a: u8, b: u8, c: u8, d: u8)
    ensures
        parse_ipv4_spec(dotted_text(a, b, c, d)) == Some(ipv4_value(a, b, c, d) as u32),
        parse_ip_spec(dotted_text(a, b, c, d)) == Some(IpAddress::V4(ipv4_value(a, b, c, d) as u32)),
{
    reveal_with_fuel(pow10, 4);
    assert(pow10(3) == 1000);
    lemma_decimal_text_octet(a as nat, 3);
    lemma_decimal_text_octet(b as nat, 3);
    lemma_decimal_text_octet(c as nat, 3);
    lemma_decimal_text_octet(d as nat, 3);
    let ta = decimal_text(a as nat);
    let tb = decimal_text(b as nat);
    let tc = decimal_text(c as nat);
    let td = decimal_text(d as nat);
    lemma_split_no_separator(ta, '.');
    lemma_split_append_field(ta, tb, '.');
    lemma_split_append_field(ta + seq!['.'] + tb, tc, '.');
    lemma_split_append_field(ta + seq!['.'] + tb + seq!['.'] + tc, td, '.');
    let f = split_on(dotted_text(a, b, c, d), '.');
    assert(f =~= seq![ta, tb, tc, td]);
    assert(octet_field(ta) == Some(a));
    assert(octet_field(tb) == Some(b));
    assert(octet_field(tc) == Some(c));
    assert(octet_field(td) == Some(d));
}

/// Groups written in hexadecimal and joined with `:`.
pub open spec fn groups_text(g: Seq<u16>, upper: bool) -> Seq<char>
    decreases g.len(),
{
    if g.len() <= 1 {
        if g.len() == 1 {
            hex_text(g[0] as nat, upper)
        } else {
            Seq::empty()
        }
    } else {
        groups_text(g.drop_last(), upper) + seq![':'] + hex_text(g.last() as nat, upper)
    }
}

proof fn lemma_hex_text_chars(v: u16, upper: bool)
    ensures
        hex_group(hex_text(v as nat, upper)) == Some(v),
        hex_text(v as nat, upper).len() >= 1,
        !hex_text(v as nat, upper).contains(':'),
        !hex_text(v as nat, upper).contains('.'),
{
    lemma_hex_group_round_trip(v, upper);
    let t = hex_text(v as nat, upper);
    assert(!t.contains(':') && !t.contains('.')) by {
        if t.contains(':') || t.contains('.') {
            let i = choose|i: int| 0 <= i < t.len() && (t[i] == ':' || t[i] == '.');
            assert(is_hex_digit(t[i]));
        }
    }
}

proof fn lemma_groups_text_shape(g: Seq<u16>, upper: bool)
    requires
        g.len() >= 1,
    ensures
        split_on(groups_text(g, upper), ':') == g.map_values(|x: u16| hex_text(x as nat, upper)),
        !groups_text(g, upper).contains('.'),
        forall|i: int| !double_colon_at(groups_text(g, upper), i),
        groups_text(g, upper).len() >= 1,
        groups_text(g, upper).last() != ':',
    decreases g.len(),
{
    let t = groups_text(g, upper);
    if g.len() == 1 {
        lemma_hex_text_chars(g[0], upper);
        lemma_split_no_separator(t, ':');
        assert(g.map_values(|x: u16| hex_text(x as nat, upper)) =~= seq![t]);
        assert forall|i: int| !double_colon_at(t, i) by {
            if double_colon_at(t, i) {
                assert(t.contains(':'));
            }
        }
        assert(t.contains(t.last())) by {
            assert(t[t.len() - 1] == t.last());
        }
    } else {
        let a = groups_text(g.drop_last(), upper);
        let b = hex_text(g.last() as nat, upper);
        lemma_groups_text_shape(g.drop_last(), upper);
        lemma_hex_text_chars(g.last(), upper);
        lemma_split_append_field(a, b, ':');
        assert(g.map_values(|x: u16| hex_text(x as nat, upper)) =~= g.drop_last().map_values(
            |x: u16| hex_text(x as nat, upper),
        ).push(b));
        assert(t == a + seq![':'] + b);
        assert(!t.contains('.')) by {
            if t.contains('.') {
                let i = choose|i: int| 0 <= i < t.len() && t[i] == '.';
                if i < a.len() {
                    assert(a[i] == '.');
                } else if i > a.len() {
                    assert(b[i - a.len() - 1] == '.');
                }
            }
        }
        assert forall|i: int| !double_colon_at(t, i) by {
            if double_colon_at(t, i) {
                if i + 1 < a.len() {
                    assert(a[i] == t[i] && a[i + 1] == t[i + 1]);
                    assert(double_colon_at(a, i));
                } else if i + 1 == a.len() {
                    assert(a[i] == t[i]);
                    assert(a.last() == a[i]);
                } else if i == a.len() {
                    assert(b[0] == t[i + 1]);
                    assert(b.contains(':'));
                } else {
                    assert(b[i - a.len() - 1] == t[i]);
                    assert(b.contains(':'));
                }
            }
        }
        assert(t.last() == b.last());
        assert(b.contains(b.last())) by {
            assert(b[b.len() - 1] == b.last());
        }
    }
}

/// Eight groups written in hexadecimal (either case, no leading zeros)
/// and joined with `:` are read back as the IPv6 address of those groups,
/// most significant first.
pub proof fn lemma_ipv6_full_round_trip(g: Seq<u16>, upper: bool)
    requires
        g.len() == 8,
    ensures
        parse_ipv6_spec(groups_text(g, upper)) == Some(groups_value(g) as u128),
        parse_ip_spec(groups_text(g, upper)) == Some(IpAddress::V6(groups_value(g) as u128)),
{
    let t = groups_text(g, upper);
    lemma_groups_text_shape(g, upper);
    lemma_split_no_separator(t, '.');
    assert(!(exists|i: int| is_first_double_colon(t, i)));
    let fields = split_on(t, ':');
    assert(fields.len() == 8);
    assert(!fields.last().contains('.')) by {
        lemma_hex_text_chars(g[7], upper);
        assert(fields.last() == fields[7]);
    }
    assert forall|i: int| 0 <= i < fields.len() implies (#[trigger] hex_group(fields[i])) == Some(g[i]) by {
        lemma_hex_text_chars(g[i], upper);
    }
    assert(Seq::new(fields.len(), |i: int| hex_group(fields[i])->0) =~= g);
}

/// `::` followed by one to seven groups stands for zero groups followed by
/// those groups; a head of one to seven groups followed by `::` stands for
/// those groups followed by zero groups; `::` alone is the zero address.
pub proof fn lemma_ipv6_compressed_round_trip(g: Seq<u16>, upper: bool)
    requires
        1 <= g.len() <= 7,
    ensures
        parse_ipv6_groups(seq![':', ':'] + groups_text(g, upper)) == Some(
            Seq::new((8 - g.len()) as nat, |i: int| 0u16) + g,
        ),
        parse_ipv6_groups(groups_text(g, upper) + seq![':', ':']) == Some(
            g + Seq::new((8 - g.len()) as nat, |i: int| 0u16),
        ),
        parse_ipv6_groups(seq![':', ':']) == Some(Seq::new(8, |i: int| 0u16)),
{
    let t = groups_text(g, upper);
    lemma_groups_text_shape(g, upper);
    let fields = split_on(t, ':');
    assert(fields.len() == g.len());
    assert forall|i: int| 0 <= i < fields.len() implies (#[trigger] hex_group(fields[i])) == Some(g[i]) by {
        lemma_hex_text_chars(g[i], upper);
    }
    assert(Seq::new(fields.len(), |i: int| hex_group(fields[i])->0) =~= g);
    assert(hex_groups(fields) == Some(g));
    assert(!fields.last().contains('.')) by {
        lemma_hex_text_chars(g[g.len() - 1], upper);
        assert(fields.last() == fields[g.len() - 1]);
    }
    // `::` first
    let s1 = seq![':', ':'] + t;
    assert(is_first_double_colon(s1, 0));
    assert forall|k: int| is_first_double_colon(s1, k) implies k == 0 by {
        if k > 0 {
            assert(double_colon_at(s1, 0));
        }
    }
    assert(s1.take(0) =~= Seq::<char>::empty());
    assert(s1.skip(2) =~= t);
    assert(Seq::<u16>::empty() + Seq::new((8 - g.len()) as nat, |i: int| 0u16) + g =~= Seq::new(
        (8 - g.len()) as nat,
        |i: int| 0u16,
    ) + g);
    // `::` last
    let s2 = t + seq![':', ':'];
    let n = t.len() as int;
    assert(is_first_double_colon(s2, n)) by {
        assert forall|j: int| 0 <= j < n implies !double_colon_at(s2, j) by {
            if double_colon_at(s2, j) {
                if j + 1 < n {
                    assert(s2[j] == t[j] && s2[j + 1] == t[j + 1]);
                    assert(double_colon_at(t, j));
                } else {
                    assert(s2[j] == t[j]);
                    assert(t.last() == t[j]);
                }
            }
        }
    }
    assert forall|k: int| is_first_double_colon(s2, k) implies k == n by {
        if k < n {
            assert(!double_colon_at(s2, k));
        } else if k > n {
            assert(double_colon_at(s2, n));
        }
    }
    assert(s2.take(n) =~= t);
    assert(s2.skip(n + 2) =~= Seq::<char>::empty());
    assert(g + Seq::new((8 - g.len()) as nat, |i: int| 0u16) + Seq::<u16>::empty() =~= g + Seq::new(
        (8 - g.len()) as nat,
        |i: int| 0u16,
    ));
    // `::` alone
    let s3 = seq![':', ':'];
    assert(is_first_double_colon(s3, 0));
    assert forall|k: int| is_first_double_colon(s3, k) implies k == 0 by {
    }
    assert(s3.take(0) =~= Seq::<char>::empty());
    assert(s3.skip(2) =~= Seq::<char>::empty());
    assert(Seq::<u16>::empty() + Seq::new(8, |i: int| 0u16) + Seq::<u16>::empty() =~= Seq::new(
        8,
        |i: int| 0u16,
    ));
}

/// Dotted-decimal text holds only digits and dots, and starts and ends
/// with a digit.
pub proof fn lemma_dotted_text_chars(a: u8, b: u8, c: u8, d: u8)
    ensures
        forall|i: int| 0 <= i < dotted_text(a, b, c, d).len() ==> is_dec_digit(#[trigger] dotted_text(a, b, c, d)[i])
            || dotted_text(a, b, c, d)[i] == '.',
        dotted_text(a, b, c, d).len() >= 1,
        is_dec_digit(dotted_text(a, b, c, d)[0]),
        is_dec_digit(dotted_text(a, b, c, d).last()),
{
    reveal_with_fuel(pow10, 4);
    lemma_decimal_text_octet(a as nat, 3);
    lemma_decimal_text_octet(b as nat, 3);
    lemma_decimal_text_octet(c as nat, 3);
    lemma_decimal_text_octet(d as nat, 3);
    let ta = decimal_text(a as nat);
    let tb = decimal_text(b as nat);
    let tc = decimal_text(c as nat);
    let td = decimal_text(d as nat);
    let t = dotted_text(a, b, c, d);
    let la = ta.len() as int;
    let lb = tb.len() as int;
    let lc = tc.len() as int;
    assert forall|i: int| 0 <= i < t.len() implies is_dec_digit(#[trigger] t[i]) || t[i] == '.' by {
        if i < la {
            assert(t[i] == ta[i]);
        } else if i == la {
        } else if i < la + 1 + lb {
            assert(t[i] == tb[i - la - 1]);
        } else if i == la + 1 + lb {
        } else if i < la + lb + 2 + lc {
            assert(t[i] == tc[i - la - lb - 2]);
        } else if i == la + lb + 2 + lc {
        } else {
            assert(t[i] == td[i - la - lb - lc - 3]);
        }
    }
    assert(t[0] == ta[0]);
    assert(t.last() == td.last());
    assert(td.last() == td[td.len() - 1]);
}

/// An octet is refused when it has a leading zero before other digits,
/// when it is written with more than three characters, or when its value
/// is above 255.
pub proof fn lemma_octet_refusals(x: Seq<char>, n: nat)
    ensures
        x.len() >= 1 ==> octet_field(seq!['0'] + x) is None,
        x.len() > 3 ==> octet_field(x) is None,
        n > 255 ==> octet_field(decimal_text(n)) is None,
        x.len() == 0 ==> octet_field(x) is None,
{
    assert((seq!['0'] + x)[0] == '0');
    lemma_decimal_text_value(n);
}

proof fn lemma_decimal_text_value(n: nat)
    ensures
        dec_value(decimal_text(n)) == n,
    decreases n,
{
    let t = decimal_text(n);
    if n < 10 {
        lemma_decimal_digit(n);
        assert(t.drop_last() =~= Seq::<char>::empty());
        assert(t.last() == decimal_digit(n));
        assert(dec_value(t) == dec_value(t.drop_last()) * 10 + dec_digit_value(t.last()));
    } else {
        lemma_decimal_text_value(n / 10);
        lemma_decimal_digit(n % 10);
        assert(t.drop_last() == decimal_text(n / 10));
        assert(t.last() == decimal_digit(n % 10));
        assert((n / 10) * 10 + n % 10 == n);
        assert(dec_value(t) == dec_value(t.drop_last()) * 10 + dec_digit_value(t.last()));
    }
}

/// A group is refused when it is empty, longer than four characters, or
/// holds a character that is no hexadecimal digit.
pub proof fn lemma_hex_group_refusals(x: Seq<char>, i: int)
    ensures
        x.len() == 0 ==> hex_group(x) is None,
        x.len() > 4 ==> hex_group(x) is None,
        0 <= i < x.len() && !is_hex_digit(x[i]) ==> hex_group(x) is None,
{
}

// ---------------------------------------------------------------------
// Executable parsing
// ---------------------------------------------------------------------

fn parse_octet(f: &Vec<char>) -> (r: Option<u8>)
    ensures
        r == octet_field(f@),
{
    let n = f.len();
    if n < 1 || n > 3 {
        return None;
    }
    let mut v: u32 = 0;
    let mut i: usize = 0;
    assert(f@.take(0) == Seq::<char>::empty());
    while i < n
        invariant
            n == f.len() <= 3,
            i <= n,
            all_dec_digits(f@.take(i as int)),
            v == dec_value(f@.take(i as int)),
            v < 1000,
        decreases n - i,
    {
        let c = f[i];
        if !('0' <= c && c <= '9') {
            assert(!all_dec_digits(f@)) by {
                assert(!is_dec_digit(f@[i as int]));
            }
            return None;
        }
        assert(f@.take(i + 1).drop_last() == f@.take(i as int));
        proof {
            if i > 0 {
                assert(dec_value(f@.take(i as int)) < 100) by {
                    lemma_dec_value_bound(f@.take(i as int));
                    assert(i <= 2);
                    assert(pow10(i as nat) <= 100) by {
                        lemma_pow10_monotone(i as nat, 2);
                        reveal_with_fuel(pow10, 3);
                    }
                }
            }
        }
        v = v * 10 + (c as u32 - '0' as u32);
        i = i + 1;
        assert(all_dec_digits(f@.take(i as int))) by {
            assert forall|j: int| 0 <= j < i implies is_dec_digit(#[trigger] f@.take(i as int)[j]) by {
                if j < i - 1 {
                    assert(f@.take(i as int)[j] == f@.take(i - 1)[j]);
                }
            }
        }
    }
    assert(f@.take(n as int) == f@);
    if n > 1 && f[0] == '0' {
        return None;
    }
    if v > 255 {
        return None;
    }
    Some(v as u8)
}

pub open spec fn pow10(n: nat) -> nat
    decreases n,
{
    if n == 0 {
        1
    } else {
        pow10((n - 1) as nat) * 10
    }
}

proof fn lemma_pow10_monotone(a: nat, b: nat)
    requires
        a <= b,
    ensures
        pow10(a) <= pow10(b),
    decreases b,
{
    if a < b {
        lemma_pow10_monotone(a, (b - 1) as nat);
    }
}

proof fn lemma_dec_value_bound(f: Seq<char>)
    requires
        all_dec_digits(f),
    ensures
        dec_value(f) < pow10(f.len()),
    decreases f.len(),
{
    if f.len() > 0 {
        assert(all_dec_digits(f.drop_last())) by {
            assert forall|j: int| 0 <= j < f.len() - 1 implies is_dec_digit(#[trigger] f.drop_last()[j]) by {
                assert(f.drop_last()[j] == f[j]);
            }
        }
        lemma_dec_value_bound(f.drop_last());
        assert(is_dec_digit(f[f.len() - 1]));
        let v = dec_value(f.drop_last());
        let p = pow10((f.len() - 1) as nat);
        let x = dec_digit_value(f.last());
        assert(v * 10 + x < p * 10) by (nonlinear_arith)
            requires
                v < p,
                x < 10,
        ;
    }
}

/// Parses dotted-decimal IPv4 text, as `Ipv4Addr::from_str`.
pub fn parse_ipv4(s: &Vec<char>) -> (r: Option<u32>)
    ensures
        r == parse_ipv4_spec(s@),
{
    let f = split(s, '.');
    assert(f.deep_view() == split_on(s@, '.'));
    if f.len() != 4 {
        return None;
    }
    assert(f@[0]@ == f.deep_view()[0]);
    assert(f@[1]@ == f.deep_view()[1]);
    assert(f@[2]@ == f.deep_view()[2]);
    assert(f@[3]@ == f.deep_view()[3]);
    let a = match parse_octet(&f[0]) {
        Some(x) => x,
        None => return None,
    };
    let b = match parse_octet(&f[1]) {
        Some(x) => x,
        None => return None,
    };
    let c = match parse_octet(&f[2]) {
        Some(x) => x,
        None => return None,
    };
    let d = match parse_octet(&f[3]) {
        Some(x) => x,
        None => return None,
    };
    assert(ipv4_value(a, b, c, d) <= 0xffff_ffff) by (nonlinear_arith)
        requires
            a <= 255,
            b <= 255,
            c <= 255,
            d <= 255,
    ;
    let v: u64 = a as u64 * 16777216 + b as u64 * 65536 + c as u64 * 256 + d as u64;
    Some(v as u32)
}

fn parse_hex_group(f: &Vec<char>) -> (r: Option<u16>)
    ensures
        r == hex_group(f@),
{
    let n = f.len();
    if n < 1 || n > 4 {
        return None;
    }
    let mut v: u32 = 0;
    let mut i: usize = 0;
    assert(f@.take(0) == Seq::<char>::empty());
    while i < n
        invariant
            n == f.len() <= 4,
            i <= n,
            all_hex_digits(f@.take(i as int)),
            v == hex_value(f@.take(i as int)),
            v < pow16(i as nat),
        decreases n - i,
    {
        let c = f[i];
        let dv: u32;
        if '0' <= c && c <= '9' {
            dv = c as u32 - '0' as u32;
        } else if 'a' <= c && c <= 'f' {
            dv = c as u32 - 'a' as u32 + 10;
        } else if 'A' <= c && c <= 'F' {
            dv = c as u32 - 'A' as u32 + 10;
        } else {
            assert(!all_hex_digits(f@)) by {
                assert(!is_hex_digit(f@[i as int]));
            }
            return None;
        }
        assert(f@.take(i + 1).drop_last() == f@.take(i as int));
        proof {
            lemma_pow16_monotone(i as nat, 3);
            reveal_with_fuel(pow16, 4);
            assert(pow16(3) == 4096);
            let p = pow16(i as nat);
            assert(v * 16 + dv < p * 16) by (nonlinear_arith)
                requires
                    v < p,
                    dv < 16,
            ;
        }
        v = v * 16 + dv;
        i = i + 1;
        assert(all_hex_digits(f@.take(i as int))) by {
            assert forall|j: int| 0 <= j < i implies is_hex_digit(#[trigger] f@.take(i as int)[j]) by {
                if j < i - 1 {
                    assert(f@.take(i as int)[j] == f@.take(i - 1)[j]);
                }
            }
        }
    }
    assert(f@.take(n as int) == f@);
    proof {
        lemma_pow16_monotone(n as nat, 4);
        reveal_with_fuel(pow16, 5);
        assert(pow16(4) == 65536);
    }
    Some(v as u16)
}

pub open spec fn pow16(n: nat) -> nat
    decreases n,
{
    if n == 0 {
        1
    } else {
        pow16((n - 1) as nat) * 16
    }
}

proof fn lemma_pow16_monotone(a: nat, b: nat)
    requires
        a <= b,
    ensures
        pow16(a) <= pow16(b),
    decreases b,
{
    if a < b {
        lemma_pow16_monotone(a, (b - 1) as nat);
    }
}

/// The groups of `fields[lo..hi]`, when each is a group.
fn parse_hex_groups(fields: &Vec<Vec<char>>, lo: usize, hi: usize) -> (r: Option<Vec<u16>>)
    requires
        lo <= hi <= fields.len(),
    ensures
        match r {
            Some(g) => hex_groups(fields.deep_view().subrange(lo as int, hi as int)) == Some(g@),
            None => hex_groups(fields.deep_view().subrange(lo as int, hi as int)) is None,
        },
{
    let ghost fs = fields.deep_view().subrange(lo as int, hi as int);
    let mut out: Vec<u16> = Vec::new();
    let mut i = lo;
    while i < hi
        invariant
            lo <= i <= hi <= fields.len(),
            fs == fields.deep_view().subrange(lo as int, hi as int),
            out@.len() == i - lo,
            forall|j: int| 0 <= j < i - lo ==> (#[trigger] hex_group(fs[j])) == Some(out@[j]),
        decreases hi - i,
    {
        assert(fields@[i as int]@ == fs[i - lo]);
        match parse_hex_group(&fields[i]) {
            Some(g) => {
                out.push(g);
            },
            None => {
                assert(hex_group(fs[i - lo]) is None);
                return None;
            },
        }
        i = i + 1;
    }
    assert(out@ == Seq::new(fs.len(), |j: int| hex_group(fs[j])->0));
    Some(out)
}

/// The groups of `fields`, the last of which may be an IPv4 tail.
fn parse_groups_with_tail(fields: &Vec<Vec<char>>) -> (r: Option<Vec<u16>>)
    ensures
        match r {
            Some(g) => groups_with_ipv4_tail(fields.deep_view()) == Some(g@),
            None => groups_with_ipv4_tail(fields.deep_view()) is None,
        },
{
    let n = fields.len();
    assert(fields.deep_view().subrange(0, n as int) == fields.deep_view());
    if n > 0 && contains_char(&fields[n - 1], '.') {
        assert(fields.deep_view().last() == fields@[n - 1]@);
        assert(fields.deep_view().drop_last() == fields.deep_view().subrange(0, n - 1));
        let g = match parse_hex_groups(fields, 0, n - 1) {
            Some(g) => g,
            None => return None,
        };
        let v = match parse_ipv4(&fields[n - 1]) {
            Some(v) => v,
            None => return None,
        };
        let mut out = g;
        let ghost g0 = out@;
        out.push((v / 65536) as u16);
        out.push((v % 65536) as u16);
        assert(out@ == g0 + seq![(v / 65536) as u16, (v % 65536) as u16]);
        Some(out)
    } else {
        if n > 0 {
            assert(fields.deep_view().last() == fields@[n - 1]@);
        }
        parse_hex_groups(fields, 0, n)
    }
}

/// The value of at most eight groups.
fn groups_to_u128(g: &Vec<u16>) -> (v: u128)
    requires
        g.len() <= 8,
    ensures
        v == groups_value(g@),
{
    let mut v: u128 = 0;
    let mut i: usize = 0;
    assert(g@.take(0) == Seq::<u16>::empty());
    while i < g.len()
        invariant
            i <= g.len() <= 8,
            v == groups_value(g@.take(i as int)),
        decreases g.len() - i,
    {
        assert(g@.take(i + 1).drop_last() == g@.take(i as int));
        proof {
            lemma_groups_value_bound(g@.take(i + 1));
            lemma_pow65536_monotone((i + 1) as nat, 8);
            reveal_with_fuel(pow65536, 9);
            assert(pow65536(8) == 0x1_0000_0000_0000_0000_0000_0000_0000_0000);
        }
        v = v * 65536 + g[i] as u128;
        i = i + 1;
    }
    assert(g@.take(g.len() as int) == g@);
    v
}

/// Parses IPv6 text, as `Ipv6Addr::from_str`.
pub fn parse_ipv6(s: &Vec<char>) -> (r: Option<u128>)
    ensures
        r == parse_ipv6_spec(s@),
{
    let n = s.len();
    let mut k: usize = 0;
    let mut found = false;
    while k < n && !found
        invariant
            n == s.len(),
            k <= n,
            forall|j: int| 0 <= j < k ==> !double_colon_at(s@, j),
            found ==> double_colon_at(s@, k as int),
        decreases n - k + (if found { 0int } else { 1int }),
    {
        if k + 1 < n && s[k] == ':' && s[k + 1] == ':' {
            found = true;
        } else {
            k = k + 1;
        }
    }
    let groups: Vec<u16>;
    if found {
        proof {
            assert(is_first_double_colon(s@, k as int));
            let k2 = choose|i: int| is_first_double_colon(s@, i);
            if k2 < k {
                assert(!double_colon_at(s@, k2));
            } else if k < k2 {
                assert(!double_colon_at(s@, k as int));
            }
        }
        let head = sub_chars(s, 0, k);
        let tail = sub_chars(s, k + 2, n);
        assert(head@ == s@.take(k as int));
        assert(tail@ == s@.skip(k + 2));
        let h: Vec<u16> = if head.len() == 0 {
            Vec::new()
        } else {
            let hf = split(&head, ':');
            proof {
                lemma_split_nonempty(head@, ':');
            }
            assert(hf.deep_view().subrange(0, hf.len() as int) == hf.deep_view());
            match parse_hex_groups(&hf, 0, hf.len()) {
                Some(h) => h,
                None => return None,
            }
        };
        let t: Vec<u16> = if tail.len() == 0 {
            Vec::new()
        } else {
            let tf = split(&tail, ':');
            match parse_groups_with_tail(&tf) {
                Some(t) => t,
                None => return None,
            }
        };
        if h.len() > 7 || t.len() > 7 - h.len() {
            return None;
        }
        let mut all = h;
        let ghost hs = all@;
        let zeros: usize = 8 - all.len() - t.len();
        let mut z: usize = 0;
        while z < zeros
            invariant
                z <= zeros,
                zeros == 8 - hs.len() - t@.len(),
                hs.len() + t@.len() <= 7,
                all@ == hs + Seq::new(z as nat, |i: int| 0u16),
            decreases zeros - z,
        {
            all.push(0);
            z = z + 1;
            assert(all@ =~= hs + Seq::new(z as nat, |i: int| 0u16));
        }
        let mut j: usize = 0;
        let ghost mid = all@;
        while j < t.len()
            invariant
                j <= t.len(),
                all@ == mid + t@.take(j as int),
            decreases t.len() - j,
        {
            all.push(t[j]);
            j = j + 1;
            assert(all@ =~= mid + t@.take(j as int));
        }
        assert(t@.take(t.len() as int) == t@);
        groups = all;
    } else {
        proof {
            assert forall|i: int| !is_first_double_colon(s@, i) by {
                if is_first_double_colon(s@, i) {
                    assert(!double_colon_at(s@, i));
                }
            }
        }
        let f = split(s, ':');
        let g = match parse_groups_with_tail(&f) {
            Some(g) => g,
            None => return None,
        };
        if g.len() != 8 {
            return None;
        }
        groups = g;
    }
    Some(groups_to_u128(&groups))
}

/// Parses an IP address, as `IpAddr::from_str`.
pub fn parse_ip_chars(s: &Vec<char>) -> (r: Option<IpAddress>)
    ensures
        r == parse_ip_spec(s@),
{
    match parse_ipv4(s) {
        Some(v) => Some(IpAddress::V4(v)),
        None => match parse_ipv6(s) {
            Some(v) => Some(IpAddress::V6(v)),
            None => None,
        },
    }
}

/// Parses an IP address, as `IpAddr::from_str`.
pub fn parse_ip(s: &str) -> (r: Option<IpAddress>)
    ensures
        r == parse_ip_spec(s@),
{
    let cs = chars_of(s);
    parse_ip_chars(&cs)
}

} // verus!
