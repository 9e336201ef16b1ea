//! CIDR blocks (`address/prefix`) and their expansion into every address
//! of the block, with a limit on how many addresses one block may give.
use vstd::prelude::*;
use vstd::arithmetic::power2::{pow2, lemma_pow2_adds, lemma_pow2_unfold, lemma2_to64, lemma2_to64_rest, lemma_pow2_pos};
use crate::ip::{IpAddress, ip_lt, parse_ip_spec, parse_ip_chars, dotted_text, ipv4_value, lemma_ipv4_round_trip, lemma_dotted_text_chars};
use crate::sorted::strictly_sorted;
use vstd::arithmetic::div_mod::lemma_fundamental_div_mod_converse;
use crate::number::{parse_unsigned_spec, parse_unsigned, decimal_text, is_dec_digit, lemma_parse_decimal_round_trip, lemma_decimal_digit};
use crate::text::{split_once_spec, trimmed, trim_start, trim_end, is_first_index, lemma_first_index_unique, split_once, trim, string_from_chars, chars_of};

verus! {

/// Why a CIDR block was refused.
#[derive(Debug, PartialEq, Eq)]
pub enum CidrError {
    /// The text holds no `/`.
    Malformed,
    /// The part before the `/` (as written, untrimmed) is no IP address.
    InvalidIp(String),
    /// The part after the `/` (as written, untrimmed) is no number from 0 to 255.
    InvalidPrefix(String),
    /// An IPv4 prefix above 32.
    V4PrefixOutOfRange,
    /// An IPv6 prefix above 128.
    V6PrefixOutOfRange,
    /// An IPv6 block with prefix 0, which spans the whole address space.
    RangeTooLarge,
    /// The block holds `count` addresses, more than the allowed `max`.
    TooMany { count: u128, max: usize },
}

/// What a [`CidrError`] says, with its texts as character sequences.
pub enum CidrFault {
    Malformed,
    InvalidIp(Seq<char>),
    InvalidPrefix(Seq<char>),
    V4PrefixOutOfRange,
    V6PrefixOutOfRange,
    RangeTooLarge,
    TooMany { count: nat, max: nat },
}

impl View for CidrError {
    type V = CidrFault;

    open spec fn view(&self) -> CidrFault {
        match self {
            CidrError::Malformed => CidrFault::Malformed,
            CidrError::InvalidIp(s) => CidrFault::InvalidIp(s@),
            CidrError::InvalidPrefix(s) => CidrFault::InvalidPrefix(s@),
            CidrError::V4PrefixOutOfRange => CidrFault::V4PrefixOutOfRange,
            CidrError::V6PrefixOutOfRange => CidrFault::V6PrefixOutOfRange,
            CidrError::RangeTooLarge => CidrFault::RangeTooLarge,
            CidrError::TooMany { count, max } => CidrFault::TooMany {
                count: *count as nat,
                max: *max as nat,
            },
        }
    }
}

/// The first address of the block of `2^host_bits` addresses that holds `base`.
pub open spec fn block_start(base: nat, host_bits: nat) -> nat {
    (base - base % pow2(host_bits)) as nat
}

/// The IPv4 addresses of the block `base/prefix`, in increasing order.
pub open spec fn v4_block(base: u32, prefix: nat) -> Seq<IpAddress> {
    let h = (32 - prefix) as nat;
    Seq::new(pow2(h), |i: int| IpAddress::V4((block_start(base as nat, h) + i) as u32))
}

/// The IPv6 addresses of the block `base/prefix`, in increasing order.
pub open spec fn v6_block(base: u128, prefix: nat) -> Seq<IpAddress> {
    let h = (128 - prefix) as nat;
    Seq::new(pow2(h), |i: int| IpAddress::V6((block_start(base as nat, h) + i) as u128))
}

/// Expansion of an IPv4 block, with at most `max` addresses.
pub open spec fn expand_v4_spec(base: u32, prefix: u8, max: usize) -> Result<Seq<IpAddress>, CidrFault> {
    if prefix > 32 {
        Err(CidrFault::V4PrefixOutOfRange)
    } else if pow2((32 - prefix) as nat) > max {
        Err(CidrFault::TooMany { count: pow2((32 - prefix) as nat), max: max as nat })
    } else {
        Ok(v4_block(base, prefix as nat))
    }
}

/// Expansion of an IPv6 block, with at most `max` addresses.
pub open spec fn expand_v6_spec(base: u128, prefix: u8, max: usize) -> Result<Seq<IpAddress>, CidrFault> {
    if prefix > 128 {
        Err(CidrFault::V6PrefixOutOfRange)
    } else if prefix == 0 {
        Err(CidrFault::RangeTooLarge)
    } else if pow2((128 - prefix) as nat) > max {
        Err(CidrFault::TooMany { count: pow2((128 - prefix) as nat), max: max as nat })
    } else {
        Ok(v6_block(base, prefix as nat))
    }
}

/// Expansion of the text `address/prefix`: the text is cut at its first
/// `/`; the address (trimmed) is read first, then the prefix (trimmed) as
/// a number from 0 to 255.
pub open spec fn expand_cidr_spec(s: Seq<char>, max: usize) -> Result<Seq<IpAddress>, CidrFault> {
    match split_once_spec(s, '/') {
        None => Err(CidrFault::Malformed),
        Some((ip_raw, prefix_raw)) => match parse_ip_spec(trimmed(ip_raw)) {
            None => Err(CidrFault::InvalidIp(ip_raw)),
            Some(ip) => match parse_unsigned_spec(trimmed(prefix_raw), 255) {
                Err(_) => Err(CidrFault::InvalidPrefix(prefix_raw)),
                Ok(p) => match ip {
                    IpAddress::V4(b) => expand_v4_spec(b, p as u8, max),
                    IpAddress::V6(b) => expand_v6_spec(b, p as u8, max),
                },
            },
        },
    }
}

/// `1 << h` is `2^h`.
proof fn lemma_one_shl(h: u32)
    requires
        h < 128,
    ensures
        (1u128 << h) == pow2(h as nat),
    decreases h,
{
    if h == 0 {
        assert((1u128 << 0u32) == 1u128) by (bit_vector);
        lemma2_to64();
    } else {
        lemma_one_shl((h - 1) as u32);
        let hm: u32 = (h - 1) as u32;
        assert((1u128 << h) == 2 * (1u128 << hm)) by (bit_vector)
            requires
                0 < h < 128,
                hm == h - 1,
        ;
        lemma_pow2_unfold(h as nat);
    }
}

/// A block of `2^h` addresses that starts at a multiple of `2^h` at or
/// below an address of a `w`-bit space lies entirely inside that space.
pub proof fn lemma_block_fits(base: nat, h: nat, w: nat)
    requires
        h <= w,
        base < pow2(w),
    ensures
        block_start(base, h) + pow2(h) <= pow2(w),
        block_start(base, h) <= base,
        base < block_start(base, h) + pow2(h),
{
    let p = pow2(h);
    let m = pow2((w - h) as nat);
    lemma_pow2_adds(h, (w - h) as nat);
    lemma_pow2_pos(h);
    assert(pow2(w) == p * m);
    let q = base / p;
    let r = base % p;
    assert(base == q * p + r && 0 <= r < p) by (nonlinear_arith)
        requires
            p > 0,
            q == base / p,
            r == base % p,
    ;
    assert(q * p + p <= m * p) by (nonlinear_arith)
        requires
            q * p <= base,
            base < m * p,
            p > 0,
            q >= 0,
    ;
    assert(block_start(base, h) == q * p);
}

/// Offset `i` of a block lands on an address of the same block, `i` past
/// its start.
proof fn lemma_block_member(base: nat, h: nat, w: nat, i: nat)
    requires
        h <= w,
        base < pow2(w),
        i < pow2(h),
    ensures
        block_start(base, h) + i < pow2(w),
        block_start((block_start(base, h) + i) as nat, h) == block_start(base, h),
{
    lemma_block_fits(base, h, w);
    let p = pow2(h);
    lemma_pow2_pos(h);
    let q = base / p;
    assert(base == q * p + base % p && 0 <= base % p < p) by (nonlinear_arith)
        requires
            p > 0,
            q == base / p,
    ;
    let m = block_start(base, h) + i;
    assert(m == q * p + i);
    lemma_fundamental_div_mod_converse(m as int, p as int, q as int, i as int);
}

/// The IPv4 block `base/prefix` (for a prefix from 0 to 32) holds `base`,
/// lists its addresses in increasing order, and every one of them has the
/// same first `prefix` bits as `base`.
pub proof fn lemma_v4_block_shape(base: u32, prefix: nat)
    requires
        prefix <= 32,
    ensures
        v4_block(base, prefix).contains(IpAddress::V4(base)),
        strictly_sorted(v4_block(base, prefix)),
        forall|i: int| #![trigger v4_block(base, prefix)[i]]
            0 <= i < v4_block(base, prefix).len() ==> (v4_block(base, prefix)[i] matches IpAddress::V4(a)
                && block_start(a as nat, (32 - prefix) as nat) == block_start(base as nat, (32 - prefix) as nat)),
{
    let h = (32 - prefix) as nat;
    let blk = v4_block(base, prefix);
    lemma2_to64();
    lemma_block_fits(base as nat, h, 32);
    let start = block_start(base as nat, h);
    assert forall|i: int| #![trigger blk[i]]
        0 <= i < blk.len() implies (blk[i] matches IpAddress::V4(a)
            && block_start(a as nat, h) == block_start(base as nat, h)) by {
        lemma_block_member(base as nat, h, 32, i as nat);
    }
    assert forall|i: int, j: int| 0 <= i < j < blk.len() implies ip_lt(#[trigger] blk[i], #[trigger] blk[j]) by {
        lemma_block_member(base as nat, h, 32, i as nat);
        lemma_block_member(base as nat, h, 32, j as nat);
    }
    let k = (base as nat - start) as int;
    assert(blk[k] == IpAddress::V4(base));
}

/// The IPv6 block `base/prefix` (for a prefix from 1 to 128) holds `base`,
/// lists its addresses in increasing order, and every one of them has the
/// same first `prefix` bits as `base`.
pub proof fn lemma_v6_block_shape(base: u128, prefix: nat)
    requires
        1 <= prefix <= 128,
    ensures
        v6_block(base, prefix).contains(IpAddress::V6(base)),
        strictly_sorted(v6_block(base, prefix)),
        forall|i: int| #![trigger v6_block(base, prefix)[i]]
            0 <= i < v6_block(base, prefix).len() ==> (v6_block(base, prefix)[i] matches IpAddress::V6(a)
                && block_start(a as nat, (128 - prefix) as nat) == block_start(base as nat, (128 - prefix) as nat)),
{
    let h = (128 - prefix) as nat;
    let blk = v6_block(base, prefix);
    lemma_pow2_128();
    lemma_block_fits(base as nat, h, 128);
    let start = block_start(base as nat, h);
    assert forall|i: int| #![trigger blk[i]]
        0 <= i < blk.len() implies (blk[i] matches IpAddress::V6(a)
            && block_start(a as nat, h) == block_start(base as nat, h)) by {
        lemma_block_member(base as nat, h, 128, i as nat);
    }
    assert forall|i: int, j: int| 0 <= i < j < blk.len() implies ip_lt(#[trigger] blk[i], #[trigger] blk[j]) by {
        lemma_block_member(base as nat, h, 128, i as nat);
        lemma_block_member(base as nat, h, 128, j as nat);
    }
    let k = (base as nat - start) as int;
    assert(blk[k] == IpAddress::V6(base));
}

proof fn lemma_pow2_128()
    ensures
        pow2(128) == 0x1_0000_0000_0000_0000_0000_0000_0000_0000,
{
    lemma_pow2_adds(64, 64);
    lemma2_to64_rest();
}


/// An IPv4 block is accepted exactly when its prefix is at most 32 and
/// its 2^(32 - prefix) addresses are within the limit, and then it gives
/// that many addresses; otherwise the error says which bound was passed.
pub proof fn lemma_v4_expansion_limits(base: u32, prefix: u8, max: usize)
    ensures
        (expand_v4_spec(base, prefix, max) is Ok) <==> (prefix <= 32 && pow2((32 - prefix) as nat) <= max),
        expand_v4_spec(base, prefix, max) matches Ok(v) ==> v.len() == pow2((32 - prefix) as nat),
        prefix > 32 ==> expand_v4_spec(base, prefix, max) == Err::<Seq<IpAddress>, CidrFault>(CidrFault::V4PrefixOutOfRange),
        prefix <= 32 && pow2((32 - prefix) as nat) > max ==> expand_v4_spec(base, prefix, max) == Err::<Seq<IpAddress>, CidrFault>(
            CidrFault::TooMany { count: pow2((32 - prefix) as nat), max: max as nat },
        ),
        expand_v4_spec(base, prefix, max) matches Ok(v) ==> v.contains(IpAddress::V4(base)),
{
    if prefix <= 32 && pow2((32 - prefix) as nat) <= max {
        lemma_v4_block_shape(base, prefix as nat);
    }
}

/// An IPv6 block is accepted exactly when its prefix is from 1 to 128 and
/// its 2^(128 - prefix) addresses are within the limit, and then it gives
/// that many addresses, among them the base.
pub proof fn lemma_v6_expansion_limits(base: u128, prefix: u8, max: usize)
    ensures
        (expand_v6_spec(base, prefix, max) is Ok) <==> (1 <= prefix <= 128 && pow2((128 - prefix) as nat) <= max),
        expand_v6_spec(base, prefix, max) matches Ok(v) ==> v.len() == pow2((128 - prefix) as nat),
        prefix > 128 ==> expand_v6_spec(base, prefix, max) == Err::<Seq<IpAddress>, CidrFault>(CidrFault::V6PrefixOutOfRange),
        prefix == 0 ==> expand_v6_spec(base, prefix, max) == Err::<Seq<IpAddress>, CidrFault>(CidrFault::RangeTooLarge),
        expand_v6_spec(base, prefix, max) matches Ok(v) ==> v.contains(IpAddress::V6(base)),
{
    if 1 <= prefix <= 128 && pow2((128 - prefix) as nat) <= max {
        lemma_v6_block_shape(base, prefix as nat);
    }
}

proof fn lemma_trimmed_unchanged(s: Seq<char>)
    requires
        s.len() >= 1,
        is_dec_digit(s[0]),
        is_dec_digit(s.last()),
    ensures
        trimmed(s) == s,
{
}

/// The text `a.b.c.d/p`, for any four octets and any prefix written in
/// decimal, is expanded as the IPv4 block of that address and prefix.
pub proof fn lemma_v4_cidr_text(a: u8, b: u8, c: u8, d: u8, p: u8, max: usize)
    ensures
        expand_cidr_spec(dotted_text(a, b, c, d) + seq!['/'] + decimal_text(p as nat), max)
            == expand_v4_spec(ipv4_value(a, b, c, d) as u32, p, max),
{
    let ip = dotted_text(a, b, c, d);
    let pt = decimal_text(p as nat);
    let s = ip + seq!['/'] + pt;
    lemma_ipv4_round_trip(a, b, c, d);
    lemma_dotted_text_chars(a, b, c, d);
    lemma_parse_decimal_round_trip(p as nat, 255);
    lemma_decimal_shape(p as nat);
    let n = ip.len() as int;
    assert(is_first_index(s, '/', n)) by {
        assert forall|j: int| 0 <= j < n implies s[j] != '/' by {
            assert(s[j] == ip[j]);
        }
    }
    assert(s.contains('/')) by {
        assert(s[n] == '/');
    }
    let k = choose|k: int| is_first_index(s, '/', k);
    lemma_first_index_unique(s, '/', n, k);
    assert(s.take(n) =~= ip);
    assert(s.skip(n + 1) =~= pt);
    lemma_trimmed_unchanged(ip);
    lemma_trimmed_unchanged(pt);
}

proof fn lemma_decimal_shape(n: nat)
    ensures
        decimal_text(n).len() >= 1,
        is_dec_digit(decimal_text(n)[0]),
        is_dec_digit(decimal_text(n).last()),
    decreases n,
{
    if n < 10 {
        lemma_decimal_digit(n);
    } else {
        lemma_decimal_shape(n / 10);
        lemma_decimal_digit(n % 10);
        assert(decimal_text(n)[0] == decimal_text(n / 10)[0]);
    }
}

/// Expands the IPv4 block `base/prefix` into its addresses, refusing a
/// prefix above 32 and a block of more than `max_expand` addresses.
pub fn expand_cidr_v4(base: u32, prefix: u8, max_expand: usize) -> (r: Result<Vec<IpAddress>, CidrError>)
    ensures
        match r {
            Ok(v) => expand_v4_spec(base, prefix, max_expand) == Ok::<Seq<IpAddress>, CidrFault>(v@),
            Err(e) => expand_v4_spec(base, prefix, max_expand) == Err::<Seq<IpAddress>, CidrFault>(e@),
        },
{
    if prefix > 32 {
        return Err(CidrError::V4PrefixOutOfRange);
    }
    let host_bits: u32 = 32 - prefix as u32;
    proof {
        lemma_one_shl(host_bits);
    }
    let count: u128 = 1u128 << host_bits;
    if count > max_expand as u128 {
        return Err(CidrError::TooMany { count, max: max_expand });
    }
    let mut out: Vec<IpAddress> = Vec::new();
    proof {
        lemma2_to64();
        lemma_block_fits(base as nat, host_bits as nat, 32);
    }
    let b = base as u128;
    assert(b % count <= b) by (nonlinear_arith)
        requires
            count > 0,
    ;
    let network: u128 = b - b % count;
    let ghost h = host_bits as nat;
    let mut i: u128 = 0;
    while i < count
        invariant
            i <= count,
            count == pow2(h),
            network == block_start(base as nat, h),
            network + count <= 0x1_0000_0000,
            out@ == Seq::new(i as nat, |j: int| IpAddress::V4((block_start(base as nat, h) + j) as u32)),
        decreases count - i,
    {
        out.push(IpAddress::V4((network + i) as u32));
        i = i + 1;
        assert(out@ =~= Seq::new(i as nat, |j: int| IpAddress::V4((block_start(base as nat, h) + j) as u32)));
    }
    Ok(out)
}

/// Expands the IPv6 block `base/prefix` into its addresses, refusing a
/// prefix above 128, prefix 0, and a block of more than `max_expand`
/// addresses.
pub fn expand_cidr_v6(base: u128, prefix: u8, max_expand: usize) -> (r: Result<Vec<IpAddress>, CidrError>)
    ensures
        match r {
            Ok(v) => expand_v6_spec(base, prefix, max_expand) == Ok::<Seq<IpAddress>, CidrFault>(v@),
            Err(e) => expand_v6_spec(base, prefix, max_expand) == Err::<Seq<IpAddress>, CidrFault>(e@),
        },
{
    if prefix > 128 {
        return Err(CidrError::V6PrefixOutOfRange);
    }
    let host_bits: u32 = 128 - prefix as u32;
    if host_bits >= 128 {
        return Err(CidrError::RangeTooLarge);
    }
    proof {
        lemma_one_shl(host_bits);
    }
    let count: u128 = 1u128 << host_bits;
    if count > max_expand as u128 {
        return Err(CidrError::TooMany { count, max: max_expand });
    }
    proof {
        lemma_pow2_128();
        lemma_block_fits(base as nat, host_bits as nat, 128);
    }
    assert(base % count <= base) by (nonlinear_arith)
        requires
            count > 0,
    ;
    let network: u128 = base - base % count;
    let ghost h = host_bits as nat;
    let mut out: Vec<IpAddress> = Vec::new();
    let mut i: u128 = 0;
    while i < count
        invariant
            i <= count,
            count == pow2(h),
            network == block_start(base as nat, h),
            network + count <= 0x1_0000_0000_0000_0000_0000_0000_0000_0000,
            out@ == Seq::new(i as nat, |j: int| IpAddress::V6((block_start(base as nat, h) + j) as u128)),
        decreases count - i,
    {
        out.push(IpAddress::V6(network + i));
        i = i + 1;
        assert(out@ =~= Seq::new(i as nat, |j: int| IpAddress::V6((block_start(base as nat, h) + j) as u128)));
    }
    Ok(out)
}

/// Expands the text `address/prefix` into the addresses of its block.
pub fn expand_cidr_chars(s: &Vec<char>, max_expand: usize) -> (r: Result<Vec<IpAddress>, CidrError>)
    ensures
        match r {
            Ok(v) => expand_cidr_spec(s@, max_expand) == Ok::<Seq<IpAddress>, CidrFault>(v@),
            Err(e) => expand_cidr_spec(s@, max_expand) == Err::<Seq<IpAddress>, CidrFault>(e@),
        },
{
    let (ip_raw, prefix_raw) = match split_once(s, '/') {
        Some(parts) => parts,
        None => return Err(CidrError::Malformed),
    };
    let ip = match parse_ip_chars(&trim(&ip_raw)) {
        Some(ip) => ip,
        None => return Err(CidrError::InvalidIp(string_from_chars(&ip_raw))),
    };
    let prefix = match parse_unsigned(&trim(&prefix_raw), 255) {
        Ok(p) => p as u8,
        Err(_) => return Err(CidrError::InvalidPrefix(string_from_chars(&prefix_raw))),
    };
    match ip {
        IpAddress::V4(b) => expand_cidr_v4(b, prefix, max_expand),
        IpAddress::V6(b) => expand_cidr_v6(b, prefix, max_expand),
    }
}

/// Expands the text `address/prefix` into the addresses of its block.
pub fn expand_cidr(cidr: &str, max_expand: usize) -> (r: Result<Vec<IpAddress>, CidrError>)
    ensures
        match r {
            Ok(v) => expand_cidr_spec(cidr@, max_expand) == Ok::<Seq<IpAddress>, CidrFault>(v@),
            Err(e) => expand_cidr_spec(cidr@, max_expand) == Err::<Seq<IpAddress>, CidrFault>(e@),
        },
{
    let s = chars_of(cidr);
    expand_cidr_chars(&s, max_expand)
}

} // verus!
