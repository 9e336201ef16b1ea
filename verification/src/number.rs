//! Decimal text to unsigned integer, with the outcomes of std's
//! `FromStr` for the unsigned integer types.
use vstd::prelude::*;

verus! {

/// Why a decimal text was refused; the kinds of `std::num::IntErrorKind`
/// that an unsigned parse can report.
#[derive(Clone, Copy, Debug, PartialEq, Eq, Structural)]
pub enum IntErrorKind {
    /// The text is empty.
    Empty,
    /// The text holds something other than a decimal digit (after an
    /// optional leading `+`).
    InvalidDigit,
    /// The value is larger than the target type can hold.
    PosOverflow,
}

pub open spec fn is_dec_digit(c: char) -> bool {
    '0' <= c <= '9'
}

pub open spec fn dec_digit_value(c: char) -> nat {
    (c as int - '0' as int) as nat
}

/// Reads the decimal digits of `d` from left to right into a number no
/// larger than `max`. The first position that holds no digit, or that
/// carries the number past `max`, decides the error.
pub open spec fn accumulate_digits(d: Seq<char>, max: nat) -> Result<nat, IntErrorKind>
    decreases d.len(),
{
    if d.len() == 0 {
        Ok(0)
    } else {
        match accumulate_digits(d.drop_last(), max) {
            Err(e) => Err(e),
            Ok(v) => if !is_dec_digit(d.last()) {
                Err(IntErrorKind::InvalidDigit)
            } else if v * 10 + dec_digit_value(d.last()) > max {
                Err(IntErrorKind::PosOverflow)
            } else {
                Ok(v * 10 + dec_digit_value(d.last()))
            },
        }
    }
}

/// The outcome of parsing `s` as an unsigned integer type whose largest
/// value is `max`: an optional `+`, then one or more decimal digits.
pub open spec fn parse_unsigned_spec(s: Seq<char>, max: nat) -> Result<nat, IntErrorKind> {
    if s.len() == 0 {
        Err(IntErrorKind::Empty)
    } else if s[0] == '+' {
        if s.len() == 1 {
            Err(IntErrorKind::InvalidDigit)
        } else {
            accumulate_digits(s.drop_first(), max)
        }
    } else {
        accumulate_digits(s, max)
    }
}

/// A successful read never exceeds the bound.
pub proof fn lemma_accumulate_bounded(d: Seq<char>, max: nat)
    ensures
        accumulate_digits(d, max) matches Ok(v) ==> v <= max,
    decreases d.len(),
{
    if d.len() > 0 {
        lemma_accumulate_bounded(d.drop_last(), max);
    }
}

/// Once a prefix is refused, the whole text is refused with the same error.
pub proof fn lemma_accumulate_error_sticks(d: Seq<char>, i: int, max: nat)
    requires
        0 <= i <= d.len(),
        accumulate_digits(d.take(i), max) is Err,
    ensures
        accumulate_digits(d, max) == accumulate_digits(d.take(i), max),
    decreases d.len(),
{
    if i == d.len() {
        assert(d.take(i) == d);
    } else {
        assert(d.drop_last().take(i) == d.take(i));
        lemma_accumulate_error_sticks(d.drop_last(), i, max);
    }
}

fn accumulate(d: &Vec<char>, start: usize, max: u64) -> (r: Result<u64, IntErrorKind>)
    requires
        start <= d.len(),
    ensures
        match r {
            Ok(v) => accumulate_digits(d@.skip(start as int), max as nat) == Ok::<nat, IntErrorKind>(v as nat),
            Err(e) => accumulate_digits(d@.skip(start as int), max as nat) == Err::<nat, IntErrorKind>(e),
        },
{
    let ghost ds = d@.skip(start as int);
    let mut v: u64 = 0;
    let mut i: usize = start;
    assert(ds.take(0) == Seq::<char>::empty());
    while i < d.len()
        invariant
            start <= i <= d.len(),
            ds == d@.skip(start as int),
            accumulate_digits(ds.take(i - start), max as nat) == Ok::<nat, IntErrorKind>(v as nat),
            v <= max,
        decreases d.len() - i,
    {
        let c = d[i];
        let ghost k = i - start;
        assert(ds.take(k + 1).drop_last() == ds.take(k));
        assert(ds.take(k + 1).last() == c);
        if !('0' <= c && c <= '9') {
            proof {
                lemma_accumulate_error_sticks(ds, k + 1, max as nat);
            }
            return Err(IntErrorKind::InvalidDigit);
        }
        let dv = (c as u32 - '0' as u32) as u64;
        let next: u128 = v as u128 * 10 + dv as u128;
        if next > max as u128 {
            proof {
                lemma_accumulate_error_sticks(ds, k + 1, max as nat);
            }
            return Err(IntErrorKind::PosOverflow);
        }
        v = next as u64;
        i = i + 1;
    }
    assert(ds.take(d.len() - start) == ds);
    Ok(v)
}

/// Parses `s` as an unsigned integer no larger than `max`, as
/// `str::parse` does for an unsigned integer type whose largest value is
/// `max`.
pub fn parse_unsigned(s: &Vec<char>, max: u64) -> (r: Result<u64, IntErrorKind>)
    ensures
        match r {
            Ok(v) => parse_unsigned_spec(s@, max as nat) == Ok::<nat, IntErrorKind>(v as nat),
            Err(e) => parse_unsigned_spec(s@, max as nat) == Err::<nat, IntErrorKind>(e),
        },
        r matches Ok(v) ==> v <= max,
{
    if s.len() == 0 {
        return Err(IntErrorKind::Empty);
    }
    if s[0] == '+' {
        if s.len() == 1 {
            return Err(IntErrorKind::InvalidDigit);
        }
        assert(s@.skip(1) == s@.drop_first());
        let r = accumulate(s, 1, max);
        proof {
            lemma_accumulate_bounded(s@.skip(1), max as nat);
        }
        r
    } else {
        assert(s@.skip(0) == s@);
        let r = accumulate(s, 0, max);
        proof {
            lemma_accumulate_bounded(s@, max as nat);
        }
        r
    }
}


/// The decimal digit for `d` (below 10).
pub open spec fn decimal_digit(d: nat) -> char {
    seq!['0', '1', '2', '3', '4', '5', '6', '7', '8', '9'][d as int]
}

/// The usual decimal writing of `n`: no sign, no leading zero.
pub open spec fn decimal_text(n: nat) -> Seq<char>
    decreases n,
{
    if n < 10 {
        seq![decimal_digit(n)]
    } else {
        decimal_text(n / 10).push(decimal_digit(n % 10))
    }
}

pub proof fn lemma_decimal_digit(d: nat)
    requires
        d < 10,
    ensures
        is_dec_digit(decimal_digit(d)),
        dec_digit_value(decimal_digit(d)) == d,
        decimal_digit(d) != '+',
{
    assert(d == 0 || d == 1 || d == 2 || d == 3 || d == 4 || d == 5 || d == 6 || d == 7 || d == 8
        || d == 9);
}

proof fn lemma_accumulate_decimal(n: nat, max: nat)
    requires
        n <= max,
    ensures
        accumulate_digits(decimal_text(n), max) == Ok::<nat, IntErrorKind>(n),
        decimal_text(n).len() >= 1,
        decimal_text(n)[0] != '+',
    decreases n,
{
    if n < 10 {
        lemma_decimal_digit(n);
        let t = decimal_text(n);
        assert(t.drop_last() =~= Seq::<char>::empty());
        assert(accumulate_digits(t.drop_last(), max) == Ok::<nat, IntErrorKind>(0));
        assert(t.last() == decimal_digit(n));
    } else {
        lemma_accumulate_decimal(n / 10, max);
        lemma_decimal_digit(n % 10);
        let t = decimal_text(n);
        assert(t.drop_last() == decimal_text(n / 10));
        assert(t.last() == decimal_digit(n % 10));
        assert((n / 10) * 10 + n % 10 == n);
        assert(accumulate_digits(t.drop_last(), max) == Ok::<nat, IntErrorKind>(n / 10));
        assert(t[0] == decimal_text(n / 10)[0]);
    }
}

/// Reading the decimal writing of a number no larger than the bound gives
/// that number back: every decimal value that fits the type is accepted
/// exactly as written.
pub proof fn lemma_parse_decimal_round_trip(n: nat, max: nat)
    requires
        n <= max,
    ensures
        parse_unsigned_spec(decimal_text(n), max) == Ok::<nat, IntErrorKind>(n),
{
    lemma_accumulate_decimal(n, max);
}

/// A number above the bound is refused as too large.
pub proof fn lemma_parse_decimal_too_large(n: nat, max: nat)
    requires
        n > max,
    ensures
        parse_unsigned_spec(decimal_text(n), max) == Err::<nat, IntErrorKind>(IntErrorKind::PosOverflow),
    decreases n,
{
    lemma_decimal_too_large(n, max);
}

proof fn lemma_decimal_too_large(n: nat, max: nat)
    requires
        n > max,
    ensures
        accumulate_digits(decimal_text(n), max) == Err::<nat, IntErrorKind>(IntErrorKind::PosOverflow),
        decimal_text(n).len() >= 1,
        decimal_text(n)[0] != '+',
    decreases n,
{
    let t = decimal_text(n);
    if n < 10 {
        lemma_decimal_digit(n);
        assert(t.drop_last() =~= Seq::<char>::empty());
        assert(accumulate_digits(t.drop_last(), max) == Ok::<nat, IntErrorKind>(0));
        assert(t.last() == decimal_digit(n));
    } else {
        assert(t.drop_last() == decimal_text(n / 10));
        assert(t.last() == decimal_digit(n % 10));
        assert(t[0] == decimal_text(n / 10)[0]);
        lemma_decimal_digit(n % 10);
        assert((n / 10) * 10 + n % 10 == n);
        if n / 10 > max {
            lemma_decimal_too_large(n / 10, max);
        } else {
            lemma_accumulate_decimal(n / 10, max);
        }
    }
}


/// A leading `+` is allowed before the digits; nothing, or a lone sign, is
/// refused.
pub proof fn lemma_parse_sign_and_empty(n: nat, max: nat)
    requires
        n <= max,
    ensures
        parse_unsigned_spec(seq!['+'] + decimal_text(n), max) == Ok::<nat, IntErrorKind>(n),
        parse_unsigned_spec(Seq::<char>::empty(), max) == Err::<nat, IntErrorKind>(IntErrorKind::Empty),
        parse_unsigned_spec(seq!['+'], max) == Err::<nat, IntErrorKind>(IntErrorKind::InvalidDigit),
        parse_unsigned_spec(seq!['-'], max) == Err::<nat, IntErrorKind>(IntErrorKind::InvalidDigit),
{
    lemma_accumulate_decimal(n, max);
    let t = seq!['+'] + decimal_text(n);
    assert(t[0] == '+');
    assert(t.drop_first() =~= decimal_text(n));
    let m = seq!['-'];
    assert(m.drop_last() =~= Seq::<char>::empty());
}

/// A text that holds a character other than a digit (past an optional
/// leading `+`) is never accepted.
pub proof fn lemma_parse_non_digit_refused(s: Seq<char>, i: int, max: nat)
    requires
        0 <= i < s.len(),
        !is_dec_digit(s[i]),
        !(i == 0 && s[0] == '+'),
    ensures
        parse_unsigned_spec(s, max) is Err,
{
    if s[0] == '+' {
        if s.len() > 1 {
            lemma_accumulate_non_digit(s.drop_first(), i - 1, max);
        }
    } else {
        lemma_accumulate_non_digit(s, i, max);
    }
}

proof fn lemma_accumulate_non_digit(d: Seq<char>, i: int, max: nat)
    requires
        0 <= i < d.len(),
        !is_dec_digit(d[i]),
    ensures
        accumulate_digits(d, max) is Err,
    decreases d.len(),
{
    if i < d.len() - 1 {
        assert(d.drop_last()[i] == d[i]);
        lemma_accumulate_non_digit(d.drop_last(), i, max);
    } else {
        assert(d.last() == d[i]);
    }
}

} // verus!
