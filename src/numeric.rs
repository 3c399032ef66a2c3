use vstd::prelude::*;

verus! {

/// Largest magnitude an `i64` can hold (that of `i64::MIN`).
pub const I64_MAGNITUDE: u128 = 9223372036854775808;

pub open spec fn is_digit(c: char) -> bool {
    '0' <= c && c <= '9'
}

pub open spec fn digit_value(c: char) -> nat {
    (c as u32 - '0' as u32) as nat
}

pub open spec fn digit_char(d: nat) -> char
    recommends
        d < 10,
{
    ((d + '0' as u32) as u32) as char
}

/// The number written by a sequence of decimal digits, most significant first.
pub open spec fn digits_value(s: Seq<char>) -> nat
    decreases s.len(),
{
    if s.len() == 0 {
        0
    } else {
        digits_value(s.drop_last()) * 10 + digit_value(s.last())
    }
}

pub open spec fn pow10(n: nat) -> nat
    decreases n,
{
    if n == 0 {
        1
    } else {
        10 * pow10((n - 1) as nat)
    }
}

/// The shortest decimal form of `n`.
pub open spec fn decimal_digits(n: nat) -> Seq<char>
    decreases n,
{
    if n < 10 {
        seq![digit_char(n)]
    } else {
        decimal_digits(n / 10).push(digit_char(n % 10))
    }
}

pub open spec fn all_digits(s: Seq<char>) -> bool {
    forall|i: int| 0 <= i < s.len() ==> is_digit(#[trigger] s[i])
}


/// The value of `acc` followed by the digits of `s`.
pub open spec fn extend_value(acc: nat, s: Seq<char>) -> nat {
    acc * pow10(s.len()) + digits_value(s)
}

/// `s` without its trailing zero digits.
pub open spec fn trim_zeros(s: Seq<char>) -> Seq<char>
    decreases s.len(),
{
    if s.len() > 0 && s.last() == '0' {
        trim_zeros(s.drop_last())
    } else {
        s
    }
}

pub proof fn lemma_pow10_positive(n: nat)
    ensures
        pow10(n) >= 1,
    decreases n,
{
    if n > 0 {
        lemma_pow10_positive((n - 1) as nat);
    }
}

pub proof fn lemma_digit_char(d: nat)
    requires
        d < 10,
    ensures
        is_digit(digit_char(d)),
        digit_value(digit_char(d)) == d,
        digit_char(d) == '0' <==> d == 0,
{
}

pub proof fn lemma_extend_push(acc: nat, s: Seq<char>, c: char)
    ensures
        extend_value(acc, s.push(c)) == extend_value(acc, s) * 10 + digit_value(c),
{
    let sp = s.push(c);
    assert(sp.drop_last() =~= s);
    assert(pow10(sp.len()) == 10 * pow10(s.len()));
    let p = pow10(s.len());
    let v = digits_value(s);
    assert(acc * (10 * p) + (v * 10 + digit_value(c)) == (acc * p + v) * 10 + digit_value(c))
        by (nonlinear_arith);
}

pub proof fn lemma_extend_concat(acc: nat, a: Seq<char>, b: Seq<char>)
    ensures
        extend_value(acc, a + b) == extend_value(extend_value(acc, a), b),
    decreases b.len(),
{
    if b.len() == 0 {
        assert(a + b =~= a);
        assert(pow10(0) == 1);
    } else {
        let b0 = b.drop_last();
        let c = b.last();
        assert(b0.push(c) =~= b);
        assert(a + b =~= (a + b0).push(c));
        lemma_extend_concat(acc, a, b0);
        lemma_extend_push(acc, a + b0, c);
        lemma_extend_push(extend_value(acc, a), b0, c);
    }
}

pub proof fn lemma_extend_grows(acc: nat, s: Seq<char>)
    ensures
        extend_value(acc, s) >= acc,
{
    lemma_pow10_positive(s.len());
    assert(acc * pow10(s.len()) >= acc) by (nonlinear_arith)
        requires
            pow10(s.len()) >= 1,
    ;
}

pub proof fn lemma_value_of_zero_extension(s: Seq<char>)
    ensures
        extend_value(0, s) == digits_value(s),
{
    let p = pow10(s.len());
    assert(0nat * p == 0) by (nonlinear_arith);
}

pub proof fn lemma_decimal_digits(n: nat)
    ensures
        all_digits(decimal_digits(n)),
        digits_value(decimal_digits(n)) == n,
        decimal_digits(n).len() >= 1,
        n > 0 ==> decimal_digits(n)[0] != '0',
        n % 10 != 0 ==> decimal_digits(n).last() != '0',
    decreases n,
{
    if n < 10 {
        lemma_digit_char(n);
        assert(seq![digit_char(n)].drop_last() =~= Seq::<char>::empty());
        assert(digits_value(seq![digit_char(n)]) == digits_value(Seq::<char>::empty()) * 10
            + digit_value(digit_char(n)));
    } else {
        lemma_decimal_digits(n / 10);
        lemma_digit_char(n % 10);
        let s = decimal_digits(n / 10);
        assert(s.push(digit_char(n % 10)).drop_last() =~= s);
        assert(digits_value(s.push(digit_char(n % 10))) == digits_value(s) * 10 + digit_value(
            digit_char(n % 10),
        ));
        assert(n == (n / 10) * 10 + n % 10) by (nonlinear_arith);
        if n % 10 != 0 {
            assert(digit_char(n % 10) != '0');
        }
        if n > 0 && n / 10 > 0 {
            assert(s.push(digit_char(n % 10))[0] == s[0]);
        }
    }
}

pub proof fn lemma_trim_zeros(s: Seq<char>)
    requires
        all_digits(s),
    ensures
        trim_zeros(s).len() <= s.len(),
        trim_zeros(s) =~= s.subrange(0, trim_zeros(s).len() as int),
        forall|i: int|
            trim_zeros(s).len() <= i < s.len() ==> #[trigger] s[i] == '0',
        trim_zeros(s).len() > 0 ==> trim_zeros(s).last() != '0',
        digits_value(s) == digits_value(trim_zeros(s)) * pow10(
            (s.len() - trim_zeros(s).len()) as nat,
        ),
        trim_zeros(s).len() > 0 ==> digits_value(trim_zeros(s)) % 10 != 0,
        trim_zeros(s).len() == 0 ==> digits_value(s) == 0,
    decreases s.len(),
{
    let t = trim_zeros(s);
    if s.len() > 0 && s.last() == '0' {
        let s0 = s.drop_last();
        assert(all_digits(s0)) by {
            assert forall|i: int| 0 <= i < s0.len() implies is_digit(#[trigger] s0[i]) by {
                assert(s0[i] == s[i]);
            }
        }
        lemma_trim_zeros(s0);
        assert(t == trim_zeros(s0));
        assert forall|i: int| t.len() <= i < s.len() implies #[trigger] s[i] == '0' by {
            if i < s0.len() {
                assert(s[i] == s0[i]);
            }
        }
        assert(t =~= s.subrange(0, t.len() as int));
        assert(digits_value(s) == digits_value(s0) * 10 + digit_value('0'));
        assert(digit_value('0') == 0);
        let k = (s0.len() - t.len()) as nat;
        assert((s.len() - t.len()) as nat == k + 1);
        assert(pow10(k + 1) == 10 * pow10(k));
        let a = digits_value(t);
        let p = pow10(k);
        assert(a * (10 * p) == (a * p) * 10) by (nonlinear_arith);
        assert(digits_value(s0) == a * p);
        assert(digits_value(s) == a * pow10(k + 1));
        assert(digits_value(s) == digits_value(t) * pow10((s.len() - t.len()) as nat));
        if t.len() == 0 {
            assert(digits_value(s0) == 0) by {
                lemma_pow10_positive(k);
            }
        }
    } else {
        assert(s.subrange(0, s.len() as int) =~= s);
        assert(pow10(0) == 1);
        assert((s.len() - t.len()) as nat == 0);
        assert(digits_value(s) * 1 == digits_value(s));
        if s.len() > 0 {
            let d = digit_value(s.last());
            assert(d != 0);
            assert(d < 10);
            let v0 = digits_value(s.drop_last());
            assert((v0 * 10 + d) % 10 == d) by (nonlinear_arith)
                requires
                    d < 10,
            ;
        }
    }
}

/// Extends `acc` by the decimal digits `text[from..to]`, giving up as soon as
/// the value would pass `limit`.
pub fn accumulate_digits(text: &Vec<char>, from: usize, to: usize, acc: u128, limit: u128) -> (r:
    Option<u128>)
    requires
        from <= to <= text@.len(),
        all_digits(text@.subrange(from as int, to as int)),
        acc <= limit,
        limit <= 0x1_0000_0000_0000_0000_0000,
    ensures
        match r {
            Some(v) => v == extend_value(acc as nat, text@.subrange(from as int, to as int)) && v
                <= limit,
            None => extend_value(acc as nat, text@.subrange(from as int, to as int)) > limit,
        },
{
    let mut cur: u128 = acc;
    let mut i: usize = from;
    proof {
        assert(text@.subrange(from as int, from as int) =~= Seq::<char>::empty());
        assert(pow10(0) == 1);
    }
    while i < to
        invariant
            from <= i <= to <= text@.len(),
            all_digits(text@.subrange(from as int, to as int)),
            limit <= 0x1_0000_0000_0000_0000_0000,
            cur <= limit,
            cur == extend_value(acc as nat, text@.subrange(from as int, i as int)),
        decreases to - i,
    {
        let c = text[i];
        proof {
            assert(text@.subrange(from as int, to as int)[i - from] == c);
        }
        let d = (c as u32 - '0' as u32) as u128;
        let next = cur * 10 + d;
        proof {
            let pre = text@.subrange(from as int, i as int);
            assert(text@.subrange(from as int, i + 1) =~= pre.push(c));
            lemma_extend_push(acc as nat, pre, c);
        }
        if next > limit {
            proof {
                let whole = text@.subrange(from as int, to as int);
                let a = text@.subrange(from as int, i + 1);
                let b = text@.subrange(i + 1, to as int);
                assert(whole =~= a + b);
                lemma_extend_concat(acc as nat, a, b);
                lemma_extend_grows(extend_value(acc as nat, a), b);
            }
            return None;
        }
        cur = next;
        i = i + 1;
    }
    Some(cur)
}

/// Appends the shortest decimal form of `n`.
pub fn push_decimal(out: &mut Vec<char>, n: u64)
    ensures
        final(out)@ == old(out)@ + decimal_digits(n as nat),
    decreases n,
{
    if n >= 10 {
        push_decimal(out, n / 10);
    }
    let d = (n % 10) as u8;
    let c = (d + 48u8) as char;
    out.push(c);
    proof {
        if n >= 10 {
            assert(old(out)@ + decimal_digits(n as nat) =~= (old(out)@ + decimal_digits(
                (n / 10) as nat,
            )).push(digit_char((n % 10) as nat)));
        } else {
            assert(decimal_digits(n as nat) =~= seq![digit_char(n as nat)]);
        }
    }
}


pub open spec fn magnitude(x: int) -> nat {
    if x < 0 {
        (-x) as nat
    } else {
        x as nat
    }
}

pub open spec fn signed_value(neg: bool, mag: nat) -> int {
    if neg {
        -mag
    } else {
        mag as int
    }
}

pub open spec fn fits_i64(x: int) -> bool {
    i64::MIN <= x <= i64::MAX
}

/// A decimal number, `mantissa × 10^exponent`.
///
/// A normalized decimal has no trailing zero in its mantissa, and zero is
/// written with exponent zero, so that two normalized decimals are equal
/// exactly when they denote the same number.
#[derive(Debug, Clone, Copy, PartialEq, Eq, Structural)]
pub struct Decimal {
    pub mantissa: i64,
    pub exponent: i64,
}

/// Strips trailing zeros from a magnitude, raising the exponent to match.
pub open spec fn strip_zeros(mag: nat, e: int) -> (nat, int)
    decreases mag,
{
    if mag == 0 {
        (0, 0)
    } else if mag % 10 == 0 {
        strip_zeros(mag / 10, e + 1)
    } else {
        (mag, e)
    }
}

/// The normalized form of `m × 10^e`, if its exponent fits an `i64`.
pub open spec fn normalize_decimal(m: i64, e: i64) -> Option<Decimal> {
    let (mag, e2) = strip_zeros(magnitude(m as int), e as int);
    if e2 <= i64::MAX {
        Some(Decimal { mantissa: signed_value(m < 0, mag) as i64, exponent: e2 as i64 })
    } else {
        None
    }
}

/// The integer written with sign `neg` and the decimal digits `digits`.
pub open spec fn decode_integer(neg: bool, digits: Seq<char>) -> Option<i64> {
    let v = signed_value(neg, digits_value(digits));
    if fits_i64(v) {
        Some(v as i64)
    } else {
        None
    }
}

/// The decimal written `[-]int_digits[.frac_digits][e[-]exp_digits]`, in
/// normalized form, if it fits.
pub open spec fn decode_decimal(
    neg: bool,
    int_digits: Seq<char>,
    frac_digits: Seq<char>,
    exp_neg: bool,
    exp_digits: Seq<char>,
) -> Option<Decimal> {
    let d = int_digits + frac_digits;
    let m = trim_zeros(d);
    if m.len() == 0 {
        Some(Decimal { mantissa: 0, exponent: 0 })
    } else {
        let e = signed_value(exp_neg, digits_value(exp_digits)) - frac_digits.len() + (d.len()
            - m.len());
        let v = signed_value(neg, digits_value(m));
        if fits_i64(v) && fits_i64(e) {
            Some(Decimal { mantissa: v as i64, exponent: e as i64 })
        } else {
            None
        }
    }
}

impl Decimal {
    pub open spec fn normalized(self) -> bool {
        if self.mantissa == 0 {
            self.exponent == 0
        } else {
            magnitude(self.mantissa as int) % 10 != 0
        }
    }

    /// `mantissa × 10^exponent` in normalized form; `None` when normalizing
    /// would carry the exponent past `i64::MAX`.
    pub fn new(mantissa: i64, exponent: i64) -> (r: Option<Decimal>)
        ensures
            r == normalize_decimal(mantissa, exponent),
            r matches Some(d) ==> d.normalized(),
    {
        let neg = mantissa < 0;
        let mut mag: u64 = if neg {
            (-(mantissa as i128)) as u64
        } else {
            mantissa as u64
        };
        if mag == 0 {
            return Some(Decimal { mantissa: 0, exponent: 0 });
        }
        let mut e: i64 = exponent;
        proof {
            lemma_strip_zeros(mag as nat, e as int);
        }
        while mag % 10 == 0
            invariant
                mag > 0,
                mag <= magnitude(mantissa as int),
                strip_zeros(mag as nat, e as int) == strip_zeros(
                    magnitude(mantissa as int),
                    exponent as int,
                ),
            decreases mag,
        {
            proof {
                lemma_strip_zeros(mag as nat, e as int);
                lemma_strip_zeros((mag / 10) as nat, e + 1);
            }
            if e == i64::MAX {
                return None;
            }
            mag = mag / 10;
            e = e + 1;
        }
        let m: i64 = if neg {
            (-(mag as i128)) as i64
        } else {
            mag as i64
        };
        Some(Decimal { mantissa: m, exponent: e })
    }
}

pub proof fn lemma_strip_zeros(mag: nat, e: int)
    ensures
        mag > 0 ==> strip_zeros(mag, e).1 >= e,
        mag > 0 ==> strip_zeros(mag, e).0 <= mag,
        mag > 0 ==> strip_zeros(mag, e).0 > 0,
        strip_zeros(mag, e).0 % 10 != 0 || strip_zeros(mag, e).0 == 0,
    decreases mag,
{
    if mag > 0 && mag % 10 == 0 {
        lemma_strip_zeros(mag / 10, e + 1);
    }
}

} // verus!
