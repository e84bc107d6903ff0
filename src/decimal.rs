use vstd::prelude::*;

verus! {

/// Number of fractional digits carried by a `Decimal`.
pub const FRACTION_DIGITS: u128 = 18;

/// Most digits accepted on either side of the decimal point.
pub const MAX_DIGITS: u128 = 18;

/// One whole unit, in the smallest representable step.
pub const ONE: u128 = 1_000_000_000_000_000_000;

/// Exclusive upper bound of the units a `Decimal` can hold (ten to the 36th).
pub const UNITS_BOUND: u128 = 1_000_000_000_000_000_000_000_000_000_000_000_000;

pub open spec fn pow10(n: nat) -> nat
    decreases n,
{
    if n == 0 {
        1
    } else {
        10 * pow10((n - 1) as nat)
    }
}

pub open spec fn is_digit(c: char) -> bool {
    '0' <= c && c <= '9'
}

pub open spec fn all_digits(s: Seq<char>) -> bool {
    forall|i: int| 0 <= i < s.len() ==> is_digit(#[trigger] s[i])
}

pub open spec fn digit_value(c: char) -> nat {
    (c as int - '0' as int) as nat
}

/// The number written by a string of decimal digits, most significant first.
pub open spec fn digits_value(s: Seq<char>) -> nat
    decreases s.len(),
{
    if s.len() == 0 {
        0
    } else {
        digits_value(s.drop_last()) * 10 + digit_value(s.last())
    }
}

/// Index of the first '.' in `s`, or `s.len()` when there is none.
pub open spec fn dot_index(s: Seq<char>) -> nat
    decreases s.len(),
{
    if s.len() == 0 {
        0
    } else if s[0] == '.' {
        0
    } else {
        1 + dot_index(s.drop_first())
    }
}

pub open spec fn integer_part(s: Seq<char>) -> Seq<char> {
    s.take(dot_index(s) as int)
}

pub open spec fn fraction_part(s: Seq<char>) -> Seq<char> {
    if dot_index(s) < s.len() {
        s.skip(dot_index(s) as int + 1)
    } else {
        Seq::empty()
    }
}

/// The value of a decimal literal `digits[.digits]`, counted in steps of ten to the
/// minus 18th. Defined when there is at least one digit, at most 18 on either side of
/// the point, and no other character.
pub open spec fn units_of(s: Seq<char>) -> Option<nat> {
    let ip = integer_part(s);
    let fp = fraction_part(s);
    if all_digits(ip) && all_digits(fp) && ip.len() + fp.len() > 0 && ip.len() <= 18
        && fp.len() <= 18 {
        Some(digits_value(ip + fp) * pow10((18 - fp.len()) as nat))
    } else {
        None
    }
}

/// A non-negative decimal number with 18 fractional digits, held exactly.
#[derive(Clone, Copy, Debug, PartialEq, Eq, Structural)]
pub struct Decimal {
    units: u128,
}

impl View for Decimal {
    type V = nat;

    closed spec fn view(&self) -> nat {
        self.units as nat
    }
}

impl Decimal {
    #[verifier::type_invariant]
    spec fn below_bound(&self) -> bool {
        self.units < UNITS_BOUND
    }

    pub fn zero() -> (r: Decimal)
        ensures
            r@ == 0,
    {
        Decimal { units: 0 }
    }

    /// The decimal holding `units` steps of ten to the minus 18th, if it is in range.
    pub fn from_units(units: u128) -> (r: Option<Decimal>)
        ensures
            units < UNITS_BOUND <==> r is Some,
            r matches Some(d) ==> d@ == units,
    {
        if units < UNITS_BOUND {
            Some(Decimal { units })
        } else {
            None
        }
    }

    pub fn units(&self) -> (r: u128)
        ensures
            r == self@,
            r < UNITS_BOUND,
    {
        proof {
            use_type_invariant(self);
        }
        self.units
    }

    pub fn is_zero(&self) -> (r: bool)
        ensures
            r == (self@ == 0),
    {
        self.units == 0
    }

    /// Reads a decimal literal such as `"0.06781000"`, `"12"` or `".5"`.
    pub fn parse(s: &str) -> (r: Option<Decimal>)
        ensures
            units_of(s@) is Some <==> r is Some,
            r matches Some(d) ==> units_of(s@) == Some(d@),
    {
        let mut mantissa: u128 = 0;
        let mut seen_dot: bool = false;
        let mut int_len: u128 = 0;
        let mut frac_len: u128 = 0;
        let ghost mut k: int = 0;
        for c in it: s.chars()
            invariant
                it.seq() == s@,
                0 <= it.index() <= s@.len(),
                int_len <= 18,
                frac_len <= 18,
                !seen_dot ==> ({
                    let p = s@.take(it.index() as int);
                    &&& all_digits(p)
                    &&& int_len == p.len()
                    &&& frac_len == 0
                    &&& mantissa == digits_value(p)
                }),
                seen_dot ==> ({
                    let p = s@.take(it.index() as int);
                    &&& 0 <= k < p.len()
                    &&& p[k] == '.'
                    &&& all_digits(p.take(k))
                    &&& all_digits(p.skip(k + 1))
                    &&& int_len == k
                    &&& frac_len == p.len() - k - 1
                    &&& mantissa == digits_value(p.take(k) + p.skip(k + 1))
                }),
                mantissa < pow10((int_len + frac_len) as nat),
        {
            let ghost i = it.index();
            let ghost p = s@.take(i as int);
            assert(s@.take(i + 1) == p.push(c));
            if c == '.' {
                if seen_dot {
                    proof {
                        assert(p.take(k) =~= s@.take(k));
                        lemma_dot_index_at(s@, k);
                        assert(fraction_part(s@)[i - k - 1] == '.');
                    }
                    return None;
                }
                proof {
                    lemma_no_dot_prefix(s@, i as int);
                    lemma_dot_index_at(s@, i as int);
                    k = i as int;
                    assert(p.push(c).take(k) == p);
                    assert(p.push(c).skip(k + 1) =~= Seq::<char>::empty());
                    assert(p + Seq::<char>::empty() =~= p);
                }
                seen_dot = true;
            } else if '0' <= c && c <= '9' {
                if seen_dot {
                    if frac_len == 18 {
                        proof {
                            assert(p.take(k) =~= s@.take(k));
                            lemma_dot_index_at(s@, k);
                            assert(fraction_part(s@).len() > 18);
                        }
                        return None;
                    }
                } else if int_len == 18 {
                    proof {
                        lemma_no_dot_prefix(s@, i as int + 1);
                        assert(integer_part(s@).len() > 18);
                    }
                    return None;
                }
                let d = (c as u32 - '0' as u32) as u128;
                proof {
                    lemma_pow10_mono((int_len + frac_len) as nat, 36);
                    lemma_pow10_36();
                    assert(mantissa * 10 + d < pow10((int_len + frac_len + 1) as nat))
                        by (nonlinear_arith)
                        requires
                            mantissa < pow10((int_len + frac_len) as nat),
                            d < 10,
                            pow10((int_len + frac_len + 1) as nat) == 10 * pow10(
                                (int_len + frac_len) as nat,
                            ),
                    ;
                }
                mantissa = mantissa * 10 + d;
                if seen_dot {
                    frac_len = frac_len + 1;
                    proof {
                        let q = p.push(c);
                        assert(q.take(k) == p.take(k));
                        assert(q.skip(k + 1) == p.skip(k + 1).push(c));
                        let joined = p.take(k) + p.skip(k + 1).push(c);
                        assert(joined.drop_last() == p.take(k) + p.skip(k + 1));
                    }
                } else {
                    int_len = int_len + 1;
                    proof {
                        assert(p.push(c).drop_last() == p);
                    }
                }
            } else {
                proof {
                    if seen_dot {
                        assert(p.take(k) =~= s@.take(k));
                        lemma_dot_index_at(s@, k);
                        assert(fraction_part(s@)[i - k - 1] == c);
                    } else {
                        lemma_no_dot_prefix(s@, i as int);
                        lemma_dot_index_bound(s@);
                        assert(integer_part(s@)[i as int] == c);
                    }
                }
                return None;
            }
        }
        proof {
            assert(s@.take(s@.len() as int) == s@);
        }
        if int_len + frac_len == 0 {
            proof {
                if seen_dot {
                    lemma_dot_index_at(s@, k);
                } else {
                    lemma_no_dot_prefix(s@, s@.len() as int);
                }
            }
            return None;
        }
        proof {
            if seen_dot {
                lemma_dot_index_at(s@, k);
            } else {
                lemma_no_dot_prefix(s@, s@.len() as int);
                assert(s@.take(s@.len() as int) == s@);
                assert(s@ + Seq::<char>::empty() =~= s@);
            }
        }
        let mut units = mantissa;
        let mut scale: u128 = frac_len;
        assert(pow10(0) == 1);
        assert((scale - frac_len) as nat == 0);
        assert(mantissa * pow10(0) == mantissa);
        while scale < 18
            invariant
                frac_len <= scale <= 18,
                int_len <= 18,
                units == mantissa * pow10((scale - frac_len) as nat),
                units < pow10((int_len + scale) as nat),
            decreases 18 - scale,
        {
            proof {
                lemma_pow10_mono((int_len + scale + 1) as nat, 36);
                lemma_pow10_36();
                assert(pow10((scale + 1 - frac_len) as nat) == 10 * pow10(
                    (scale - frac_len) as nat,
                ));
                assert(units * 10 < pow10((int_len + scale + 1) as nat)) by (nonlinear_arith)
                    requires
                        units < pow10((int_len + scale) as nat),
                        pow10((int_len + scale + 1) as nat) == 10 * pow10(
                            (int_len + scale) as nat,
                        ),
                ;
                assert(units * 10 == mantissa * pow10((scale + 1 - frac_len) as nat))
                    by (nonlinear_arith)
                    requires
                        units == mantissa * pow10((scale - frac_len) as nat),
                        pow10((scale + 1 - frac_len) as nat) == 10 * pow10(
                            (scale - frac_len) as nat,
                        ),
                ;
            }
            units = units * 10;
            scale = scale + 1;
        }
        proof {
            lemma_pow10_mono((int_len + scale) as nat, 36);
            lemma_pow10_36();
        }
        Some(Decimal { units })
    }
}

pub proof fn lemma_pow10_36()
    ensures
        pow10(36) == UNITS_BOUND,
        pow10(18) == ONE,
{
    reveal_with_fuel(pow10, 37);
}

pub proof fn lemma_pow10_mono(a: nat, b: nat)
    requires
        a <= b,
    ensures
        pow10(a) <= pow10(b),
        pow10(a) >= 1,
    decreases b,
{
    if b > a {
        lemma_pow10_mono(a, (b - 1) as nat);
    } else if a > 0 {
        lemma_pow10_mono((a - 1) as nat, (a - 1) as nat);
    }
}

/// A prefix of `s` without a '.' puts the first '.' at or after its end.
pub proof fn lemma_no_dot_prefix(s: Seq<char>, j: int)
    requires
        0 <= j <= s.len(),
        all_digits(s.take(j)),
    ensures
        dot_index(s) >= j,
        dot_index(s) <= s.len(),
        j == s.len() ==> dot_index(s) == s.len(),
    decreases j,
{
    if j > 0 {
        assert(s.take(j)[0] == s[0]);
        assert(s.drop_first().take(j - 1) =~= s.take(j).drop_first());
        assert forall|i: int| 0 <= i < j - 1 implies is_digit(
            #[trigger] s.drop_first().take(j - 1)[i],
        ) by {
            assert(s.drop_first().take(j - 1)[i] == s.take(j)[i + 1]);
        }
        lemma_no_dot_prefix(s.drop_first(), j - 1);
    } else {
        lemma_dot_index_bound(s);
    }
}

pub proof fn lemma_dot_index_bound(s: Seq<char>)
    ensures
        dot_index(s) <= s.len(),
        dot_index(s) < s.len() ==> s[dot_index(s) as int] == '.',
    decreases s.len(),
{
    if s.len() > 0 && s[0] != '.' {
        lemma_dot_index_bound(s.drop_first());
    }
}

/// A '.' after a run of digits is the first one.
pub proof fn lemma_dot_index_at(s: Seq<char>, k: int)
    requires
        0 <= k < s.len(),
        s[k] == '.',
        all_digits(s.take(k)),
    ensures
        dot_index(s) == k,
    decreases k,
{
    if k > 0 {
        assert(s.take(k)[0] == s[0]);
        assert(s.drop_first().take(k - 1) =~= s.take(k).drop_first());
        assert forall|i: int| 0 <= i < k - 1 implies is_digit(
            #[trigger] s.drop_first().take(k - 1)[i],
        ) by {
            assert(s.drop_first().take(k - 1)[i] == s.take(k)[i + 1]);
        }
        lemma_dot_index_at(s.drop_first(), k - 1);
    }
}

pub open spec fn digit_char(d: nat) -> char {
    seq!['0', '1', '2', '3', '4', '5', '6', '7', '8', '9'][d as int]
}

/// The last `width` decimal digits of `n`, zero-padded on the left.
pub open spec fn digits_of(n: nat, width: nat) -> Seq<char>
    decreases width,
{
    if width == 0 {
        Seq::empty()
    } else {
        digits_of(n / 10, (width - 1) as nat).push(digit_char(n % 10))
    }
}

/// The canonical text of a value in units: 18 integer digits, a point, 18 fractional
/// digits.
pub open spec fn decimal_text(units: nat) -> Seq<char> {
    digits_of(units / ONE as nat, 18) + seq!['.'] + digits_of(units % ONE as nat, 18)
}

pub proof fn lemma_digits_of(n: nat, width: nat)
    ensures
        digits_of(n, width).len() == width,
        all_digits(digits_of(n, width)),
        digits_value(digits_of(n, width)) == n % pow10(width),
    decreases width,
{
    if width > 0 {
        let w1 = (width - 1) as nat;
        lemma_digits_of(n / 10, w1);
        let d = digits_of(n, width);
        assert(d.drop_last() == digits_of(n / 10, w1));
        let c = digit_char(n % 10);
        assert(digit_value(c) == n % 10 && is_digit(c)) by {
            let r = n % 10;
            assert(0 <= r < 10);
            if r == 0 {} else if r == 1 {} else if r == 2 {} else if r == 3 {} else if r == 4 {}
            else if r == 5 {} else if r == 6 {} else if r == 7 {} else if r == 8 {} else {}
        }
        lemma_pow10_mono(w1, w1);
        vstd::arithmetic::div_mod::lemma_mod_breakdown(n as int, 10, pow10(w1) as int);
        assert(digits_value(d) == (n / 10) % pow10(w1) * 10 + n % 10);
        assert(n % pow10(width) == 10 * ((n / 10) % pow10(w1)) + n % 10);
    }
}

pub proof fn lemma_digits_value_bound(s: Seq<char>)
    requires
        all_digits(s),
    ensures
        digits_value(s) < pow10(s.len()),
    decreases s.len(),
{
    if s.len() > 0 {
        lemma_digits_value_bound(s.drop_last());
        let v = digits_value(s.drop_last());
        let c = s.last();
        assert(is_digit(s[s.len() - 1]));
        assert(digit_value(c) <= 9);
        assert(v * 10 + digit_value(c) < 10 * pow10(s.drop_last().len())) by (nonlinear_arith)
            requires
                v < pow10(s.drop_last().len()),
                digit_value(c) <= 9,
        ;
        assert(pow10(s.len()) == 10 * pow10(s.drop_last().len()));
    }
}

pub proof fn lemma_digits_value_concat(a: Seq<char>, b: Seq<char>)
    ensures
        digits_value(a + b) == digits_value(a) * pow10(b.len()) + digits_value(b),
    decreases b.len(),
{
    if b.len() == 0 {
        assert(a + b =~= a);
        assert(pow10(0) == 1);
        assert(digits_value(a) * 1 == digits_value(a));
    } else {
        lemma_digits_value_concat(a, b.drop_last());
        assert((a + b).drop_last() =~= a + b.drop_last());
        assert((a + b).last() == b.last());
        let x = digits_value(a);
        let y = digits_value(b.drop_last());
        let p = pow10(b.drop_last().len());
        assert((x * p + y) * 10 + digit_value(b.last()) == x * (10 * p) + (y * 10 + digit_value(
            b.last(),
        ))) by (nonlinear_arith);
        assert(pow10(b.len()) == 10 * p);
        assert(digits_value(b) == y * 10 + digit_value(b.last()));
        assert(x * (10 * p) == x * pow10(b.len()));
    }
}

/// Every value that a literal denotes is below ten to the 36th.
pub proof fn lemma_units_of_bound(s: Seq<char>)
    ensures
        units_of(s) matches Some(u) ==> u < pow10(36),
{
    let ip = integer_part(s);
    let fp = fraction_part(s);
    if units_of(s) is Some {
        assert(all_digits(ip + fp)) by {
            assert forall|i: int| 0 <= i < (ip + fp).len() implies is_digit(#[trigger] (ip + fp)[i]) by {
                if i < ip.len() {
                    assert((ip + fp)[i] == ip[i]);
                } else {
                    assert((ip + fp)[i] == fp[i - ip.len()]);
                }
            }
        }
        lemma_digits_value_bound(ip + fp);
        let m = digits_value(ip + fp);
        let k = (18 - fp.len()) as nat;
        lemma_pow10_sum(ip.len() + fp.len(), k);
        lemma_pow10_mono(ip.len() + fp.len() + k, 36);
        lemma_pow10_mono(k, k);
        assert(m * pow10(k) < pow10(ip.len() + fp.len()) * pow10(k)) by (nonlinear_arith)
            requires
                m < pow10(ip.len() + fp.len()),
                pow10(k) >= 1,
        ;
    }
}

pub proof fn lemma_pow10_sum(a: nat, b: nat)
    ensures
        pow10(a + b) == pow10(a) * pow10(b),
    decreases a,
{
    if a == 0 {
        assert(pow10(0) == 1);
        assert(1 * pow10(b) == pow10(b));
    } else {
        lemma_pow10_sum((a - 1) as nat, b);
        assert(pow10(a + b) == 10 * pow10((a - 1 + b) as nat));
        assert(pow10(a) == 10 * pow10((a - 1) as nat));
        assert(10 * (pow10((a - 1) as nat) * pow10(b)) == (10 * pow10((a - 1) as nat)) * pow10(b))
            by (nonlinear_arith);
    }
}

/// Reading back the canonical text of a value gives the value.
pub proof fn lemma_decimal_text_round_trip(units: nat)
    requires
        units < pow10(36),
    ensures
        units_of(decimal_text(units)) == Some(units),
{
    lemma_pow10_36();
    let hi = units / ONE as nat;
    let lo = units % ONE as nat;
    lemma_digits_of(hi, 18);
    lemma_digits_of(lo, 18);
    let a = digits_of(hi, 18);
    let b = digits_of(lo, 18);
    let t = decimal_text(units);
    assert(t.take(18) =~= a);
    assert(t[18] == '.');
    lemma_dot_index_at(t, 18);
    assert(integer_part(t) =~= a);
    assert(fraction_part(t) =~= b);
    lemma_digits_value_concat(a, b);
    vstd::arithmetic::div_mod::lemma_fundamental_div_mod(units as int, ONE as int);
    assert(hi < ONE) by (nonlinear_arith)
        requires
            units == ONE * hi + lo,
            lo >= 0,
            units < ONE * ONE,
    ;
    vstd::arithmetic::div_mod::lemma_small_mod(hi, ONE as nat);
    vstd::arithmetic::div_mod::lemma_small_mod(lo, ONE as nat);
    assert(pow10(0) == 1);
    assert(digits_value(a + b) * pow10(0) == digits_value(a + b));
}

} // verus!
