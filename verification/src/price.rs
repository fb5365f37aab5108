//! Fixed-point prices.
//!
//! A price is held as an unsigned number of `1 / PRICE_SCALE` units, so that
//! `"66400.12"` becomes `6_640_012_000_000`.  Exchange quotes carry at most
//! eight fractional digits, which this scale represents exactly.
use vstd::prelude::*;

verus! {

/// Number of fixed-point units in one whole price unit (eight decimals).
pub const PRICE_SCALE: u64 = 100_000_000;

/// Number of fractional digits that `PRICE_SCALE` represents.
pub const PRICE_DECIMALS: usize = 8;

pub open spec fn is_digit(c: char) -> bool {
    '0' <= c && c <= '9'
}

pub open spec fn digit_value(c: char) -> int {
    (c as int) - ('0' as int)
}

pub open spec fn all_digits(s: Seq<char>) -> bool {
    forall|i: int| 0 <= i < s.len() ==> is_digit(#[trigger] s[i])
}

/// The natural number written by a sequence of decimal digits (0 when empty).
pub open spec fn digits_value(s: Seq<char>) -> int
    decreases s.len(),
{
    if s.len() == 0 {
        0
    } else {
        digits_value(s.drop_last()) * 10 + digit_value(s.last())
    }
}

pub open spec fn pow10(n: nat) -> int
    decreases n,
{
    if n == 0 {
        1
    } else {
        10 * pow10((n - 1) as nat)
    }
}

/// The first eight digits of a fraction, in units of `1 / PRICE_SCALE`;
/// further digits are dropped.
pub open spec fn fraction_units(f: Seq<char>) -> int {
    let kept: nat = if f.len() < 8 { f.len() } else { 8 };
    digits_value(f.take(kept as int)) * pow10((8 - kept) as nat)
}

/// `s` has the shape `digits`, `digits.`, `.digits` or `digits.digits`,
/// with at least one digit, and its dot (if any) is at `k`.
pub open spec fn dot_at(s: Seq<char>, k: int) -> bool {
    &&& 0 <= k < s.len()
    &&& s[k] == '.'
    &&& all_digits(s.take(k))
    &&& all_digits(s.skip(k + 1))
    &&& s.len() > 1
}

pub open spec fn is_decimal(s: Seq<char>) -> bool {
    ||| (s.len() > 0 && all_digits(s))
    ||| exists|k: int| dot_at(s, k)
}

/// The value of a decimal string in fixed-point units.
pub open spec fn decimal_units(s: Seq<char>) -> int {
    if all_digits(s) {
        digits_value(s) * PRICE_SCALE
    } else {
        let k = choose|k: int| dot_at(s, k);
        digits_value(s.take(k)) * PRICE_SCALE + fraction_units(s.skip(k + 1))
    }
}

/// What `parse_price` returns: the fixed-point value of a decimal string,
/// or `None` when the text is not a decimal or does not fit in a `u64`.
pub open spec fn spec_parse_price(s: Seq<char>) -> Option<u64> {
    if is_decimal(s) && decimal_units(s) <= u64::MAX {
        Some(decimal_units(s) as u64)
    } else {
        None
    }
}

proof fn lemma_digits_value_nonneg(s: Seq<char>)
    requires
        all_digits(s),
    ensures
        digits_value(s) >= 0,
    decreases s.len(),
{
    if s.len() > 0 {
        assert(all_digits(s.drop_last()));
        lemma_digits_value_nonneg(s.drop_last());
        assert(is_digit(s[s.len() - 1]));
    }
}

/// The value of a digit string is at least the value of any of its prefixes.
proof fn lemma_digits_prefix_le(s: Seq<char>, j: int)
    requires
        all_digits(s),
        0 <= j <= s.len(),
    ensures
        digits_value(s.take(j)) <= digits_value(s),
    decreases s.len(),
{
    if j == s.len() {
        assert(s.take(j) =~= s);
    } else {
        let t = s.drop_last();
        assert(all_digits(t));
        lemma_digits_prefix_le(t, j);
        assert(t.take(j) =~= s.take(j));
        lemma_digits_value_nonneg(t);
        assert(is_digit(s[s.len() - 1]));
    }
}

proof fn lemma_digits_step(s: Seq<char>, a: int, i: int)
    requires
        0 <= a <= i < s.len(),
    ensures
        digits_value(s.subrange(a, i + 1)) == digits_value(s.subrange(a, i)) * 10 + digit_value(
            s[i],
        ),
{
    assert(s.subrange(a, i + 1).drop_last() =~= s.subrange(a, i));
}

proof fn lemma_pow10_pos(n: nat)
    ensures
        pow10(n) >= 1,
    decreases n,
{
    if n > 0 {
        lemma_pow10_pos((n - 1) as nat);
    }
}

proof fn lemma_fraction_units_nonneg(f: Seq<char>)
    requires
        all_digits(f),
    ensures
        fraction_units(f) >= 0,
{
    let kept: nat = if f.len() < 8 { f.len() } else { 8 };
    let t = f.take(kept as int);
    assert(all_digits(t)) by {
        assert forall|j: int| 0 <= j < t.len() implies is_digit(#[trigger] t[j]) by {
            assert(t[j] == f[j]);
        }
    }
    lemma_digits_value_nonneg(t);
    lemma_pow10_pos((8 - kept) as nat);
    let a = digits_value(t);
    let b = pow10((8 - kept) as nat);
    assert(a * b >= 0) by (nonlinear_arith)
        requires
            a >= 0,
            b >= 1,
    ;
}

/// A decimal string is worth at least its leading digits times the scale.
proof fn lemma_units_ge_leading_digits(v: Seq<char>, p: int)
    requires
        is_decimal(v),
        0 <= p <= v.len(),
        all_digits(v.take(p)),
    ensures
        decimal_units(v) >= digits_value(v.take(p)) * PRICE_SCALE,
{
    if all_digits(v) {
        lemma_digits_prefix_le(v, p);
    } else {
        let k = choose|k: int| dot_at(v, k);
        if k < p {
            assert(v.take(p)[k] == v[k]);
        }
        assert(v.take(k).take(p) =~= v.take(p));
        lemma_digits_prefix_le(v.take(k), p);
        lemma_fraction_units_nonneg(v.skip(k + 1));
    }
}

/// The only dot of a well-shaped decimal is the one at `k`.
proof fn lemma_dot_unique(v: Seq<char>, k: int, k2: int)
    requires
        dot_at(v, k),
        0 <= k2 < v.len(),
        v[k2] == '.',
    ensures
        k2 == k,
{
    if k2 < k {
        assert(v.take(k)[k2] == v[k2]);
    } else if k2 > k {
        assert(v.skip(k + 1)[k2 - k - 1] == v[k2]);
    }
}

/// Law: a price unit is `10^-8`: the scale is 10^8 and represents eight
/// fraction digits.
pub proof fn law_price_scale()
    ensures
        PRICE_SCALE == 100_000_000,
        PRICE_SCALE == pow10(PRICE_DECIMALS as nat),
{
    reveal_with_fuel(pow10, 9);
}

/// A string of digits, a dot and digits is a decimal whose value is its
/// integer part times the scale plus the units of its fraction.
proof fn lemma_dot_shape(s: Seq<char>, f: Seq<char>)
    requires
        all_digits(s),
        all_digits(f),
        s.len() + f.len() >= 1,
    ensures
        dot_at(s.push('.') + f, s.len() as int),
        !all_digits(s.push('.') + f),
        is_decimal(s.push('.') + f),
        decimal_units(s.push('.') + f) == digits_value(s) * PRICE_SCALE + fraction_units(f),
{
    let a = s.push('.') + f;
    let k = s.len() as int;
    assert(a[k] == '.');
    assert(a.take(k) =~= s);
    assert(a.skip(k + 1) =~= f);
    assert(dot_at(a, k));
    assert(!is_digit(a[k]));
    let k2 = choose|k: int| dot_at(a, k);
    lemma_dot_unique(a, k, k2);
}

/// Law: appending a digit to a whole number multiplies its value by ten
/// and adds the digit (when the result still fits).
pub proof fn law_parse_appends_digit(s: Seq<char>, c: char)
    requires
        s.len() > 0,
        all_digits(s),
        is_digit(c),
    ensures
        spec_parse_price(s) matches Some(v) ==> (10 * v + digit_value(c) * PRICE_SCALE <= u64::MAX
            ==> spec_parse_price(s.push(c)) == Some((10 * v + digit_value(c) * PRICE_SCALE) as u64)),
        spec_parse_price(s.push(c)) is Some ==> spec_parse_price(s) is Some,
{
    let t = s.push(c);
    assert(all_digits(t)) by {
        assert forall|i: int| 0 <= i < t.len() implies is_digit(#[trigger] t[i]) by {
            if i < s.len() {
                assert(t[i] == s[i]);
            }
        }
    }
    assert(t.drop_last() =~= s);
    assert(digits_value(t) == digits_value(s) * 10 + digit_value(c));
    lemma_digits_value_nonneg(s);
}

/// Law: a trailing dot does not change a whole number's value.
pub proof fn law_parse_trailing_dot(s: Seq<char>)
    requires
        s.len() > 0,
        all_digits(s),
    ensures
        spec_parse_price(s.push('.')) == spec_parse_price(s),
{
    lemma_dot_shape(s, Seq::<char>::empty());
    assert(s.push('.') + Seq::<char>::empty() =~= s.push('.'));
    assert(Seq::<char>::empty().take(0) =~= Seq::<char>::empty());
}

/// Law: a fraction digit in one of the first eight places adds the digit
/// times its place value (`10^7` for the first place, then down by tens);
/// further digits are dropped and change nothing.
pub proof fn law_parse_fraction_digit(s: Seq<char>, f: Seq<char>, c: char)
    requires
        all_digits(s),
        all_digits(f),
        is_digit(c),
        s.len() + f.len() >= 1,
    ensures
        f.len() >= 8 ==> spec_parse_price(s.push('.') + f.push(c)) == spec_parse_price(s.push('.') + f),
        f.len() < 8 ==> decimal_units(s.push('.') + f.push(c)) == decimal_units(s.push('.') + f)
            + digit_value(c) * pow10((7 - f.len()) as nat),
        f.len() < 8 ==> is_decimal(s.push('.') + f.push(c)) && is_decimal(s.push('.') + f),
{
    let g = f.push(c);
    assert(all_digits(g)) by {
        assert forall|i: int| 0 <= i < g.len() implies is_digit(#[trigger] g[i]) by {
            if i < f.len() {
                assert(g[i] == f[i]);
            }
        }
    }
    lemma_dot_shape(s, f);
    lemma_dot_shape(s, g);
    if f.len() >= 8 {
        assert(g.take(8) =~= f.take(8));
    } else {
        let n = f.len();
        assert(g.take((n + 1) as int) =~= g);
        assert(f.take(n as int) =~= f);
        assert(g.drop_last() =~= f);
        assert(digits_value(g) == digits_value(f) * 10 + digit_value(c));
        assert(pow10((8 - n) as nat) == 10 * pow10((7 - n) as nat));
        let d = digits_value(f);
        let q = pow10((7 - n) as nat);
        assert((d * 10 + digit_value(c)) * q == d * (10 * q) + digit_value(c) * q) by (nonlinear_arith);
    }
}

/// Parses a decimal price such as `"66400.12000000"` into fixed-point units.
/// Fractional digits beyond the eighth are dropped.  Returns `None` when the
/// text is not a plain decimal (sign, exponent, or other characters) or when
/// the value does not fit in a `u64`.
pub fn parse_price(s: &str) -> (r: Option<u64>)
    ensures
        r == spec_parse_price(s@),
{
    let n = s.unicode_len();
    let ghost v = s@;
    // integer part
    let mut i: usize = 0;
    let mut int_val: u64 = 0;
    while i < n && s.get_char(i) != '.'
        invariant
            n == v.len(),
            v == s@,
            i <= n,
            all_digits(v.take(i as int)),
            int_val == digits_value(v.take(i as int)),
            int_val <= u64::MAX / PRICE_SCALE,
        decreases n - i,
    {
        let c = s.get_char(i);
        if !('0' <= c && c <= '9') {
            proof {
                assert(!all_digits(v)) by {
                    assert(!is_digit(v[i as int]));
                }
                assert forall|k: int| !dot_at(v, k) by {
                    if dot_at(v, k) {
                        if k < i {
                            assert(v.take(i as int)[k] == v[k]);
                        } else if k > i {
                            assert(v.take(k)[i as int] == v[i as int]);
                        }
                    }
                }
            }
            return None;
        }
        let d = (c as u32 - '0' as u32) as u64;
        let next: u64 = int_val * 10 + d;
        proof {
            lemma_digits_step(v, 0, i as int);
            assert(v.subrange(0, i as int) =~= v.take(i as int));
            assert(v.subrange(0, i + 1) =~= v.take(i + 1));
            assert(all_digits(v.take(i + 1))) by {
                assert forall|j: int| 0 <= j < i + 1 implies is_digit(#[trigger] v.take(i + 1)[j]) by {
                    if j < i {
                        assert(v.take(i + 1)[j] == v.take(i as int)[j]);
                    }
                }
            }
        }
        if next > u64::MAX / PRICE_SCALE {
            proof {
                if is_decimal(v) {
                    lemma_units_ge_leading_digits(v, i + 1);
                }
            }
            return None;
        }
        int_val = next;
        i = i + 1;
    }
    let int_len = i;
    if int_len == n {
        // no dot: the whole text is the integer part
        proof {
            assert(v.take(n as int) =~= v);
        }
        if n == 0 {
            return None;
        }
        return Some(int_val * PRICE_SCALE);
    }
    // v[int_len] is the dot
    i = i + 1;
    let mut frac_val: u64 = 0;
    let mut kept: usize = 0;
    proof {
        assert(v.subrange(int_len + 1, int_len + 1) =~= Seq::<char>::empty());
    }
    while i < n
        invariant
            n == v.len(),
            v == s@,
            int_len < i <= n,
            v[int_len as int] == '.',
            all_digits(v.take(int_len as int)),
            int_val == digits_value(v.take(int_len as int)),
            int_val <= u64::MAX / PRICE_SCALE,
            all_digits(v.subrange(int_len + 1, i as int)),
            kept == (if i - int_len - 1 < 8 { i - int_len - 1 } else { 8 }),
            frac_val == digits_value(v.subrange(int_len + 1, int_len + 1 + kept)),
            0 <= frac_val < pow10(kept as nat),
        decreases n - i,
    {
        let c = s.get_char(i);
        if !('0' <= c && c <= '9') {
            proof {
                assert(!all_digits(v)) by {
                    assert(!is_digit(v[int_len as int]));
                }
                assert forall|k: int| !dot_at(v, k) by {
                    if dot_at(v, k) {
                        lemma_dot_unique(v, k, int_len as int);
                        assert(v.skip(k + 1)[i - k - 1] == v[i as int]);
                    }
                }
            }
            return None;
        }
        if kept < PRICE_DECIMALS {
            let d = (c as u32 - '0' as u32) as u64;
            proof {
                lemma_digits_step(v, int_len + 1, i as int);
                assert(pow10(kept as nat) <= 10000000) by {
                    reveal_with_fuel(pow10, 9);
                }
                assert(pow10((kept + 1) as nat) == 10 * pow10(kept as nat));
            }
            frac_val = frac_val * 10 + d;
            kept = kept + 1;
        }
        proof {
            assert(all_digits(v.subrange(int_len + 1, i + 1))) by {
                let t = v.subrange(int_len + 1, i + 1);
                assert forall|j: int| 0 <= j < t.len() implies is_digit(#[trigger] t[j]) by {
                    if j < t.len() - 1 {
                        assert(t[j] == v.subrange(int_len + 1, i as int)[j]);
                    }
                }
            }
        }
        i = i + 1;
    }
    if int_len == 0 && n == 1 {
        // a lone dot
        proof {
            assert(!all_digits(v)) by {
                assert(!is_digit(v[0]));
            }
        }
        return None;
    }
    // scale the kept fraction digits up to eight places
    let mut frac_units: u64 = frac_val;
    let mut j: usize = kept;
    proof {
        assert(pow10(0) == 1);
        assert(frac_val * pow10(0) == frac_val);
    }
    while j < PRICE_DECIMALS
        invariant
            kept <= j <= 8,
            frac_units == frac_val * pow10((j - kept) as nat),
            0 <= frac_val < pow10(kept as nat),
            frac_units < pow10(j as nat),
        decreases 8 - j,
    {
        proof {
            assert(pow10(j as nat) <= 10000000) by {
                reveal_with_fuel(pow10, 9);
            }
            assert(pow10((j + 1) as nat) == 10 * pow10(j as nat));
            assert(pow10((j + 1 - kept) as nat) == 10 * pow10((j - kept) as nat));
            assert(frac_val * (10 * pow10((j - kept) as nat)) == 10 * (frac_val * pow10(
                (j - kept) as nat,
            ))) by (nonlinear_arith);
        }
        frac_units = frac_units * 10;
        j = j + 1;
    }
    let total: u128 = int_val as u128 * PRICE_SCALE as u128 + frac_units as u128;
    proof {
        let ghost f = v.skip(int_len + 1);
        assert(f.take(kept as int) =~= v.subrange(int_len + 1, int_len + 1 + kept));
        assert(all_digits(f)) by {
            assert forall|q: int| 0 <= q < f.len() implies is_digit(#[trigger] f[q]) by {
                assert(f[q] == v.subrange(int_len + 1, n as int)[q]);
            }
        }
        assert(dot_at(v, int_len as int));
        assert(!all_digits(v)) by {
            assert(!is_digit(v[int_len as int]));
        }
        let k = choose|k: int| dot_at(v, k);
        lemma_dot_unique(v, k, int_len as int);
        assert(decimal_units(v) == int_val * PRICE_SCALE + fraction_units(f));
    }
    if total > u64::MAX as u128 {
        return None;
    }
    Some(total as u64)
}

} // verus!
