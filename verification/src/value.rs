//! Exact fixed-point numbers in millionths of a unit. The machines work on
//! decimal literals and compare for equality within one millionth, so values
//! carried as integer micro-units reproduce that arithmetic exactly while
//! staying in integer land. Out-of-range results saturate at the ends of the
//! `i64` range.

use vstd::prelude::*;
use crate::text::{is_digit_char, is_num_char};

verus! {

/// Micro-units per whole unit.
pub open spec fn scale() -> int {
    1000000
}

/// Clamp an unbounded integer into the `i64` range.
pub open spec fn clip(n: int) -> int {
    if n > i64::MAX {
        i64::MAX as int
    } else if n < i64::MIN {
        i64::MIN as int
    } else {
        n
    }
}

/// Quotient rounded toward zero, for a positive divisor.
pub open spec fn quot_toward_zero(p: int, q: int) -> int
    recommends
        q > 0,
{
    if p >= 0 {
        p / q
    } else {
        -((-p) / q)
    }
}

/// What multiplying two fixed-point values yields.
pub open spec fn mul_fixed(a: int, b: int) -> int {
    clip(quot_toward_zero(a * b, scale()))
}

/// Rounding to whole units, halves away from zero, as `f64::round` does.
pub open spec fn round_half_away(m: int) -> int {
    if m >= 0 {
        (m + 500000) / scale()
    } else {
        -((-m + 500000) / scale())
    }
}

/// A number held as a count of micro-units.
#[derive(Debug, Clone, Copy, PartialEq, Eq, Structural)]
pub struct Value {
    pub micros: i64,
}

impl View for Value {
    type V = int;

    open spec fn view(&self) -> int {
        self.micros as int
    }
}

impl Value {
    /// The value zero.
    pub fn zero() -> (r: Value)
        ensures
            r@ == 0,
    {
        Value { micros: 0 }
    }

    /// The value one.
    pub fn one() -> (r: Value)
        ensures
            r@ == scale(),
    {
        Value { micros: 1000000 }
    }

    /// A value from a raw count of micro-units.
    pub fn from_micros(m: i64) -> (r: Value)
        ensures
            r@ == m as int,
    {
        Value { micros: m }
    }

    /// A whole number, saturating at the range ends.
    pub fn from_int(n: i64) -> (r: Value)
        ensures
            r@ == clip(n * scale()),
    {
        let wide: i128 = (n as i128) * 1000000;
        Value { micros: clamp_i128(wide) }
    }

    /// Sum, saturating at the range ends.
    pub fn add(self, other: Value) -> (r: Value)
        ensures
            r@ == clip(self@ + other@),
    {
        let wide: i128 = (self.micros as i128) + (other.micros as i128);
        Value { micros: clamp_i128(wide) }
    }

    /// Difference, saturating at the range ends.
    pub fn sub(self, other: Value) -> (r: Value)
        ensures
            r@ == clip(self@ - other@),
    {
        let wide: i128 = (self.micros as i128) - (other.micros as i128);
        Value { micros: clamp_i128(wide) }
    }

    /// Product, rounded toward zero and saturating at the range ends.
    pub fn mul(self, other: Value) -> (r: Value)
        ensures
            r@ == mul_fixed(self@, other@),
    {
        proof {
            assert((self@) * (other@) <= 85070591730234615865843651857942052864
                && (self@) * (other@) >= -85070591730234615865843651857942052864)
                by (nonlinear_arith)
                requires
                    -9223372036854775808 <= self@ <= 9223372036854775807,
                    -9223372036854775808 <= other@ <= 9223372036854775807,
            ;
        }
        let wide: i128 = (self.micros as i128) * (other.micros as i128);
        if wide >= 0 {
            let q: u128 = (wide as u128) / 1000000;
            if q > 9223372036854775807u128 {
                Value { micros: i64::MAX }
            } else {
                Value { micros: q as i64 }
            }
        } else {
            let q: u128 = ((-wide) as u128) / 1000000;
            if q >= 9223372036854775808u128 {
                Value { micros: i64::MIN }
            } else {
                Value { micros: -(q as i64) }
            }
        }
    }

    /// Equal within one millionth; for micro-unit values that is exact
    /// equality of the stored counts.
    pub fn close_to(self, other: Value) -> (r: bool)
        ensures
            r == (self@ == other@),
    {
        self.micros == other.micros
    }

    /// Is this the value zero?
    pub fn is_zero(self) -> (r: bool)
        ensures
            r == (self@ == 0),
    {
        self.micros == 0
    }

    /// Whole units, rounding halves away from zero.
    pub fn round_units(self) -> (r: i64)
        ensures
            r as int == round_half_away(self@),
    {
        if self.micros >= 0 {
            let u: u64 = self.micros as u64;
            ((u + 500000) / 1000000) as i64
        } else {
            let mag: u64 = (-(self.micros as i128)) as u64;
            -(((mag + 500000) / 1000000) as i64)
        }
    }

    /// A non-negative number with no fractional part?
    pub fn is_whole_nonneg(self) -> (r: bool)
        ensures
            r == (self@ >= 0 && self@ % scale() == 0),
    {
        self.micros >= 0 && (self.micros as u64) % 1000000 == 0
    }

    /// Whole units of a non-negative whole value, saturating into `u32`.
    pub fn units_u32(self) -> (r: u32)
        requires
            self@ >= 0,
        ensures
            r as int == if self@ / scale() > u32::MAX { u32::MAX as int } else { self@ / scale() },
    {
        let u: u64 = (self.micros as u64) / 1000000;
        if u > 0xffff_ffffu64 {
            u32::MAX
        } else {
            u as u32
        }
    }
}

/// The decimal text of a value: optional minus, whole units, a dot, and the
/// fraction with trailing zeros dropped (at least one digit kept).
pub open spec fn render_value(m: int) -> Seq<char> {
    let sign: Seq<char> = if m < 0 {
        seq!['-']
    } else {
        Seq::empty()
    };
    let mag = if m < 0 {
        -m
    } else {
        m
    };
    sign + crate::text::dec_digits(mag / 1000000) + seq!['.'] + crate::text::trim_zeros(
        crate::text::fixed_digits(mag % 1000000, 6),
    )
}

impl Value {
    /// The decimal text of this value, as `render_value` spells it.
    pub fn render(&self) -> (r: String)
        ensures
            r@ == render_value(self@),
    {
        proof {
            reveal_strlit("-");
            reveal_strlit(".");
            assert("-"@ =~= seq!['-']);
            assert("."@ =~= seq!['.']);
        }
        let neg = self.micros < 0;
        let mag: u64 = if neg {
            (-(self.micros as i128)) as u64
        } else {
            self.micros as u64
        };
        let mut s = if neg {
            String::from_str("-")
        } else {
            String::new()
        };
        let units = crate::text::dec_string(mag / 1000000);
        s.append(units.as_str());
        s.append(".");
        let f6 = crate::text::fixed_string(mag % 1000000, 6);
        let frac = crate::text::trim_zeros_string(f6.as_str());
        s.append(frac.as_str());
        proof {
            assert(s@ =~= render_value(self@));
        }
        s
    }
}

fn clamp_i128(wide: i128) -> (r: i64)
    ensures
        r as int == clip(wide as int),
{
    if wide > 9223372036854775807i128 {
        i64::MAX
    } else if wide < -9223372036854775808i128 {
        i64::MIN
    } else {
        wide as i64
    }
}

/// The numeric value of one decimal digit character.
pub open spec fn digit_val(c: char) -> int
    recommends
        is_digit_char(c),
{
    (c as int) - 48
}

/// The value of a string of decimal digits.
pub open spec fn digits_val(s: Seq<char>) -> int
    recommends
        forall|i: int| 0 <= i < s.len() ==> is_digit_char(s[i]),
    decreases s.len(),
{
    if s.len() == 0 {
        0
    } else {
        digits_val(s.drop_last()) * 10 + digit_val(s.last())
    }
}

pub proof fn lemma_digits_val_nonneg(s: Seq<char>)
    requires
        forall|i: int| 0 <= i < s.len() ==> is_digit_char(s[i]),
    ensures
        digits_val(s) >= 0,
    decreases s.len(),
{
    if s.len() > 0 {
        lemma_digits_val_nonneg(s.drop_last());
    }
}

/// Powers of ten.
pub open spec fn pow10(k: int) -> int
    decreases k,
{
    if k <= 0 {
        1
    } else {
        10 * pow10(k - 1)
    }
}

/// Number of dots in a string.
pub open spec fn dot_count(s: Seq<char>) -> int
    decreases s.len(),
{
    if s.len() == 0 {
        0
    } else {
        dot_count(s.drop_last()) + if s.last() == '.' {
            1int
        } else {
            0int
        }
    }
}

/// Index of the first dot, or the length when there is none.
pub open spec fn find_dot(s: Seq<char>, i: int) -> int
    recommends
        0 <= i <= s.len(),
    decreases s.len() - i,
{
    if i < s.len() {
        if s[i] == '.' {
            i
        } else {
            find_dot(s, i + 1)
        }
    } else {
        i
    }
}

pub proof fn lemma_find_dot(s: Seq<char>, i: int)
    requires
        0 <= i <= s.len(),
    ensures
        i <= find_dot(s, i) <= s.len(),
        forall|k: int| i <= k < find_dot(s, i) ==> s[k] != '.',
        find_dot(s, i) == s.len() || s[find_dot(s, i)] == '.',
    decreases s.len() - i,
{
    if i < s.len() && s[i] != '.' {
        lemma_find_dot(s, i + 1);
    }
}

/// The micro-unit count a numeric token denotes: the digits before the first
/// dot are whole units, the first six digits after it are the fraction, and
/// anything beyond the sixth fractional digit is dropped. A token with more
/// than one dot denotes nothing.
pub open spec fn spec_number_micros(s: Seq<char>) -> Option<int> {
    if dot_count(s) <= 1 {
        let d = find_dot(s, 0);
        let whole = s.subrange(0, d);
        let frac = if d < s.len() {
            s.subrange(d + 1, s.len() as int)
        } else {
            Seq::<char>::empty()
        };
        let frac6 = if frac.len() >= 6 {
            frac.subrange(0, 6)
        } else {
            frac
        };
        let pad = if frac.len() >= 6 {
            0int
        } else {
            6 - frac.len()
        };
        Some(clip(digits_val(whole) * scale() + digits_val(frac6) * pow10(pad)))
    } else {
        Option::None
    }
}

pub proof fn lemma_pow10_vals()
    ensures
        pow10(5) == 100000,
        pow10(6) == 1000000,
{
    reveal_with_fuel(pow10, 8);
}

pub proof fn lemma_pow10_pos(k: int)
    ensures
        pow10(k) >= 1,
    decreases k,
{
    if k > 0 {
        lemma_pow10_pos(k - 1);
    }
}

pub proof fn lemma_pow10_mono(a: int, b: int)
    requires
        a <= b,
    ensures
        pow10(a) <= pow10(b),
    decreases b,
{
    if a < b && b > 0 {
        lemma_pow10_mono(a, b - 1);
        lemma_pow10_pos(b - 1);
    }
}

/// Digit strings of length `n` stay below ten to the `n`.
pub proof fn lemma_digits_val_bound(s: Seq<char>)
    requires
        forall|i: int| 0 <= i < s.len() ==> is_digit_char(s[i]),
    ensures
        0 <= digits_val(s) < pow10(s.len() as int),
    decreases s.len(),
{
    if s.len() > 0 {
        lemma_digits_val_bound(s.drop_last());
    }
}

pub proof fn lemma_dot_count_nonneg(s: Seq<char>)
    ensures
        dot_count(s) >= 0,
    decreases s.len(),
{
    if s.len() > 0 {
        lemma_dot_count_nonneg(s.drop_last());
    }
}

proof fn lemma_dot_somewhere(s: Seq<char>, a: int)
    requires
        0 <= a < s.len(),
        s[a] == '.',
    ensures
        dot_count(s) >= 1,
    decreases s.len(),
{
    lemma_dot_count_nonneg(s.drop_last());
    if a < s.len() - 1 {
        assert(s.drop_last()[a] == s[a]);
        lemma_dot_somewhere(s.drop_last(), a);
    }
}

/// With at most one dot in the string, two distinct positions cannot both
/// hold one.
pub proof fn lemma_single_dot(s: Seq<char>, a: int, b: int)
    requires
        dot_count(s) <= 1,
        0 <= a < b < s.len(),
        s[a] == '.',
    ensures
        s[b] != '.',
    decreases s.len(),
{
    if b == s.len() - 1 {
        if s[b] == '.' {
            lemma_dot_somewhere(s.drop_last(), a);
        }
    } else {
        assert(s.drop_last()[a] == s[a]);
        lemma_dot_count_nonneg(s.drop_last().drop_last());
        lemma_single_dot(s.drop_last(), a, b);
        assert(s.drop_last()[b] == s[b]);
    }
}

/// Saturation point used while accumulating digits: one past `i64::MAX`.
pub open spec fn sat_cap(v: int) -> int {
    if v >= 9223372036854775808 {
        9223372036854775808
    } else {
        v
    }
}

/// Parses a numeric token (digits and dots only) into a value, as
/// `spec_number_micros` describes.
pub fn parse_number(s: &str) -> (r: Option<Value>)
    requires
        forall|i: int| 0 <= i < s@.len() ==> is_num_char(#[trigger] s@[i]),
    ensures
        match r {
            Option::Some(v) => spec_number_micros(s@) == Option::Some(v@),
            Option::None => spec_number_micros(s@) is None,
        },
{
    let n: usize = s.unicode_len();
    // One pass over the token: count the dots and note the first one.
    let mut dots: usize = 0;
    let mut fd: usize = n;
    let mut i: usize = 0;
    while i < n
        invariant
            0 <= i <= n,
            n == s@.len(),
            dots as int == dot_count(s@.take(i as int)),
            dots <= i,
            fd <= n,
            fd == n ==> forall|k: int| 0 <= k < i ==> s@[k] != '.',
            fd < n ==> fd < i && s@[fd as int] == '.' && forall|k: int|
                0 <= k < fd ==> s@[k] != '.',
        decreases n - i,
    {
        let c = s.get_char(i);
        proof {
            assert(s@.take(i as int + 1).drop_last() =~= s@.take(i as int));
        }
        if c == '.' {
            dots = dots + 1;
            if fd == n {
                fd = i;
            }
        }
        i = i + 1;
    }
    proof {
        assert(s@.take(n as int) =~= s@);
        lemma_find_dot(s@, 0);
        if fd == n {
            assert(find_dot(s@, 0) == n as int);
        } else {
            if find_dot(s@, 0) < fd {
                assert(s@[find_dot(s@, 0)] != '.');
            }
            assert(find_dot(s@, 0) == fd as int);
        }
    }
    if dots > 1 {
        return Option::None;
    }
    let ghost whole = s@.subrange(0, fd as int);
    proof {
        assert forall|k: int| 0 <= k < fd implies is_digit_char(s@[k]) by {
            assert(is_num_char(s@[k]));
            assert(s@[k] != '.');
        }
        assert(forall|k: int| 0 <= k < whole.len() ==> is_digit_char(#[trigger] whole[k]));
    }
    // Accumulate the whole part, saturating one past `i64::MAX`.
    let cap: u128 = 9223372036854775808u128;
    let mut acc: u128 = 0;
    let mut w: usize = 0;
    while w < fd
        invariant
            0 <= w <= fd <= n,
            n == s@.len(),
            whole == s@.subrange(0, fd as int),
            forall|k: int| 0 <= k < fd ==> is_digit_char(#[trigger] s@[k]),
            cap == 9223372036854775808u128,
            acc as int == sat_cap(digits_val(s@.subrange(0, w as int))),
            acc <= cap,
        decreases fd - w,
    {
        let c = s.get_char(w);
        let dv: u64 = (c as u32 as u64) - 48;
        proof {
            assert(s@.subrange(0, w as int + 1).drop_last() =~= s@.subrange(0, w as int));
            lemma_digits_val_nonneg(s@.subrange(0, w as int));
        }
        if acc >= cap {
            acc = cap;
        } else {
            let t: u128 = acc * 10 + dv as u128;
            if t >= cap {
                acc = cap;
            } else {
                acc = t;
            }
        }
        w = w + 1;
    }
    // Up to six fractional digits after the dot; the rest is dropped.
    let f0: usize = if fd < n {
        fd + 1
    } else {
        n
    };
    proof {
        assert forall|k: int| f0 <= k < n implies is_digit_char(s@[k]) by {
            assert(is_num_char(s@[k]));
            if fd < n && k > fd {
                lemma_single_dot(s@, fd as int, k);
            }
        }
    }
    let mut facc: u64 = 0;
    let mut taken: usize = 0;
    while taken < 6 && f0 + taken < n
        invariant
            0 <= taken <= 6,
            f0 <= n,
            f0 + taken <= n || taken == 0,
            n == s@.len(),
            forall|k: int| f0 <= k < n ==> is_digit_char(#[trigger] s@[k]),
            facc as int == digits_val(s@.subrange(f0 as int, f0 + taken)),
            (facc as int) < pow10(taken as int),
        decreases 6 - taken,
    {
        let c = s.get_char(f0 + taken);
        proof {
            assert(is_digit_char(s@[f0 + taken]));
        }
        let dv: u64 = (c as u32 as u64) - 48;
        proof {
            assert(s@.subrange(f0 as int, f0 + taken + 1).drop_last() =~= s@.subrange(
                f0 as int,
                f0 + taken,
            ));
            lemma_pow10_mono(taken as int, 5);
            lemma_pow10_vals();
        }
        facc = facc * 10 + dv;
        taken = taken + 1;
    }
    let pad: usize = 6 - taken;
    let ghost frac6 = s@.subrange(f0 as int, f0 + taken);
    proof {
        assert forall|k: int| 0 <= k < frac6.len() implies is_digit_char(frac6[k]) by {
            assert(frac6[k] == s@[f0 + k]);
        }
    }
    let mut j: usize = 0;
    while j < pad
        invariant
            0 <= j <= pad <= 6,
            facc as int == digits_val(frac6) * pow10(j as int),
            digits_val(frac6) < pow10(6 - pad as int),
            forall|k: int| 0 <= k < frac6.len() ==> is_digit_char(#[trigger] frac6[k]),
        decreases pad - j,
    {
        proof {
            lemma_digits_val_nonneg(frac6);
            lemma_pow10_pos(j as int);
            lemma_pow10_pos(6 - pad as int);
            assert(digits_val(frac6) * pow10(j as int) < pow10(6 - pad as int) * pow10(
                j as int,
            )) by (nonlinear_arith)
                requires
                    digits_val(frac6) < pow10(6 - pad as int),
                    digits_val(frac6) >= 0,
                    pow10(j as int) >= 1,
            ;
            lemma_pow10_mul(6 - pad as int, j as int);
            lemma_pow10_mono(6 - pad + j as int, 5);
            lemma_pow10_vals();
            assert((digits_val(frac6) * pow10(j as int)) * 10 == digits_val(frac6) * pow10(
                j as int + 1,
            )) by (nonlinear_arith)
                requires
                    pow10(j as int + 1) == 10 * pow10(j as int),
            ;
        }
        facc = facc * 10;
        j = j + 1;
    }
    proof {
        lemma_digits_val_nonneg(frac6);
        lemma_pow10_pos(pad as int);
        lemma_pow10_mono(pad as int, 6);
        lemma_pow10_vals();
        lemma_digits_val_bound(frac6);
        // The fraction contributes less than one whole unit of micros.
        lemma_pow10_mono(taken as int + pad as int, 6);
    }
    let ghost wv = digits_val(whole);
    let ghost fv = digits_val(frac6) * pow10(pad as int);
    proof {
        lemma_digits_val_nonneg(whole);
        assert(fv < 1000000) by {
            lemma_digits_val_bound(frac6);
            lemma_pow10_pos(pad as int);
            assert(digits_val(frac6) * pow10(pad as int) < pow10(taken as int) * pow10(
                pad as int,
            )) by (nonlinear_arith)
                requires
                    digits_val(frac6) < pow10(taken as int),
                    pow10(pad as int) >= 1,
            ;
            assert(pow10(taken as int) * pow10(pad as int) == pow10(taken as int + pad as int))
                by {
                lemma_pow10_mul(taken as int, pad as int);
            }
            assert(taken + pad == 6);
            lemma_pow10_vals();
        }
        assert(fv >= 0) by {
            lemma_digits_val_nonneg(frac6);
            lemma_pow10_pos(pad as int);
            assert(digits_val(frac6) * pow10(pad as int) >= 0) by (nonlinear_arith)
                requires
                    digits_val(frac6) >= 0,
                    pow10(pad as int) >= 1,
            ;
        }
    }
    proof {
        // The scanned pieces are the ones `spec_number_micros` names.
        let d = find_dot(s@, 0);
        assert(d == fd as int);
        if fd < n {
            let fr = s@.subrange(fd as int + 1, n as int);
            if taken == 6 {
                assert(frac6 =~= fr.subrange(0, 6));
            } else {
                assert(f0 + taken == n);
                assert(frac6 =~= fr);
            }
        } else {
            assert(taken == 0);
        }
        assert(spec_number_micros(s@) == Option::Some(clip(wv * 1000000 + fv)));
    }
    if acc >= cap {
        proof {
            assert(wv >= 9223372036854775808);
            assert(wv * 1000000 >= wv) by (nonlinear_arith)
                requires
                    wv >= 0,
            ;
        }
        Option::Some(Value { micros: i64::MAX })
    } else {
        let tot: u128 = acc * 1000000 + facc as u128;
        proof {
            assert(acc as int == wv);
        }
        if tot > 9223372036854775807u128 {
            Option::Some(Value { micros: i64::MAX })
        } else {
            Option::Some(Value { micros: tot as i64 })
        }
    }
}

pub proof fn lemma_pow10_mul(a: int, b: int)
    requires
        a >= 0,
        b >= 0,
    ensures
        pow10(a) * pow10(b) == pow10(a + b),
    decreases b,
{
    if b > 0 {
        lemma_pow10_mul(a, b - 1);
        assert(pow10(a) * pow10(b) == 10 * (pow10(a) * pow10(b - 1))) by (nonlinear_arith)
            requires
                pow10(b) == 10 * pow10(b - 1),
        ;
    }
}

} // verus!
