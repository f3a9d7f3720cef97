use vstd::prelude::*;
use crate::number::{
    after_sign, chars_of, digit_run, fraction_end, is_digit, is_exponent_at, is_float_text,
    is_number_at, number_at, skip_digits, skip_sign, spells, spells_word,
};

verus! {

/// The value of a decimal digit.
pub open spec fn digit_value(c: char) -> nat {
    ((c as u32) - ('0' as u32)) as nat
}

/// The value of a string of decimal digits.
pub open spec fn digits_value(d: Seq<char>) -> nat
    decreases d.len(),
{
    if d.len() == 0 {
        0
    } else {
        digits_value(d.drop_last()) * 10 + digit_value(d.last())
    }
}

/// The value of the digit at `i`, or 0 past the end.
pub open spec fn digit_or_zero(d: Seq<char>, i: int) -> nat {
    if 0 <= i < d.len() {
        digit_value(d[i])
    } else {
        0
    }
}

/// The value of the first `m` digits of `d`, with zeros added past its end.
pub open spec fn leading_value(d: Seq<char>, m: int) -> nat
    decreases m,
{
    if m <= 0 {
        0
    } else {
        leading_value(d, m - 1) * 10 + digit_or_zero(d, m - 1)
    }
}

/// The signed value of the exponent that starts at `i` (after its `e`).
pub open spec fn exponent_value(s: Seq<char>, i: int) -> int {
    let d = after_sign(s, i);
    let v = digits_value(s.subrange(d, s.len() as int)) as int;
    if d > i && s[i] == '-' {
        -v
    } else {
        v
    }
}

/// All digits of a decimal number, integer part then fraction.
pub open spec fn mantissa_digits(s: Seq<char>) -> Seq<char> {
    let b = after_sign(s, 0);
    let j = b + digit_run(s, b);
    let k = fraction_end(s, j);
    s.subrange(b, j) + if k > j {
        s.subrange(j + 1, k)
    } else {
        Seq::empty()
    }
}

/// How many digits stand before the point once the exponent is applied.
pub open spec fn point_position(s: Seq<char>) -> int {
    let b = after_sign(s, 0);
    let j = b + digit_run(s, b);
    let k = fraction_end(s, j);
    digit_run(s, b) + if k < s.len() {
        exponent_value(s, k + 1)
    } else {
        0
    }
}

/// The largest exponent that is worked with exactly; a larger one gives
/// the same result, as the digits then run far past any `i64`.
pub const EXPONENT_CAP: i128 = 1267650600228229401496703205376;

/// Ten to the power `n`.
pub open spec fn pow10(n: nat) -> nat
    decreases n,
{
    if n == 0 {
        1
    } else {
        pow10((n - 1) as nat) * 10
    }
}

/// The characters of a run of digits are digits.
pub proof fn lemma_digit_run(s: Seq<char>, i: int)
    requires
        0 <= i <= s.len(),
    ensures
        0 <= digit_run(s, i),
        i + digit_run(s, i) <= s.len(),
        forall|t: int| i <= t < i + digit_run(s, i) ==> is_digit(#[trigger] s[t]),
    decreases s.len() - i,
{
    if i < s.len() && is_digit(s[i]) {
        lemma_digit_run(s, i + 1);
    }
}

/// Appends `c[from..to]` to `d`.
fn append_range(d: &mut Vec<char>, c: &Vec<char>, from: usize, to: usize)
    requires
        from <= to <= c@.len(),
    ensures
        final(d)@ == old(d)@ + c@.subrange(from as int, to as int),
{
    let mut t = from;
    while t < to
        invariant
            from <= t <= to <= c@.len(),
            d@ == old(d)@ + c@.subrange(from as int, t as int),
        decreases to - t,
    {
        d.push(c[t]);
        t = t + 1;
        assert(d@ =~= old(d)@ + c@.subrange(from as int, t as int));
    }
}

/// The value of the exponent digits from `d` to the end, held at
/// `EXPONENT_CAP` when larger.
fn exponent_digits_clamped(c: &Vec<char>, d: usize) -> (e: i128)
    requires
        d <= c@.len(),
        forall|t: int| d <= t < c@.len() ==> is_digit(#[trigger] c@[t]),
    ensures
        0 <= e <= EXPONENT_CAP,
        e == if digits_value(c@.subrange(d as int, c@.len() as int)) >= EXPONENT_CAP {
            EXPONENT_CAP as int
        } else {
            digits_value(c@.subrange(d as int, c@.len() as int)) as int
        },
{
    let n = c.len();
    let mut acc: i128 = 0;
    let mut t = d;
    while t < n
        invariant
            n == c@.len(),
            d <= t <= n,
            forall|u: int| d <= u < c@.len() ==> is_digit(#[trigger] c@[u]),
            0 <= acc <= EXPONENT_CAP,
            acc == if digits_value(c@.subrange(d as int, t as int)) >= EXPONENT_CAP {
                EXPONENT_CAP as int
            } else {
                digits_value(c@.subrange(d as int, t as int)) as int
            },
        decreases n - t,
    {
        let ghost before = digits_value(c@.subrange(d as int, t as int));
        assert(c@.subrange(d as int, t + 1).drop_last() =~= c@.subrange(d as int, t as int));
        let dv = ((c[t] as u32) - ('0' as u32)) as i128;
        if acc < EXPONENT_CAP {
            let next = acc * 10 + dv;
            acc = if next >= EXPONENT_CAP { EXPONENT_CAP } else { next };
        } else {
            assert(before * 10 + digit_value(c@[t as int]) >= EXPONENT_CAP);
        }
        t = t + 1;
    }
    acc
}

/// The exponent after the `e` at `k`, held within `EXPONENT_CAP` either way.
fn exponent_clamped(c: &Vec<char>, k: usize) -> (e: i128)
    requires
        is_exponent_at(c@, k as int),
    ensures
        -EXPONENT_CAP <= e <= EXPONENT_CAP,
        e == exponent_value(c@, k + 1) || (e == EXPONENT_CAP && exponent_value(c@, k + 1)
            > EXPONENT_CAP) || (e == -EXPONENT_CAP && exponent_value(c@, k + 1) < -EXPONENT_CAP),
{
    let n = c.len();
    assert(k < n);
    let d = skip_sign(c, k + 1);
    proof {
        lemma_digit_run(c@, d as int);
    }
    let v = exponent_digits_clamped(c, d);
    if d > k + 1 && c[k + 1] == '-' {
        -v
    } else {
        v
    }
}

/// The length of the run of zeros that starts at `i`.
pub open spec fn zero_run(d: Seq<char>, i: int) -> int
    decreases d.len() - i,
{
    if 0 <= i < d.len() && d[i] == '0' {
        1 + zero_run(d, i + 1)
    } else {
        0
    }
}

/// The digits of a decimal number from its first non-zero digit on.
pub open spec fn significant_digits(s: Seq<char>) -> Seq<char> {
    mantissa_digits(s).skip(zero_run(mantissa_digits(s), 0))
}

/// The order of magnitude of a non-zero decimal number: its value is
/// `0.d1 d2 d3 ...` times ten to this power, `d1 d2 d3 ...` being its
/// significant digits.
pub open spec fn text_order(s: Seq<char>) -> int {
    point_position(s) - zero_run(mantissa_digits(s), 0)
}

/// Numbers of this order and above are infinite: they are at least
/// `10^39`, beyond the largest finite `f32`.
pub const INFINITE_ORDER: i128 = 40;

/// Numbers below this order are zero: they are under `10^-50`, below the
/// smallest non-zero `f32`.
pub const ZERO_ORDER: i128 = -49;

/// The text starts with a minus sign.
pub open spec fn is_negative_text(s: Seq<char>) -> bool {
    after_sign(s, 0) == 1 && s[0] == '-'
}

/// The text is `nan` in any case, with an optional sign.
pub open spec fn is_nan_text(s: Seq<char>) -> bool {
    spells(s.skip(after_sign(s, 0)), seq!['n', 'a', 'n'], seq!['N', 'A', 'N'])
}

/// A decimal number that counts as zero: all its digits are zero, or it is
/// below `10^-50`.
pub open spec fn is_zero_text(s: Seq<char>) -> bool {
    is_number_at(s, after_sign(s, 0)) && (significant_digits(s).len() == 0 || text_order(s)
        < ZERO_ORDER)
}

/// A decimal number that is neither zero nor infinite.
pub open spec fn is_finite_nonzero_text(s: Seq<char>) -> bool {
    is_number_at(s, after_sign(s, 0)) && !is_zero_text(s) && text_order(s) < INFINITE_ORDER
}

/// A float text that is minus infinity: `-inf`, `-infinity`, or a
/// negative number of `10^39` or more.
pub open spec fn is_low_text(s: Seq<char>) -> bool {
    is_float_text(s) && !is_zero_text(s) && !is_finite_nonzero_text(s) && is_negative_text(s)
        && !is_nan_text(s)
}

/// A float text that is plus infinity or NaN.
pub open spec fn is_high_text(s: Seq<char>) -> bool {
    is_float_text(s) && !is_zero_text(s) && !is_finite_nonzero_text(s) && !is_low_text(s)
}

/// What a float text reads as.
pub enum Reading {
    /// Minus infinity.
    Low,
    /// Plus infinity or NaN.
    High,
    /// Zero.
    Zero,
    /// `0.d1 d2 d3 ...` times `10^order`, negated when `negative`, `d1` not
    /// zero.
    Finite { negative: bool, digits: Vec<char>, order: i128 },
}

/// `r` is what the float text `s` reads as.
pub open spec fn reads_as(r: Reading, s: Seq<char>) -> bool {
    match r {
        Reading::Low => is_low_text(s),
        Reading::High => is_high_text(s),
        Reading::Zero => is_zero_text(s),
        Reading::Finite { negative, digits, order } => {
            &&& is_finite_nonzero_text(s)
            &&& negative == is_negative_text(s)
            &&& digits@ == significant_digits(s)
            &&& order == text_order(s)
        },
    }
}

/// The index just past the run of zeros that starts at `i`.
fn skip_zeros(d: &Vec<char>, i: usize) -> (j: usize)
    requires
        i <= d@.len(),
    ensures
        j == i + zero_run(d@, i as int),
        i <= j <= d@.len(),
{
    let mut j = i;
    while j < d.len() && d[j] == '0'
        invariant
            i <= j <= d@.len(),
            zero_run(d@, i as int) == (j - i) + zero_run(d@, j as int),
        decreases d@.len() - j,
    {
        j = j + 1;
    }
    j
}

/// Reads the decimal number that starts at `b`, after its sign.
#[verifier::rlimit(50)]
fn read_decimal(c: &Vec<char>, b: usize) -> (r: Reading)
    requires
        b == after_sign(c@, 0),
        is_number_at(c@, b as int),
    ensures
        reads_as(r, c@),
        r matches Reading::Finite { digits, .. } ==> forall|u: int|
            0 <= u < digits@.len() ==> is_digit(#[trigger] digits@[u]),
{
    let n = c.len();
    let negative = b == 1 && c[0] == '-';
    let j = skip_digits(c, b);
    let k = if j < n && c[j] == '.' {
        skip_digits(c, j + 1)
    } else {
        j
    };
    proof {
        lemma_digit_run(c@, b as int);
        if j < n && c@[j as int] == '.' {
            lemma_digit_run(c@, j + 1);
        }
    }
    let mut digits: Vec<char> = Vec::new();
    append_range(&mut digits, c, b, j);
    if k > j {
        append_range(&mut digits, c, j + 1, k);
    }
    proof {
        assert(digits@ =~= mantissa_digits(c@));
        assert forall|t: int| 0 <= t < digits@.len() implies is_digit(#[trigger] digits@[t]) by {
            if t < j - b {
                assert(digits@[t] == c@[b + t]);
            } else {
                assert(digits@[t] == c@[j + 1 + (t - (j - b))]);
            }
        }
    }
    let e: i128 = if k < n {
        exponent_clamped(c, k)
    } else {
        0
    };
    let z = skip_zeros(&digits, 0);
    if z == digits.len() {
        assert(significant_digits(c@).len() == 0);
        return Reading::Zero;
    }
    let order: i128 = (j - b) as i128 + e - z as i128;
    assert(order == text_order(c@) || (order >= INFINITE_ORDER && text_order(c@) > order) || (
    order < ZERO_ORDER && text_order(c@) < order));
    if order >= INFINITE_ORDER {
        return if negative {
            Reading::Low
        } else {
            Reading::High
        };
    }
    if order < ZERO_ORDER {
        return Reading::Zero;
    }
    let mut sig: Vec<char> = Vec::new();
    append_range(&mut sig, &digits, z, digits.len());
    assert(sig@ =~= significant_digits(c@));
    Reading::Finite { negative, digits: sig, order }
}

/// Reads a float text: `None` when `s` is not one.
pub fn read_float(s: &str) -> (r: Option<Reading>)
    ensures
        r is None <==> !is_float_text(s@),
        r matches Some(x) ==> reads_as(x, s@),
        r matches Some(Reading::Finite { digits, .. }) ==> forall|u: int|
            0 <= u < digits@.len() ==> is_digit(#[trigger] digits@[u]),
{
    let c = chars_of(s);
    let b = skip_sign(&c, 0);
    let negative = b == 1 && c[0] == '-';
    let inf = vec!['i', 'n', 'f'];
    let inf_up = vec!['I', 'N', 'F'];
    let infinity = vec!['i', 'n', 'f', 'i', 'n', 'i', 't', 'y'];
    let infinity_up = vec!['I', 'N', 'F', 'I', 'N', 'I', 'T', 'Y'];
    let nan = vec!['n', 'a', 'n'];
    let nan_up = vec!['N', 'A', 'N'];
    proof {
        assert(inf@ == seq!['i', 'n', 'f']);
        assert(inf_up@ == seq!['I', 'N', 'F']);
        assert(infinity@ == seq!['i', 'n', 'f', 'i', 'n', 'i', 't', 'y']);
        assert(infinity_up@ == seq!['I', 'N', 'F', 'I', 'N', 'I', 'T', 'Y']);
        assert(nan@ == seq!['n', 'a', 'n']);
        assert(nan_up@ == seq!['N', 'A', 'N']);
    }
    let is_nan = spells_word(&c, b, &nan, &nan_up);
    let is_inf = spells_word(&c, b, &inf, &inf_up) || spells_word(&c, b, &infinity, &infinity_up);
    if is_nan || is_inf {
        assert(!is_number_at(c@, b as int)) by {
            if is_number_at(c@, b as int) {
                let d = c@.skip(b as int);
                assert(d[0] == c@[b as int]);
                assert(digit_run(c@, b as int) == 0);
                assert(!(c@[b as int] == '.')) ;
            }
        }
        if is_nan {
            return Some(Reading::High);
        }
        return Some(if negative { Reading::Low } else { Reading::High });
    }
    if !number_at(&c, b) {
        return None;
    }
    Some(read_decimal(&c, b))
}

} // verus!
