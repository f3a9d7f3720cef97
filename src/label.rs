use crate::value::pow10;
use vstd::prelude::*;

verus! {

/// The character of a decimal digit.
pub open spec fn digit_char(d: int) -> char {
    seq!['0', '1', '2', '3', '4', '5', '6', '7', '8', '9'][d]
}

/// The decimal digits of `n`, without leading zeros.
pub open spec fn decimal_text(n: nat) -> Seq<char>
    decreases n,
{
    if n < 10 {
        seq![digit_char(n as int)]
    } else {
        decimal_text(n / 10).push(digit_char((n % 10) as int))
    }
}

/// The last `w` decimal digits of `f`, with leading zeros.
pub open spec fn padded_digits(f: nat, w: nat) -> Seq<char>
    decreases w,
{
    if w == 0 {
        Seq::empty()
    } else {
        padded_digits(f / 10, (w - 1) as nat).push(digit_char((f % 10) as int))
    }
}

/// `v` units of `10^-scale` written as a decimal: with `scale` places after
/// the point when the scale is positive, else as a whole number (`-15` at
/// scale 1 is `-1.5`, `15` at scale -2 is `1500`).
pub open spec fn scaled_text(v: int, scale: int) -> Seq<char> {
    let m = if v < 0 {
        -v
    } else {
        v
    };
    let sign = if v < 0 {
        seq!['-']
    } else {
        Seq::<char>::empty()
    };
    if scale > 0 {
        sign + decimal_text((m / (pow10(scale as nat) as int)) as nat) + seq!['.'] + padded_digits(
            (m % (pow10(scale as nat) as int)) as nat,
            scale as nat,
        )
    } else if m == 0 {
        seq!['0']
    } else {
        sign + decimal_text(m as nat) + Seq::new((-scale) as nat, |i: int| '0')
    }
}

fn digit_char_of(d: u64) -> (c: char)
    requires
        d < 10,
    ensures
        c == digit_char(d as int),
{
    match d {
        0 => '0',
        1 => '1',
        2 => '2',
        3 => '3',
        4 => '4',
        5 => '5',
        6 => '6',
        7 => '7',
        8 => '8',
        _ => '9',
    }
}

fn push_decimal(out: &mut Vec<char>, n: u64)
    ensures
        final(out)@ == old(out)@ + decimal_text(n as nat),
    decreases n,
{
    if n >= 10 {
        push_decimal(out, n / 10);
    }
    out.push(digit_char_of(n % 10));
    assert(final(out)@ =~= old(out)@ + decimal_text(n as nat));
}

fn push_padded(out: &mut Vec<char>, f: u64, w: u64)
    ensures
        final(out)@ == old(out)@ + padded_digits(f as nat, w as nat),
    decreases w,
{
    if w > 0 {
        push_padded(out, f / 10, w - 1);
        out.push(digit_char_of(f % 10));
    }
    assert(final(out)@ =~= old(out)@ + padded_digits(f as nat, w as nat));
}

/// Relies on std's `FromIterator<char>` for `String`: the string holds the
/// characters in order.
#[verifier::external_body]
fn text_of(chars: &Vec<char>) -> (r: String)
    ensures
        r@ == chars@,
{
    chars.iter().collect()
}

/// Powers of ten grow with the exponent.
proof fn lemma_pow10_grows(a: nat, b: nat)
    requires
        a <= b,
    ensures
        pow10(a) <= pow10(b),
    decreases b,
{
    if a < b {
        lemma_pow10_grows(a, (b - 1) as nat);
    }
}

/// `v` units of `10^-scale` written as a decimal.
pub fn scaled_string(v: i64, scale: i128) -> (r: String)
    requires
        -1000 <= scale <= 1000,
    ensures
        r@ == scaled_text(v as int, scale as int),
{
    let m: u64 = if v < 0 {
        (-(v as i128)) as u64
    } else {
        v as u64
    };
    let mut out: Vec<char> = Vec::new();
    if scale > 0 {
        if v < 0 {
            out.push('-');
        }
        let w = scale as u64;
        if scale >= 20 {
            proof {
                reveal_with_fuel(pow10, 21);
                lemma_pow10_grows(20, w as nat);
            }
            let ghost big = pow10(w as nat) as int;
            assert((m as int) / big == 0 && (m as int) % big == m as int) by (nonlinear_arith)
                requires
                    0 <= m < big,
            ;
            push_decimal(&mut out, 0);
            out.push('.');
            push_padded(&mut out, m, w);
            assert(out@ =~= scaled_text(v as int, scale as int));
        } else {
            let mut p: u128 = 1;
            let mut t: u64 = 0;
            proof {
                reveal_with_fuel(pow10, 21);
                lemma_pow10_grows(0, 19);
            }
            while t < w
                invariant
                    w < 20,
                    t <= w,
                    p == pow10(t as nat),
                    p >= 1,
                    p <= pow10(19),
                    pow10(19) == 10000000000000000000,
                decreases w - t,
            {
                proof {
                    reveal_with_fuel(pow10, 21);
                    lemma_pow10_grows((t + 1) as nat, 19);
                }
                assert(pow10((t + 1) as nat) == pow10(t as nat) * 10);
                p = p * 10;
                t = t + 1;
            }
            push_decimal(&mut out, (m as u128 / p) as u64);
            out.push('.');
            push_padded(&mut out, (m as u128 % p) as u64, w);
            assert(out@ =~= scaled_text(v as int, scale as int));
        }
    } else if m == 0 {
        out.push('0');
    } else {
        if v < 0 {
            out.push('-');
        }
        push_decimal(&mut out, m);
        let z = (-scale) as u64;
        let mut t: u64 = 0;
        let ghost start = out@;
        while t < z
            invariant
                t <= z,
                out@ == start + Seq::new(t as nat, |i: int| '0'),
            decreases z - t,
        {
            out.push('0');
            t = t + 1;
            assert(out@ =~= start + Seq::new(t as nat, |i: int| '0'));
        }
    }
    proof {
        assert(out@ =~= scaled_text(v as int, scale as int));
    }
    text_of(&out)
}

} // verus!
