use vstd::prelude::*;
use vstd::string::StrSliceExecFns;

verus! {

/// A decimal digit `0` to `9`.
pub open spec fn is_digit(c: char) -> bool {
    '0' <= c && c <= '9'
}

/// `s` spells the word whose lower-case letters are `lo` and whose
/// upper-case letters are `up`, each letter in either case.
pub open spec fn spells(s: Seq<char>, lo: Seq<char>, up: Seq<char>) -> bool {
    s.len() == lo.len() && s.len() == up.len() && forall|i: int|
        0 <= i < s.len() ==> #[trigger] s[i] == lo[i] || s[i] == up[i]
}

/// The length of the run of digits that starts at `i`.
pub open spec fn digit_run(s: Seq<char>, i: int) -> int
    decreases s.len() - i,
{
    if 0 <= i < s.len() && is_digit(s[i]) {
        1 + digit_run(s, i + 1)
    } else {
        0
    }
}

/// Where the optional sign at `i` ends.
pub open spec fn after_sign(s: Seq<char>, i: int) -> int {
    if 0 <= i < s.len() && (s[i] == '+' || s[i] == '-') {
        i + 1
    } else {
        i
    }
}

/// From `i` to the end, `s` is an exponent: `e` or `E`, an optional sign,
/// and one or more digits.
pub open spec fn is_exponent_at(s: Seq<char>, i: int) -> bool {
    0 <= i < s.len() && (s[i] == 'e' || s[i] == 'E') && {
        let d = after_sign(s, i + 1);
        digit_run(s, d) > 0 && d + digit_run(s, d) == s.len()
    }
}

/// Where the fraction (a point and its digits) that may follow the integer
/// digits at `j` ends.
pub open spec fn fraction_end(s: Seq<char>, j: int) -> int {
    if 0 <= j < s.len() && s[j] == '.' {
        j + 1 + digit_run(s, j + 1)
    } else {
        j
    }
}

/// From `i` to the end, `s` is a decimal number: digits, an optional point
/// with digits, at least one digit in all, then an optional exponent.
pub open spec fn is_number_at(s: Seq<char>, i: int) -> bool {
    let j = i + digit_run(s, i);
    let k = fraction_end(s, j);
    let digits = digit_run(s, i) + (k - j) - (if k > j { 1int } else { 0int });
    digits > 0 && (k == s.len() || is_exponent_at(s, k))
}

/// The text reads as a floating-point literal: an optional sign, then `inf`,
/// `infinity` or `nan` in any case, or a decimal number with an optional
/// exponent. These are the texts on which `str::parse` for a float succeeds.
pub open spec fn is_float_text(s: Seq<char>) -> bool {
    let b = after_sign(s, 0);
    let body = s.skip(b);
    spells(body, seq!['i', 'n', 'f'], seq!['I', 'N', 'F'])
        || spells(body, seq!['i', 'n', 'f', 'i', 'n', 'i', 't', 'y'], seq!['I', 'N', 'F', 'I', 'N', 'I', 'T', 'Y'])
        || spells(body, seq!['n', 'a', 'n'], seq!['N', 'A', 'N']) || is_number_at(s, b)
}

/// The characters of `s`, in order.
pub fn chars_of(s: &str) -> (r: Vec<char>)
    ensures
        r@ == s@,
{
    let n = s.unicode_len();
    let mut out: Vec<char> = Vec::new();
    let mut i: usize = 0;
    while i < n
        invariant
            n == s@.len(),
            i <= n,
            out@ == s@.take(i as int),
        decreases n - i,
    {
        out.push(s.get_char(i));
        i = i + 1;
        assert(out@ =~= s@.take(i as int));
    }
    assert(out@ =~= s@);
    out
}

/// The index just past the run of digits that starts at `i`.
pub(crate) fn skip_digits(c: &Vec<char>, i: usize) -> (j: usize)
    requires
        i <= c@.len(),
    ensures
        j == i + digit_run(c@, i as int),
        i <= j <= c@.len(),
{
    let mut j = i;
    while j < c.len() && '0' <= c[j] && c[j] <= '9'
        invariant
            i <= j <= c@.len(),
            digit_run(c@, i as int) == (j - i) + digit_run(c@, j as int),
        decreases c@.len() - j,
    {
        j = j + 1;
    }
    j
}

/// The index just past an optional sign at `i`.
pub(crate) fn skip_sign(c: &Vec<char>, i: usize) -> (j: usize)
    requires
        i <= c@.len(),
    ensures
        j == after_sign(c@, i as int),
        j <= c@.len(),
{
    if i < c.len() && (c[i] == '+' || c[i] == '-') {
        i + 1
    } else {
        i
    }
}

/// Whether the characters from `from` on spell the word given by its
/// lower-case and upper-case letters.
pub(crate) fn spells_word(c: &Vec<char>, from: usize, lo: &Vec<char>, up: &Vec<char>) -> (r: bool)
    requires
        from <= c@.len(),
    ensures
        r == spells(c@.skip(from as int), lo@, up@),
{
    let n = c.len();
    if n - from != lo.len() || lo.len() != up.len() {
        return false;
    }
    let mut i: usize = 0;
    while i < lo.len()
        invariant
            n == c@.len(),
            from <= c@.len(),
            from + lo@.len() == c@.len(),
            lo@.len() == up@.len(),
            i <= lo@.len(),
            forall|k: int|
                0 <= k < i ==> #[trigger] c@.skip(from as int)[k] == lo@[k] || c@.skip(
                    from as int,
                )[k] == up@[k],
        decreases lo@.len() - i,
    {
        let a = c[from + i];
        if !(a == lo[i] || a == up[i]) {
            assert(c@.skip(from as int)[i as int] == a);
            return false;
        }
        i = i + 1;
    }
    true
}

/// Whether the characters from `i` to the end are a decimal number.
pub(crate) fn number_at(c: &Vec<char>, i: usize) -> (r: bool)
    requires
        i <= c@.len(),
    ensures
        r == is_number_at(c@, i as int),
{
    let j = skip_digits(c, i);
    let k = if j < c.len() && c[j] == '.' {
        skip_digits(c, j + 1)
    } else {
        j
    };
    let int_digits = j - i;
    let frac_digits = if k > j { k - j - 1 } else { 0 };
    if int_digits + frac_digits == 0 {
        return false;
    }
    if k == c.len() {
        return true;
    }
    if !(c[k] == 'e' || c[k] == 'E') {
        return false;
    }
    let d = skip_sign(c, k + 1);
    let e = skip_digits(c, d);
    e > d && e == c.len()
}

/// Whether `s` reads as a floating-point literal.
pub fn parses_as_float(s: &str) -> (r: bool)
    ensures
        r == is_float_text(s@),
{
    let c = chars_of(s);
    let b = skip_sign(&c, 0);
    let inf = vec!['i', 'n', 'f'];
    let inf_up = vec!['I', 'N', 'F'];
    let infinity = vec!['i', 'n', 'f', 'i', 'n', 'i', 't', 'y'];
    let infinity_up = vec!['I', 'N', 'F', 'I', 'N', 'I', 'T', 'Y'];
    let nan = vec!['n', 'a', 'n'];
    let nan_up = vec!['N', 'A', 'N'];
    proof {
        assert(inf@ == seq!['i', 'n', 'f']);
        assert(inf_up@ == seq!['I', 'N', 'F']);
        assert(infinity@ == seq!['i', 'n', 'f', 'i', 'n', 'i', 't', 'y']);
        assert(infinity_up@ == seq!['I', 'N', 'F', 'I', 'N', 'I', 'T', 'Y']);
        assert(nan@ == seq!['n', 'a', 'n']);
        assert(nan_up@ == seq!['N', 'A', 'N']);
    }
    spells_word(&c, b, &inf, &inf_up) || spells_word(&c, b, &infinity, &infinity_up)
        || spells_word(&c, b, &nan, &nan_up) || number_at(&c, b)
}

} // verus!
