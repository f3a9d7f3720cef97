use vstd::prelude::*;
use itertools::Itertools;
use crate::classify::texts;
use crate::histogram::{bins_view, count_sum, Fraction, Histogram, HistogramError, Markers};
use crate::label::{scaled_string, scaled_text};
use crate::number::is_float_text;
use crate::value::{
    is_finite_nonzero_text, is_low_text, is_negative_text, is_zero_text, leading_value, pow10,
    read_float, reads_as, significant_digits, text_order, Reading, INFINITE_ORDER, ZERO_ORDER,
};
use crate::number::is_digit;

verus! {

broadcast use vstd::seq_lib::group_to_multiset_ensures;

/// The values of a dataset that read as floats, in order.
pub open spec fn float_texts(vals: Seq<Seq<char>>) -> Seq<Seq<char>>
    decreases vals.len(),
{
    if vals.len() == 0 {
        Seq::empty()
    } else if is_float_text(vals.last()) {
        float_texts(vals.drop_last()).push(vals.last())
    } else {
        float_texts(vals.drop_last())
    }
}

/// The largest order of magnitude among the finite non-zero numbers.
pub open spec fn max_order(vals: Seq<Seq<char>>) -> Option<int>
    decreases vals.len(),
{
    if vals.len() == 0 {
        None
    } else {
        let rest = max_order(vals.drop_last());
        let s = vals.last();
        if is_finite_nonzero_text(s) {
            match rest {
                Some(p) => Some(if p >= text_order(s) { p } else { text_order(s) }),
                None => Some(text_order(s)),
            }
        } else {
            rest
        }
    }
}

/// The dataset's numbers are held as whole multiples of `10^-scale`: the
/// scale gives the largest of them eighteen digits.
pub open spec fn dataset_scale(vals: Seq<Seq<char>>) -> int {
    match max_order(vals) {
        Some(p) => 18 - p,
        None => 0,
    }
}

/// The key of a float text at a scale: a finite number in whole multiples
/// of `10^-scale`, cut toward zero; minus infinity as the least `i64`; plus
/// infinity and NaN as the greatest.
pub open spec fn text_key(s: Seq<char>, scale: int) -> int {
    if is_finite_nonzero_text(s) {
        let m = leading_value(significant_digits(s), text_order(s) + scale) as int;
        if is_negative_text(s) {
            -m
        } else {
            m
        }
    } else if is_zero_text(s) {
        0
    } else if is_low_text(s) {
        i64::MIN as int
    } else {
        i64::MAX as int
    }
}

/// The keys of the dataset's float texts, in order.
pub open spec fn numeric_keys(vals: Seq<Seq<char>>) -> Seq<int> {
    float_texts(vals).map_values(|s: Seq<char>| text_key(s, dataset_scale(vals)))
}

/// A key of a finite number.
pub open spec fn is_finite_key(x: int) -> bool {
    i64::MIN < x < i64::MAX
}

/// The keys of finite numbers, in order.
pub open spec fn finite_part(xs: Seq<int>) -> Seq<int>
    decreases xs.len(),
{
    if xs.len() == 0 {
        Seq::empty()
    } else if is_finite_key(xs.last()) {
        finite_part(xs.drop_last()).push(xs.last())
    } else {
        finite_part(xs.drop_last())
    }
}

/// The smallest finite key, or 0 when there is none.
pub open spec fn finite_low(xs: Seq<int>) -> int {
    let f = finite_part(xs);
    if f.len() == 0 {
        0
    } else {
        f.sort()[0]
    }
}

/// The largest finite key, or 0 when there is none.
pub open spec fn finite_high(xs: Seq<int>) -> int {
    let f = finite_part(xs);
    if f.len() == 0 {
        0
    } else {
        f.sort()[f.len() - 1]
    }
}

/// The numbers as mathematical integers.
pub open spec fn as_ints(xs: Seq<i64>) -> Seq<int> {
    xs.map_values(|x: i64| x as int)
}

/// The bin of a value that lies `a` above the minimum, with `k` bins over a
/// range of width `range`: the nearest whole number to `a * k / range`
/// (halves go up), at most `k - 1`; bin 0 when the range is empty.
pub open spec fn bin_index(a: int, range: int, k: int) -> int {
    if range <= 0 {
        0
    } else {
        let x = a * k;
        let nearest = x / range + if 2 * (x % range) >= range {
            1int
        } else {
            0int
        };
        if nearest >= k {
            k - 1
        } else {
            nearest
        }
    }
}

/// The bin of a key: minus infinity goes to the first bin, plus infinity
/// and NaN to the last, a finite number by its distance from `lo`.
pub open spec fn key_bin(x: int, lo: int, range: int, k: int) -> int {
    if x == i64::MIN {
        0
    } else if x == i64::MAX {
        k - 1
    } else {
        bin_index(x - lo, range, k)
    }
}

/// How many of the keys fall in bin `b`.
pub open spec fn bin_count(xs: Seq<int>, lo: int, range: int, k: int, b: int) -> nat
    decreases xs.len(),
{
    if xs.len() == 0 {
        0
    } else {
        bin_count(xs.drop_last(), lo, range, k, b) + if key_bin(xs.last(), lo, range, k) == b {
            1nat
        } else {
            0nat
        }
    }
}

/// Relies on itertools' `Itertools::sorted`: it sorts the numbers ascending
/// with `slice::sort`.
#[verifier::external_body]
fn sorted_numbers(xs: &Vec<i64>) -> (r: Vec<i64>)
    ensures
        as_ints(r@) == as_ints(xs@).sort(),
{
    xs.iter().copied().sorted().collect()
}

/// Reads the float texts of the dataset, with the largest order of
/// magnitude among the finite non-zero ones.
fn read_all(vals: &Vec<String>) -> (r: (Vec<Reading>, Option<i128>))
    ensures
        r.0@.len() == float_texts(texts(vals@)).len(),
        forall|j: int|
            0 <= j < r.0@.len() ==> reads_as(#[trigger] r.0@[j], float_texts(texts(vals@))[j]),
        forall|j: int|
            0 <= j < r.0@.len() ==> finite_within(#[trigger] r.0@[j], r.1),
        match r.1 {
            Some(p) => max_order(texts(vals@)) == Some(p as int) && ZERO_ORDER <= p
                < INFINITE_ORDER,
            None => max_order(texts(vals@)) is None,
        },
{
    let ghost ts = texts(vals@);
    let mut out: Vec<Reading> = Vec::new();
    let mut best: Option<i128> = None;
    let mut i: usize = 0;
    while i < vals.len()
        invariant
            ts == texts(vals@),
            i <= vals@.len(),
            out@.len() == float_texts(ts.take(i as int)).len(),
            forall|j: int|
                0 <= j < out@.len() ==> reads_as(#[trigger] out@[j], float_texts(ts.take(i as int))[j]),
            forall|j: int| 0 <= j < out@.len() ==> finite_within(#[trigger] out@[j], best),
            match best {
                Some(p) => max_order(ts.take(i as int)) == Some(p as int) && ZERO_ORDER <= p
                    < INFINITE_ORDER,
                None => max_order(ts.take(i as int)) is None,
            },
        decreases vals@.len() - i,
    {
        assert(ts.take(i + 1).drop_last() =~= ts.take(i as int));
        let ghost before = out@;
        let ghost old_best = best;
        match read_float(vals[i].as_str()) {
            None => {},
            Some(x) => {
                match &x {
                    Reading::Finite { order, .. } => {
                        let o = *order;
                        best = match best {
                            Some(p) => Some(if p >= o { p } else { o }),
                            None => Some(o),
                        };
                    },
                    _ => {},
                }
                out.push(x);
                proof {
                    assert forall|j: int| 0 <= j < out@.len() implies reads_as(
                        #[trigger] out@[j],
                        float_texts(ts.take(i + 1))[j],
                    ) by {
                        if j < before.len() {
                            assert(out@[j] == before[j]);
                        }
                    }
                    assert forall|j: int| 0 <= j < out@.len() implies finite_within(
                        #[trigger] out@[j],
                        best,
                    ) by {
                        if j < before.len() {
                            assert(out@[j] == before[j]);
                        }
                    }
                }
            },
        }
        i = i + 1;
    }
    assert(ts.take(vals@.len() as int) =~= ts);
    (out, best)
}

/// A finite reading has digits for digits and an order of at most `best`.
pub open spec fn finite_within(r: Reading, best: Option<i128>) -> bool {
    r matches Reading::Finite { digits, order, .. } ==> best matches Some(p) && ZERO_ORDER <= order
        <= p && forall|u: int| 0 <= u < digits@.len() ==> is_digit(#[trigger] digits@[u])
}

/// The key of a reading at a scale.
pub open spec fn reading_key(r: Reading, scale: int) -> int {
    match r {
        Reading::Low => i64::MIN as int,
        Reading::High => i64::MAX as int,
        Reading::Zero => 0,
        Reading::Finite { negative, digits, order } => {
            let m = leading_value(digits@, order + scale) as int;
            if negative {
                -m
            } else {
                m
            }
        },
    }
}

/// Powers of ten grow with the exponent.
proof fn lemma_pow10_monotonic(a: nat, b: nat)
    requires
        a <= b,
    ensures
        pow10(a) <= pow10(b),
    decreases b,
{
    if a < b {
        lemma_pow10_monotonic(a, (b - 1) as nat);
    }
}

/// The key of a reading at a scale.
fn key_of(r: &Reading, scale: i128) -> (x: i64)
    requires
        -100 <= scale <= 100,
        r matches Reading::Finite { digits, order, .. } ==> ZERO_ORDER <= *order && order + scale
            <= 18 && forall|u: int|
            0 <= u < digits@.len() ==> is_digit(#[trigger] digits@[u]),
    ensures
        x == reading_key(*r, scale as int),
        r is Finite ==> -1000000000000000000 < x < 1000000000000000000,
{
    match r {
        Reading::Low => i64::MIN,
        Reading::High => i64::MAX,
        Reading::Zero => 0,
        Reading::Finite { negative, digits, order } => {
            let m: i128 = *order + scale;
            let mut acc: u64 = 0;
            proof {
                reveal_with_fuel(pow10, 19);
            }
            if m > 0 {
                let dl = digits.len();
                let mut t: i128 = 0;
                while t < m
                    invariant
                        m <= 18,
                        dl == digits@.len(),
                        forall|u: int| 0 <= u < digits@.len() ==> is_digit(#[trigger] digits@[u]),
                        0 <= t <= m,
                        acc == leading_value(digits@, t as int),
                        acc < pow10(t as nat),
                        pow10(18) == 1000000000000000000,
                    decreases m - t,
                {
                    let dv: u64 = if t < dl as i128 {
                        ((digits[t as usize] as u32) - ('0' as u32)) as u64
                    } else {
                        0
                    };
                    proof {
                        lemma_pow10_monotonic((t + 1) as nat, 18);
                        assert(pow10((t + 1) as nat) == pow10(t as nat) * 10);
                        let a = acc as int;
                        let p = pow10(t as nat) as int;
                        assert(a * 10 + dv < p * 10) by (nonlinear_arith)
                            requires
                                a < p,
                                dv < 10,
                        ;
                    }
                    acc = acc * 10 + dv;
                    t = t + 1;
                }
                proof {
                    lemma_pow10_monotonic(t as nat, 18);
                }
            }
            if *negative {
                -(acc as i64)
            } else {
                acc as i64
            }
        },
    }
}

/// The keys of the readings at a scale.
fn keys_of(readings: &Vec<Reading>, scale: i128, Ghost(best): Ghost<Option<i128>>) -> (r: Vec<i64>)
    requires
        best matches Some(p) ==> scale == 18 - p && ZERO_ORDER <= p < INFINITE_ORDER,
        -100 <= scale <= 100,
        forall|j: int| 0 <= j < readings@.len() ==> finite_within(#[trigger] readings@[j], best),
    ensures
        r@.len() == readings@.len(),
        forall|j: int|
            0 <= j < r@.len() ==> #[trigger] r@[j] == reading_key(readings@[j], scale as int),
        forall|j: int|
            0 <= j < r@.len() ==> (readings@[j] is Finite ==> -1000000000000000000 < #[trigger] r@[j]
                < 1000000000000000000),
{
    let mut out: Vec<i64> = Vec::new();
    let mut j: usize = 0;
    while j < readings.len()
        invariant
            best matches Some(p) ==> scale == 18 - p,
            -100 <= scale <= 100,
            forall|j: int| 0 <= j < readings@.len() ==> finite_within(#[trigger] readings@[j], best),
            j <= readings@.len(),
            out@.len() == j,
            forall|i: int|
                0 <= i < j ==> #[trigger] out@[i] == reading_key(readings@[i], scale as int),
            forall|i: int|
                0 <= i < j ==> (readings@[i] is Finite ==> -1000000000000000000 < #[trigger] out@[i]
                    < 1000000000000000000),
        decreases readings@.len() - j,
    {
        assert(finite_within(readings@[j as int], best));
        let x = key_of(&readings[j], scale);
        out.push(x);
        j = j + 1;
    }
    out
}

/// The keys of finite numbers, in order.
fn finite_keys(xs: &Vec<i64>) -> (r: Vec<i64>)
    ensures
        as_ints(r@) == finite_part(as_ints(xs@)),
{
    let mut out: Vec<i64> = Vec::new();
    let mut i: usize = 0;
    while i < xs.len()
        invariant
            i <= xs@.len(),
            as_ints(out@) == finite_part(as_ints(xs@).take(i as int)),
        decreases xs@.len() - i,
    {
        assert(as_ints(xs@).take(i + 1).drop_last() =~= as_ints(xs@).take(i as int));
        let x = xs[i];
        if i64::MIN < x && x < i64::MAX {
            out.push(x);
            assert(as_ints(out@) =~= finite_part(as_ints(xs@).take(i + 1)));
        }
        i = i + 1;
    }
    assert(as_ints(xs@).take(xs@.len() as int) =~= as_ints(xs@));
    out
}

/// A finite key lies among the finite keys.
proof fn lemma_finite_part_contains(xs: Seq<int>, i: int)
    requires
        0 <= i < xs.len(),
        is_finite_key(xs[i]),
    ensures
        finite_part(xs).contains(xs[i]),
    decreases xs.len(),
{
    if i == xs.len() - 1 {
        assert(finite_part(xs).last() == xs[i]);
    } else {
        lemma_finite_part_contains(xs.drop_last(), i);
        let f = finite_part(xs.drop_last());
        let p = choose|p: int| 0 <= p < f.len() && f[p] == xs[i];
        if is_finite_key(xs.last()) {
            assert(f.push(xs.last())[p] == xs[i]);
        }
    }
}

/// The finite keys are finite.
pub proof fn lemma_finite_part_finite(xs: Seq<int>)
    ensures
        forall|i: int|
            0 <= i < finite_part(xs).len() ==> is_finite_key(#[trigger] finite_part(xs)[i]),
    decreases xs.len(),
{
    if xs.len() > 0 {
        lemma_finite_part_finite(xs.drop_last());
        let f = finite_part(xs.drop_last());
        if is_finite_key(xs.last()) {
            assert forall|i: int| 0 <= i < f.len() + 1 implies is_finite_key(
                #[trigger] f.push(xs.last())[i],
            ) by {
                if i < f.len() {
                    assert(f.push(xs.last())[i] == f[i]);
                }
            }
        }
    }
}

/// When there are finite keys, the smallest and the largest are finite
/// and in order.
pub proof fn lemma_finite_ends(xs: Seq<int>)
    requires
        finite_part(xs).len() > 0,
    ensures
        is_finite_key(finite_low(xs)),
        is_finite_key(finite_high(xs)),
        finite_low(xs) <= finite_high(xs),
{
    let f = finite_part(xs);
    f.lemma_sort_ensures();
    lemma_sorted_span(f);
    lemma_finite_part_finite(xs);
    let s = f.sort();
    let n = f.len() as int;
    assert(s.contains(s[0]));
    assert(f.to_multiset().count(s[0]) > 0);
    assert(f.contains(s[0]));
    assert(s.contains(s[n - 1]));
    assert(f.to_multiset().count(s[n - 1]) > 0);
    assert(f.contains(s[n - 1]));
}

/// Each finite key lies between the smallest and the largest finite key.
pub proof fn lemma_finite_bounds(xs: Seq<int>, x: int)
    requires
        xs.contains(x),
        is_finite_key(x),
    ensures
        finite_part(xs).len() > 0,
        finite_low(xs) <= x <= finite_high(xs),
{
    let i = choose|i: int| 0 <= i < xs.len() && xs[i] == x;
    lemma_finite_part_contains(xs, i);
    let f = finite_part(xs);
    lemma_sorted_span(f);
    let c = choose|c: int| 0 <= c < f.len() && f[c] == x;
    assert(f.sort()[0] <= f[c] <= f.sort()[f.len() - 1]);
}

/// The bin of a value `a` above the minimum.
fn bin_of(a: u64, range: u64, k: usize) -> (b: usize)
    requires
        k > 0,
    ensures
        b == bin_index(a as int, range as int, k as int),
        b < k,
{
    if range == 0 {
        return 0;
    }
    assert((a as int) * (k as int) <= u128::MAX) by (nonlinear_arith)
        requires
            a <= u64::MAX,
            k <= u64::MAX,
    ;
    let x: u128 = (a as u128) * (k as u128);
    let q = x / (range as u128);
    let rem = x % (range as u128);
    if q >= k as u128 {
        return k - 1;
    }
    let nearest = if 2 * rem >= range as u128 {
        q + 1
    } else {
        q
    };
    if nearest >= k as u128 {
        k - 1
    } else {
        nearest as usize
    }
}

/// The sum of a sequence of counts.
pub open spec fn usize_sum(s: Seq<usize>) -> nat
    decreases s.len(),
{
    if s.len() == 0 {
        0
    } else {
        usize_sum(s.drop_last()) + s.last() as nat
    }
}

/// Raising one count by one raises the sum by one.
proof fn lemma_usize_sum_bump(s: Seq<usize>, j: int)
    requires
        0 <= j < s.len(),
        s[j] < usize::MAX,
    ensures
        usize_sum(s.update(j, (s[j] + 1) as usize)) == usize_sum(s) + 1,
    decreases s.len(),
{
    let t = s.update(j, (s[j] + 1) as usize);
    if j < s.len() - 1 {
        assert(t.drop_last() =~= s.drop_last().update(j, (s[j] + 1) as usize));
        lemma_usize_sum_bump(s.drop_last(), j);
    } else {
        assert(t.drop_last() =~= s.drop_last());
    }
}

/// A count is at most the sum.
proof fn lemma_usize_sum_bound(s: Seq<usize>, j: int)
    requires
        0 <= j < s.len(),
    ensures
        s[j] <= usize_sum(s),
    decreases s.len(),
{
    if j < s.len() - 1 {
        lemma_usize_sum_bound(s.drop_last(), j);
    }
}

/// The population of each of the `k` bins.
fn count_bins(xs: &Vec<i64>, lo: i64, range: u64, k: usize) -> (r: Vec<usize>)
    requires
        k > 0,
        forall|i: int|
            0 <= i < xs@.len() && is_finite_key(#[trigger] xs@[i] as int) ==> lo <= xs@[i] <= lo
                + range,
    ensures
        r@.len() == k,
        forall|b: int|
            0 <= b < k ==> #[trigger] r@[b] == bin_count(as_ints(xs@), lo as int, range as int, k as int, b),
        usize_sum(r@) == xs@.len(),
{
    let ghost ys = as_ints(xs@);
    let mut counts: Vec<usize> = Vec::new();
    let mut b: usize = 0;
    while b < k
        invariant
            b <= k,
            counts@.len() == b,
            forall|c: int| 0 <= c < b ==> #[trigger] counts@[c] == 0,
            usize_sum(counts@) == 0,
        decreases k - b,
    {
        let ghost before = counts@;
        counts.push(0);
        assert(counts@.drop_last() =~= before);
        b = b + 1;
    }
    let mut i: usize = 0;
    while i < xs.len()
        invariant
            k > 0,
            ys == as_ints(xs@),
            forall|t: int|
                0 <= t < xs@.len() && is_finite_key(#[trigger] xs@[t] as int) ==> lo <= xs@[t] <= lo
                    + range,
            i <= xs@.len(),
            counts@.len() == k,
            forall|c: int|
                0 <= c < k ==> #[trigger] counts@[c] == bin_count(
                    ys.take(i as int),
                    lo as int,
                    range as int,
                    k as int,
                    c,
                ),
            usize_sum(counts@) == i,
        decreases xs@.len() - i,
    {
        assert(ys.take(i + 1).drop_last() =~= ys.take(i as int));
        let x = xs[i];
        let j = if x == i64::MIN {
            0
        } else if x == i64::MAX {
            k - 1
        } else {
            bin_of((x as i128 - lo as i128) as u64, range, k)
        };
        proof {
            lemma_usize_sum_bound(counts@, j as int);
        }
        let c = counts[j];
        let ghost before = counts@;
        counts.set(j, c + 1);
        proof {
            lemma_usize_sum_bump(before, j as int);
        }
        i = i + 1;
    }
    assert(ys.take(xs@.len() as int) =~= ys);
    counts
}

/// The lower edge of bin `i`: the minimum plus `i` bin widths, cut to a
/// whole key unit.
pub open spec fn lower_edge(lo: int, range: int, k: int, i: int) -> int {
    lo + (i * range) / k
}

/// Where the sorted key at `i` lies between the smallest finite key `lo`
/// and the largest, `range` above it: minus infinity at 0, plus infinity
/// and NaN at 1; 0 when the range is empty.
pub open spec fn position(s: Seq<int>, i: int, lo: int, range: int) -> Fraction {
    if range == 0 {
        Fraction { num: 0, den: 1 }
    } else if s[i] == i64::MIN {
        Fraction { num: 0, den: range as u64 }
    } else if s[i] == i64::MAX {
        Fraction { num: range as u64, den: range as u64 }
    } else {
        Fraction { num: (s[i] - lo) as u64, den: range as u64 }
    }
}

/// The markers of the sorted keys at `n / 4`, `n / 2` and `3n / 4`.
pub open spec fn quartile_markers(xs: Seq<int>) -> Markers {
    let s = xs.sort();
    let n = xs.len() as int;
    let lo = finite_low(xs);
    let range = finite_high(xs) - lo;
    Markers {
        p25: position(s, n / 4, lo, range),
        p50: position(s, n / 2, lo, range),
        p75: position(s, 3 * n / 4, lo, range),
    }
}

/// Bin `i` of `k` over the dataset: its lower edge as text, and how many
/// keys it holds.
pub open spec fn numeric_bin(vals: Seq<Seq<char>>, k: int, i: int) -> (Seq<char>, usize) {
    let xs = numeric_keys(vals);
    let lo = finite_low(xs);
    let range = finite_high(xs) - lo;
    (
        scaled_text(lower_edge(lo, range, k, i), dataset_scale(vals)),
        bin_count(xs, lo, range, k, i) as usize,
    )
}

/// The numeric bins of the dataset.
pub open spec fn numeric_bins(vals: Seq<Seq<char>>, k: nat) -> Seq<(Seq<char>, usize)> {
    Seq::new(k, |i: int| numeric_bin(vals, k as int, i))
}

/// The sorted values lie between the first and the last, and so do the
/// values themselves.
pub proof fn lemma_sorted_span(xs: Seq<int>)
    requires
        xs.len() > 0,
    ensures
        xs.sort().len() == xs.len(),
        forall|i: int|
            0 <= i < xs.len() ==> xs.sort()[0] <= #[trigger] xs.sort()[i] <= xs.sort()[xs.len()
                - 1],
        forall|i: int|
            0 <= i < xs.len() ==> xs.sort()[0] <= #[trigger] xs[i] <= xs.sort()[xs.len() - 1],
{
    xs.lemma_sort_ensures();
    let s = xs.sort();
    assert(s.to_multiset().len() == xs.to_multiset().len());
    assert forall|i: int| 0 <= i < xs.len() implies s[0] <= #[trigger] s[i] <= s[xs.len() - 1] by {
        if i > 0 {
            assert((|x: int, y: int| x <= y)(s[0], s[i]));
        }
        if i < s.len() - 1 {
            assert((|x: int, y: int| x <= y)(s[i], s[s.len() - 1]));
        }
    }
    assert forall|i: int| 0 <= i < xs.len() implies s[0] <= #[trigger] xs[i] <= s[xs.len() - 1] by {
        assert(xs.contains(xs[i]));
        assert(s.to_multiset().count(xs[i]) > 0);
        assert(s.contains(xs[i]));
        let j = choose|j: int| 0 <= j < s.len() && s[j] == xs[i];
        assert(s[0] <= s[j] <= s[xs.len() - 1]);
    }
}

/// The marker of the sorted key at `i`.
fn marker(sorted: &Vec<i64>, i: usize, lo: i64, range: u64) -> (f: Fraction)
    requires
        i < sorted@.len(),
        is_finite_key(sorted@[i as int] as int) ==> lo <= sorted@[i as int] <= lo + range,
    ensures
        f == position(as_ints(sorted@), i as int, lo as int, range as int),
{
    let x = sorted[i];
    if range == 0 {
        Fraction { num: 0, den: 1 }
    } else if x == i64::MIN {
        Fraction { num: 0, den: range }
    } else if x == i64::MAX {
        Fraction { num: range, den: range }
    } else {
        Fraction { num: (x as i128 - lo as i128) as u64, den: range }
    }
}

/// `h` is the numeric histogram of the dataset in `k` bins: it has at
/// least one float text, and `h` holds the bins, the quartile markers, and
/// the number of float texts as the total, which the counts add up to.
pub open spec fn is_numeric_histogram(vals: Seq<Seq<char>>, k: nat, h: Histogram) -> bool {
    let xs = numeric_keys(vals);
    &&& xs.len() > 0
    &&& forall|i: int| 0 <= i < xs.len() ==> i64::MIN <= #[trigger] xs[i] <= i64::MAX
    &&& h.bins@.len() == k
    &&& h.bin_seq() == numeric_bins(vals, k)
    &&& h.markers == Some(quartile_markers(xs))
    &&& h.total == xs.len()
    &&& count_sum(h.bin_seq()) == h.total
}

/// The numeric histogram: `num_bins` equal-width bins from the smallest to
/// the largest finite number, with minus infinity in the first bin and plus
/// infinity and NaN in the last, and the quartile markers; `NoDataError`
/// when no value reads as a float.
pub fn histogram_from_numbers(vals: &Vec<String>, num_bins: usize) -> (r: Result<
    Histogram,
    HistogramError,
>)
    requires
        num_bins > 0,
    ensures
        match r {
            Ok(h) => is_numeric_histogram(texts(vals@), num_bins as nat, h),
            Err(e) => e == HistogramError::NoDataError && float_texts(texts(vals@)).len() == 0,
        },
{
    let ghost ts = texts(vals@);
    let (readings, best) = read_all(vals);
    if readings.len() == 0 {
        return Err(HistogramError::NoDataError);
    }
    let scale: i128 = match best {
        Some(p) => 18 - p,
        None => 0,
    };
    let keys = keys_of(&readings, scale, Ghost(best));
    let ghost xs = as_ints(keys@);
    proof {
        assert(scale == dataset_scale(ts));
        assert forall|j: int| 0 <= j < keys@.len() implies #[trigger] xs[j] == text_key(
            float_texts(ts)[j],
            scale as int,
        ) && (is_finite_key(xs[j]) ==> -1000000000000000000 < xs[j] < 1000000000000000000) by {
            assert(reads_as(readings@[j], float_texts(ts)[j]));
        }
        assert(xs =~= numeric_keys(ts));
    }
    let fin = finite_keys(&keys);
    let sorted = sorted_numbers(&keys);
    let sorted_fin = sorted_numbers(&fin);
    let n = sorted.len();
    proof {
        lemma_sorted_span(xs);
        lemma_finite_part_finite(xs);
        assert(as_ints(fin@) == finite_part(xs));
        if fin@.len() > 0 {
            lemma_finite_ends(xs);
            lemma_sorted_span(finite_part(xs));
            assert(as_ints(sorted_fin@).len() == fin@.len());
        }
    }
    let (lo, hi) = if fin.len() > 0 {
        let last = sorted_fin.len() - 1;
        assert(as_ints(sorted_fin@)[0] == sorted_fin@[0]);
        assert(as_ints(sorted_fin@)[last as int] == sorted_fin@[last as int]);
        (sorted_fin[0], sorted_fin[last])
    } else {
        (0i64, 0i64)
    };
    assert(lo == finite_low(xs) && hi == finite_high(xs));
    assert(lo <= hi);
    let range: u64 = (hi as i128 - lo as i128) as u64;
    proof {
        assert forall|i: int| 0 <= i < keys@.len() && is_finite_key(#[trigger] keys@[i] as int) implies lo
            <= keys@[i] <= lo + range by {
            assert(xs.contains(xs[i]));
            lemma_finite_bounds(xs, xs[i]);
        }
    }
    let counts = count_bins(&keys, lo, range, num_bins);
    let mut bins: Vec<(String, usize)> = Vec::new();
    let mut i: usize = 0;
    while i < num_bins
        invariant
            ts == texts(vals@),
            xs == as_ints(keys@),
            xs == numeric_keys(ts),
            scale == dataset_scale(ts),
            -21 <= scale <= 67,
            lo == finite_low(xs),
            range == finite_high(xs) - lo,
            is_finite_key(lo as int),
            lo + range < i64::MAX,
            i <= num_bins,
            counts@.len() == num_bins,
            forall|b: int|
                0 <= b < num_bins ==> #[trigger] counts@[b] == bin_count(
                    xs,
                    lo as int,
                    range as int,
                    num_bins as int,
                    b,
                ),
            bins_view(bins@) == numeric_bins(ts, num_bins as nat).take(i as int),
            count_sum(bins_view(bins@)) == usize_sum(counts@.take(i as int)),
        decreases num_bins - i,
    {
        assert((i as int) * (range as int) <= u128::MAX) by (nonlinear_arith)
            requires
                i <= u64::MAX,
                range <= u64::MAX,
        ;
        assert((i as int) * (range as int) / (num_bins as int) <= range) by (nonlinear_arith)
            requires
                i < num_bins,
                num_bins > 0,
        ;
        let step: u128 = (i as u128) * (range as u128) / (num_bins as u128);
        let edge = (lo as i128 + step as i128) as i64;
        assert(edge == lower_edge(lo as int, range as int, num_bins as int, i as int));
        let label = scaled_string(edge, scale);
        let ghost before = bins_view(bins@);
        bins.push((label, counts[i]));
        proof {
            assert(bins_view(bins@) =~= before.push((label@, counts@[i as int])));
            assert(numeric_bin(ts, num_bins as int, i as int) == (label@, counts@[i as int]));
            assert(bins_view(bins@) =~= numeric_bins(ts, num_bins as nat).take(i + 1));
            assert(bins_view(bins@).drop_last() =~= before);
            assert(counts@.take(i + 1).drop_last() =~= counts@.take(i as int));
        }
        i = i + 1;
    }
    proof {
        assert(counts@.take(num_bins as int) =~= counts@);
        assert(numeric_bins(ts, num_bins as nat).take(num_bins as int) =~= numeric_bins(
            ts,
            num_bins as nat,
        ));
    }
    let q1 = n / 4;
    let q2 = n / 2;
    let q3 = ((3 * (n as u128)) / 4) as usize;
    proof {
        assert forall|q: int| 0 <= q < n && is_finite_key(#[trigger] sorted@[q] as int) implies lo
            <= sorted@[q] <= lo + range by {
            let s = xs.sort();
            assert(s[q] == sorted@[q]);
            assert(s.contains(s[q]));
            xs.lemma_sort_ensures();
            assert(xs.to_multiset().count(s[q]) > 0);
            assert(xs.contains(s[q]));
            lemma_finite_bounds(xs, s[q]);
        }
    }
    let markers = Markers {
        p25: marker(&sorted, q1, lo, range),
        p50: marker(&sorted, q2, lo, range),
        p75: marker(&sorted, q3, lo, range),
    };
    Ok(Histogram { bins, markers: Some(markers), total: n })
}

} // verus!
